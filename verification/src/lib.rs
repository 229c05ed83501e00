pub mod mino;
pub mod block;
pub mod now;
pub mod board;
pub mod moves;
pub mod bag;
pub mod hold;
pub mod score;
pub mod game;
pub mod render;
