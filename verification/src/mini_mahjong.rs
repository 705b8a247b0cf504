pub mod mini_game;
pub mod tenpai;
pub mod simulator;
pub mod strategy;
