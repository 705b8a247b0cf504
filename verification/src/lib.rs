pub mod mahjong_error;
pub mod mahjong_tile;
pub mod hand_shape;
pub mod mahjong_hand;
pub mod shanten;
pub mod hand_grouping;
pub mod mahjong_meld;
pub mod mini_mahjong;
pub mod yaku;
pub mod scoring;
pub mod random;
pub mod monte_carlo_analysis;
pub mod hand_text;
