//! Threat and king-bucket input features for chess evaluation networks,
//! with verified bitboard attack generation.

pub mod bitboard;
pub mod geometry;
pub mod attacks;
pub mod slider;
pub mod full_threats;
pub mod board;
pub mod threat_inputs;
pub mod threat_balance;
pub mod bucket_balance;
pub mod threat_mirror;
pub mod table_sizes;
