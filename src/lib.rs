//! Turns decoded vector-tile data into SVG path fragments ordered by
//! drawing rank.

pub mod cursor;
pub mod error;
pub mod feature;
pub mod layer;
pub mod storage;
pub mod tag;
pub mod text;
pub mod zigzag;
