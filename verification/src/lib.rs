pub mod grid;
pub mod math;
pub mod misc;
pub mod optimization;
pub mod parsing;
pub mod search;
