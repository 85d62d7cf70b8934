pub mod beam;
pub mod bisect;
pub mod brents;
pub mod brfs;
pub mod dfs;
