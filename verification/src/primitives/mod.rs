pub mod truncate;
pub mod dedup;
pub mod filter;
pub mod keyed;
pub mod group;
