pub mod funding;
pub mod scheduler;
pub mod signs;
pub mod oi;
pub mod dedup;
