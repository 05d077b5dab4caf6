pub mod indices;
pub mod time;
pub mod job;
pub mod worker;
pub mod graph;
pub mod sums;
pub mod schedule;
pub mod critical_path;
pub mod strategy;
pub mod placement;
pub mod serial;
pub mod parallel;
pub mod best;
pub mod generator;
pub mod leaderboard;
