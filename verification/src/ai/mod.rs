//! Learning from how files are used: the access log, transition counts,
//! importance and the long-term memory of sessions and habits.
pub mod logger;
pub mod markov;
pub mod jarvis;
pub mod workspace;
pub mod engine;
pub mod entropy;
pub mod importance;
pub mod memory;
pub mod persist;
pub mod memory_image;
pub mod memory_persist;
pub mod context;
