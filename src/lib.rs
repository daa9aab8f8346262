//! Creating files of a requested size: a parser for human-readable size
//! strings such as `10gb`, `1.5 MB` or `512b`, and a planner that turns a byte
//! count into a sequence of fixed-size buffers of zero or random content.
pub mod generate;
pub mod size;
