//! The decisions and the texts of a load harness that compares the memory
//! footprint of HTTP client setups: a fixed number of workers request one URL
//! over and over through a shared client, while a reporter prints the memory of
//! the process and the throughput at a fixed interval.
//!
//! Every network call, sleep and print is left to the program around this
//! library. A worker is told what to do next and hands back what came of it; the
//! reporter turns a request count and a memory reading into the line to print.
pub mod binary64;
pub mod blocking;
pub mod decimal;
pub mod harness;
pub mod memory;
pub mod reporter;
pub mod variant;
pub mod worker;
