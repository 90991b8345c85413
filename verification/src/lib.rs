//! A small bookmark store kept as a newline-delimited text file, with the
//! parsing, rendering and command dispatch of an interactive session.

pub mod lines;
pub mod numbers;
pub mod session;
pub mod store;
