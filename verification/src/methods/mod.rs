//! Method logic, grouped by responsibility. Each method answers
//! `Result<Resp, CodeError>`; file, process and socket I/O stay with the caller.

pub mod edit;
pub mod symbols;
pub mod search;
pub mod git;
pub mod read;
