//! Password recovery for encrypted zip entries: an odometer that enumerates
//! every string over an alphabet, and the search that races candidates
//! against the archive.

pub mod args;
pub mod models;
pub mod odometer;
pub mod password_iterator;
pub mod processors;
pub mod text;
pub mod utils;
