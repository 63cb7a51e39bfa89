//! The fixed-width two-line header at the start of every store file.
pub mod init;
pub mod utils;
