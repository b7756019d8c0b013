//! Walking through the files of an installer.

pub mod filtered_files;
pub mod streaming;
