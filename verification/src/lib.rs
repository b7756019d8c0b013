//! Reading the files of Inno Setup installers, and putting those of GOG.com
//! installers back together.

pub mod entry;
pub mod error;
pub mod gog;
pub mod iterator;
pub mod text;
pub mod text_laws;
