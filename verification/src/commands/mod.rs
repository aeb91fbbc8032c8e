//! The decisions and the text of jdkenv's commands. Reading the registry,
//! the file system and the network is the caller's part; what to do with
//! what was read is decided here.

pub mod doctor;
pub mod install;
pub mod list;
pub mod set;
pub mod setup;
pub mod uninstall;
pub mod update;
