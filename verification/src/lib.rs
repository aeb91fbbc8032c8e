//! jdkenv — a JDK version manager for Windows.
//!
//! A stable directory junction `%USERPROFILE%\.jdkenv\current` is the level
//! of indirection: PATH and JAVA_HOME point at `current` once (in `setup`),
//! and switching version only re-points the junction. This library holds the
//! decisions of the tool, each with its contract; the program around it does
//! the registry, file-system and network work.

pub mod arch;
pub mod commands;
pub mod env_win;
pub mod foojay;
pub mod paths;
pub mod sort;
pub mod text;
pub mod version;
