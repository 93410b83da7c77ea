//! The logic of a minimal image viewer: natural ordering of file names, the
//! configuration file, image formats and pixel layout, the navigation rules
//! and the small wire formats used between two running instances.
pub mod text;
pub mod natural_sort;
pub mod natural_sort_laws;
pub mod config;
pub mod media;
pub mod library;
pub mod viewer;
pub mod ipc;
pub mod logging;
pub mod report;
pub mod pointer;
