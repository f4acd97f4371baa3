//! Pencil's rules that stand apart from any window: what a file's name says
//! about how it is written, what a save writes where, what the project
//! sidebar shows and what git says about it, and the settings a window opens
//! with.
//!
//! Paths are Unix byte strings throughout: that is what the filesystem hands
//! over, and a name that is not UTF-8 is still a name.

pub mod config;
pub mod paths;
pub mod text;
pub mod document;
pub mod order;
pub mod project;
pub mod session;
pub mod chrome;
pub mod compress;
pub mod print;
