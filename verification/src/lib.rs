//! The engine of wezback, which changes the background image of WezTerm.
//!
//! It reads the settings, builds the catalog of the images in a directory,
//! picks one of them at random, and patches the line of the terminal's Lua
//! configuration that assigns the wallpaper path. It reads and writes no
//! file and no environment variable: the program around it hands it text
//! and paths, and takes text back.

pub mod catalog;
pub mod driver;
pub mod patcher;
pub mod paths;
pub mod selector;
pub mod settings;
pub mod text;
