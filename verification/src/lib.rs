//! The decision core of the Qomicex launcher's self-updater.

pub mod appimage;
pub mod archive;
pub mod args;
pub mod carry;
pub mod course;
pub mod effects;
pub mod elevate;
pub mod encoding;
pub mod files;
pub mod host;
pub mod install;
pub mod merge;
pub mod overlay;
pub mod path;
pub mod quoting;
pub mod run;
pub mod staging;
pub mod text;
pub mod verify;
pub mod wait;
