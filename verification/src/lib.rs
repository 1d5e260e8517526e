//! Popup dictionary core.
pub mod chars;
pub mod cli;
pub mod config;
pub mod dict;
pub mod geom;
pub mod image;
pub mod input;
pub mod json;
pub mod library;
pub mod lock;
pub mod lookup;
pub mod paths;
pub mod plugin;
pub mod present;
pub mod rebuild;
pub mod search;
pub mod select;
pub mod settings;
pub mod shot;
pub mod text;
