//! Dictionary content.
pub mod gloss;
pub mod media;
pub mod pitch;
pub mod sheet;
