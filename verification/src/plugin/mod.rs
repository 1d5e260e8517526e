//! Plugins: programs beside chibipop that read text off the screen.
pub mod discover;
pub mod echo;
pub mod host;
pub mod text;
