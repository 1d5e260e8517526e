//! What the pointer and the keys ask for.
pub mod hooks;
