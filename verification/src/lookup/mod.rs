//! Word lookup: deconjugation, the store interface, ranking.
pub mod deconj;
pub mod engine;
pub mod model;
pub mod rules;
pub mod store;
