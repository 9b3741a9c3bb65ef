//! Built-in engines: the resident classifier and the tier generation models.

pub mod classify;
pub mod generate;
pub mod pool;
pub mod sampling;
