//! Path addressing over a nested catalogue of groups and items.

pub mod address;
pub mod catalogue;

pub use address::{Index, ParseError};
pub use catalogue::Catalogue;
