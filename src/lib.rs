//! Reconstruction of form key/value pairs from the blocks of a document
//! analysis, their reading order, and the plan of the marks that show them on
//! the page image.

pub mod fraction;
pub mod block;
pub mod resolve;
pub mod pairs;
pub mod order;
pub mod render;
