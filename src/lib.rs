//! An in-memory inverted index: documents go in under a name, and a term
//! query gives back the documents that hold the term, with the number of
//! times each holds it, the least frequent first.

pub mod demo;
pub mod index;
pub mod laws;
pub mod pairs;
pub mod ranking;
pub mod text;

pub use index::{Index, IndexView};
