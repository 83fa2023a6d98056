//! rcol: reshapes line-oriented text into an aligned tabular form.
//!
//! Raw lines are tokenized into fields, columns are selected, reordered,
//! sorted and grouped, and the result is rendered as a width-aligned text
//! grid or handed to a serializer.

pub mod args;
pub mod chars;
pub mod grouper;
pub mod laws;
pub mod numcmp;
pub mod processor;
pub mod project;
pub mod render;
pub mod serial;
pub mod sorter;
pub mod split;
pub mod width;
