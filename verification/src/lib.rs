//! Reading, writing and deleting values inside a tree-shaped document by
//! paths such as `servers[2].ports[]`.
//!
//! A document is a [`Value`]: a scalar, an array of values, or a table of
//! values under keys. A path is a chain of segments apart by points. A
//! segment is the name of a key, and after it any number of indices in
//! brackets: `[2]` for the element at a position, `[]` for the place after
//! the last element, and, for deletions only, `[:n]`, `[n:]` and `[i,j,k]`
//! for several elements at once. A segment may have no name: in a removal,
//! `[0]` is applied to the array that it meets.
//!
//! [`get_value`] reads the value at a path as text, [`set_value`] writes the
//! value that a literal denotes and makes the tables and arrays that the
//! path needs, and [`remove_value`] takes out what a path names.
//!
//! Each of them is specified over [`value::Tree`], the mathematical model of
//! a document, by a function of the same module: `get_result`,
//! `set_result` and `remove_result`. What holds between the three is proved
//! in [`laws`].
pub mod error;
pub mod format;
pub mod get;
pub mod laws;
pub mod number;
pub mod parse;
pub mod path;
pub mod remove;
pub mod scan;
pub mod set;
pub mod text;
pub mod value;

pub use error::Error;
pub use get::{get_value, try_get_value};
pub use parse::parse_value;
pub use path::{parse_indices, parse_key_part, parse_path, split_first_key, IndexSpec, Segment};
pub use remove::remove_value;
pub use set::set_value;
pub use value::{Table, Value};
