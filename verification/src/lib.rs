//! Core of a terminal outline editor: a forest of to-do items keyed by parent
//! id, the tree-restructuring operations that edit it, the flattener that
//! projects it into a render-ready sequence, and the row conversion used by
//! the persistence layer.

pub mod export;
pub mod flatten;
pub mod forest;
pub mod item;
pub mod laws;
pub mod model;
pub mod persist;

pub use item::{CompleteStatus, ExpandStatus, InputMode, Item, MoveDirection};
