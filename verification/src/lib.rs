//! A persistent balanced tree over an ordered sequence of leaves, with a
//! cursor that edits it in place.
pub mod cursor;
pub mod cursor_mut;
pub mod cursor_mut_lemmas;
pub mod forest;
pub mod laws;
pub mod node;
pub mod ord;
pub mod rebalance;
pub mod traits;

pub use crate::cursor::Cursor;
pub use crate::cursor_mut::{CursorMut, CursorMutGather, CursorMutT};
pub use crate::node::{Node, MAX_CHILDREN, MIN_CHILDREN};
pub use crate::ord::{SubOrd, SupOrd};
pub use crate::traits::{Info, Leaf, PathInfo};
