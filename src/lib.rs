//! A doubly-linked list whose nodes live in an arena of slots.
//!
//! Links between nodes are slot indices, never pointers: a removed node's
//! slot is emptied and its generation advanced, so a handle to it can no
//! longer denote anything in the list.
pub mod node;
pub mod list;
pub mod laws;

pub use list::{DoublyLinkedList, DoublyLinkedListIterator, DoublyLinkedListRefIterator};
pub use node::{Node, NodeHandle};
