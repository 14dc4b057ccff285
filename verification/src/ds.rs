//! Small containers that the allocators and indexes are built from.

pub mod avl;
pub mod btree;
pub mod linked_list;
pub mod stack;

pub use avl::{RationalNumber, AVL};
pub use btree::BTree;
pub use linked_list::LinkedList;
pub use stack::Stack;
