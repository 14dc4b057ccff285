//! The warehouse: one store behind tokens, kept on disk, in memory, or in
//! both.

pub mod inventory;
pub mod store;

pub use inventory::Inventory;
pub use store::{Mode, SessionItem, Token, Warehouse};
