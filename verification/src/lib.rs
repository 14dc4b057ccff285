//! A small embedded storage engine: address allocators, a block-packed record
//! format, a disk object store driven by explicit write orders, and an
//! in-memory slot table, unified behind one token-keyed warehouse.

pub mod ds;
pub mod estate;
pub mod fumble;
pub mod godown;
pub mod primitive;
pub mod warehouse;
