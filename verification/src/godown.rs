//! The disk object store and the record format it keeps on disk.

pub mod assembly_line;
pub mod block;
pub mod bookkeeping;
pub mod def;
pub mod disk;
pub mod flag;
pub mod labeller;
pub mod ledger;
pub mod logistics;
pub mod recovery;
pub mod scan;
pub mod store;

pub use assembly_line::{AssemblyLine, Integrity};
pub use block::Block;
pub use flag::{Flag, FlagType};
pub use labeller::{LabelInfo, Labeller};
pub use def::{Address, Good, Item, Package, BLOCK_SIZE, CHUNK_SIZE, GOOD_MAX_SIZE};
pub use disk::Shipment;
pub use logistics::Logistics;
pub use store::Godown;
pub use logistics::Mode as LogisticsMode;
