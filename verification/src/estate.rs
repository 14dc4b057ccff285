//! Address allocators. An estate is a run of blocks of a larger land; an
//! address is handed out when an estate is allotted, and is needed to retain
//! it again. A residential estate has one fixed size, a farming estate the
//! size asked for. An address that was retained is handed out again before
//! fresh land is taken: always in a residential estate, and in a farming
//! estate for the size that its estate has.

pub mod def;
pub mod farming;
pub mod residential;

pub use def::WholeNumber;
pub use farming::Farming;
pub use residential::Residential;
