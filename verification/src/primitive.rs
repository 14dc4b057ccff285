//! What a value must offer to be kept in the warehouse.

use vstd::prelude::*;

verus! {

type Good = Vec<u8>;

/// A value that can be turned into the bytes of a record and made again
/// from them. What the two methods compute is up to the type: the
/// warehouse stores what `to_good` gives and hands out what `from_good`
/// makes.
pub trait Merchandise: Clone {
    fn to_good(&self) -> Good;

    fn from_good(good: Good) -> Self;
}

/// True if `to_good` can give the bytes `good` for `item`.
pub open spec fn gives_good<Item: Merchandise>(item: Item, good: Seq<u8>) -> bool {
    exists|bytes: Good| #[trigger] call_ensures(Item::to_good, (&item,), bytes) && bytes@ == good
}

/// True if `from_good` can make `item` from the bytes `good`.
pub open spec fn gives_item<Item: Merchandise>(good: Seq<u8>, item: Item) -> bool {
    exists|bytes: Good| #[trigger] call_ensures(Item::from_good, (bytes,), item) && bytes@ == good
}

} // verus!
