use vstd::prelude::*;

verus! {

/// Largest payload, in bytes, that one record may carry.
pub const GOOD_MAX_SIZE: usize = 32 * 1024;

/// Size in bytes of one block, the unit in which disk space is handed out.
pub const BLOCK_SIZE: usize = 256;

/// Size in bytes of the window that one scan step looks at.
pub const CHUNK_SIZE: usize = GOOD_MAX_SIZE * 2;

/// Handle of a record in the disk store.
pub type Address = u64;

/// A record as it lies on disk: header, payload, marker and padding.
pub type Package = Vec<u8>;

/// The payload of one record.
pub type Good = Vec<u8>;

/// What a scan hands over for one record: the payload, and in a scan that
/// rebuilds the store also the address that the record got.
pub enum Item {
    WithAddress(Address, Good),
    WithoutAddress(Good),
}

/// An item as plain values.
pub enum ItemView {
    WithAddress(Address, Seq<u8>),
    WithoutAddress(Seq<u8>),
}

impl View for Item {
    type V = ItemView;

    open spec fn view(&self) -> ItemView {
        match self {
            Item::WithAddress(address, good) => ItemView::WithAddress(*address, good@),
            Item::WithoutAddress(good) => ItemView::WithoutAddress(good@),
        }
    }
}

/// The items of `items` as plain values.
pub open spec fn items_view(items: Seq<Item>) -> Seq<ItemView> {
    items.map_values(|item: Item| item@)
}

} // verus!
