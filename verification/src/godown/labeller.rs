use vstd::prelude::*;
use crate::godown::flag::{flag_code, flag_of, Flag, FlagType};

verus! {

/// Number of bytes that the header of a record takes.
pub const HEADER_SIZE: usize = 7;

/// What the header of a record says: how many blocks the record spans, its
/// flag, and how many bytes of payload (marker included) follow the header.
#[derive(Clone, Copy)]
pub struct LabelInfo {
    pub block_count: u16,
    pub good_len: u32,
    pub flag_type: FlagType,
}

/// The seven header bytes of `info`: the block count in two bytes, the flag
/// code, and the payload length in four bytes, each number with its least
/// significant byte first.
pub open spec fn header_bytes(info: LabelInfo) -> Seq<u8> {
    seq![
        (info.block_count % 256) as u8,
        (info.block_count / 256) as u8,
        flag_code(info.flag_type),
        (info.good_len % 256) as u8,
        ((info.good_len / 256) % 256) as u8,
        ((info.good_len / 65536) % 256) as u8,
        (info.good_len / 16777216) as u8,
    ]
}

/// What the first seven bytes of `bytes` say when read as a header.
pub open spec fn parse_header(bytes: Seq<u8>) -> LabelInfo {
    LabelInfo {
        block_count: (bytes[0] + bytes[1] * 256) as u16,
        flag_type: flag_of(bytes[2]),
        good_len: (bytes[3] + bytes[4] * 256 + bytes[5] * 65536 + bytes[6] * 16777216) as u32,
    }
}

/// A header that is written and read back is unchanged, whatever follows it.
pub proof fn lemma_header_round_trip(info: LabelInfo, rest: Seq<u8>)
    ensures
        header_bytes(info).len() == HEADER_SIZE,
        parse_header(header_bytes(info) + rest) == info,
{
    let bytes = header_bytes(info) + rest;
    assert(bytes[0] == header_bytes(info)[0]);
    assert(bytes[1] == header_bytes(info)[1]);
    assert(bytes[2] == header_bytes(info)[2]);
    assert(bytes[3] == header_bytes(info)[3]);
    assert(bytes[4] == header_bytes(info)[4]);
    assert(bytes[5] == header_bytes(info)[5]);
    assert(bytes[6] == header_bytes(info)[6]);
}

/// What a header says depends on its seven bytes alone.
pub proof fn lemma_header_is_seven_bytes(first: Seq<u8>, second: Seq<u8>)
    requires
        forall|i: int| 0 <= i < HEADER_SIZE ==> first[i] == second[i],
    ensures
        parse_header(first) == parse_header(second),
{
}

/// Writes and reads record headers.
pub struct Labeller;

impl Labeller {
    pub fn get_header_size() -> (size: usize)
        ensures
            size == HEADER_SIZE,
    {
        HEADER_SIZE
    }

    /// Overwrites the first seven bytes of `package` with the header of
    /// `label_info` and leaves the rest as it was.
    pub fn label(package: &mut [u8], label_info: LabelInfo)
        requires
            old(package)@.len() >= HEADER_SIZE,
        ensures
            final(package)@ == header_bytes(label_info) + old(package)@.subrange(
                HEADER_SIZE as int,
                old(package)@.len() as int,
            ),
    {
        let block_count = label_info.block_count;
        let good_len = label_info.good_len;
        let flag = Flag::get_value(label_info.flag_type);

        package[0] = (block_count % 256) as u8;
        package[1] = (block_count / 256) as u8;
        package[2] = flag;
        package[3] = (good_len % 256) as u8;
        package[4] = ((good_len / 256) % 256) as u8;
        package[5] = ((good_len / 65536) % 256) as u8;
        package[6] = (good_len / 16777216) as u8;
    }

    /// Reads the header at the start of `package`.
    pub fn read(package: &[u8]) -> (info: LabelInfo)
        requires
            package@.len() >= HEADER_SIZE,
        ensures
            info == parse_header(package@),
    {
        let block_count: u16 = package[0] as u16 + (package[1] as u16) * 256;
        let flag_type = Flag::get_type(package[2]);
        let good_len: u32 = package[3] as u32 + (package[4] as u32) * 256 + (package[5] as u32)
            * 65536 + (package[6] as u32) * 16777216;
        LabelInfo { block_count, flag_type, good_len }
    }
}

} // verus!
