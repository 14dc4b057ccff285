use vstd::prelude::*;
use crate::godown::block::{blocks_for, Block};
use crate::godown::def::{Good, Package, BLOCK_SIZE, GOOD_MAX_SIZE};
use crate::godown::flag::FlagType;
use crate::godown::labeller::{header_bytes, parse_header, LabelInfo, Labeller, HEADER_SIZE};

verus! {

/// The byte that closes the payload of every record that was written whole.
pub const CONSISTENT_BYTE: u8 = 0xFF;

/// Largest number of blocks that a header can declare.
pub const BLOCK_COUNT_MAX: usize = 0xFFFF;

/// What comes out of a package: the payload, or the finding that the package
/// was not written whole.
#[derive(Debug, PartialEq)]
pub enum Integrity {
    Inconsistent,
    Consistent(Good),
}

impl View for Integrity {
    type V = Option<Seq<u8>>;

    open spec fn view(&self) -> Option<Seq<u8>> {
        match self {
            Integrity::Inconsistent => None,
            Integrity::Consistent(good) => Some(good@),
        }
    }
}

impl Integrity {
    /// The payload of a consistent package.
    pub fn unwrap(self) -> (good: Good)
        requires
            self is Consistent,
        ensures
            self@ == Some(good@),
    {
        match self {
            Integrity::Consistent(good) => good,
            Integrity::Inconsistent => unreached(),
        }
    }
}

/// `n` zero bytes.
pub open spec fn zeros(n: nat) -> Seq<u8> {
    Seq::new(n, |i: int| 0u8)
}

/// True if a payload of `good_len` bytes can be framed: it is not empty, and
/// the block count of its package fits the two bytes that the header has for
/// it.
pub open spec fn can_assemble(good_len: nat) -> bool {
    0 < good_len && good_len + 1 + HEADER_SIZE <= BLOCK_COUNT_MAX * BLOCK_SIZE
}

/// Number of blocks that the package of a payload of `good_len` bytes spans.
pub open spec fn package_blocks(good_len: nat) -> nat {
    blocks_for(HEADER_SIZE as nat + good_len + 1)
}

/// The header that `assemble` writes for a payload of `good_len` bytes.
pub open spec fn label_of(good_len: nat) -> LabelInfo {
    LabelInfo {
        block_count: package_blocks(good_len) as u16,
        flag_type: FlagType::Insert,
        good_len: (good_len + 1) as u32,
    }
}

/// The package of `good`: header, payload, marker byte, and zeros up to the
/// next block boundary.
pub open spec fn assemble_spec(good: Seq<u8>) -> Seq<u8> {
    header_bytes(label_of(good.len())) + good.push(CONSISTENT_BYTE) + zeros(
        (package_blocks(good.len()) * BLOCK_SIZE - HEADER_SIZE - good.len() - 1) as nat,
    )
}

/// The bytes that the header of `package` declares as payload, marker
/// included.
pub open spec fn declared_body(package: Seq<u8>) -> Seq<u8> {
    package.subrange(HEADER_SIZE as int, HEADER_SIZE + parse_header(package).good_len)
}

/// True if the payload that the header of `package` declares lies within
/// `package`.
pub open spec fn body_in_bounds(package: Seq<u8>) -> bool {
    HEADER_SIZE + parse_header(package).good_len <= package.len()
}

/// What `package` holds: the declared payload without its marker if the last
/// declared byte is the marker, and nothing otherwise.
pub open spec fn dismantle_spec(package: Seq<u8>) -> Option<Seq<u8>> {
    let body = declared_body(package);
    if body.len() > 0 && body.last() == CONSISTENT_BYTE {
        Some(body.drop_last())
    } else {
        None
    }
}

struct Consistency;

impl Consistency {
    fn add_consistent_byte(good: &mut Good)
        ensures
            final(good)@ == old(good)@.push(CONSISTENT_BYTE),
    {
        good.push(CONSISTENT_BYTE);
    }

    fn check(good: &Good) -> (ok: bool)
        ensures
            ok == (good@.len() > 0 && good@.last() == CONSISTENT_BYTE),
    {
        let len = good.len();
        if len == 0 {
            false
        } else {
            good[len - 1] == CONSISTENT_BYTE
        }
    }
}

/// Frames payloads into packages and takes packages apart again.
pub struct AssemblyLine;

impl AssemblyLine {
    /// True if a payload of `good_len` bytes can be framed.
    pub fn can_assemble(good_len: usize) -> (can: bool)
        ensures
            can == can_assemble(good_len as nat),
    {
        0 < good_len && good_len <= BLOCK_COUNT_MAX * BLOCK_SIZE - HEADER_SIZE - 1
    }

    /// Frames `good` into a package that spans a whole number of blocks.
    pub fn assemble(good: Good) -> (package: Package)
        requires
            can_assemble(good@.len()),
        ensures
            package@ == assemble_spec(good@),
            package@.len() == package_blocks(good@.len()) * BLOCK_SIZE,
            package@.len() % (BLOCK_SIZE as nat) == 0,
    {
        let ghost plain = good@;
        let mut good = good;
        Consistency::add_consistent_byte(&mut good);

        let good_len = good.len();
        let header_size = Labeller::get_header_size();

        let mut package: Package = Vec::new();
        package.resize(header_size, 0);
        package.append(&mut good);
        let ghost joined = package@;

        let block_count = Block::get_count(header_size + good_len);
        let block_size = Block::get_total_bytes(block_count);

        package.resize(block_size, 0);
        let ghost filled = package@;

        let label_info = LabelInfo {
            block_count: block_count as u16,
            flag_type: FlagType::Insert,
            good_len: good_len as u32,
        };

        Labeller::label(package.as_mut_slice(), label_info);

        proof {
            assert(label_info == label_of(plain.len()));
            assert(filled.len() == block_size);
            assert(filled.subrange(0, joined.len() as int) =~= joined);
            assert forall|i: int| header_size <= i < header_size + good_len implies filled[i]
                == plain.push(CONSISTENT_BYTE)[i - header_size] by {
                assert(filled.subrange(0, joined.len() as int)[i] == filled[i]);
            }
            assert forall|i: int| header_size + good_len <= i < block_size implies filled[i]
                == 0u8 by {
                assert(cloned::<u8>(0u8, filled[i]));
            }
            assert(package@ =~= assemble_spec(plain));
            assert(package@.len() == block_count * BLOCK_SIZE);
        }
        package
    }

    /// True if `package` can be taken apart: it holds a whole header, and the
    /// payload that the header declares lies within it.
    pub fn can_dismantle(package: &[u8]) -> (ok: bool)
        ensures
            ok == (package@.len() >= HEADER_SIZE && body_in_bounds(package@)),
    {
        let len = package.len();
        if len < HEADER_SIZE {
            false
        } else {
            let label_info = Labeller::read(package);
            label_info.good_len as usize <= len - HEADER_SIZE
        }
    }

    /// True if `package` can be taken apart and is consistent.
    pub fn is_consistent(package: &[u8]) -> (ok: bool)
        ensures
            ok == (package@.len() >= HEADER_SIZE && body_in_bounds(package@) && dismantle_spec(
                package@,
            ) is Some),
    {
        if !Self::can_dismantle(package) {
            false
        } else {
            let label_info = Labeller::read(package);
            let good_len = label_info.good_len as usize;
            let len = package.len();
            assert(HEADER_SIZE + good_len <= len);
            good_len > 0 && package[HEADER_SIZE + good_len - 1] == CONSISTENT_BYTE
        }
    }

    /// Takes `package` apart: the payload if the package is consistent.
    pub fn dismantle(package: &[u8]) -> (integrity: Integrity)
        requires
            package@.len() >= HEADER_SIZE,
            body_in_bounds(package@),
        ensures
            integrity@ == dismantle_spec(package@),
    {
        let label_info = Labeller::read(package);
        let header_size = Labeller::get_header_size();
        let len = package.len();
        assert(header_size + label_info.good_len <= len);

        let mut good = vstd::slice::slice_to_vec(
            vstd::slice::slice_subrange(
                package,
                header_size,
                header_size + (label_info.good_len as usize),
            ),
        );

        let is_consistent = Consistency::check(&good);

        if is_consistent {
            good.pop();
            assert(good@ =~= declared_body(package@).drop_last());
            Integrity::Consistent(good)
        } else {
            Integrity::Inconsistent
        }
    }
}

/// The package of a payload that can be framed spans at least one block and
/// no more blocks than a header can declare, and these blocks are the fewest
/// that hold header, payload and marker.
pub proof fn lemma_package_blocks(good_len: nat)
    requires
        can_assemble(good_len),
    ensures
        0 < package_blocks(good_len) <= BLOCK_COUNT_MAX,
        (package_blocks(good_len) - 1) * BLOCK_SIZE < HEADER_SIZE + good_len + 1
            <= package_blocks(good_len) * BLOCK_SIZE,
        good_len <= GOOD_MAX_SIZE ==> package_blocks(good_len) <= 129,
{
}

/// Framing a payload and taking the package apart gives the payload back.
pub proof fn lemma_assemble_dismantle(good: Seq<u8>)
    requires
        can_assemble(good.len()),
    ensures
        assemble_spec(good).len() == package_blocks(good.len()) * BLOCK_SIZE,
        body_in_bounds(assemble_spec(good)),
        parse_header(assemble_spec(good)) == label_of(good.len()),
        dismantle_spec(assemble_spec(good)) == Some(good),
{
    lemma_package_blocks(good.len());
    let package = assemble_spec(good);
    let info = label_of(good.len());
    let tail = good.push(CONSISTENT_BYTE) + zeros(
        (package_blocks(good.len()) * BLOCK_SIZE - HEADER_SIZE - good.len() - 1) as nat,
    );
    crate::godown::labeller::lemma_header_round_trip(info, tail);
    assert(package =~= header_bytes(info) + tail);
    assert(declared_body(package) =~= good.push(CONSISTENT_BYTE));
    assert(good.push(CONSISTENT_BYTE).drop_last() =~= good);
}

/// A package whose marker byte was overwritten, its header intact, is found
/// inconsistent.
pub proof fn lemma_torn_write_detected(good: Seq<u8>, torn: Seq<u8>)
    requires
        can_assemble(good.len()),
        torn.len() == assemble_spec(good).len(),
        torn.subrange(0, HEADER_SIZE as int) == assemble_spec(good).subrange(
            0,
            HEADER_SIZE as int,
        ),
        torn[HEADER_SIZE + good.len()] != CONSISTENT_BYTE,
    ensures
        dismantle_spec(torn) is None,
{
    let package = assemble_spec(good);
    lemma_assemble_dismantle(good);
    assert forall|i: int| 0 <= i < HEADER_SIZE implies torn[i] == package[i] by {
        assert(torn.subrange(0, HEADER_SIZE as int)[i] == torn[i]);
        assert(package.subrange(0, HEADER_SIZE as int)[i] == package[i]);
    }
    assert(parse_header(torn) == parse_header(package));
    assert(declared_body(torn).last() == torn[HEADER_SIZE + good.len()]);
}

} // verus!
