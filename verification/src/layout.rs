//! The on-disk shape of a pack index, stated over the raw byte sequence: where
//! each table lives, how a field is decoded, and what a structurally valid
//! file looks like. Every executable function of the library is specified
//! against these definitions.
use crate::codec::{be32_at, be64_at, bytes_at};
use crate::oid::lex_lt;
use vstd::prelude::*;

verus! {

/// The first bytes of a version 2 index: 0xff followed by `tOc`.
pub open spec fn has_signature(d: Seq<u8>) -> bool {
    &&& d.len() >= 4
    &&& d[0] == 0xffu8
    &&& d[1] == 0x74u8
    &&& d[2] == 0x4fu8
    &&& d[3] == 0x63u8
}

/// Where the 256-entry fan-out table starts: after the 8-byte header of a
/// version 2 file, at the very front of a version 1 file.
pub open spec fn fan_base(d: Seq<u8>) -> int {
    if has_signature(d) {
        8
    } else {
        0
    }
}

/// The cumulative count stored for leading byte `b`.
pub open spec fn fan_at(d: Seq<u8>, b: int) -> int {
    be32_at(d, fan_base(d) + 4 * b)
}

/// The number of objects the file declares: the last fan-out entry.
pub open spec fn n_of(d: Seq<u8>) -> int {
    fan_at(d, 255)
}

/// The lower end of the candidate range for leading byte `b`.
pub open spec fn fan_lo(d: Seq<u8>, b: int) -> int {
    if b == 0 {
        0
    } else {
        fan_at(d, b - 1)
    }
}

/// Where the sorted id table starts.
pub open spec fn oid_base(d: Seq<u8>) -> int {
    fan_base(d) + 1024
}

/// Where the id of entry `i` starts: packed ids in version 2, ids inside
/// fixed-width records (4 offset bytes, then the id) in version 1.
pub open spec fn oid_start(d: Seq<u8>, i: int) -> int {
    if has_signature(d) {
        oid_base(d) + 20 * i
    } else {
        oid_base(d) + 24 * i + 4
    }
}

/// The id of entry `i`.
pub open spec fn oid_at(d: Seq<u8>, i: int) -> Seq<u8> {
    bytes_at(d, oid_start(d, i), 20)
}

/// Where the version 2 CRC32 table starts.
pub open spec fn crc_base(d: Seq<u8>) -> int {
    oid_base(d) + 20 * n_of(d)
}

/// Where the version 2 offset table starts.
pub open spec fn ofs_base(d: Seq<u8>) -> int {
    crc_base(d) + 4 * n_of(d)
}

/// Where the version 2 large-offset table starts.
pub open spec fn large_base(d: Seq<u8>) -> int {
    ofs_base(d) + 4 * n_of(d)
}

/// How many 8-byte rows the large-offset table holds.
pub open spec fn large_count(d: Seq<u8>) -> int {
    (d.len() - large_base(d) - 40) / 8
}

/// The raw 32-bit word of the version 2 offset table for entry `i`; its most
/// significant bit flags an offset stored in the large-offset table.
pub open spec fn ofs_word(d: Seq<u8>, i: int) -> int {
    be32_at(d, ofs_base(d) + 4 * i)
}

/// The pack offset of entry `i`, with the version 2 large-offset indirection
/// resolved.
pub open spec fn offset_at(d: Seq<u8>, i: int) -> int {
    if has_signature(d) {
        if ofs_word(d, i) < 0x80000000 {
            ofs_word(d, i)
        } else {
            be64_at(d, large_base(d) + 8 * (ofs_word(d, i) - 0x80000000))
        }
    } else {
        be32_at(d, oid_base(d) + 24 * i)
    }
}

/// The CRC32 of entry `i`: present in version 2 only.
pub open spec fn crc_at(d: Seq<u8>, i: int) -> Option<u32> {
    if has_signature(d) {
        Some(be32_at(d, crc_base(d) + 4 * i) as u32)
    } else {
        None
    }
}

/// The checksum of the paired archive, stored just before the trailer.
pub open spec fn pack_checksum_of(d: Seq<u8>) -> Seq<u8> {
    bytes_at(d, d.len() - 40, 20)
}

/// The index's own trailing digest: the last 20 bytes, covering everything
/// before them.
pub open spec fn trailer_of(d: Seq<u8>) -> Seq<u8> {
    bytes_at(d, d.len() - 20, 20)
}

/// A signature followed by a version other than 2: recognised but not
/// supported.
pub open spec fn unsupported(d: Seq<u8>) -> bool {
    has_signature(d) && d.len() >= 8 && be32_at(d, 4) != 2
}

/// If the signature is present the declared version must be 2.
pub open spec fn version_ok(d: Seq<u8>) -> bool {
    has_signature(d) ==> (d.len() >= 8 && be32_at(d, 4) == 2)
}

/// Each fan-out entry is at least its predecessor.
pub open spec fn fan_monotonic(d: Seq<u8>) -> bool {
    forall|b: int| 1 <= b < 256 ==> fan_at(d, b - 1) <= #[trigger] fan_at(d, b)
}

/// The file is exactly as long as its declared object count implies: fixed
/// records in version 1, a whole number of large-offset rows in version 2.
pub open spec fn size_ok(d: Seq<u8>) -> bool {
    if has_signature(d) {
        &&& d.len() >= 1072 + 28 * n_of(d)
        &&& (d.len() - 1072 - 28 * n_of(d)) % 8 == 0
    } else {
        d.len() == 1064 + 24 * n_of(d)
    }
}

/// Every offset word that flags a large offset points inside the large-offset
/// table.
pub open spec fn large_refs_ok(d: Seq<u8>) -> bool {
    forall|i: int|
        0 <= i < n_of(d) && #[trigger] ofs_word(d, i) >= 0x80000000 ==> ofs_word(d, i) - 0x80000000
            < large_count(d)
}

/// Everything opening a file validates: a structurally sound index.
pub open spec fn accept(d: Seq<u8>) -> bool {
    &&& version_ok(d)
    &&& d.len() >= fan_base(d) + 1024 + 40
    &&& fan_monotonic(d)
    &&& size_ok(d)
    &&& (has_signature(d) ==> large_refs_ok(d))
}

/// The id table is strictly ascending, as the format requires.
pub open spec fn sorted(d: Seq<u8>) -> bool {
    forall|i: int, j: int|
        0 <= i < j < n_of(d) ==> lex_lt(#[trigger] oid_at(d, i), #[trigger] oid_at(d, j))
}

/// Every entry lies inside the candidate range its leading byte selects.
pub open spec fn fanned(d: Seq<u8>) -> bool {
    forall|i: int|
        0 <= i < n_of(d) ==> fan_lo(d, (#[trigger] oid_at(d, i))[0] as int) <= i < fan_at(
            d,
            oid_at(d, i)[0] as int,
        )
}

/// A sound index whose id table and fan-out table agree, as every file the
/// writer emits does: the assumption under which lookup finds every entry.
pub open spec fn canonical(d: Seq<u8>) -> bool {
    sorted(d) && fanned(d)
}

/// The value triple of one entry, as the contracts speak of it.
pub ghost struct EntryModel {
    pub oid: Seq<u8>,
    pub offset: int,
    pub crc: Option<u32>,
}

/// The triple stored at position `i`.
pub open spec fn entry_model_at(d: Seq<u8>, i: int) -> EntryModel {
    EntryModel { oid: oid_at(d, i), offset: offset_at(d, i), crc: crc_at(d, i) }
}

/// In a sound version 2 file the declared counts account for the whole
/// buffer: the tables and the two trailing checksums tile it exactly.
pub proof fn lemma_v2_regions(d: Seq<u8>)
    requires
        accept(d),
        has_signature(d),
    ensures
        large_count(d) >= 0,
        d.len() == 1072 + 28 * n_of(d) + 8 * large_count(d),
{
    let rem = d.len() - 1072 - 28 * n_of(d);
    assert(rem >= 0);
    assert(rem % 8 == 0);
    assert(large_count(d) == rem / 8);
    assert(rem == 8 * (rem / 8));
}

/// Walking the fan-out table from any starting byte never decreases.
pub proof fn lemma_fan_mono(d: Seq<u8>, b1: int, b2: int)
    requires
        fan_monotonic(d),
        0 <= b1 <= b2 < 256,
    ensures
        fan_at(d, b1) <= fan_at(d, b2),
    decreases b2 - b1,
{
    if b1 < b2 {
        lemma_fan_mono(d, b1, b2 - 1);
        assert(fan_at(d, b2 - 1) <= fan_at(d, b2));
    }
}

} // verus!
