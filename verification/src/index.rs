//! The pack index itself: opening a byte buffer as a validated `File`,
//! decoding entries, fan-out-accelerated lookup and ascending traversal.
use crate::codec::{read_be32, read_be64, read_bytes};
use crate::layout::{
    accept, canonical, crc_at, entry_model_at, fan_at, fan_base, fan_lo, fan_monotonic,
    has_signature, large_count, large_refs_ok, lemma_fan_mono, n_of, ofs_base, ofs_word, oid_at,
    oid_start, offset_at, sorted, unsupported, EntryModel,
};
use crate::oid::{cmp_bytes, lemma_lex_lt_irrefl, lemma_lex_lt_trans, lex_lt};
use crate::Error;
use vstd::prelude::*;

verus! {

/// The version of an index file.
#[derive(PartialEq, Eq, Ord, PartialOrd, Debug, Hash, Clone, Copy, Structural)]
pub enum Version {
    V1,
    V2,
}

impl Default for Version {
    fn default() -> (r: Self)
        ensures
            r == Version::V2,
    {
        Version::V2
    }
}

/// The hash kind whose ids an index stores.
#[derive(PartialEq, Eq, Debug, Hash, Clone, Copy, Structural)]
pub enum HashKind {
    Sha1,
}

impl Version {
    /// The kind of hash to produce to be compatible with this kind of index.
    pub fn hash(&self) -> (k: HashKind)
        ensures
            k == HashKind::Sha1,
    {
        match self {
            Version::V1 => HashKind::Sha1,
            Version::V2 => HashKind::Sha1,
        }
    }
}

/// One object of the index: its id, where it lives in the pack, and (in
/// version 2) the CRC32 of its packed bytes.
#[derive(Debug, Clone, PartialEq, Eq)]
pub struct Entry {
    pub oid: Vec<u8>,
    pub pack_offset: u64,
    pub crc32: Option<u32>,
}

impl Entry {
    /// The value triple this entry carries.
    pub open spec fn model(self) -> EntryModel {
        EntryModel { oid: self.oid@, offset: self.pack_offset as int, crc: self.crc32 }
    }
}

/// A validated pack index over an owned byte buffer.
pub struct File {
    pub data: Vec<u8>,
    pub path: String,
    pub version: Version,
    pub num_objects: u32,
    pub fan: Vec<u32>,
    pub hash_len: usize,
}


/// Every successfully opened index keeps the fan-out invariant: the table
/// never decreases and its last entry equals the object count.
pub proof fn lemma_fan_invariant(f: File, b1: int, b2: int)
    requires
        f.well_formed(),
        0 <= b1 <= b2 < 256,
    ensures
        fan_at(f.data@, b1) <= fan_at(f.data@, b2),
        fan_at(f.data@, 255) == n_of(f.data@),
        f.fan@[b1] <= f.fan@[b2],
        f.fan@[255] == f.num_objects,
{
    lemma_fan_mono(f.data@, b1, b2);
}

/// Reads the 256-entry big-endian fan-out table starting at `base`.
fn read_fan(data: &Vec<u8>, base: usize) -> (fan: Vec<u32>)
    requires
        base as int == fan_base(data@),
        data@.len() >= base + 1024,
    ensures
        fan@.len() == 256,
        forall|bb: int| 0 <= bb < 256 ==> #[trigger] fan@[bb] as int == fan_at(data@, bb),
{
    let mut fan: Vec<u32> = Vec::new();
    let mut b: usize = 0;
    while b < 256
        invariant
            fan@.len() == b,
            0 <= b <= 256,
            base as int == fan_base(data@),
            data@.len() >= base + 1024,
            forall|bb: int| 0 <= bb < b ==> #[trigger] fan@[bb] as int == fan_at(data@, bb),
        decreases 256 - b,
    {
        fan.push(read_be32(data, base + 4 * b));
        b = b + 1;
    }
    fan
}

/// Whether every fan-out value is at least its predecessor.
fn fan_is_monotonic(fan: &Vec<u32>) -> (r: bool)
    requires
        fan@.len() == 256,
    ensures
        r <==> forall|b: int| 1 <= b < 256 ==> fan@[b - 1] <= #[trigger] fan@[b],
{
    let mut m: usize = 1;
    while m < 256
        invariant
            1 <= m <= 256,
            fan@.len() == 256,
            forall|b: int| 1 <= b < m ==> fan@[b - 1] <= #[trigger] fan@[b],
        decreases 256 - m,
    {
        if fan[m - 1] > fan[m] {
            return false;
        }
        m = m + 1;
    }
    true
}

/// Whether every flagged offset word points inside the large-offset table.
fn check_large_refs(data: &Vec<u8>, n: u32, large_cnt: u64) -> (r: bool)
    requires
        has_signature(data@),
        n as int == n_of(data@),
        data@.len() >= 1072 + 28 * n_of(data@),
        large_cnt as int == large_count(data@),
    ensures
        r <==> large_refs_ok(data@),
{
    let _len: usize = data.len();
    let wbase: usize = 1032 + 24 * (n as usize);
    proof {
        assert(wbase as int == ofs_base(data@));
    }
    let mut i: usize = 0;
    while i < n as usize
        invariant
            0 <= i <= n as usize,
            n as int == n_of(data@),
            has_signature(data@),
            data@.len() >= 1072 + 28 * n_of(data@),
            data@.len() <= usize::MAX,
            wbase as int == ofs_base(data@),
            large_cnt as int == large_count(data@),
            forall|ii: int|
                0 <= ii < i && #[trigger] ofs_word(data@, ii) >= 0x80000000 ==> ofs_word(
                    data@,
                    ii,
                ) - 0x80000000 < large_count(data@),
        decreases n as usize - i,
    {
        let w = read_be32(data, wbase + 4 * i);
        proof {
            assert(w as int == ofs_word(data@, i as int));
        }
        if w >= 0x80000000 {
            if (w - 0x80000000) as u64 >= large_cnt {
                proof {
                    assert(!large_refs_ok(data@));
                }
                return false;
            }
        }
        i = i + 1;
    }
    true
}

impl File {
    /// The fields agree with the bytes, and the bytes passed every check that
    /// opening performs. Established by `from_bytes`, preserved forever after:
    /// a `File` is immutable.
    pub open spec fn well_formed(self) -> bool {
        &&& accept(self.data@)
        &&& (self.version == Version::V2 <==> has_signature(self.data@))
        &&& self.num_objects as int == n_of(self.data@)
        &&& self.hash_len == 20
        &&& self.fan@.len() == 256
        &&& forall|b: int| 0 <= b < 256 ==> #[trigger] self.fan@[b] as int == fan_at(self.data@, b)
    }

    /// The version of the pack index.
    pub fn version(&self) -> (v: Version)
        ensures
            v == self.version,
    {
        self.version
    }

    /// The path the buffer was read from.
    pub fn path(&self) -> (p: &String)
        ensures
            p@ == self.path@,
    {
        &self.path
    }

    /// The amount of objects stored in the pack and index.
    pub fn num_objects(&self) -> (n: u32)
        ensures
            n == self.num_objects,
    {
        self.num_objects
    }

    /// The fan-out entry for leading byte `b`.
    pub fn fan_value(&self, b: usize) -> (r: u32)
        requires
            self.well_formed(),
            b < 256,
        ensures
            r as int == fan_at(self.data@, b as int),
    {
        self.fan[b]
    }

    /// Opens an index over `data`, validating the whole structure before
    /// returning: the outcome is decided exactly by the byte sequence.
    #[verifier::rlimit(100)]
    pub fn from_bytes(data: Vec<u8>, path: String) -> (r: Result<File, Error>)
        ensures
            r is Ok <==> accept(data@),
            r is Err ==> (r == Err::<File, Error>(Error::UnsupportedVersion) <==> unsupported(
                data@,
            )),
            r is Err ==> (r == Err::<File, Error>(Error::Corrupt) <==> !unsupported(data@)),
            match r {
                Ok(f) => f.well_formed() && f.data@ == data@ && f.path@ == path@,
                Err(_) => true,
            },
    {
        let len = data.len();
        let sig = len >= 4 && data[0] == 0xff && data[1] == 0x74 && data[2] == 0x4f && data[3]
            == 0x63;
        if sig {
            if len < 8 {
                return Err(Error::Corrupt);
            }
            let v = read_be32(&data, 4);
            if v != 2 {
                return Err(Error::UnsupportedVersion);
            }
        }
        let base: usize = if sig {
            8
        } else {
            0
        };
        if len < base + 1024 + 40 {
            return Err(Error::Corrupt);
        }
        let fan = read_fan(&data, base);
        if !fan_is_monotonic(&fan) {
            proof {
                let bad = choose|b: int| 1 <= b < 256 && !(fan@[b - 1] <= #[trigger] fan@[b]);
                assert(fan_at(data@, bad - 1) > fan_at(data@, bad));
                assert(!fan_monotonic(data@));
            }
            return Err(Error::Corrupt);
        }
        proof {
            assert forall|b: int| 1 <= b < 256 implies fan_at(data@, b - 1) <= #[trigger] fan_at(
                data@,
                b,
            ) by {
                assert(fan@[b - 1] <= fan@[b]);
            }
        }
        let n32: u32 = fan[255];
        let n64: u64 = n32 as u64;
        proof {
            assert(n64 as int == n_of(data@));
        }
        if sig {
            let need: u64 = 1072 + 28 * n64;
            if (len as u64) < need {
                return Err(Error::Corrupt);
            }
            if ((len as u64) - need) % 8 != 0 {
                return Err(Error::Corrupt);
            }
            let large_cnt: u64 = ((len as u64) - need) / 8;
            proof {
                assert(large_cnt as int == large_count(data@));
            }
            if !check_large_refs(&data, n32, large_cnt) {
                return Err(Error::Corrupt);
            }
        } else {
            if (len as u64) != 1064 + 24 * n64 {
                return Err(Error::Corrupt);
            }
        }
        let f = File {
            data,
            path,
            version: if sig {
                Version::V2
            } else {
                Version::V1
            },
            num_objects: n32,
            fan,
            hash_len: 20,
        };
        Ok(f)
    }

    /// Where the id of entry `i` starts in the buffer.
    fn oid_pos(&self, i: usize) -> (p: usize)
        requires
            self.well_formed(),
            i < self.num_objects,
        ensures
            p as int == oid_start(self.data@, i as int),
            p + 20 <= self.data@.len(),
    {
        let _len: usize = self.data.len();
        proof {
            if has_signature(self.data@) {
                crate::layout::lemma_v2_regions(self.data@);
            }
        }
        match self.version {
            Version::V2 => 1032 + 20 * i,
            Version::V1 => 1024 + 24 * i + 4,
        }
    }

    /// The pack offset of entry `i`, resolving the version 2 large-offset
    /// indirection where the stored word flags one.
    pub fn offset_by_index(&self, i: u32) -> (o: u64)
        requires
            self.well_formed(),
            i < self.num_objects,
        ensures
            o as int == offset_at(self.data@, i as int),
    {
        let _len: usize = self.data.len();
        proof {
            if has_signature(self.data@) {
                crate::layout::lemma_v2_regions(self.data@);
            }
        }
        match self.version {
            Version::V1 => {
                read_be32(&self.data, 1024 + 24 * (i as usize)) as u64
            },
            Version::V2 => {
                let n = self.num_objects as usize;
                let wpos: usize = 1032 + 24 * n + 4 * (i as usize);
                let w = read_be32(&self.data, wpos);
                proof {
                    assert(w as int == ofs_word(self.data@, i as int));
                }
                if w < 0x80000000 {
                    w as u64
                } else {
                    let j: usize = (w - 0x80000000) as usize;
                    proof {
                        assert(j < large_count(self.data@));
                    }
                    read_be64(&self.data, 1032 + 28 * n + 8 * j)
                }
            },
        }
    }

    /// The stored CRC32 of entry `i`: present in version 2 only.
    pub fn crc_by_index(&self, i: u32) -> (c: Option<u32>)
        requires
            self.well_formed(),
            i < self.num_objects,
        ensures
            c == crc_at(self.data@, i as int),
    {
        let _len: usize = self.data.len();
        proof {
            if has_signature(self.data@) {
                crate::layout::lemma_v2_regions(self.data@);
            }
        }
        match self.version {
            Version::V1 => None,
            Version::V2 => {
                let n = self.num_objects as usize;
                Some(read_be32(&self.data, 1032 + 20 * n + 4 * (i as usize)))
            },
        }
    }

    /// Decodes entry `i` whole.
    pub fn entry_by_index(&self, i: u32) -> (e: Entry)
        requires
            self.well_formed(),
            i < self.num_objects,
        ensures
            e.model() == entry_model_at(self.data@, i as int),
            e.oid@.len() == 20,
    {
        let p = self.oid_pos(i as usize);
        let oid = read_bytes(&self.data, p, 20);
        let pack_offset = self.offset_by_index(i);
        let crc32 = self.crc_by_index(i);
        Entry { oid, pack_offset, crc32 }
    }

    /// Every entry in ascending id order: the traversal order both versions
    /// store natively, reproducible from any fresh handle over the same
    /// bytes.
    pub fn entries(&self) -> (v: Vec<Entry>)
        requires
            self.well_formed(),
        ensures
            v@.len() == n_of(self.data@),
            forall|i: int|
                0 <= i < v@.len() ==> (#[trigger] v@[i]).model() == entry_model_at(self.data@, i),
    {
        let mut v: Vec<Entry> = Vec::new();
        let mut i: u32 = 0;
        while i < self.num_objects
            invariant
                self.well_formed(),
                0 <= i <= self.num_objects,
                v@.len() == i,
                forall|k: int|
                    0 <= k < v@.len() ==> (#[trigger] v@[k]).model() == entry_model_at(
                        self.data@,
                        k,
                    ),
            decreases self.num_objects - i,
        {
            v.push(self.entry_by_index(i));
            i = i + 1;
        }
        v
    }

    /// Finds the entry whose id equals `id`: binary search inside the
    /// candidate range the fan-out table selects for the id's leading byte.
    /// On any canonical index — one whose id table is sorted and agrees with
    /// its fan-out table, as every written file's is — the result is `Some`
    /// exactly when the id is present.
    pub fn lookup(&self, id: &Vec<u8>) -> (r: Option<Entry>)
        requires
            self.well_formed(),
            id@.len() == 20,
        ensures
            (match r {
                Some(e) => exists|i: int|
                    0 <= i < n_of(self.data@) && fan_lo(self.data@, id@[0] as int) <= i < fan_at(
                        self.data@,
                        id@[0] as int,
                    ) && #[trigger] entry_model_at(self.data@, i) == e.model() && oid_at(
                        self.data@,
                        i,
                    ) == id@,
                None => true,
            }),
            canonical(self.data@) ==> (r is Some <==> exists|i: int|
                0 <= i < n_of(self.data@) && #[trigger] oid_at(self.data@, i) == id@),
    {
        let b = id[0];
        let lo0: u32 = if b == 0 {
            0
        } else {
            self.fan[(b as usize) - 1]
        };
        let hi0: u32 = self.fan[b as usize];
        proof {
            if b > 0 {
                lemma_fan_mono(self.data@, b as int - 1, b as int);
            }
            lemma_fan_mono(self.data@, b as int, 255);
        }
        let mut lo: usize = lo0 as usize;
        let mut hi: usize = hi0 as usize;
        while lo < hi
            invariant
                self.well_formed(),
                id@.len() == 20,
                b == id@[0],
                lo0 as usize <= lo <= hi <= hi0 as usize,
                hi0 as int <= n_of(self.data@),
                lo0 as int == fan_lo(self.data@, b as int),
                hi0 as int == fan_at(self.data@, b as int),
                sorted(self.data@) ==> forall|k: int|
                    lo0 as int <= k < lo ==> lex_lt(#[trigger] oid_at(self.data@, k), id@),
                sorted(self.data@) ==> forall|k: int|
                    hi <= k < hi0 as int ==> lex_lt(id@, #[trigger] oid_at(self.data@, k)),
            decreases hi - lo,
        {
            let mid = lo + (hi - lo) / 2;
            let p = self.oid_pos(mid);
            let moid = read_bytes(&self.data, p, 20);
            let c = cmp_bytes(&moid, id);
            if c == 0 {
                let e = self.entry_by_index(mid as u32);
                proof {
                    assert(oid_at(self.data@, mid as int) == id@);
                }
                return Some(e);
            } else if c < 0 {
                proof {
                    if sorted(self.data@) {
                        assert forall|k: int| lo0 as int <= k < mid + 1 implies lex_lt(
                            #[trigger] oid_at(self.data@, k),
                            id@,
                        ) by {
                            if k < mid {
                                lemma_lex_lt_trans(
                                    oid_at(self.data@, k),
                                    oid_at(self.data@, mid as int),
                                    id@,
                                );
                            }
                        }
                    }
                }
                lo = mid + 1;
            } else {
                proof {
                    if sorted(self.data@) {
                        assert forall|k: int| mid <= k < hi0 as int implies lex_lt(
                            id@,
                            #[trigger] oid_at(self.data@, k),
                        ) by {
                            if k > mid {
                                lemma_lex_lt_trans(
                                    id@,
                                    oid_at(self.data@, mid as int),
                                    oid_at(self.data@, k),
                                );
                            }
                        }
                    }
                }
                hi = mid;
            }
        }
        proof {
            if canonical(self.data@) {
                assert forall|i: int|
                    0 <= i < n_of(self.data@) implies #[trigger] oid_at(self.data@, i)
                    != id@ by {
                    if oid_at(self.data@, i) == id@ {
                        assert(fan_lo(self.data@, oid_at(self.data@, i)[0] as int) <= i < fan_at(
                            self.data@,
                            oid_at(self.data@, i)[0] as int,
                        ));
                        lemma_lex_lt_irrefl(id@);
                    }
                }
            }
        }
        None
    }
}

} // verus!
