//! The index writer: sorts an entry stream, builds the fan-out table, and
//! emits a version 2 index whose bytes provably parse back to the same
//! entries — the round-trip guarantee callers rely on.
use crate::codec::{be32_at, be64_at, push_be32, push_be64, push_bytes, read_bytes};
use crate::index::{Entry, File};
use crate::layout::{
    accept, canonical, crc_at, crc_base, entry_model_at, fan_at, fan_lo, fan_monotonic, fanned,
    has_signature, large_base, large_count, large_refs_ok, n_of, ofs_base, ofs_word, oid_at,
    offset_at, pack_checksum_of, size_ok, sorted, trailer_of, EntryModel,
};
use crate::oid::{
    cmp_bytes, lemma_lex_lt_irrefl, lemma_lex_lt_leading, lemma_lex_lt_ne, lemma_lex_lt_trans,
    lex_lt,
};
use crate::verify::{sha1_digest, sha1_of};
use crate::Error;
use vstd::prelude::*;

verus! {

/// The CRC32 the writer stores for an entry: the one it carries.
pub open spec fn crc_of(e: Entry) -> u32 {
    match e.crc32 {
        Some(c) => c,
        None => 0,
    }
}

/// Some position of `s` holds exactly the triple `m`.
pub open spec fn appears(s: Seq<Entry>, m: EntryModel) -> bool {
    exists|i: int| 0 <= i < s.len() && (#[trigger] s[i]).model() == m
}

/// Some position of `s` before `upto` holds exactly the triple `m`.
pub open spec fn appears_before(s: Seq<Entry>, upto: int, m: EntryModel) -> bool {
    exists|i: int| 0 <= i < upto && i < s.len() && (#[trigger] s[i]).model() == m
}

/// Two positions of `s` hold the same id.
pub open spec fn has_duplicate(s: Seq<Entry>) -> bool {
    exists|k1: int, k2: int|
        0 <= k1 < k2 < s.len() && (#[trigger] s[k1]).oid@ == (#[trigger] s[k2]).oid@
}

/// Everything `write_v2` guarantees of the bytes it returns: a structurally
/// sound, canonical version 2 index holding exactly the given triples, the
/// given archive checksum, and a trailer that digests all preceding bytes.
pub open spec fn write_post(d: Seq<u8>, input: Seq<Entry>, pack: Seq<u8>) -> bool {
    &&& accept(d)
    &&& has_signature(d)
    &&& n_of(d) == input.len()
    &&& canonical(d)
    &&& forall|k: int|
        0 <= k < input.len() ==> exists|i: int|
            0 <= i < n_of(d) && entry_model_at(d, i) == (#[trigger] input[k]).model()
    &&& forall|i: int|
        0 <= i < n_of(d) ==> appears(input, #[trigger] entry_model_at(d, i))
    &&& pack_checksum_of(d) == pack
    &&& trailer_of(d) == sha1_of(d.take(d.len() - 20))
}

/// A fresh entry carrying the same triple.
fn clone_entry(e: &Entry) -> (r: Entry)
    ensures
        r.model() == e.model(),
        r.oid@.len() == e.oid@.len(),
{
    let oid = read_bytes(&e.oid, 0, e.oid.len());
    proof {
        assert(oid@ =~= e.oid@);
    }
    Entry { oid, pack_offset: e.pack_offset, crc32: e.crc32 }
}

/// Where to insert an id into an ascending run: `Ok(p)` when everything
/// before `p` precedes the id and, unless `p` is the end, position `p`
/// follows it; `Err(q)` when position `q` already holds the id.
fn insert_pos(out: &Vec<Entry>, oid: &Vec<u8>) -> (r: Result<usize, usize>)
    requires
        forall|i: int| 0 <= i < out@.len() ==> (#[trigger] out@[i]).oid@.len() == 20,
        oid@.len() == 20,
    ensures
        match r {
            Ok(p) => p <= out@.len() && (forall|q: int|
                0 <= q < p ==> lex_lt((#[trigger] out@[q]).oid@, oid@)) && (p < out@.len()
                ==> lex_lt(oid@, out@[p as int].oid@)),
            Err(q) => q < out@.len() && out@[q as int].oid@ == oid@,
        },
{
    let mut p: usize = 0;
    while p < out.len()
        invariant
            0 <= p <= out@.len(),
            oid@.len() == 20,
            forall|i: int| 0 <= i < out@.len() ==> (#[trigger] out@[i]).oid@.len() == 20,
            forall|q: int| 0 <= q < p ==> lex_lt((#[trigger] out@[q]).oid@, oid@),
        decreases out@.len() - p,
    {
        let c = cmp_bytes(&out[p].oid, oid);
        if c == 0 {
            return Err(p);
        }
        if c > 0 {
            return Ok(p);
        }
        p = p + 1;
    }
    Ok(p)
}

/// Sorts the stream ascending by id, rejecting a repeated id: the format
/// requires ids to be unique, and the writer aborts before emitting a byte.
pub fn sort_entries(entries: &Vec<Entry>) -> (r: Result<Vec<Entry>, Error>)
    requires
        forall|k: int| 0 <= k < entries@.len() ==> (#[trigger] entries@[k]).oid@.len() == 20,
    ensures
        r is Err <==> has_duplicate(entries@),
        r is Err ==> r == Err::<Vec<Entry>, Error>(Error::DuplicateObject),
        match r {
            Ok(s) => {
                &&& s@.len() == entries@.len()
                &&& forall|i: int| 0 <= i < s@.len() ==> (#[trigger] s@[i]).oid@.len() == 20
                &&& forall|i: int, j: int|
                    0 <= i < j < s@.len() ==> lex_lt(
                        (#[trigger] s@[i]).oid@,
                        (#[trigger] s@[j]).oid@,
                    )
                &&& forall|k: int|
                    0 <= k < entries@.len() ==> appears(s@, (#[trigger] entries@[k]).model())
                &&& forall|i: int|
                    0 <= i < s@.len() ==> appears(entries@, (#[trigger] s@[i]).model())
            },
            Err(_) => true,
        },
{
    let mut out: Vec<Entry> = Vec::new();
    let mut k: usize = 0;
    while k < entries.len()
        invariant
            0 <= k <= entries@.len(),
            forall|kk: int| 0 <= kk < entries@.len() ==> (#[trigger] entries@[kk]).oid@.len() == 20,
            out@.len() == k,
            forall|i: int| 0 <= i < out@.len() ==> (#[trigger] out@[i]).oid@.len() == 20,
            forall|i: int, j: int|
                0 <= i < j < out@.len() ==> lex_lt(
                    (#[trigger] out@[i]).oid@,
                    (#[trigger] out@[j]).oid@,
                ),
            forall|kk: int| 0 <= kk < k ==> appears(out@, (#[trigger] entries@[kk]).model()),
            forall|i: int|
                0 <= i < out@.len() ==> appears_before(
                    entries@,
                    k as int,
                    (#[trigger] out@[i]).model(),
                ),
            forall|k1: int, k2: int|
                0 <= k1 < k2 < k ==> (#[trigger] entries@[k1]).oid@ != (
                #[trigger] entries@[k2]).oid@,
        decreases entries@.len() - k,
    {
        let e = clone_entry(&entries[k]);
        let ghost old_out = out@;
        match insert_pos(&out, &e.oid) {
            Err(q) => {
                proof {
                    let m = out@[q as int].model();
                    let kk = choose|i: int|
                        0 <= i < k && i < entries@.len() && (#[trigger] entries@[i]).model() == m;
                    assert(entries@[kk].oid@ == e.oid@);
                    assert(entries@[kk].oid@ == entries@[k as int].oid@);
                    assert(has_duplicate(entries@));
                }
                return Err(Error::DuplicateObject);
            },
            Ok(p) => {
                proof {
                    // the new id differs from every id already placed
                    assert forall|i: int| 0 <= i < old_out.len() implies (
                    #[trigger] old_out[i]).oid@ != e.oid@ by {
                        if i < p {
                            lemma_lex_lt_ne(old_out[i].oid@, e.oid@);
                        } else if i == p {
                            lemma_lex_lt_ne(e.oid@, old_out[i].oid@);
                        } else {
                            lemma_lex_lt_trans(e.oid@, old_out[p as int].oid@, old_out[i].oid@);
                            lemma_lex_lt_ne(e.oid@, old_out[i].oid@);
                        }
                    }
                }
                out.insert(p, e);
                proof {
                    let new_out = out@;
                    assert(new_out == old_out.insert(p as int, e));
                    // order restored around the insertion point
                    assert forall|i: int, j: int| 0 <= i < j < new_out.len() implies lex_lt(
                        (#[trigger] new_out[i]).oid@,
                        (#[trigger] new_out[j]).oid@,
                    ) by {
                        if i < p && j < p {
                        } else if i < p && j == p {
                        } else if i < p && j > p {
                        } else if i == p && j > p {
                            if j - 1 > p {
                                lemma_lex_lt_trans(
                                    e.oid@,
                                    old_out[p as int].oid@,
                                    old_out[j - 1].oid@,
                                );
                            }
                        } else {
                        }
                    }
                    // every processed input still appears
                    assert forall|kk: int| 0 <= kk < k + 1 implies appears(
                        new_out,
                        (#[trigger] entries@[kk]).model(),
                    ) by {
                        if kk < k {
                            let i = choose|i: int|
                                0 <= i < old_out.len() && (#[trigger] old_out[i]).model()
                                    == entries@[kk].model();
                            if i < p {
                                assert(new_out[i].model() == entries@[kk].model());
                            } else {
                                assert(new_out[i + 1].model() == entries@[kk].model());
                            }
                        } else {
                            assert(new_out[p as int].model() == entries@[kk].model());
                        }
                    }
                    // and nothing else sneaked in
                    assert forall|i: int| 0 <= i < new_out.len() implies appears_before(
                        entries@,
                        k as int + 1,
                        (#[trigger] new_out[i]).model(),
                    ) by {
                        if i < p {
                            assert(new_out[i].model() == old_out[i].model());
                        } else if i == p {
                            assert(new_out[i].model() == entries@[k as int].model());
                        } else {
                            assert(new_out[i].model() == old_out[i - 1].model());
                        }
                    }
                    // processed inputs remain pairwise distinct
                    assert forall|k1: int, k2: int| 0 <= k1 < k2 < k + 1 implies (
                    #[trigger] entries@[k1]).oid@ != (#[trigger] entries@[k2]).oid@ by {
                        if k2 == k {
                            let m = entries@[k1].model();
                            let i = choose|i: int|
                                0 <= i < old_out.len() && (#[trigger] old_out[i]).model() == m;
                            assert(old_out[i].oid@ != e.oid@);
                        }
                    }
                }
                k = k + 1;
            },
        }
    }
    proof {
        if has_duplicate(entries@) {
            let (k1, k2) = choose|k1: int, k2: int|
                0 <= k1 < k2 < entries@.len() && (#[trigger] entries@[k1]).oid@ == (
                #[trigger] entries@[k2]).oid@;
            assert(false);
        }
    }
    Ok(out)
}

/// The fan-out value for byte `b` marks the boundary: everything before it
/// leads with a byte at most `b`, and whatever follows leads with a greater
/// one.
pub open spec fn fan_boundary(s: Seq<Entry>, b: int, v: int) -> bool {
    &&& 0 <= v <= s.len()
    &&& forall|j: int| 0 <= j < v ==> ((#[trigger] s[j]).oid@[0] as int) <= b
    &&& (v == s.len() || (s[v].oid@[0] as int) > b)
}

/// Builds the 256-entry cumulative fan-out table of a sorted entry run.
pub fn build_fan(s: &Vec<Entry>) -> (fan: Vec<u32>)
    requires
        s@.len() < 0x80000000,
        forall|i: int| 0 <= i < s@.len() ==> (#[trigger] s@[i]).oid@.len() == 20,
        forall|i: int, j: int|
            0 <= i < j < s@.len() ==> lex_lt((#[trigger] s@[i]).oid@, (#[trigger] s@[j]).oid@),
    ensures
        fan@.len() == 256,
        forall|b1: int, b2: int| 0 <= b1 <= b2 < 256 ==> fan@[b1] <= fan@[b2],
        fan@[255] as int == s@.len(),
        forall|b: int| 0 <= b < 256 ==> fan_boundary(s@, b, (#[trigger] fan@[b]) as int),
{
    let n = s.len();
    let mut fan: Vec<u32> = Vec::new();
    let mut p: usize = 0;
    let mut b: usize = 0;
    while b < 256
        invariant
            fan@.len() == b,
            0 <= b <= 256,
            0 <= p <= n,
            n == s@.len(),
            n < 0x80000000,
            forall|i: int| 0 <= i < s@.len() ==> (#[trigger] s@[i]).oid@.len() == 20,
            forall|i: int, j: int|
                0 <= i < j < s@.len() ==> lex_lt((#[trigger] s@[i]).oid@, (#[trigger] s@[j]).oid@),
            forall|bb: int| 0 <= bb < b ==> fan_boundary(s@, bb, (#[trigger] fan@[bb]) as int),
            forall|bb: int| 0 <= bb < b ==> (#[trigger] fan@[bb]) as int <= p as int,
            forall|b1: int, b2: int| 0 <= b1 <= b2 < b ==> fan@[b1] <= fan@[b2],
            forall|j: int| 0 <= j < p ==> ((#[trigger] s@[j]).oid@[0] as int) <= b as int,
        decreases 256 - b,
    {
        while p < n && (s[p].oid[0] as usize) <= b
            invariant
                0 <= p <= n,
                n == s@.len(),
                b < 256,
                forall|i: int| 0 <= i < s@.len() ==> (#[trigger] s@[i]).oid@.len() == 20,
                forall|j: int| 0 <= j < p ==> ((#[trigger] s@[j]).oid@[0] as int) <= b as int,
            decreases n - p,
        {
            p = p + 1;
        }
        fan.push(p as u32);
        b = b + 1;
    }
    proof {
        assert(fan_boundary(s@, 255, fan@[255] as int));
        if (fan@[255] as int) < s@.len() {
            assert((s@[fan@[255] as int].oid@[0] as int) <= 255);
        }
    }
    fan
}

fn emit_header(out: &mut Vec<u8>)
    ensures
        final(out)@.len() == old(out)@.len() + 8,
        forall|j: int| 0 <= j < old(out)@.len() ==> final(out)@[j] == old(out)@[j],
        final(out)@[old(out)@.len() as int + 0] == 0xffu8,
        final(out)@[old(out)@.len() as int + 1] == 0x74u8,
        final(out)@[old(out)@.len() as int + 2] == 0x4fu8,
        final(out)@[old(out)@.len() as int + 3] == 0x63u8,
        be32_at(final(out)@, old(out)@.len() as int + 4) == 2,
{
    out.push(0xff);
    out.push(0x74);
    out.push(0x4f);
    out.push(0x63);
    push_be32(out, 2);
}

fn emit_fan(out: &mut Vec<u8>, fan: &Vec<u32>)
    requires
        fan@.len() == 256,
    ensures
        final(out)@.len() == old(out)@.len() + 1024,
        forall|j: int| 0 <= j < old(out)@.len() ==> final(out)@[j] == old(out)@[j],
        forall|b: int|
            0 <= b < 256 ==> be32_at(final(out)@, old(out)@.len() + 4 * b) == (
            #[trigger] fan@[b]) as int,
{
    let mut b: usize = 0;
    while b < 256
        invariant
            0 <= b <= 256,
            fan@.len() == 256,
            out@.len() == old(out)@.len() + 4 * b,
            forall|j: int| 0 <= j < old(out)@.len() ==> out@[j] == old(out)@[j],
            forall|bb: int|
                0 <= bb < b ==> be32_at(out@, old(out)@.len() + 4 * bb) == (
                #[trigger] fan@[bb]) as int,
        decreases 256 - b,
    {
        push_be32(out, fan[b]);
        b = b + 1;
    }
}

fn emit_oids(out: &mut Vec<u8>, s: &Vec<Entry>)
    requires
        forall|i: int| 0 <= i < s@.len() ==> (#[trigger] s@[i]).oid@.len() == 20,
    ensures
        final(out)@.len() == old(out)@.len() + 20 * s@.len(),
        forall|j: int| 0 <= j < old(out)@.len() ==> final(out)@[j] == old(out)@[j],
        forall|i: int, k: int|
            #![trigger s@[i].oid@[k]]
            0 <= i < s@.len() && 0 <= k < 20 ==> final(out)@[old(out)@.len() + 20 * i + k]
                == s@[i].oid@[k],
{
    let mut i: usize = 0;
    while i < s.len()
        invariant
            0 <= i <= s@.len(),
            forall|ii: int| 0 <= ii < s@.len() ==> (#[trigger] s@[ii]).oid@.len() == 20,
            out@.len() == old(out)@.len() + 20 * i,
            forall|j: int| 0 <= j < old(out)@.len() ==> out@[j] == old(out)@[j],
            forall|ii: int, k: int|
                #![trigger s@[ii].oid@[k]]
                0 <= ii < i && 0 <= k < 20 ==> out@[old(out)@.len() + 20 * ii + k]
                    == s@[ii].oid@[k],
        decreases s@.len() - i,
    {
        push_bytes(out, &s[i].oid);
        i = i + 1;
    }
}

fn emit_crcs(out: &mut Vec<u8>, s: &Vec<Entry>)
    ensures
        final(out)@.len() == old(out)@.len() + 4 * s@.len(),
        forall|j: int| 0 <= j < old(out)@.len() ==> final(out)@[j] == old(out)@[j],
        forall|i: int|
            0 <= i < s@.len() ==> be32_at(final(out)@, old(out)@.len() + 4 * i) == crc_of(
                #[trigger] s@[i],
            ) as int,
{
    let mut i: usize = 0;
    while i < s.len()
        invariant
            0 <= i <= s@.len(),
            out@.len() == old(out)@.len() + 4 * i,
            forall|j: int| 0 <= j < old(out)@.len() ==> out@[j] == old(out)@[j],
            forall|ii: int|
                0 <= ii < i ==> be32_at(out@, old(out)@.len() + 4 * ii) == crc_of(
                    #[trigger] s@[ii],
                ) as int,
        decreases s@.len() - i,
    {
        let c: u32 = match s[i].crc32 {
            Some(c) => c,
            None => 0,
        };
        push_be32(out, c);
        i = i + 1;
    }
}

fn emit_offsets(out: &mut Vec<u8>, s: &Vec<Entry>) -> (large: Vec<u64>)
    requires
        s@.len() < 0x80000000,
    ensures
        final(out)@.len() == old(out)@.len() + 4 * s@.len(),
        forall|j: int| 0 <= j < old(out)@.len() ==> final(out)@[j] == old(out)@[j],
        large@.len() <= s@.len(),
        forall|i: int|
            0 <= i < s@.len() && (#[trigger] s@[i]).pack_offset < 0x80000000 ==> be32_at(
                final(out)@,
                old(out)@.len() + 4 * i,
            ) == s@[i].pack_offset as int,
        forall|i: int|
            0 <= i < s@.len() && (#[trigger] s@[i]).pack_offset >= 0x80000000 ==> (be32_at(
                final(out)@,
                old(out)@.len() + 4 * i,
            ) >= 0x80000000 && be32_at(final(out)@, old(out)@.len() + 4 * i) - 0x80000000
                < large@.len() && large@[be32_at(final(out)@, old(out)@.len() + 4 * i)
                - 0x80000000] as int == s@[i].pack_offset as int),
{
    let mut large: Vec<u64> = Vec::new();
    let mut i: usize = 0;
    while i < s.len()
        invariant
            0 <= i <= s@.len(),
            s@.len() < 0x80000000,
            out@.len() == old(out)@.len() + 4 * i,
            forall|j: int| 0 <= j < old(out)@.len() ==> out@[j] == old(out)@[j],
            large@.len() <= i,
            forall|ii: int|
                0 <= ii < i && (#[trigger] s@[ii]).pack_offset < 0x80000000 ==> be32_at(
                    out@,
                    old(out)@.len() + 4 * ii,
                ) == s@[ii].pack_offset as int,
            forall|ii: int|
                0 <= ii < i && (#[trigger] s@[ii]).pack_offset >= 0x80000000 ==> (be32_at(
                    out@,
                    old(out)@.len() + 4 * ii,
                ) >= 0x80000000 && be32_at(out@, old(out)@.len() + 4 * ii) - 0x80000000
                    < large@.len() && large@[be32_at(out@, old(out)@.len() + 4 * ii)
                    - 0x80000000] as int == s@[ii].pack_offset as int),
        decreases s@.len() - i,
    {
        let off = s[i].pack_offset;
        if off < 0x80000000 {
            push_be32(out, off as u32);
        } else {
            let j32 = large.len() as u32;
            push_be32(out, 0x80000000u32 + j32);
            large.push(off);
        }
        i = i + 1;
    }
    large
}

fn emit_large(out: &mut Vec<u8>, large: &Vec<u64>)
    ensures
        final(out)@.len() == old(out)@.len() + 8 * large@.len(),
        forall|j: int| 0 <= j < old(out)@.len() ==> final(out)@[j] == old(out)@[j],
        forall|j: int|
            0 <= j < large@.len() ==> be64_at(final(out)@, old(out)@.len() + 8 * j) == (
            #[trigger] large@[j]) as int,
{
    let mut j: usize = 0;
    while j < large.len()
        invariant
            0 <= j <= large@.len(),
            out@.len() == old(out)@.len() + 8 * j,
            forall|k: int| 0 <= k < old(out)@.len() ==> out@[k] == old(out)@[k],
            forall|jj: int|
                0 <= jj < j ==> be64_at(out@, old(out)@.len() + 8 * jj) == (
                #[trigger] large@[jj]) as int,
        decreases large@.len() - j,
    {
        push_be64(out, large[j]);
        j = j + 1;
    }
}

/// The byte-level facts `serialize_body` establishes of everything before
/// the trailer: header, fan-out, ids, CRC32s, offset words, large offsets and
/// the archive checksum, each at its place.
#[verifier::opaque]
pub open spec fn body_facts(d: Seq<u8>, s: Seq<Entry>, fan: Seq<u32>, large: Seq<u64>, pack: Seq<u8>) -> bool {
    let n = s.len() as int;
    let l = large.len() as int;
    &&& d.len() == 1052 + 28 * n + 8 * l
    &&& d[0] == 0xffu8
    &&& d[1] == 0x74u8
    &&& d[2] == 0x4fu8
    &&& d[3] == 0x63u8
    &&& be32_at(d, 4) == 2
    &&& forall|b: int| 0 <= b < 256 ==> be32_at(d, 8 + 4 * b) == (#[trigger] fan[b]) as int
    &&& forall|i: int, k: int|
        #![trigger s[i].oid@[k]]
        0 <= i < n && 0 <= k < 20 ==> d[1032 + 20 * i + k] == s[i].oid@[k]
    &&& forall|i: int|
        0 <= i < n ==> be32_at(d, 1032 + 20 * n + 4 * i) == crc_of(#[trigger] s[i]) as int
    &&& forall|i: int|
        0 <= i < n && (#[trigger] s[i]).pack_offset < 0x80000000 ==> be32_at(
            d,
            1032 + 24 * n + 4 * i,
        ) == s[i].pack_offset as int
    &&& forall|i: int|
        0 <= i < n && (#[trigger] s[i]).pack_offset >= 0x80000000 ==> (be32_at(
            d,
            1032 + 24 * n + 4 * i,
        ) >= 0x80000000 && be32_at(d, 1032 + 24 * n + 4 * i) - 0x80000000 < l && large[be32_at(
            d,
            1032 + 24 * n + 4 * i,
        ) - 0x80000000] as int == s[i].pack_offset as int)
    &&& forall|j: int| 0 <= j < l ==> be64_at(d, 1032 + 28 * n + 8 * j) == (#[trigger] large[j]) as int
    &&& forall|k: int| 0 <= k < 20 ==> d[1032 + 28 * n + 8 * l + k] == pack[k]
}

/// Emits everything before the trailer.
#[verifier::rlimit(100)]
fn serialize_body(s: &Vec<Entry>, fan: &Vec<u32>, pack: &Vec<u8>) -> (r: (Vec<u8>, Vec<u64>))
    requires
        s@.len() < 0x80000000,
        forall|i: int| 0 <= i < s@.len() ==> (#[trigger] s@[i]).oid@.len() == 20,
        fan@.len() == 256,
        pack@.len() == 20,
    ensures
        body_facts(r.0@, s@, fan@, r.1@, pack@),
        r.1@.len() <= s@.len(),
{
    let ghost n = s@.len() as int;
    let mut out: Vec<u8> = Vec::new();
    emit_header(&mut out);
    emit_fan(&mut out, fan);
    let ghost d2 = out@;
    proof {
        assert(d2.len() == 1032);
        assert(be32_at(d2, 4) == 2);
        assert(forall|b: int| 0 <= b < 256 ==> be32_at(d2, 8 + 4 * b) == (#[trigger] fan@[b]) as int);
    }
    emit_oids(&mut out, s);
    let ghost d3 = out@;
    proof {
        assert(d3.len() == 1032 + 20 * n);
        assert(be32_at(d3, 4) == 2);
        assert(forall|b: int| 0 <= b < 256 ==> be32_at(d3, 8 + 4 * b) == (#[trigger] fan@[b]) as int);
    }
    emit_crcs(&mut out, s);
    let ghost d4 = out@;
    proof {
        assert(d4.len() == 1032 + 24 * n);
        assert(be32_at(d4, 4) == 2);
        assert(forall|b: int| 0 <= b < 256 ==> be32_at(d4, 8 + 4 * b) == (#[trigger] fan@[b]) as int);
        assert(forall|i: int, k: int|
            #![trigger s@[i].oid@[k]]
            0 <= i < n && 0 <= k < 20 ==> d4[1032 + 20 * i + k] == s@[i].oid@[k]);
        assert(forall|i: int|
            0 <= i < n ==> be32_at(d4, 1032 + 20 * n + 4 * i) == crc_of(#[trigger] s@[i]) as int);
    }
    let large = emit_offsets(&mut out, s);
    let ghost l = large@.len() as int;
    let ghost d5 = out@;
    proof {
        assert(d5.len() == 1032 + 28 * n);
        assert(be32_at(d5, 4) == 2);
        assert(forall|b: int| 0 <= b < 256 ==> be32_at(d5, 8 + 4 * b) == (#[trigger] fan@[b]) as int);
        assert(forall|i: int, k: int|
            #![trigger s@[i].oid@[k]]
            0 <= i < n && 0 <= k < 20 ==> d5[1032 + 20 * i + k] == s@[i].oid@[k]);
        assert(forall|i: int|
            0 <= i < n ==> be32_at(d5, 1032 + 20 * n + 4 * i) == crc_of(#[trigger] s@[i]) as int);
    }
    emit_large(&mut out, &large);
    let ghost d6 = out@;
    proof {
        assert(d6.len() == 1032 + 28 * n + 8 * l);
        assert(be32_at(d6, 4) == 2);
        assert(forall|b: int| 0 <= b < 256 ==> be32_at(d6, 8 + 4 * b) == (#[trigger] fan@[b]) as int);
        assert(forall|i: int, k: int|
            #![trigger s@[i].oid@[k]]
            0 <= i < n && 0 <= k < 20 ==> d6[1032 + 20 * i + k] == s@[i].oid@[k]);
        assert(forall|i: int|
            0 <= i < n ==> be32_at(d6, 1032 + 20 * n + 4 * i) == crc_of(#[trigger] s@[i]) as int);
        assert(forall|i: int|
            0 <= i < n && (#[trigger] s@[i]).pack_offset < 0x80000000 ==> be32_at(
                d6,
                1032 + 24 * n + 4 * i,
            ) == s@[i].pack_offset as int);
        assert(forall|i: int|
            0 <= i < n && (#[trigger] s@[i]).pack_offset >= 0x80000000 ==> (be32_at(
                d6,
                1032 + 24 * n + 4 * i,
            ) >= 0x80000000 && be32_at(d6, 1032 + 24 * n + 4 * i) - 0x80000000 < l && large@[be32_at(
                d6,
                1032 + 24 * n + 4 * i,
            ) - 0x80000000] as int == s@[i].pack_offset as int));
    }
    push_bytes(&mut out, pack);
    proof {
        reveal(crate::write::body_facts);
        assert(body_facts(out@, s@, fan@, large@, pack@));
    }
    (out, large)
}

/// From the body facts and a 20-byte trailer appended after them, the whole
/// buffer is a structurally sound version 2 index.
#[verifier::rlimit(100)]
proof fn lemma_serialized_structure(
    d: Seq<u8>,
    body: Seq<u8>,
    s: Seq<Entry>,
    fan: Seq<u32>,
    large: Seq<u64>,
    pack: Seq<u8>,
)
    requires
        body_facts(body, s, fan, large, pack),
        d.len() == body.len() + 20,
        forall|j: int| 0 <= j < body.len() ==> d[j] == body[j],
        s.len() < 0x80000000,
        forall|b1: int, b2: int| 0 <= b1 <= b2 < 256 ==> fan[b1] <= fan[b2],
        fan[255] as int == s.len(),
    ensures
        has_signature(d),
        n_of(d) == s.len(),
        forall|b: int| 0 <= b < 256 ==> #[trigger] fan_at(d, b) == fan[b] as int,
        large_count(d) == large.len(),
        accept(d),
{
    reveal(crate::write::body_facts);
    let n = s.len() as int;
    let l = large.len() as int;
    assert(d.len() == 1072 + 28 * n + 8 * l);
    assert(has_signature(d));
    assert(be32_at(d, 4) == 2);
    assert forall|b: int| 0 <= b < 256 implies #[trigger] fan_at(d, b) == fan[b] as int by {
        assert(be32_at(d, 8 + 4 * b) == be32_at(body, 8 + 4 * b));
    }
    assert(n_of(d) == n);
    assert(fan_monotonic(d));
    assert(size_ok(d)) by {
        assert(d.len() - 1072 - 28 * n_of(d) == 8 * l);
        assert((8 * l) % 8 == 0) by (nonlinear_arith);
    }
    assert(large_count(d) == (8 * l) / 8);
    assert(large_count(d) == l) by {
        assert((8 * l) / 8 == l) by (nonlinear_arith);
    }
    assert(large_refs_ok(d)) by {
        assert forall|i: int|
            0 <= i < n_of(d) && #[trigger] ofs_word(d, i) >= 0x80000000 implies ofs_word(d, i)
            - 0x80000000 < large_count(d) by {
            assert(be32_at(d, 1032 + 24 * n + 4 * i) == be32_at(body, 1032 + 24 * n + 4 * i));
            assert(ofs_word(d, i) == be32_at(body, 1032 + 24 * n + 4 * i));
            if s[i].pack_offset < 0x80000000 {
                assert(ofs_word(d, i) == s[i].pack_offset as int);
                assert(false);
            }
        }
    }
    assert(accept(d));
}

/// The same buffer decodes, entry by entry, to the emitted triples, and
/// carries the archive checksum where readers expect it.
#[verifier::rlimit(100)]
proof fn lemma_serialized_models(
    d: Seq<u8>,
    body: Seq<u8>,
    s: Seq<Entry>,
    fan: Seq<u32>,
    large: Seq<u64>,
    pack: Seq<u8>,
)
    requires
        body_facts(body, s, fan, large, pack),
        d.len() == body.len() + 20,
        forall|j: int| 0 <= j < body.len() ==> d[j] == body[j],
        s.len() < 0x80000000,
        forall|i: int| 0 <= i < s.len() ==> (#[trigger] s[i]).oid@.len() == 20,
        forall|i: int| 0 <= i < s.len() ==> (#[trigger] s[i]).crc32 is Some,
        pack.len() == 20,
        has_signature(d),
        n_of(d) == s.len(),
        large_count(d) == large.len(),
    ensures
        forall|i: int| 0 <= i < s.len() ==> entry_model_at(d, i) == (#[trigger] s[i]).model(),
        forall|i: int| 0 <= i < s.len() ==> #[trigger] oid_at(d, i) == s[i].oid@,
        pack_checksum_of(d) == pack,
{
    reveal(crate::write::body_facts);
    let n = s.len() as int;
    let l = large.len() as int;
    assert(d.len() == 1072 + 28 * n + 8 * l);
    assert forall|i: int| 0 <= i < n implies #[trigger] oid_at(d, i) == s[i].oid@ by {
        assert forall|k: int| 0 <= k < 20 implies d[1032 + 20 * i + k] == s[i].oid@[k] by {
            assert(body[1032 + 20 * i + k] == s[i].oid@[k]);
        }
        assert(oid_at(d, i) =~= s[i].oid@);
    }
    assert forall|i: int| 0 <= i < n implies #[trigger] crc_at(d, i) == s[i].crc32 by {
        assert(be32_at(body, 1032 + 20 * n + 4 * i) == crc_of(s[i]) as int);
        assert(be32_at(d, 1032 + 20 * n + 4 * i) == be32_at(body, 1032 + 20 * n + 4 * i));
        assert(crc_base(d) == 1032 + 20 * n);
    }
    assert forall|i: int| 0 <= i < n implies #[trigger] offset_at(d, i)
        == s[i].pack_offset as int by {
        assert(ofs_base(d) == 1032 + 24 * n);
        assert(large_base(d) == 1032 + 28 * n);
        assert(be32_at(d, 1032 + 24 * n + 4 * i) == be32_at(body, 1032 + 24 * n + 4 * i));
        assert(ofs_word(d, i) == be32_at(body, 1032 + 24 * n + 4 * i));
        if s[i].pack_offset < 0x80000000 {
            assert(ofs_word(d, i) == s[i].pack_offset as int);
        } else {
            let w = ofs_word(d, i);
            assert(w >= 0x80000000);
            let j = w - 0x80000000;
            assert(j < l && large[j] as int == s[i].pack_offset as int);
            assert(be64_at(d, 1032 + 28 * n + 8 * j) == be64_at(body, 1032 + 28 * n + 8 * j));
            assert(be64_at(d, 1032 + 28 * n + 8 * j) == large[j] as int);
        }
    }
    assert forall|i: int| 0 <= i < n implies entry_model_at(d, i) == (#[trigger] s[i]).model() by {
        assert(crc_at(d, i) == s[i].crc32);
        assert(offset_at(d, i) == s[i].pack_offset as int);
        assert(oid_at(d, i) == s[i].oid@);
    }
    assert(pack_checksum_of(d) =~= pack) by {
        assert forall|k: int| 0 <= k < 20 implies d[d.len() - 40 + k] == pack[k] by {
            assert(body[1032 + 28 * n + 8 * l + k] == pack[k]);
            assert(d.len() - 40 + k == 1032 + 28 * n + 8 * l + k);
        }
    }
}

/// A sorted run whose fan-out table marks the leading-byte boundaries decodes
/// to a canonical index.
proof fn lemma_serialized_canonical(d: Seq<u8>, s: Seq<Entry>, fan: Seq<u32>)
    requires
        n_of(d) == s.len(),
        fan.len() == 256,
        forall|i: int| 0 <= i < s.len() ==> (#[trigger] s[i]).oid@.len() == 20,
        forall|i: int, j: int|
            0 <= i < j < s.len() ==> lex_lt((#[trigger] s[i]).oid@, (#[trigger] s[j]).oid@),
        forall|b: int| 0 <= b < 256 ==> #[trigger] fan_at(d, b) == fan[b] as int,
        forall|b: int| 0 <= b < 256 ==> fan_boundary(s, b, (#[trigger] fan[b]) as int),
        forall|i: int| 0 <= i < s.len() ==> #[trigger] oid_at(d, i) == s[i].oid@,
    ensures
        sorted(d),
        fanned(d),
{
    assert(sorted(d));
    assert forall|i: int| 0 <= i < n_of(d) implies fan_lo(
        d,
        (#[trigger] oid_at(d, i))[0] as int,
    ) <= i < fan_at(d, oid_at(d, i)[0] as int) by {
        let bb = s[i].oid@[0] as int;
        assert(oid_at(d, i) == s[i].oid@);
        assert(fan_boundary(s, bb, fan[bb] as int));
        if i >= fan[bb] as int {
            assert((fan[bb] as int) < s.len());
            let v = fan[bb] as int;
            if v < i {
                assert(lex_lt(s[v].oid@, s[i].oid@));
                lemma_lex_lt_leading(s[v].oid@, s[i].oid@);
            }
            assert(false);
        }
        if bb > 0 {
            assert(fan_boundary(s, bb - 1, fan[bb - 1] as int));
            if i < fan[bb - 1] as int {
                assert((s[i].oid@[0] as int) <= bb - 1);
                assert(false);
            }
            assert(fan_lo(d, bb) == fan[bb - 1] as int);
        }
    }
}

/// Emits a whole version 2 index for an already sorted, duplicate-free run
/// and its fan-out table: the bytes parse back to exactly those entries.
#[verifier::rlimit(100)]
fn serialize_v2(s: &Vec<Entry>, fan: &Vec<u32>, pack: &Vec<u8>) -> (out: Vec<u8>)
    requires
        s@.len() < 0x80000000,
        forall|i: int| 0 <= i < s@.len() ==> (#[trigger] s@[i]).oid@.len() == 20,
        forall|i: int| 0 <= i < s@.len() ==> (#[trigger] s@[i]).crc32 is Some,
        forall|i: int, j: int|
            0 <= i < j < s@.len() ==> lex_lt((#[trigger] s@[i]).oid@, (#[trigger] s@[j]).oid@),
        fan@.len() == 256,
        forall|b1: int, b2: int| 0 <= b1 <= b2 < 256 ==> fan@[b1] <= fan@[b2],
        fan@[255] as int == s@.len(),
        forall|b: int| 0 <= b < 256 ==> fan_boundary(s@, b, (#[trigger] fan@[b]) as int),
        pack@.len() == 20,
    ensures
        accept(out@),
        has_signature(out@),
        n_of(out@) == s@.len(),
        forall|i: int|
            0 <= i < s@.len() ==> entry_model_at(out@, i) == (#[trigger] s@[i]).model(),
        canonical(out@),
        pack_checksum_of(out@) == pack@,
        trailer_of(out@) == sha1_of(out@.take(out@.len() - 20)),
{
    let (mut out, large) = serialize_body(s, fan, pack);
    let ghost body = out@;
    let digest = sha1_digest(&out);
    push_bytes(&mut out, &digest);
    proof {
        reveal(crate::write::body_facts);
        let d = out@;
        lemma_serialized_structure(d, body, s@, fan@, large@, pack@);
        lemma_serialized_models(d, body, s@, fan@, large@, pack@);
        lemma_serialized_canonical(d, s@, fan@);
        assert(body == d.take(d.len() - 20)) by {
            assert(body =~= d.take(d.len() - 20));
        }
        assert(trailer_of(d) =~= digest@);
    }
    out
}

/// Serializes a stream of entries — not required to be pre-sorted — into a
/// complete version 2 index paired with the archive checksum. Fails with
/// `DuplicateObject`, before emitting a byte, exactly when two input ids are
/// equal.
pub fn write_v2(entries: &Vec<Entry>, pack_checksum: &Vec<u8>) -> (r: Result<Vec<u8>, Error>)
    requires
        pack_checksum@.len() == 20,
        forall|k: int| 0 <= k < entries@.len() ==> (#[trigger] entries@[k]).oid@.len() == 20,
        forall|k: int| 0 <= k < entries@.len() ==> (#[trigger] entries@[k]).crc32 is Some,
        entries@.len() < 0x80000000,
    ensures
        r is Err <==> has_duplicate(entries@),
        r is Err ==> r == Err::<Vec<u8>, Error>(Error::DuplicateObject),
        match r {
            Ok(out) => write_post(out@, entries@, pack_checksum@),
            Err(_) => true,
        },
{
    let s = match sort_entries(entries) {
        Ok(s) => s,
        Err(e) => {
            return Err(e);
        },
    };
    proof {
        assert forall|i: int| 0 <= i < s@.len() implies (#[trigger] s@[i]).crc32 is Some by {
            let k = choose|k: int|
                0 <= k < entries@.len() && (#[trigger] entries@[k]).model() == s@[i].model();
            assert(entries@[k].crc32 is Some);
        }
    }
    let fan = build_fan(&s);
    let out = serialize_v2(&s, &fan, pack_checksum);
    proof {
        assert forall|k: int| 0 <= k < entries@.len() implies exists|i: int|
            0 <= i < n_of(out@) && entry_model_at(out@, i) == (
        #[trigger] entries@[k]).model() by {
            let i = choose|i: int|
                0 <= i < s@.len() && (#[trigger] s@[i]).model() == entries@[k].model();
            assert(entry_model_at(out@, i) == entries@[k].model());
        }
        assert forall|i: int| 0 <= i < n_of(out@) implies appears(
            entries@,
            #[trigger] entry_model_at(out@, i),
        ) by {
            assert(entry_model_at(out@, i) == s@[i].model());
            let k = choose|k: int|
                0 <= k < entries@.len() && (#[trigger] entries@[k]).model() == s@[i].model();
            assert(entries@[k].model() == entry_model_at(out@, i));
        }
    }
    Ok(out)
}

/// Two positions of a sorted table never hold the same id.
pub proof fn lemma_sorted_unique(d: Seq<u8>, i: int, j: int)
    requires
        sorted(d),
        0 <= i < n_of(d),
        0 <= j < n_of(d),
        oid_at(d, i) == oid_at(d, j),
    ensures
        i == j,
{
    if i < j {
        lemma_lex_lt_irrefl(oid_at(d, i));
    }
    if j < i {
        lemma_lex_lt_irrefl(oid_at(d, i));
    }
}

/// The round trip: opening the writer's bytes and looking up the id of any
/// written entry yields exactly that entry's triple. The hypotheses are the
/// writer's guarantee for the bytes, the parser's guarantee for `f`, and the
/// lookup's guarantee for `r`; the conclusion pins `r` to the input entry.
pub proof fn lemma_write_lookup_roundtrip(
    d: Seq<u8>,
    input: Seq<Entry>,
    pack: Seq<u8>,
    f: File,
    k: int,
    r: Option<Entry>,
)
    requires
        write_post(d, input, pack),
        f.well_formed(),
        f.data@ == d,
        0 <= k < input.len(),
        match r {
            Some(e) => exists|i: int|
                0 <= i < n_of(d) && #[trigger] entry_model_at(d, i) == e.model() && oid_at(d, i)
                    == input[k].oid@,
            None => true,
        },
        canonical(d) ==> (r is Some <==> exists|i: int|
            0 <= i < n_of(d) && #[trigger] oid_at(d, i) == input[k].oid@),
    ensures
        r is Some,
        forall|e: Entry| r == Some(e) ==> e.model() == input[k].model(),
{
    let m = input[k].model();
    let i = choose|i: int| 0 <= i < n_of(d) && #[trigger] entry_model_at(d, i) == m;
    assert(oid_at(d, i) == input[k].oid@);
    assert(r is Some);
    assert forall|e: Entry| r == Some(e) implies e.model() == input[k].model() by {
        let i2 = choose|i2: int|
            0 <= i2 < n_of(d) && #[trigger] entry_model_at(d, i2) == e.model() && oid_at(d, i2)
                == input[k].oid@;
        lemma_sorted_unique(d, i, i2);
    }
}

/// The large-offset round trip: an entry written with an offset that does not
/// fit 31 bits is stored with the flag bit set in its offset word, and still
/// decodes to its exact offset through the large-offset table.
pub proof fn lemma_large_offset_roundtrip(d: Seq<u8>, input: Seq<Entry>, pack: Seq<u8>, k: int)
    requires
        write_post(d, input, pack),
        0 <= k < input.len(),
        input[k].pack_offset >= 0x80000000,
    ensures
        exists|i: int|
            0 <= i < n_of(d) && #[trigger] ofs_word(d, i) >= 0x80000000 && offset_at(d, i)
                == input[k].pack_offset as int && oid_at(d, i) == input[k].oid@,
{
    let m = input[k].model();
    let i = choose|i: int| 0 <= i < n_of(d) && #[trigger] entry_model_at(d, i) == m;
    assert(offset_at(d, i) == input[k].pack_offset as int);
    if ofs_word(d, i) < 0x80000000 {
        assert(offset_at(d, i) == ofs_word(d, i));
        assert(false);
    }
    assert(ofs_word(d, i) >= 0x80000000 && offset_at(d, i) == input[k].pack_offset as int
        && oid_at(d, i) == input[k].oid@);
}

} // verus!
