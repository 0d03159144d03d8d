//! The lexicographic order on fixed-width object ids, the byte comparison
//! that decides it, and the order's laws used by lookup and by the writer's
//! sorting pass.
use vstd::prelude::*;

verus! {

/// `j` is the first position where `a` and `b` differ, and `a` holds the
/// smaller byte there.
pub open spec fn lex_wit(a: Seq<u8>, b: Seq<u8>, j: int) -> bool {
    &&& 0 <= j < a.len()
    &&& j < b.len()
    &&& a[j] < b[j]
    &&& forall|k: int| 0 <= k < j ==> a[k] == b[k]
}

/// `a` precedes `b` lexicographically.
pub open spec fn lex_lt(a: Seq<u8>, b: Seq<u8>) -> bool {
    exists|j: int| lex_wit(a, b, j)
}

pub proof fn lemma_lex_lt_irrefl(a: Seq<u8>)
    ensures
        !lex_lt(a, a),
{
    if lex_lt(a, a) {
        let j = choose|j: int| lex_wit(a, a, j);
        assert(false);
    }
}

pub proof fn lemma_lex_lt_ne(a: Seq<u8>, b: Seq<u8>)
    requires
        lex_lt(a, b),
    ensures
        a != b,
{
    let j = choose|j: int| lex_wit(a, b, j);
    assert(a[j] != b[j]);
}

pub proof fn lemma_lex_lt_asym(a: Seq<u8>, b: Seq<u8>)
    requires
        lex_lt(a, b),
    ensures
        !lex_lt(b, a),
{
    if lex_lt(b, a) {
        let ja = choose|j: int| lex_wit(a, b, j);
        let jb = choose|j: int| lex_wit(b, a, j);
        if ja < jb {
            assert(b[ja] == a[ja]);
        } else if jb < ja {
            assert(a[jb] == b[jb]);
        }
        assert(false);
    }
}

pub proof fn lemma_lex_lt_trans(a: Seq<u8>, b: Seq<u8>, c: Seq<u8>)
    requires
        a.len() == b.len(),
        b.len() == c.len(),
        lex_lt(a, b),
        lex_lt(b, c),
    ensures
        lex_lt(a, c),
{
    let j1 = choose|j: int| lex_wit(a, b, j);
    let j2 = choose|j: int| lex_wit(b, c, j);
    if j1 < j2 {
        assert(lex_wit(a, c, j1));
    } else if j1 == j2 {
        assert(lex_wit(a, c, j1));
    } else {
        assert(lex_wit(a, c, j2));
    }
}

/// The smaller id under the lexicographic order never holds the larger
/// leading byte.
pub proof fn lemma_lex_lt_leading(a: Seq<u8>, b: Seq<u8>)
    requires
        a.len() > 0,
        b.len() > 0,
        lex_lt(a, b),
    ensures
        a[0] <= b[0],
{
    let j = choose|j: int| lex_wit(a, b, j);
    if j > 0 {
        assert(a[0] == b[0]);
    }
}

/// Three-way comparison of two equally long byte strings: negative, zero or
/// positive as `a` precedes, equals or follows `b`.
pub fn cmp_bytes(a: &Vec<u8>, b: &Vec<u8>) -> (r: i8)
    requires
        a@.len() == b@.len(),
    ensures
        r == 0 <==> a@ == b@,
        r < 0 <==> lex_lt(a@, b@),
        r > 0 <==> lex_lt(b@, a@),
{
    let mut i: usize = 0;
    while i < a.len()
        invariant
            a@.len() == b@.len(),
            0 <= i <= a@.len(),
            forall|k: int| 0 <= k < i ==> a@[k] == b@[k],
        decreases a@.len() - i,
    {
        if a[i] < b[i] {
            proof {
                assert(lex_wit(a@, b@, i as int));
                lemma_lex_lt_ne(a@, b@);
                lemma_lex_lt_asym(a@, b@);
            }
            return -1;
        }
        if a[i] > b[i] {
            proof {
                assert(lex_wit(b@, a@, i as int));
                lemma_lex_lt_ne(b@, a@);
                lemma_lex_lt_asym(b@, a@);
            }
            return 1;
        }
        i = i + 1;
    }
    proof {
        assert(a@ =~= b@);
        lemma_lex_lt_irrefl(a@);
    }
    0
}

} // verus!
