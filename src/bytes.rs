use vstd::prelude::*;

verus! {

/// `a` and `b` agree on their first `i` bytes.
pub open spec fn agree_upto(a: Seq<u8>, b: Seq<u8>, i: int) -> bool {
    forall|j: int| 0 <= j < i ==> a[j] == b[j]
}

/// `a` sorts before `b`, decided at position `i`: the bytes before `i` agree,
/// and there `a` ends while `b` goes on, or `a` has the smaller byte.
pub open spec fn lex_at(a: Seq<u8>, b: Seq<u8>, i: int) -> bool {
    &&& 0 <= i <= a.len()
    &&& i <= b.len()
    &&& agree_upto(a, b, i)
    &&& ((i == a.len() && i < b.len()) || (i < a.len() && i < b.len() && a[i] < b[i]))
}

/// Byte-wise lexicographic order.
pub open spec fn lex_lt(a: Seq<u8>, b: Seq<u8>) -> bool {
    exists|i: int| #[trigger] lex_at(a, b, i)
}

pub proof fn lemma_lex_irreflexive(a: Seq<u8>, b: Seq<u8>)
    requires
        lex_lt(a, b),
    ensures
        a != b,
        !lex_lt(b, a),
{
    let i = choose|i: int| lex_at(a, b, i);
    if lex_lt(b, a) {
        let j = choose|j: int| lex_at(b, a, j);
        if i < j {
            assert(b[i] == a[i]);
        } else if j < i {
            assert(a[j] == b[j]);
        }
    }
}

pub proof fn lemma_lex_transitive(a: Seq<u8>, b: Seq<u8>, c: Seq<u8>)
    requires
        lex_lt(a, b),
        lex_lt(b, c),
    ensures
        lex_lt(a, c),
{
    let i = choose|i: int| lex_at(a, b, i);
    let j = choose|j: int| lex_at(b, c, j);
    if i < j {
        assert(b[i] == c[i]);
        assert(lex_at(a, c, i));
    } else if j < i {
        assert(a[j] == b[j]);
        assert(lex_at(a, c, j));
    } else {
        assert(lex_at(a, c, i));
    }
}

/// Three-way byte-wise comparison: negative, zero or positive as `a` sorts
/// before, equal to or after `b`.
pub fn compare_bytes(a: &[u8], b: &[u8]) -> (r: i8)
    ensures
        r < 0 <==> lex_lt(a@, b@),
        r == 0 <==> a@ == b@,
        r > 0 <==> lex_lt(b@, a@),
{
    let mut i: usize = 0;
    while i < a.len() && i < b.len()
        invariant
            i <= a@.len(),
            i <= b@.len(),
            agree_upto(a@, b@, i as int),
        decreases a@.len() - i,
    {
        if a[i] != b[i] {
            if a[i] < b[i] {
                assert(lex_at(a@, b@, i as int));
                proof { lemma_lex_irreflexive(a@, b@); }
                return -1;
            } else {
                assert(lex_at(b@, a@, i as int));
                proof { lemma_lex_irreflexive(b@, a@); }
                return 1;
            }
        }
        i = i + 1;
    }
    if a.len() < b.len() {
        assert(lex_at(a@, b@, i as int));
        proof { lemma_lex_irreflexive(a@, b@); }
        -1
    } else if b.len() < a.len() {
        assert(lex_at(b@, a@, i as int));
        proof { lemma_lex_irreflexive(b@, a@); }
        1
    } else {
        assert(a@ =~= b@);
        assert forall|k: int| !lex_at(a@, b@, k) && !lex_at(b@, a@, k) by {}
        0
    }
}

/// Byte-wise equality.
pub fn bytes_equal(a: &[u8], b: &[u8]) -> (r: bool)
    ensures
        r == (a@ == b@),
{
    if a.len() != b.len() {
        return false;
    }
    let mut i: usize = 0;
    while i < a.len()
        invariant
            a@.len() == b@.len(),
            i <= a@.len(),
            agree_upto(a@, b@, i as int),
        decreases a@.len() - i,
    {
        if a[i] != b[i] {
            return false;
        }
        i = i + 1;
    }
    assert(a@ =~= b@);
    true
}

} // verus!
