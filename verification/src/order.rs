//! Byte-lexicographic order on tokens, the order in which a store keeps its keys.

use vstd::prelude::*;

verus! {

/// `a` and `b` agree on their first `k` bytes.
pub open spec fn common_prefix(a: Seq<u8>, b: Seq<u8>, k: int) -> bool {
    &&& 0 <= k <= a.len()
    &&& k <= b.len()
    &&& forall|i: int| 0 <= i < k ==> a[i] == b[i]
}

/// `a` comes strictly before `b` in byte-lexicographic order: after a common
/// prefix, either `a` ends and `b` goes on, or `a` has the smaller byte.
pub open spec fn lex_lt(a: Seq<u8>, b: Seq<u8>) -> bool {
    exists|k: int| #[trigger]
        common_prefix(a, b, k) && k < b.len() && (k == a.len() || a[k] < b[k])
}

/// Every key comes strictly before all later ones: ascending, nothing twice.
pub open spec fn strictly_ascending(keys: Seq<Seq<u8>>) -> bool {
    forall|i: int, j: int| 0 <= i < j < keys.len() ==> lex_lt(#[trigger] keys[i], #[trigger] keys[j])
}

/// How one byte string stands to another.
#[derive(Debug, Clone, Copy, PartialEq, Eq, Structural)]
pub enum Relation {
    Before,
    Same,
    After,
}

/// The relation between `a` and `b` in byte-lexicographic order.
pub open spec fn relation(a: Seq<u8>, b: Seq<u8>) -> Relation {
    if lex_lt(a, b) {
        Relation::Before
    } else if a == b {
        Relation::Same
    } else {
        Relation::After
    }
}

/// No byte string comes before itself.
pub proof fn lemma_lex_lt_irreflexive(a: Seq<u8>)
    ensures
        !lex_lt(a, a),
{
}

/// The order is transitive.
pub proof fn lemma_lex_lt_transitive(a: Seq<u8>, b: Seq<u8>, c: Seq<u8>)
    requires
        lex_lt(a, b),
        lex_lt(b, c),
    ensures
        lex_lt(a, c),
{
    let k1 = choose|k: int| #[trigger]
        common_prefix(a, b, k) && k < b.len() && (k == a.len() || a[k] < b[k]);
    let k2 = choose|k: int| #[trigger]
        common_prefix(b, c, k) && k < c.len() && (k == b.len() || b[k] < c[k]);
    let k = if k1 < k2 {
        k1
    } else {
        k2
    };
    assert(common_prefix(a, c, k));
}

/// Of two byte strings, one comes first or they are equal, and only one of the three holds.
pub proof fn lemma_lex_trichotomy(a: Seq<u8>, b: Seq<u8>)
    ensures
        lex_lt(a, b) || a == b || lex_lt(b, a),
        !(lex_lt(a, b) && lex_lt(b, a)),
        !(lex_lt(a, b) && a == b),
        !(lex_lt(b, a) && a == b),
{
    if lex_lt(a, b) && lex_lt(b, a) {
        lemma_lex_lt_transitive(a, b, a);
    }
    lemma_first_difference(a, b, 0);
}

/// From a common prefix of length `k` on, the two strings are equal or one comes first.
proof fn lemma_first_difference(a: Seq<u8>, b: Seq<u8>, k: int)
    requires
        common_prefix(a, b, k),
    ensures
        lex_lt(a, b) || a == b || lex_lt(b, a),
    decreases a.len() - k,
{
    if k == a.len() {
        if k == b.len() {
            assert(a =~= b);
        } else {
            assert(common_prefix(a, b, k));
        }
    } else if k == b.len() {
        assert(common_prefix(b, a, k));
    } else if a[k] < b[k] {
        assert(common_prefix(a, b, k));
    } else if b[k] < a[k] {
        assert(common_prefix(b, a, k));
    } else {
        assert(common_prefix(a, b, k + 1));
        lemma_first_difference(a, b, k + 1);
    }
}

/// Compares two byte strings in byte-lexicographic order.
pub fn compare_bytes(a: &[u8], b: &[u8]) -> (r: Relation)
    ensures
        r == relation(a@, b@),
        r == Relation::Before <==> lex_lt(a@, b@),
        r == Relation::Same <==> a@ == b@,
        r == Relation::After <==> lex_lt(b@, a@),
{
    proof {
        lemma_lex_trichotomy(a@, b@);
    }
    let mut i: usize = 0;
    while i < a.len() && i < b.len()
        invariant
            common_prefix(a@, b@, i as int),
        decreases a.len() - i,
    {
        if a[i] < b[i] {
            assert(common_prefix(a@, b@, i as int));
            return Relation::Before;
        }
        if a[i] > b[i] {
            assert(common_prefix(b@, a@, i as int));
            return Relation::After;
        }
        i += 1;
    }
    if i < b.len() {
        assert(common_prefix(a@, b@, i as int));
        Relation::Before
    } else if i < a.len() {
        assert(common_prefix(b@, a@, i as int));
        Relation::After
    } else {
        assert(a@ =~= b@);
        Relation::Same
    }
}

} // verus!
