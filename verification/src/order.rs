//! The byte-lexicographic order on keys and file names.

use vstd::prelude::*;

verus! {

/// Whether `a` comes strictly before `b` when both are compared byte by byte
/// from position `from` on, a proper prefix coming before its extensions.
pub open spec fn precedes_from(a: Seq<u8>, b: Seq<u8>, from: int) -> bool
    decreases a.len() - from,
{
    if from < 0 || from >= b.len() {
        false
    } else if from >= a.len() {
        true
    } else if a[from] != b[from] {
        a[from] < b[from]
    } else {
        precedes_from(a, b, from + 1)
    }
}

/// The strict byte-lexicographic order.
pub open spec fn precedes(a: Seq<u8>, b: Seq<u8>) -> bool {
    precedes_from(a, b, 0)
}

/// Whether `a` and `b` hold the same bytes below position `upto`.
pub open spec fn agree_below(a: Seq<u8>, b: Seq<u8>, upto: int) -> bool {
    &&& upto <= a.len()
    &&& upto <= b.len()
    &&& forall|j: int| 0 <= j < upto ==> a[j] == b[j]
}

proof fn lemma_irreflexive_from(a: Seq<u8>, from: int)
    requires
        0 <= from,
    ensures
        !precedes_from(a, a, from),
    decreases a.len() - from,
{
    if from < a.len() {
        lemma_irreflexive_from(a, from + 1);
    }
}

proof fn lemma_transitive_from(a: Seq<u8>, b: Seq<u8>, c: Seq<u8>, from: int)
    requires
        0 <= from,
        precedes_from(a, b, from),
        precedes_from(b, c, from),
    ensures
        precedes_from(a, c, from),
    decreases a.len() - from,
{
    if from < a.len() && a[from] == b[from] && b[from] == c[from] {
        lemma_transitive_from(a, b, c, from + 1);
    }
}

proof fn lemma_total_from(a: Seq<u8>, b: Seq<u8>, from: int)
    requires
        0 <= from,
        agree_below(a, b, from),
    ensures
        precedes_from(a, b, from) || precedes_from(b, a, from) || a == b,
        !(precedes_from(a, b, from) && precedes_from(b, a, from)),
    decreases a.len() - from,
{
    if from < a.len() && from < b.len() {
        if a[from] == b[from] {
            lemma_total_from(a, b, from + 1);
        }
    } else if from >= a.len() && from >= b.len() {
        assert(a =~= b);
    }
}

/// No byte string comes before itself.
pub proof fn lemma_precedes_irreflexive(a: Seq<u8>)
    ensures
        !precedes(a, a),
{
    lemma_irreflexive_from(a, 0);
}

/// The order is transitive.
pub proof fn lemma_precedes_transitive(a: Seq<u8>, b: Seq<u8>, c: Seq<u8>)
    requires
        precedes(a, b),
        precedes(b, c),
    ensures
        precedes(a, c),
{
    lemma_transitive_from(a, b, c, 0);
}

/// Of two byte strings exactly one holds: the first comes before the second,
/// the second before the first, or they are equal.
pub proof fn lemma_precedes_total(a: Seq<u8>, b: Seq<u8>)
    ensures
        precedes(a, b) || precedes(b, a) || a == b,
        !(precedes(a, b) && precedes(b, a)),
        a == b ==> !precedes(a, b),
{
    lemma_total_from(a, b, 0);
    lemma_irreflexive_from(a, 0);
}

/// How two byte strings stand to each other in the lexicographic order.
#[derive(Clone, Copy, Debug, PartialEq, Eq, Structural)]
pub enum Rank {
    Before,
    Same,
    After,
}

/// The rank of `a` relative to `b`.
pub open spec fn rank_of(a: Seq<u8>, b: Seq<u8>) -> Rank {
    if a == b {
        Rank::Same
    } else if precedes(a, b) {
        Rank::Before
    } else {
        Rank::After
    }
}

/// Compares two byte strings lexicographically.
pub fn compare(a: &[u8], b: &[u8]) -> (r: Rank)
    ensures
        r == rank_of(a@, b@),
        r == Rank::After <==> precedes(b@, a@),
{
    let mut i: usize = 0;
    while i < a.len() && i < b.len()
        invariant
            agree_below(a@, b@, i as int),
            precedes_from(a@, b@, i as int) == precedes(a@, b@),
            precedes_from(b@, a@, i as int) == precedes(b@, a@),
        decreases a.len() - i,
    {
        if a[i] < b[i] {
            proof {
                lemma_precedes_total(a@, b@);
            }
            return Rank::Before;
        }
        if a[i] > b[i] {
            proof {
                lemma_precedes_total(a@, b@);
            }
            return Rank::After;
        }
        i += 1;
    }
    proof {
        lemma_precedes_total(a@, b@);
    }
    if i < b.len() {
        Rank::Before
    } else if i < a.len() {
        Rank::After
    } else {
        assert(a@ =~= b@);
        Rank::Same
    }
}

} // verus!
