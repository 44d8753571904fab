//! The order of station names: byte strings compared lexicographically.

use vstd::prelude::*;

verus! {

/// Length of the longest common prefix of `a` and `b`: the first index at
/// which they differ or one of them ends.
pub open spec fn mismatch(a: Seq<u8>, b: Seq<u8>) -> int
    decreases a.len(),
{
    if a.len() == 0 || b.len() == 0 || a[0] != b[0] {
        0
    } else {
        1 + mismatch(a.skip(1), b.skip(1))
    }
}

/// `a` comes strictly before `b`: at the first index where they part, `a`
/// has ended and `b` has not, or `a` holds the smaller byte.
pub open spec fn precedes(a: Seq<u8>, b: Seq<u8>) -> bool {
    let i = mismatch(a, b);
    i < b.len() && (i == a.len() || a[i] < b[i])
}

/// `a` and `b` agree before `mismatch(a, b)`, and differ there unless one of
/// them ends there.
pub proof fn lemma_mismatch(a: Seq<u8>, b: Seq<u8>)
    ensures
        0 <= mismatch(a, b) <= a.len(),
        mismatch(a, b) <= b.len(),
        forall|j: int| 0 <= j < mismatch(a, b) ==> a[j] == b[j],
        mismatch(a, b) < a.len() && mismatch(a, b) < b.len() ==> a[mismatch(a, b)] != b[mismatch(
            a,
            b,
        )],
    decreases a.len(),
{
    if !(a.len() == 0 || b.len() == 0 || a[0] != b[0]) {
        let s = a.skip(1);
        let t = b.skip(1);
        lemma_mismatch(s, t);
        assert forall|j: int| 0 <= j < mismatch(a, b) implies a[j] == b[j] by {
            if j > 0 {
                assert(s[j - 1] == a[j] && t[j - 1] == b[j]);
            }
        }
        let m = mismatch(s, t);
        if m < s.len() && m < t.len() {
            assert(s[m] == a[m + 1] && t[m] == b[m + 1]);
        }
    }
}

/// An index before which `a` and `b` agree, and at which they differ or one
/// of them ends, is `mismatch(a, b)`.
pub proof fn lemma_mismatch_unique(a: Seq<u8>, b: Seq<u8>, i: int)
    requires
        0 <= i <= a.len(),
        i <= b.len(),
        forall|j: int| 0 <= j < i ==> a[j] == b[j],
        i < a.len() && i < b.len() ==> a[i] != b[i],
    ensures
        i == mismatch(a, b),
{
    lemma_mismatch(a, b);
}

/// No name comes before itself.
pub proof fn lemma_precedes_irreflexive(a: Seq<u8>)
    ensures
        !precedes(a, a),
{
    lemma_mismatch_unique(a, a, a.len() as int);
}

/// Of two different names, one comes before the other, and never both.
pub proof fn lemma_precedes_total(a: Seq<u8>, b: Seq<u8>)
    ensures
        a != b ==> precedes(a, b) || precedes(b, a),
        !(precedes(a, b) && precedes(b, a)),
{
    lemma_mismatch(a, b);
    lemma_mismatch_unique(b, a, mismatch(a, b));
    if !precedes(a, b) && !precedes(b, a) {
        assert(a =~= b);
    }
}

/// The order of names is transitive.
pub proof fn lemma_precedes_transitive(a: Seq<u8>, b: Seq<u8>, c: Seq<u8>)
    requires
        precedes(a, b),
        precedes(b, c),
    ensures
        precedes(a, c),
{
    lemma_mismatch(a, b);
    lemma_mismatch(b, c);
    let i = mismatch(a, b);
    let j = mismatch(b, c);
    let k = if i < j { i } else { j };
    lemma_mismatch_unique(a, c, k);
}

/// How one name stands to another.
#[derive(Clone, Copy, Debug, PartialEq, Eq)]
pub enum Place {
    /// It comes before the other.
    Before,
    /// The two are the same name.
    Same,
    /// It comes after the other.
    After,
}

/// Where `a` stands with respect to `b`.
pub fn place_of(a: &[u8], b: &[u8]) -> (p: Place)
    ensures
        p == Place::Before <==> precedes(a@, b@),
        p == Place::Same <==> a@ == b@,
        p == Place::After <==> precedes(b@, a@),
{
    let mut i: usize = 0;
    while i < a.len() && i < b.len() && a[i] == b[i]
        invariant
            i <= a.len(),
            i <= b.len(),
            forall|j: int| 0 <= j < i ==> a@[j] == b@[j],
        decreases a.len() - i,
    {
        i += 1;
    }
    proof {
        lemma_mismatch_unique(a@, b@, i as int);
        lemma_mismatch_unique(b@, a@, i as int);
        lemma_precedes_total(a@, b@);
        lemma_precedes_irreflexive(a@);
    }
    if i == b.len() {
        if i == a.len() {
            assert(a@ =~= b@);
            Place::Same
        } else {
            Place::After
        }
    } else if i == a.len() || a[i] < b[i] {
        Place::Before
    } else {
        Place::After
    }
}

} // verus!
