//! Byte-string helpers shared by the readers and writers.

use vstd::prelude::*;

verus! {

/// Appends `bytes` to `out`.
pub fn push_bytes(out: &mut Vec<u8>, bytes: &[u8])
    ensures
        final(out)@ == old(out)@ + bytes@,
{
    out.extend_from_slice(bytes);
    assert(out@ =~= old(out)@ + bytes@);
}

/// The texts of a vector of byte strings.
pub open spec fn texts(lines: Seq<Vec<u8>>) -> Seq<Seq<u8>> {
    Seq::new(lines.len(), |i: int| lines[i]@)
}

/// Index of the first occurrence of `b` in `s`, or `s.len()` if there is none.
pub open spec fn index_of_byte(s: Seq<u8>, b: u8) -> int
    decreases s.len(),
{
    if s.len() == 0 {
        0
    } else if s[0] == b {
        0
    } else {
        1 + index_of_byte(s.skip(1), b)
    }
}

/// No `b` stands before `index_of_byte(s, b)`, and `b` stands there unless
/// it is the end of `s`.
pub proof fn lemma_index_of_byte(s: Seq<u8>, b: u8)
    ensures
        0 <= index_of_byte(s, b) <= s.len(),
        forall|j: int| 0 <= j < index_of_byte(s, b) ==> s[j] != b,
        index_of_byte(s, b) < s.len() ==> s[index_of_byte(s, b)] == b,
    decreases s.len(),
{
    if s.len() > 0 && s[0] != b {
        let t = s.skip(1);
        lemma_index_of_byte(t, b);
        assert forall|j: int| 0 <= j < index_of_byte(s, b) implies s[j] != b by {
            if j > 0 {
                assert(t[j - 1] == s[j]);
            }
        }
    }
}

/// A position that no `b` precedes and that holds `b` unless it is the end
/// is `index_of_byte(s, b)`.
pub proof fn lemma_index_of_byte_unique(s: Seq<u8>, b: u8, i: int)
    requires
        0 <= i <= s.len(),
        forall|j: int| 0 <= j < i ==> s[j] != b,
        i < s.len() ==> s[i] == b,
    ensures
        i == index_of_byte(s, b),
{
    lemma_index_of_byte(s, b);
}

/// Scans `s` for the first `b`.
pub fn find_byte(s: &[u8], b: u8) -> (i: usize)
    ensures
        i == index_of_byte(s@, b),
{
    let mut i: usize = 0;
    while i < s.len() && s[i] != b
        invariant
            i <= s.len(),
            forall|j: int| 0 <= j < i ==> s@[j] != b,
        decreases s.len() - i,
    {
        i += 1;
    }
    proof {
        lemma_index_of_byte_unique(s@, b, i as int);
    }
    i
}

} // verus!
