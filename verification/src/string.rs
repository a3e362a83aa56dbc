//! Byte-string comparison: a total order on strings that compares lengths
//! first and falls back to the first differing byte only between strings of
//! equal length.

use vstd::prelude::*;
use vstd::string::StringSliceAdditionalSpecFns;

verus! {

/// The order `cmp` decides: a shorter string sorts before a longer one;
/// strings of equal length are ordered by the first position where their
/// bytes differ.
pub open spec fn spec_cmp(a: Seq<u8>, b: Seq<u8>) -> int
    decreases a.len(),
{
    if a.len() < b.len() {
        -1
    } else if a.len() > b.len() {
        1
    } else if a.len() == 0 {
        0
    } else if a[0] != b[0] {
        if a[0] < b[0] {
            -1
        } else {
            1
        }
    } else {
        spec_cmp(a.drop_first(), b.drop_first())
    }
}

/// Compares two strings by length, then byte by byte.
pub fn cmp(s1: &str, s2: &str) -> (r: i32)
    ensures
        r == spec_cmp(s1.spec_bytes(), s2.spec_bytes()),
{
    let s1b = s1.as_bytes();
    let s2b = s2.as_bytes();

    if s1b.len() < s2b.len() {
        return -1;
    } else if s1b.len() > s2b.len() {
        return 1;
    }

    let s_len = s1b.len();
    if s_len == 0 {
        return 0;
    }

    proof {
        assert(s1b@.skip(0) =~= s1b@);
        assert(s2b@.skip(0) =~= s2b@);
    }
    let mut i: usize = 0;
    while s1b[i] == s2b[i] && i + 1 < s_len
        invariant
            s1b@.len() == s_len,
            s2b@.len() == s_len,
            s_len > 0,
            i < s_len,
            spec_cmp(s1b@, s2b@) == spec_cmp(s1b@.skip(i as int), s2b@.skip(i as int)),
        decreases s_len - i,
    {
        proof {
            lemma_cmp_step(s1b@, s2b@, i as int);
        }
        i += 1;
    }

    proof {
        lemma_cmp_head(s1b@, s2b@, i as int);
    }
    if s1b[i] == s2b[i] {
        0
    } else if s1b[i] < s2b[i] {
        -1
    } else {
        1
    }
}

/// Skipping one more position does not change the comparison while the
/// bytes at the current position agree.
proof fn lemma_cmp_step(a: Seq<u8>, b: Seq<u8>, i: int)
    requires
        a.len() == b.len(),
        0 <= i < a.len(),
        a[i] == b[i],
    ensures
        spec_cmp(a.skip(i), b.skip(i)) == spec_cmp(a.skip(i + 1), b.skip(i + 1)),
{
    assert(a.skip(i).drop_first() =~= a.skip(i + 1));
    assert(b.skip(i).drop_first() =~= b.skip(i + 1));
}

/// On equal-length strings that agree at the last examined suffix head or
/// end there, the comparison is decided by the bytes at position `i`.
proof fn lemma_cmp_head(a: Seq<u8>, b: Seq<u8>, i: int)
    requires
        a.len() == b.len(),
        0 <= i < a.len(),
        i + 1 == a.len() || a[i] != b[i],
    ensures
        a[i] == b[i] ==> spec_cmp(a.skip(i), b.skip(i)) == 0,
        a[i] < b[i] ==> spec_cmp(a.skip(i), b.skip(i)) == -1,
        a[i] > b[i] ==> spec_cmp(a.skip(i), b.skip(i)) == 1,
{
    if a[i] == b[i] {
        assert(a.skip(i).len() == 1);
        assert(a.skip(i)[0] == a[i]);
        assert(b.skip(i)[0] == b[i]);
        assert(a.skip(i).drop_first() =~= a.skip(i + 1));
        assert(b.skip(i).drop_first() =~= b.skip(i + 1));
        assert(a.skip(i + 1).len() == 0);
        assert(b.skip(i + 1).len() == 0);
        assert(spec_cmp(a.skip(i + 1), b.skip(i + 1)) == 0);
        assert(spec_cmp(a.skip(i), b.skip(i)) == spec_cmp(a.skip(i + 1), b.skip(i + 1)));
    } else {
        assert(a.skip(i)[0] == a[i]);
        assert(b.skip(i)[0] == b[i]);
    }
}

} // verus!
