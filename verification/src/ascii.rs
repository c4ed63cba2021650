//! Byte-string comparison, exact and ASCII-case-insensitive. Command
//! tokens match regardless of letter case; keys compare byte for byte.
use vstd::prelude::*;

verus! {

/// ASCII lower-casing of one byte: letters `A`..`Z` gain 32, all other
/// bytes stand as they are.
pub open spec fn lower_byte(b: u8) -> u8 {
    if 65 <= b <= 90 {
        (b + 32) as u8
    } else {
        b
    }
}

/// The two byte strings are equal once both are lower-cased.
pub open spec fn ci_eq(a: Seq<u8>, b: Seq<u8>) -> bool {
    a.len() == b.len() && forall|i: int|
        0 <= i < a.len() ==> lower_byte(#[trigger] a[i]) == lower_byte(b[i])
}

/// `needle` stands in `hay` at position `i`, up to letter case.
pub open spec fn ci_match_at(hay: Seq<u8>, needle: Seq<u8>, i: int) -> bool {
    0 <= i && i + needle.len() <= hay.len() && forall|j: int|
        0 <= j < needle.len() ==> lower_byte(#[trigger] hay[i + j]) == lower_byte(needle[j])
}

/// `needle` stands somewhere in `hay`, up to letter case.
pub open spec fn contains_ci(hay: Seq<u8>, needle: Seq<u8>) -> bool {
    exists|i: int| ci_match_at(hay, needle, i)
}

/// Byte-for-byte equality of two byte strings.
pub fn bytes_eq(a: &[u8], b: &[u8]) -> (r: bool)
    ensures
        r == (a@ == b@),
{
    if a.len() != b.len() {
        return false;
    }
    let n = a.len();
    let mut i: usize = 0;
    while i < n
        invariant
            0 <= i <= n,
            n == a@.len() == b@.len(),
            forall|j: int| 0 <= j < i ==> a@[j] == b@[j],
        decreases n - i,
    {
        if a[i] != b[i] {
            return false;
        }
        i = i + 1;
    }
    proof {
        assert(a@ =~= b@);
    }
    true
}

/// The exec counterpart of `lower_byte`.
pub fn to_lower(b: u8) -> (r: u8)
    ensures
        r == lower_byte(b),
{
    if 65 <= b && b <= 90 {
        b + 32
    } else {
        b
    }
}

/// Equality up to ASCII letter case.
pub fn ci_equal(a: &[u8], b: &[u8]) -> (r: bool)
    ensures
        r == ci_eq(a@, b@),
{
    if a.len() != b.len() {
        return false;
    }
    let n = a.len();
    let mut i: usize = 0;
    while i < n
        invariant
            0 <= i <= n,
            n == a@.len() == b@.len(),
            forall|j: int| 0 <= j < i ==> lower_byte(#[trigger] a@[j]) == lower_byte(b@[j]),
        decreases n - i,
    {
        if to_lower(a[i]) != to_lower(b[i]) {
            return false;
        }
        i = i + 1;
    }
    true
}

/// Substring search up to ASCII letter case.
pub fn contains_ignore_case(hay: &[u8], needle: &[u8]) -> (r: bool)
    ensures
        r == contains_ci(hay@, needle@),
{
    let hn = hay.len();
    let nn = needle.len();
    if nn > hn {
        proof {
            if contains_ci(hay@, needle@) {
                let i = choose|i: int| ci_match_at(hay@, needle@, i);
                assert(false);
            }
        }
        return false;
    }
    let mut i: usize = 0;
    while i <= hn - nn
        invariant
            0 <= i <= hn - nn + 1,
            nn <= hn,
            hn == hay@.len(),
            nn == needle@.len(),
            forall|p: int| 0 <= p < i ==> !ci_match_at(hay@, needle@, p),
        decreases hn - nn + 1 - i,
    {
        let mut j: usize = 0;
        let mut hit = true;
        while j < nn
            invariant
                0 <= j <= nn,
                i + nn <= hn,
                hn == hay@.len(),
                nn == needle@.len(),
                hit ==> forall|q: int|
                    0 <= q < j ==> lower_byte(#[trigger] hay@[i + q]) == lower_byte(needle@[q]),
                !hit ==> !ci_match_at(hay@, needle@, i as int),
            decreases nn - j,
        {
            if to_lower(hay[i + j]) != to_lower(needle[j]) {
                proof {
                    assert(lower_byte(hay@[i + j]) != lower_byte(needle@[j as int]));
                }
                hit = false;
                j = nn;
            } else {
                j = j + 1;
            }
        }
        if hit {
            proof {
                assert(ci_match_at(hay@, needle@, i as int));
            }
            return true;
        }
        i = i + 1;
    }
    proof {
        if contains_ci(hay@, needle@) {
            let p = choose|p: int| ci_match_at(hay@, needle@, p);
            assert(p + needle@.len() <= hay@.len());
            assert(p < i);
            assert(false);
        }
    }
    false
}

/// Tokens equal up to case match any third token alike.
pub proof fn lemma_ci_eq_same(a: Seq<u8>, b: Seq<u8>, c: Seq<u8>)
    requires
        ci_eq(a, b),
    ensures
        ci_eq(a, c) == ci_eq(b, c),
{
    if ci_eq(a, c) {
        assert forall|i: int| 0 <= i < b.len() implies lower_byte(#[trigger] b[i]) == lower_byte(
            c[i],
        ) by {
            assert(lower_byte(a[i]) == lower_byte(b[i]));
            assert(lower_byte(a[i]) == lower_byte(c[i]));
        }
    }
    if ci_eq(b, c) {
        assert forall|i: int| 0 <= i < a.len() implies lower_byte(#[trigger] a[i]) == lower_byte(
            c[i],
        ) by {
            assert(lower_byte(a[i]) == lower_byte(b[i]));
            assert(lower_byte(b[i]) == lower_byte(c[i]));
        }
    }
}

/// Strings equal up to case contain any needle alike.
pub proof fn lemma_ci_contains_same(a: Seq<u8>, b: Seq<u8>, needle: Seq<u8>)
    requires
        ci_eq(a, b),
    ensures
        contains_ci(a, needle) == contains_ci(b, needle),
{
    if contains_ci(a, needle) {
        let i = choose|i: int| ci_match_at(a, needle, i);
        assert(ci_match_at(b, needle, i)) by {
            assert forall|j: int| 0 <= j < needle.len() implies lower_byte(#[trigger] b[i + j])
                == lower_byte(needle[j]) by {
                assert(lower_byte(a[i + j]) == lower_byte(b[i + j]));
                assert(lower_byte(a[i + j]) == lower_byte(needle[j]));
            }
        }
    }
    if contains_ci(b, needle) {
        let i = choose|i: int| ci_match_at(b, needle, i);
        assert(ci_match_at(a, needle, i)) by {
            assert forall|j: int| 0 <= j < needle.len() implies lower_byte(#[trigger] a[i + j])
                == lower_byte(needle[j]) by {
                assert(lower_byte(a[i + j]) == lower_byte(b[i + j]));
                assert(lower_byte(b[i + j]) == lower_byte(needle[j]));
            }
        }
    }
}

} // verus!
