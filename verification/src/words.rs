//! Canonical word representation: lowercase character sequences.
//!
//! A word is handled in two forms that always denote the same value: a
//! character buffer (`Vec<char>`) used while generating neighbor candidates,
//! and a `String` used as a key in the ancestry record.

use vstd::prelude::*;

verus! {

/// The lowercase form of a single character: ASCII uppercase letters map to
/// their lowercase counterparts, every other character is unchanged.
pub open spec fn lower_char(c: char) -> char {
    if 'A' <= c && c <= 'Z' {
        ((c as u32) + 32) as char
    } else {
        c
    }
}

/// The canonical (lowercase) form of a word.
pub open spec fn lower(s: Seq<char>) -> Seq<char> {
    Seq::new(s.len(), |i: int| lower_char(s[i]))
}

/// Whether the canonical form of some entry of `list` is `w`.
pub open spec fn word_in_list(list: Seq<Seq<char>>, w: Seq<char>) -> bool {
    exists|i: int| 0 <= i < list.len() && lower(#[trigger] list[i]) == w
}

/// Whether `a` and `b` have the same length and differ in exactly one position.
pub open spec fn differs_in_one(a: Seq<char>, b: Seq<char>) -> bool {
    &&& a.len() == b.len()
    &&& exists|i: int|
        0 <= i < a.len() && #[trigger] a[i] != b[i] && (forall|j: int|
            0 <= j < a.len() && j != i ==> a[j] == b[j])
}

/// Case folding is idempotent: folding a word twice gives the same result
/// as folding it once. Together with the contracts of the buffer and string
/// conversions, a canonical buffer therefore survives the round trip
/// through its string form unchanged.
pub proof fn lemma_lower_idempotent(s: Seq<char>)
    ensures
        lower(lower(s)) == lower(s),
{
    assert forall|i: int| 0 <= i < s.len() implies lower_char(lower(s)[i]) == lower(s)[i] by {
        assert(lower(s)[i] == lower_char(s[i]));
    }
    assert(lower(lower(s)) =~= lower(s));
}

/// A word without uppercase ASCII letters is already canonical.
pub proof fn lemma_lower_fixes_canonical(s: Seq<char>)
    requires
        forall|i: int| 0 <= i < s.len() ==> !('A' <= #[trigger] s[i] <= 'Z'),
    ensures
        lower(s) == s,
{
    assert(lower(s) =~= s);
}

/// The position at which `a` and `b` differ, when they differ in exactly
/// one position.
pub open spec fn diff_pos(a: Seq<char>, b: Seq<char>) -> int {
    choose|i: int|
        0 <= i < a.len() && #[trigger] a[i] != b[i] && (forall|j: int|
            0 <= j < a.len() && j != i ==> a[j] == b[j])
}

/// Relies on `char::to_ascii_lowercase`: maps `'A'..='Z'` to `'a'..='z'` and
/// returns every other character unchanged.
pub assume_specification[ char::to_ascii_lowercase ](c: &char) -> (r: char)
    ensures
        r == lower_char(*c),
;

/// Relies on `String::push`: appends the given character to the end of the
/// string.
pub assume_specification[ String::push ](s: &mut String, c: char)
    ensures
        final(s)@ == old(s)@.push(c),
;

/// Whether two character buffers hold the same word.
pub fn chars_equal(a: &Vec<char>, b: &Vec<char>) -> (r: bool)
    ensures
        r == (a@ == b@),
{
    if a.len() != b.len() {
        return false;
    }
    let mut i: usize = 0;
    while i < a.len()
        invariant
            a@.len() == b@.len(),
            i <= a@.len(),
            forall|j: int| 0 <= j < i ==> a@[j] == b@[j],
        decreases a@.len() - i,
    {
        if a[i] != b[i] {
            return false;
        }
        i = i + 1;
    }
    proof {
        assert(a@ =~= b@);
    }
    true
}

/// A fresh buffer holding the same word.
pub fn copy_chars(v: &Vec<char>) -> (r: Vec<char>)
    ensures
        r@ == v@,
{
    let mut r: Vec<char> = Vec::new();
    let mut i: usize = 0;
    while i < v.len()
        invariant
            i <= v@.len(),
            r@ == v@.subrange(0, i as int),
        decreases v@.len() - i,
    {
        let c: char = v[i];
        r.push(c);
        proof {
            assert(r@ =~= v@.subrange(0, i + 1 as int));
        }
        i = i + 1;
    }
    proof {
        assert(v@.subrange(0, v@.len() as int) =~= v@);
    }
    r
}

} // verus!
