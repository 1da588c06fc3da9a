//! The dictionary of candidate words.
//!
//! A set of canonical (lowercase) word buffers: duplicates from the input
//! collapse on construction, and the search removes each word when it is
//! first discovered so that no word is enqueued twice.

use vstd::prelude::*;

use crate::words::chars_equal;
use crate::words::lower;
use crate::words::word_in_list;
use crate::Solution;

verus! {

/// How many distinct canonical words `list` holds: duplicates and case
/// variants of an earlier entry do not count.
#[verifier::opaque]
pub open spec fn num_distinct(list: Seq<Seq<char>>) -> nat
    decreases list.len(),
{
    if list.len() == 0 {
        0
    } else {
        num_distinct(list.drop_last()) + (if word_in_list(list.drop_last(), lower(list.last())) {
            0nat
        } else {
            1nat
        })
    }
}

/// A set of canonical words. `wf` (no duplicate entries) holds for every
/// value built by `from_words` and is preserved by `remove`.
pub struct Dictionary {
    entries: Vec<Vec<char>>,
}

impl Dictionary {
    /// Whether `w` is currently a member.
    pub closed spec fn spec_contains(&self, w: Seq<char>) -> bool {
        exists|i: int| 0 <= i < self.entries@.len() && (#[trigger] self.entries@[i])@ == w
    }

    /// How many words are held.
    pub closed spec fn spec_len(&self) -> nat {
        self.entries@.len()
    }

    /// No word is held twice.
    pub closed spec fn wf(&self) -> bool {
        forall|i: int, j: int|
            0 <= i < j < self.entries@.len() ==> (#[trigger] self.entries@[i])@ != (
            #[trigger] self.entries@[j])@
    }

    /// The dictionary built from a word list: one entry per distinct
    /// canonical word.
    pub fn from_words(list: &Vec<String>) -> (d: Dictionary)
        ensures
            d.wf(),
            forall|w: Seq<char>| d.spec_contains(w) <==> word_in_list(list.deep_view(), w),
            d.spec_len() == num_distinct(list.deep_view()),
            d.spec_len() <= list@.len(),
    {
        let mut d = Dictionary { entries: Vec::new() };
        proof {
            reveal(num_distinct);
        }
        let mut i: usize = 0;
        while i < list.len()
            invariant
                i <= list@.len(),
                d.wf(),
                forall|w: Seq<char>|
                    d.spec_contains(w) <==> word_in_list(list.deep_view().take(i as int), w),
                d.spec_len() == num_distinct(list.deep_view().take(i as int)),
                d.spec_len() <= i,
            decreases list@.len() - i,
        {
            let nv = Solution::to_char_vec(&list[i]);
            let ghost prev = d;
            if !d.contains(&nv) {
                d.entries.push(nv);
            }
            proof {
                assert forall|w: Seq<char>|
                    d.spec_contains(w) <==> word_in_list(
                        list.deep_view().take(i + 1 as int),
                        w,
                    ) by {
                    let pre = list.deep_view().take(i as int);
                    let cur = list.deep_view().take(i + 1 as int);
                    assert(cur[i as int] == list@[i as int]@);
                    if d.spec_contains(w) {
                        if prev.spec_contains(w) {
                            let k = choose|k: int|
                                0 <= k < pre.len() && lower(#[trigger] pre[k]) == w;
                            assert(cur[k] == pre[k]);
                            assert(word_in_list(cur, w));
                        } else {
                            assert(w == lower(list@[i as int]@));
                            assert(lower(cur[i as int]) == w);
                            assert(word_in_list(cur, w));
                        }
                    }
                    if word_in_list(cur, w) {
                        let k = choose|k: int| 0 <= k < cur.len() && lower(#[trigger] cur[k]) == w;
                        if k < i {
                            assert(pre[k] == cur[k]);
                            assert(word_in_list(pre, w));
                            assert(prev.spec_contains(w));
                            if !prev.spec_contains(lower(list@[i as int]@)) {
                                let m = choose|m: int|
                                    0 <= m < prev.entries@.len() && (
                                    #[trigger] prev.entries@[m])@ == w;
                                assert(d.entries@[m]@ == w);
                            }
                        } else {
                            assert(w == lower(list@[i as int]@));
                            assert(nv@ == w);
                            if prev.spec_contains(w) {
                                let m = choose|m: int|
                                    0 <= m < prev.entries@.len() && (
                                    #[trigger] prev.entries@[m])@ == w;
                                assert(d.entries@[m]@ == w);
                            } else {
                                assert(d.entries@[prev.entries@.len() as int]@ == w);
                            }
                            assert(d.spec_contains(w));
                        }
                    }
                }
                reveal(num_distinct);
                let pre = list.deep_view().take(i as int);
                let cur = list.deep_view().take(i + 1 as int);
                assert(cur.drop_last() =~= pre);
                assert(cur.last() == list@[i as int]@);
                assert(nv@ == lower(list@[i as int]@));
                if prev.spec_contains(nv@) {
                    assert(word_in_list(pre, lower(cur.last())));
                    assert(num_distinct(cur) == num_distinct(pre));
                } else {
                    assert(!word_in_list(pre, lower(cur.last())));
                    assert(num_distinct(cur) == num_distinct(pre) + 1);
                }
            }
            i = i + 1;
        }
        proof {
            assert(list.deep_view().take(list@.len() as int) =~= list.deep_view());
        }
        d
    }

    /// How many words are held.
    pub fn len(&self) -> (n: usize)
        ensures
            n == self.spec_len(),
    {
        self.entries.len()
    }

    /// Whether `w` is currently a member.
    pub fn contains(&self, w: &Vec<char>) -> (r: bool)
        ensures
            r == self.spec_contains(w@),
    {
        let mut i: usize = 0;
        while i < self.entries.len()
            invariant
                i <= self.entries@.len(),
                forall|j: int| 0 <= j < i ==> (#[trigger] self.entries@[j])@ != w@,
            decreases self.entries@.len() - i,
        {
            if chars_equal(&self.entries[i], w) {
                return true;
            }
            i = i + 1;
        }
        false
    }

    /// Removes `w` if present; every other member stays.
    #[verifier::loop_isolation(false)]
    pub fn remove(&mut self, w: &Vec<char>)
        requires
            old(self).wf(),
        ensures
            final(self).wf(),
            forall|x: Seq<char>|
                final(self).spec_contains(x) <==> (old(self).spec_contains(x) && x != w@),
            old(self).spec_contains(w@) ==> final(self).spec_len() + 1 == old(self).spec_len(),
            !old(self).spec_contains(w@) ==> final(self).spec_len() == old(self).spec_len(),
    {
        let ghost prev = *self;
        let mut i: usize = 0;
        while i < self.entries.len()
            invariant
                *self == prev,
                prev.wf(),
                i <= self.entries@.len(),
                forall|j: int| 0 <= j < i ==> (#[trigger] self.entries@[j])@ != w@,
            decreases self.entries@.len() - i,
        {
            if chars_equal(&self.entries[i], w) {
                proof {
                    assert(prev.entries@[i as int]@ == w@);
                }
                self.entries.remove(i);
                proof {
                    assert forall|x: Seq<char>|
                        self.spec_contains(x) <==> (prev.spec_contains(x) && x != w@) by {
                        if self.spec_contains(x) {
                            let k = choose|k: int|
                                0 <= k < self.entries@.len() && (#[trigger] self.entries@[k])@
                                    == x;
                            if k < i {
                                assert(prev.entries@[k]@ == x);
                                assert(x != w@);
                            } else {
                                assert(prev.entries@[k + 1]@ == x);
                                assert(prev.entries@[i as int]@ != prev.entries@[k + 1]@);
                                assert(x != w@);
                            }
                            assert(prev.spec_contains(x));
                        }
                        if prev.spec_contains(x) && x != w@ {
                            let k = choose|k: int|
                                0 <= k < prev.entries@.len() && (#[trigger] prev.entries@[k])@
                                    == x;
                            if k < i {
                                assert(self.entries@[k]@ == x);
                            } else {
                                assert(k > i);
                                assert(self.entries@[k - 1]@ == x);
                            }
                            assert(self.spec_contains(x));
                        }
                    }
                    assert forall|a: int, b: int|
                        0 <= a < b < self.entries@.len() implies (#[trigger] self.entries@[a])@
                        != (#[trigger] self.entries@[b])@ by {
                        let pa: int = if a < i { a } else { a + 1 };
                        let pb: int = if b < i { b } else { b + 1 };
                        assert(self.entries@[a] == prev.entries@[pa]);
                        assert(self.entries@[b] == prev.entries@[pb]);
                        assert(prev.entries@[pa]@ != prev.entries@[pb]@);
                    }
                }
                return ;
            }
            i = i + 1;
        }
        proof {
            if self.spec_contains(w@) {
                let k = choose|k: int|
                    0 <= k < self.entries@.len() && (#[trigger] self.entries@[k])@ == w@;
                assert(self.entries@[k]@ != w@);
            }
            assert(forall|x: Seq<char>| self.spec_contains(x) ==> x != w@);
        }
    }
}

} // verus!
