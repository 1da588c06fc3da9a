//! All shortest transformation sequences between two equal-length words.
//!
//! A transformation changes exactly one character per step, and every
//! intermediate word must belong to a supplied dictionary. The search walks
//! the implicit word graph breadth-first, one full level at a time, records
//! for each discovered word the word that first produced it, and rebuilds
//! every path of minimal length once the target is reached.

use vstd::prelude::*;
use vstd::string::StrSliceExecFns;
use vstd::string::StringExecFns;

pub mod ancestry;
pub mod dict;
pub mod words;

use crate::ancestry::chain;
use crate::ancestry::has_key;
use crate::ancestry::key_index;
use crate::ancestry::lemma_chain_props;
use crate::ancestry::lemma_insert_chains;
use crate::ancestry::AncestryMap;
use crate::dict::Dictionary;
use crate::words::chars_equal;
use crate::words::copy_chars;
use crate::words::diff_pos;
use crate::words::differs_in_one;
use crate::words::lower;
use crate::words::lower_char;
use crate::words::word_in_list;

verus! {

/// A transformation sequence as returned by the search: it starts at the
/// canonical begin word, ends at the canonical end word, moves by exactly
/// one character per step, keeps the begin word's length throughout, and
/// every word after the first is drawn from the supplied list.
pub open spec fn valid_path(
    begin: Seq<char>,
    end: Seq<char>,
    list: Seq<Seq<char>>,
    p: Seq<Seq<char>>,
) -> bool {
    &&& p.len() >= 1
    &&& p[0] == lower(begin)
    &&& p.last() == lower(end)
    &&& forall|j: int| 0 <= j < p.len() - 1 ==> differs_in_one(#[trigger] p[j], p[j + 1])
    &&& forall|j: int| 1 <= j < p.len() ==> word_in_list(list, #[trigger] p[j])
    &&& forall|j: int| 0 <= j < p.len() ==> (#[trigger] p[j]).len() == begin.len()
}

/// What the search maintains about the ancestry record and the dictionary:
/// the record is a tree rooted at the canonical begin word `b`; every
/// recorded word came from the list, has the begin word's length, differs
/// from its parent in one character, and has left the dictionary; and the
/// dictionary only holds words from the list, never `b`.
pub open spec fn map_inv(
    wl: Seq<Seq<char>>,
    b: Seq<char>,
    dict: Dictionary,
    parents: AncestryMap,
) -> bool {
    &&& parents.wf()
    &&& parents.root_word() == b
    &&& forall|i: int|
        0 <= i < parents.pairs().len() ==> {
            &&& word_in_list(wl, (#[trigger] parents.pairs()[i]).0)
            &&& parents.pairs()[i].0.len() == b.len()
            &&& differs_in_one(parents.pairs()[i].1, parents.pairs()[i].0)
            &&& !dict.spec_contains(parents.pairs()[i].0)
        }
    &&& dict.wf()
    &&& forall|w: Seq<char>| #[trigger] dict.spec_contains(w) ==> word_in_list(wl, w)
    &&& !dict.spec_contains(b)
    &&& forall|w: Seq<char>|
        #[trigger] word_in_list(wl, w) && !dict.spec_contains(w) ==> (w == b || has_key(
            parents.pairs(),
            w,
        ))
}

/// One search move: the words differ in exactly one position and the
/// substituted character is a lowercase letter, the alphabet the search
/// tries.
pub open spec fn is_step(u: Seq<char>, v: Seq<char>) -> bool {
    differs_in_one(u, v) && 'a' <= v[diff_pos(u, v)] <= 'z'
}

/// A ladder from `b` to `e` through the list `wl`: it starts at `b`, ends
/// at `e`, moves by one search step at a time, and every word strictly
/// between them is drawn from `wl`.
pub open spec fn is_ladder(
    q: Seq<Seq<char>>,
    b: Seq<char>,
    e: Seq<char>,
    wl: Seq<Seq<char>>,
) -> bool {
    &&& q.len() >= 2
    &&& q[0] == b
    &&& q.last() == e
    &&& forall|i: int| 0 <= i < q.len() - 1 ==> is_step(#[trigger] q[i], q[i + 1])
    &&& forall|i: int| 1 <= i < q.len() - 1 ==> word_in_list(wl, #[trigger] q[i])
}

/// `u` was fully expanded without a find: no word one step from `u` is
/// still in the dictionary, and the target is not one step from `u`.
pub open spec fn expanded(u: Seq<char>, e: Seq<char>, dict: Dictionary) -> bool {
    forall|v: Seq<char>| #[trigger] is_step(u, v) ==> !dict.spec_contains(v) && v != e
}

/// Whether `u` is one of the queued buffers.
pub open spec fn in_queue(q: Seq<Vec<char>>, u: Seq<char>) -> bool {
    exists|j: int| 0 <= j < q.len() && (#[trigger] q[j])@ == u
}

/// What holds of the levels the search has completed: every reachable word
/// whose level lies below `bound` has been fully expanded without a find,
/// and each of its listed step-neighbors is discovered at most one level
/// deeper. (A word's level is the length of its ancestor chain.)
pub open spec fn explored_inv(
    wl: Seq<Seq<char>>,
    b: Seq<char>,
    e: Seq<char>,
    dict: Dictionary,
    parents: AncestryMap,
    bound: int,
) -> bool {
    &&& forall|u: Seq<char>|
        (u == b || has_key(parents.pairs(), u)) && chain(parents.pairs(), u).len() < bound
            ==> #[trigger] expanded(u, e, dict)
    &&& forall|u: Seq<char>, v: Seq<char>|
        #[trigger] is_step(u, v) && (u == b || has_key(parents.pairs(), u)) && chain(
            parents.pairs(),
            u,
        ).len() < bound && word_in_list(wl, v) ==> ((v == b || has_key(parents.pairs(), v))
            && chain(parents.pairs(), v).len() <= chain(parents.pairs(), u).len() + 1)
}

/// Any ladder to the target must leave the explored region before its last
/// step, so it has more than `bound + 1` words: walking the ladder, each
/// word sits at most one level deeper than the one before, and no word of
/// an explored level steps to the target.
proof fn lemma_ladder_bound(
    wl: Seq<Seq<char>>,
    b: Seq<char>,
    e: Seq<char>,
    dict: Dictionary,
    parents: AncestryMap,
    bound: int,
    q: Seq<Seq<char>>,
    i: int,
)
    requires
        explored_inv(wl, b, e, dict, parents, bound),
        is_ladder(q, b, e, wl),
        0 <= i < q.len() - 1,
        q[i] == b || has_key(parents.pairs(), q[i]),
        chain(parents.pairs(), q[i]).len() <= i,
    ensures
        q.len() >= bound + 2,
    decreases q.len() - i,
{
    let ps = parents.pairs();
    let cl = chain(ps, q[i]).len() as int;
    if cl < bound {
        assert(expanded(q[i], e, dict));
        assert(is_step(q[i], q[i + 1]));
        if i + 1 == q.len() - 1 {
            assert(q[i + 1] == e);
            assert(q[i + 1] != e);
        } else {
            assert(word_in_list(wl, q[i + 1]));
            assert((q[i + 1] == b || has_key(ps, q[i + 1])) && chain(ps, q[i + 1]).len() <= cl
                + 1);
            lemma_ladder_bound(wl, b, e, dict, parents, bound, q, i + 1);
        }
    }
}

/// When every reachable word has been fully expanded without a find, no
/// ladder to the target exists: walking any claimed ladder from its start,
/// each next word would have been discovered, and the final step to the
/// target would have been seen.
proof fn lemma_no_ladder(
    wl: Seq<Seq<char>>,
    b: Seq<char>,
    e: Seq<char>,
    dict: Dictionary,
    parents: AncestryMap,
    q: Seq<Seq<char>>,
    i: int,
)
    requires
        map_inv(wl, b, dict, parents),
        forall|u: Seq<char>|
            (u == b || has_key(parents.pairs(), u)) ==> #[trigger] expanded(u, e, dict),
        0 <= i,
    ensures
        !(is_ladder(q, b, e, wl) && i < q.len() - 1 && (q[i] == b || has_key(
            parents.pairs(),
            q[i],
        ))),
    decreases q.len() - i,
{
    if is_ladder(q, b, e, wl) && i < q.len() - 1 && (q[i] == b || has_key(
        parents.pairs(),
        q[i],
    )) {
        assert(expanded(q[i], e, dict));
        assert(is_step(q[i], q[i + 1]));
        if i + 1 == q.len() - 1 {
            assert(q[i + 1] == e);
            assert(q[i + 1] != e);
        } else {
            assert(word_in_list(wl, q[i + 1]));
            assert(!dict.spec_contains(q[i + 1]));
            lemma_no_ladder(wl, b, e, dict, parents, q, i + 1);
        }
    }
}

/// What the search maintains about the frontier queue: every queued word
/// has the begin word's length, is the begin word or a recorded word, and
/// is no longer in the dictionary.
pub open spec fn queue_inv(
    b: Seq<char>,
    dict: Dictionary,
    parents: AncestryMap,
    q: Seq<Vec<char>>,
) -> bool {
    forall|j: int|
        0 <= j < q.len() ==> {
            &&& (#[trigger] q[j])@.len() == b.len()
            &&& (q[j]@ == b || has_key(parents.pairs(), q[j]@))
            &&& !dict.spec_contains(q[j]@)
        }
}

/// When a word `w0` of the current level produces the target by a one
/// character substitution, its ancestor chain extended by `w0` and the
/// target is a valid path.
proof fn lemma_found_path(
    wl: Seq<Seq<char>>,
    bw: Seq<char>,
    ew: Seq<char>,
    dict: Dictionary,
    parents: AncestryMap,
    w0: Seq<char>,
)
    requires
        bw.len() == ew.len(),
        map_inv(wl, lower(bw), dict, parents),
        w0 == lower(bw) || has_key(parents.pairs(), w0),
        differs_in_one(w0, lower(ew)),
        word_in_list(wl, lower(ew)),
    ensures
        valid_path(bw, ew, wl, chain(parents.pairs(), w0).push(w0).push(lower(ew))),
{
    let b = lower(bw);
    let e = lower(ew);
    let ps = parents.pairs();
    let c = chain(ps, w0);
    let dp = c.push(w0).push(e);
    if w0 == b {
        if has_key(ps, b) {
            let ki = key_index(ps, b);
            assert(ps[ki].0 == b);
        }
        assert(!has_key(ps, w0));
        assert(c == Seq::<Seq<char>>::empty());
        assert(dp.len() == 2);
        assert(dp[0] == b);
        assert(dp[1] == e);
        assert(dp.last() == e);
        assert forall|j: int| 0 <= j < dp.len() - 1 implies differs_in_one(
            #[trigger] dp[j],
            dp[j + 1],
        ) by {
            assert(j == 0);
        }
        assert forall|j: int| 1 <= j < dp.len() implies word_in_list(wl, #[trigger] dp[j]) by {
            assert(j == 1);
        }
        assert forall|j: int| 0 <= j < dp.len() implies (#[trigger] dp[j]).len() == bw.len() by {
            if j == 0 {
                assert(dp[j] == b);
            } else {
                assert(dp[j] == e);
            }
        }
    } else {
        assert(has_key(ps, w0));
        lemma_chain_props(b, ps, w0);
        let cl = c.len() as int;
        assert(dp.len() == cl + 2);
        assert(dp[cl] == w0);
        assert(dp[cl + 1] == e);
        assert(dp[0] == c[0]);
        assert(dp[0] == b);
        assert(dp.last() == e);
        let w0i = key_index(ps, w0);
        assert(ps[w0i].0 == w0);
        assert forall|j: int| 1 <= j < dp.len() implies word_in_list(wl, #[trigger] dp[j]) by {
            if j < cl {
                assert(dp[j] == c[j]);
                assert(has_key(ps, c[j]));
                let ki = key_index(ps, c[j]);
                assert(ps[ki].0 == c[j]);
                assert(word_in_list(wl, ps[ki].0));
            } else if j == cl {
                assert(word_in_list(wl, ps[w0i].0));
            } else {
                assert(dp[j] == e);
            }
        }
        assert forall|j: int| 0 <= j < dp.len() implies (#[trigger] dp[j]).len() == bw.len() by {
            if j == 0 {
                assert(dp[j] == b);
            } else if j < cl {
                assert(dp[j] == c[j]);
                assert(has_key(ps, c[j]));
                let ki = key_index(ps, c[j]);
                assert(ps[ki].0 == c[j]);
                assert(ps[ki].0.len() == b.len());
            } else if j == cl {
                assert(ps[w0i].0.len() == b.len());
            } else {
                assert(dp[j] == e);
            }
        }
        assert forall|j: int| 0 <= j < dp.len() - 1 implies differs_in_one(
            #[trigger] dp[j],
            dp[j + 1],
        ) by {
            if j < cl - 1 {
                assert(dp[j] == c[j]);
                assert(dp[j + 1] == c[j + 1]);
                assert(has_key(ps, c[j + 1]));
                assert(crate::ancestry::parent_in(ps, c[j + 1]) == c[j]);
                let ki = key_index(ps, c[j + 1]);
                assert(ps[ki].0 == c[j + 1]);
                assert(ps[ki].1 == c[j]);
                assert(differs_in_one(ps[ki].1, ps[ki].0));
            } else if j == cl - 1 {
                assert(dp[j] == c.last());
                assert(c.last() == crate::ancestry::parent_in(ps, w0));
                assert(ps[w0i].1 == crate::ancestry::parent_in(ps, w0));
                assert(differs_in_one(ps[w0i].1, ps[w0i].0));
            } else {
                assert(j == cl);
                assert(dp[j] == w0);
                assert(dp[j + 1] == e);
            }
        }
    }
}

#[derive(Debug, PartialEq)]
pub struct Solution {}

impl Solution {
    /// The canonical buffer form of a word: its characters, case-folded to
    /// lowercase.
    pub fn to_char_vec(input: &String) -> (r: Vec<char>)
        ensures
            r@ == lower(input@),
    {
        let s = input.as_str();
        let n = s.unicode_len();
        let mut r: Vec<char> = Vec::new();
        let mut i: usize = 0;
        while i < n
            invariant
                n == s@.len(),
                s@ == input@,
                i <= n,
                r@.len() == i,
                forall|j: int| 0 <= j < i ==> r@[j] == lower_char(s@[j]),
            decreases n - i,
        {
            let c = s.get_char(i);
            r.push(c.to_ascii_lowercase());
            i = i + 1;
        }
        proof {
            assert(r@ =~= lower(input@));
        }
        r
    }

    /// The string form of a word buffer, character for character.
    pub fn to_string(input: &Vec<char>) -> (r: String)
        ensures
            r@ == input@,
    {
        let mut r = String::new();
        let mut i: usize = 0;
        while i < input.len()
            invariant
                i <= input@.len(),
                r@ == input@.subrange(0, i as int),
            decreases input@.len() - i,
        {
            let c: char = input[i];
            r.push(c);
            proof {
                assert(r@ =~= input@.subrange(0, i + 1 as int));
            }
            i = i + 1;
        }
        proof {
            assert(input@.subrange(0, input@.len() as int) =~= input@);
        }
        r
    }

    /// The dictionary built from a word list: one member per distinct
    /// canonical word.
    pub fn to_char_hash_set(list: &Vec<String>) -> (d: Dictionary)
        ensures
            d.wf(),
            forall|w: Seq<char>| d.spec_contains(w) <==> word_in_list(list.deep_view(), w),
            d.spec_len() == crate::dict::num_distinct(list.deep_view()),
            d.spec_len() <= list@.len(),
    {
        Dictionary::from_words(list)
    }

    /// The recorded ancestors of `node`, from the start word down to
    /// `node`'s parent; empty when `node` has no recorded parent.
    pub fn construct_path(node: &String, parents: &AncestryMap) -> (r: Vec<String>)
        requires
            parents.wf(),
        ensures
            r.deep_view() == chain(parents.pairs(), node@),
            !parents.spec_has_key(node@) ==> r@.len() == 0,
    {
        let r = parents.ancestors(node);
        proof {
            assert(r.deep_view().len() == r@.len());
        }
        r
    }

    /// Every shortest transformation sequence from `begin_word` to
    /// `end_word` through `word_list`, in discovery order.
    #[verifier::loop_isolation(false)]
    #[verifier::rlimit(100)]
    pub fn ladder_length(begin_word: String, end_word: String, word_list: Vec<String>) -> (paths:
        Vec<Vec<String>>)
        requires
            begin_word@.len() == end_word@.len(),
        ensures
            paths.deep_view().len() == paths@.len(),
            lower(begin_word@) == lower(end_word@) ==> paths.deep_view() == seq![
                seq![lower(begin_word@)],
            ],
            lower(begin_word@) != lower(end_word@) && !word_in_list(
                word_list.deep_view(),
                lower(end_word@),
            ) ==> paths@.len() == 0,
            lower(begin_word@) != lower(end_word@) && word_in_list(
                word_list.deep_view(),
                lower(end_word@),
            ) && (exists|q: Seq<Seq<char>>|
                is_ladder(
                    q,
                    lower(begin_word@),
                    lower(end_word@),
                    word_list.deep_view(),
                )) ==> paths@.len() > 0,
            forall|k: int|
                0 <= k < paths@.len() ==> valid_path(
                    begin_word@,
                    end_word@,
                    word_list.deep_view(),
                    (#[trigger] paths@[k]).deep_view(),
                ),
            forall|k1: int, k2: int|
                0 <= k1 < paths@.len() && 0 <= k2 < paths@.len() ==> (#[trigger] paths@[k1])@.len()
                    == (#[trigger] paths@[k2])@.len(),
            forall|k: int, q: Seq<Seq<char>>|
                #![trigger paths@[k], is_ladder(q, lower(begin_word@), lower(end_word@), word_list.deep_view())]
                0 <= k < paths@.len() && is_ladder(
                    q,
                    lower(begin_word@),
                    lower(end_word@),
                    word_list.deep_view(),
                ) ==> q.len() >= (paths@[k])@.len(),
    {
        let ghost wl = word_list.deep_view();
        let ghost b = lower(begin_word@);
        let ghost e = lower(end_word@);
        let begin = Self::to_char_vec(&begin_word);
        let target = Self::to_char_vec(&end_word);
        if chars_equal(&begin, &target) {
            let first = Self::to_string(&begin);
            let mut path: Vec<String> = Vec::new();
            path.push(first);
            let mut paths: Vec<Vec<String>> = Vec::new();
            paths.push(path);
            proof {
                assert(paths@[0].deep_view() =~= seq![b]);
                assert(paths.deep_view() =~= seq![seq![b]]);
                assert(valid_path(begin_word@, end_word@, wl, paths@[0].deep_view()));
                assert forall|k: int, q2: Seq<Seq<char>>|
                    0 <= k < paths@.len() && is_ladder(q2, b, e, wl) implies q2.len() >= (
                paths@[k])@.len() by {
                    assert(paths@[0]@.len() == 1);
                    assert(q2.len() >= 2);
                }
            }
            return paths;
        }
        let mut dict = Self::to_char_hash_set(&word_list);
        if !dict.contains(&target) {
            let paths: Vec<Vec<String>> = Vec::new();
            return paths;
        }
        proof {
            assert(word_in_list(wl, e));
        }
        dict.remove(&begin);
        let word_length = begin.len();
        let root_str = Self::to_string(&begin);
        let mut parents = AncestryMap::new(root_str);
        let mut queue: Vec<Vec<char>> = Vec::new();
        queue.push(begin);
        let mut paths: Vec<Vec<String>> = Vec::new();
        let mut visit_next_level = true;
        let ghost mut level: int = 0;
        proof {
            assert(queue@[0]@ == b);
            assert(in_queue(queue@, b));
        }
        while queue.len() > 0 && visit_next_level
            invariant
                level >= 0,
                map_inv(wl, b, dict, parents),
                queue_inv(b, dict, parents, queue@),
                forall|j: int|
                    0 <= j < queue@.len() ==> chain(parents.pairs(), (#[trigger] queue@[j])@).len()
                        == level,
                forall|k: int|
                    0 <= k < paths@.len() ==> valid_path(
                        begin_word@,
                        end_word@,
                        wl,
                        (#[trigger] paths@[k]).deep_view(),
                    ),
                forall|k1: int, k2: int|
                    0 <= k1 < paths@.len() && 0 <= k2 < paths@.len() ==> (
                    #[trigger] paths@[k1])@.len() == (#[trigger] paths@[k2])@.len(),
                visit_next_level ==> paths@.len() == 0,
                !visit_next_level ==> paths@.len() > 0,
                visit_next_level ==> forall|u: Seq<char>|
                    (u == b || has_key(parents.pairs(), u)) && !in_queue(queue@, u)
                        ==> #[trigger] expanded(u, e, dict),
                forall|u: Seq<char>|
                    #[trigger] has_key(parents.pairs(), u) ==> chain(parents.pairs(), u).len()
                        <= level,
                visit_next_level ==> explored_inv(wl, b, e, dict, parents, level),
                !visit_next_level ==> explored_inv(wl, b, e, dict, parents, level - 1),
                !visit_next_level ==> forall|kk: int|
                    0 <= kk < paths@.len() ==> (#[trigger] paths@[kk])@.len() == level + 1,
            decreases dict.spec_len() + queue@.len(),
        {
            let ghost s0 = dict.spec_len() as int + queue@.len() as int;
            let count = queue.len();
            let mut k: usize = 0;
            while k < count
                invariant
                    level >= 0,
                    k <= count,
                    queue@.len() >= count - k,
                    map_inv(wl, b, dict, parents),
                    queue_inv(b, dict, parents, queue@),
                    forall|j: int|
                        0 <= j < count - k ==> chain(
                            parents.pairs(),
                            (#[trigger] queue@[j])@,
                        ).len() == level,
                    forall|j: int|
                        count - k <= j < queue@.len() ==> chain(
                            parents.pairs(),
                            (#[trigger] queue@[j])@,
                        ).len() == level + 1,
                    forall|kk: int|
                        0 <= kk < paths@.len() ==> valid_path(
                            begin_word@,
                            end_word@,
                            wl,
                            (#[trigger] paths@[kk]).deep_view(),
                        ),
                    forall|kk: int|
                        0 <= kk < paths@.len() ==> (#[trigger] paths@[kk])@.len() == level + 2,
                    paths@.len() > 0 ==> !visit_next_level,
                    !visit_next_level ==> paths@.len() > 0,
                    visit_next_level ==> forall|u: Seq<char>|
                        (u == b || has_key(parents.pairs(), u)) && !in_queue(queue@, u)
                            ==> #[trigger] expanded(u, e, dict),
                    forall|u: Seq<char>|
                        #[trigger] has_key(parents.pairs(), u) ==> chain(parents.pairs(), u).len()
                            <= level + 1,
                    explored_inv(wl, b, e, dict, parents, level),
                    dict.spec_len() as int + queue@.len() as int == s0 - k,
                decreases count - k,
            {
                let ghost queue_before = queue@;
                let mut word = queue.remove(0);
                let ghost w0 = word@;
                proof {
                    if visit_next_level {
                        assert forall|u: Seq<char>|
                            (u == b || has_key(parents.pairs(), u)) && !in_queue(queue@, u) && u
                                != w0 implies #[trigger] expanded(u, e, dict) by {
                            if in_queue(queue_before, u) {
                                let j = choose|j: int|
                                    0 <= j < queue_before.len() && (#[trigger] queue_before[j])@
                                        == u;
                                assert(j > 0);
                                assert(queue@[j - 1]@ == u);
                                assert(in_queue(queue@, u));
                            }
                        }
                    }
                }
                let parent = Self::to_string(&word);
                let mut path_found = false;
                let mut pos: usize = 0;
                while pos < word_length && !path_found
                    invariant
                        level >= 0,
                        k < count,
                        pos <= word_length,
                        word@ == w0,
                        w0.len() == b.len(),
                        w0 == b || has_key(parents.pairs(), w0),
                        chain(parents.pairs(), w0).len() == level,
                        !dict.spec_contains(w0),
                        parent@ == w0,
                        queue@.len() >= count - k - 1,
                        map_inv(wl, b, dict, parents),
                        queue_inv(b, dict, parents, queue@),
                        forall|j: int|
                            0 <= j < count - k - 1 ==> chain(
                                parents.pairs(),
                                (#[trigger] queue@[j])@,
                            ).len() == level,
                        forall|j: int|
                            count - k - 1 <= j < queue@.len() ==> chain(
                                parents.pairs(),
                                (#[trigger] queue@[j])@,
                            ).len() == level + 1,
                        forall|kk: int|
                            0 <= kk < paths@.len() ==> valid_path(
                                begin_word@,
                                end_word@,
                                wl,
                                (#[trigger] paths@[kk]).deep_view(),
                            ),
                        forall|kk: int|
                            0 <= kk < paths@.len() ==> (#[trigger] paths@[kk])@.len() == level + 2,
                        paths@.len() > 0 ==> !visit_next_level,
                        path_found ==> !visit_next_level,
                        !visit_next_level ==> paths@.len() > 0,
                        visit_next_level ==> forall|u: Seq<char>|
                            (u == b || has_key(parents.pairs(), u)) && !in_queue(queue@, u) && u
                                != w0 ==> #[trigger] expanded(u, e, dict),
                        visit_next_level ==> forall|v: Seq<char>|
                            #[trigger] is_step(w0, v) && diff_pos(w0, v) < pos
                                ==> !dict.spec_contains(v) && v != e,
                        forall|u: Seq<char>|
                            #[trigger] has_key(parents.pairs(), u) ==> chain(
                                parents.pairs(),
                                u,
                            ).len() <= level + 1,
                        explored_inv(wl, b, e, dict, parents, level),
                        dict.spec_len() as int + queue@.len() as int == s0 - k - 1,
                    decreases word_length - pos,
                {
                    let r: char = word[pos];
                    let mut c: u8 = 97;
                    while c <= 122 && !path_found
                        invariant
                            level >= 0,
                            k < count,
                            pos < word_length,
                            97 <= c <= 123,
                            word@.len() == w0.len(),
                            forall|j: int| 0 <= j < w0.len() && j != pos ==> word@[j] == w0[j],
                            r == w0[pos as int],
                            w0.len() == b.len(),
                            w0 == b || has_key(parents.pairs(), w0),
                            chain(parents.pairs(), w0).len() == level,
                            !dict.spec_contains(w0),
                            parent@ == w0,
                            queue@.len() >= count - k - 1,
                            map_inv(wl, b, dict, parents),
                            queue_inv(b, dict, parents, queue@),
                            forall|j: int|
                                0 <= j < count - k - 1 ==> chain(
                                    parents.pairs(),
                                    (#[trigger] queue@[j])@,
                                ).len() == level,
                            forall|j: int|
                                count - k - 1 <= j < queue@.len() ==> chain(
                                    parents.pairs(),
                                    (#[trigger] queue@[j])@,
                                ).len() == level + 1,
                            forall|kk: int|
                                0 <= kk < paths@.len() ==> valid_path(
                                    begin_word@,
                                    end_word@,
                                    wl,
                                    (#[trigger] paths@[kk]).deep_view(),
                                ),
                            forall|kk: int|
                                0 <= kk < paths@.len() ==> (#[trigger] paths@[kk])@.len() == level
                                    + 2,
                            paths@.len() > 0 ==> !visit_next_level,
                            path_found ==> !visit_next_level,
                            !visit_next_level ==> paths@.len() > 0,
                            visit_next_level ==> forall|u: Seq<char>|
                                (u == b || has_key(parents.pairs(), u)) && !in_queue(queue@, u)
                                    && u != w0 ==> #[trigger] expanded(u, e, dict),
                            visit_next_level ==> forall|v: Seq<char>|
                                #[trigger] is_step(w0, v) && (diff_pos(w0, v) < pos || (diff_pos(
                                    w0,
                                    v,
                                ) == pos && (v[pos as int] as int) < c)) ==> !dict.spec_contains(
                                    v,
                                ) && v != e,
                            forall|u: Seq<char>|
                                #[trigger] has_key(parents.pairs(), u) ==> chain(
                                    parents.pairs(),
                                    u,
                                ).len() <= level + 1,
                            explored_inv(wl, b, e, dict, parents, level),
                            dict.spec_len() as int + queue@.len() as int == s0 - k - 1,
                        decreases 123 - c,
                    {
                        let ch: char = c as char;
                        if ch != r {
                            word[pos] = ch;
                            proof {
                                assert(word@[pos as int] != w0[pos as int]);
                                assert(differs_in_one(w0, word@));
                            }
                            if chars_equal(&word, &target) {
                                proof {
                                    assert(word@ == e);
                                    assert(differs_in_one(w0, e));
                                }
                                let mut new_path = Self::construct_path(&parent, &parents);
                                new_path.push(parent.clone());
                                let endw = Self::to_string(&target);
                                new_path.push(endw);
                                proof {
                                    let ps = parents.pairs();
                                    assert(new_path.deep_view() =~= chain(ps, w0).push(w0).push(
                                        e,
                                    ));
                                    lemma_found_path(wl, begin_word@, end_word@, dict, parents, w0);
                                    assert(valid_path(
                                        begin_word@,
                                        end_word@,
                                        wl,
                                        new_path.deep_view(),
                                    ));
                                    assert(new_path@.len() == level + 2);
                                }
                                paths.push(new_path);
                                path_found = true;
                                visit_next_level = false;
                            } else if dict.contains(&word) {
                                let ghost ps = parents.pairs();
                                let ghost cand = word@;
                                proof {
                                    if has_key(ps, cand) {
                                        let ki = key_index(ps, cand);
                                        assert(ps[ki].0 == cand);
                                        assert(!dict.spec_contains(ps[ki].0));
                                    }
                                    assert(!has_key(ps, cand));
                                    assert(cand != b);
                                    assert(word_in_list(wl, cand));
                                }
                                let cand_s = Self::to_string(&word);
                                let ghost dict0 = dict;
                                let ghost queue_mid = queue@;
                                parents.insert(cand_s, parent.clone());
                                dict.remove(&word);
                                let wcopy = copy_chars(&word);
                                queue.push(wcopy);
                                proof {
                                    let ps2 = parents.pairs();
                                    assert(ps2 == ps.push((cand, w0)));
                                    assert forall|x: Seq<char>| has_key(ps, x) implies has_key(
                                        ps2,
                                        x,
                                    ) by {
                                        let ki = key_index(ps, x);
                                        assert(ps[ki].0 == x);
                                        assert(ps2[ki] == ps[ki]);
                                    }
                                    assert(ps2[ps.len() as int].0 == cand);
                                    assert(has_key(ps2, cand));
                                    assert(queue@[queue@.len() - 1]@ == cand);
                                    assert(in_queue(queue@, cand));
                                    assert forall|i: int|
                                        0 <= i < ps2.len() implies {
                                        &&& word_in_list(wl, (#[trigger] ps2[i]).0)
                                        &&& ps2[i].0.len() == b.len()
                                        &&& differs_in_one(ps2[i].1, ps2[i].0)
                                        &&& !dict.spec_contains(ps2[i].0)
                                    } by {
                                        if i < ps.len() {
                                            assert(ps2[i] == ps[i]);
                                            assert(word_in_list(wl, ps[i].0));
                                            assert(!dict.spec_contains(ps[i].0));
                                        } else {
                                            assert(ps2[i] == (cand, w0));
                                        }
                                    }
                                    assert forall|w: Seq<char>|
                                        #[trigger] word_in_list(wl, w) && !dict.spec_contains(w)
                                            implies (w == b || has_key(ps2, w)) by {
                                        if w != cand {
                                            assert(!dict0.spec_contains(w));
                                        }
                                    }
                                    assert(map_inv(wl, b, dict, parents));
                                    if visit_next_level {
                                        assert forall|u: Seq<char>|
                                            (u == b || has_key(ps2, u)) && !in_queue(queue@, u)
                                                && u != w0 implies #[trigger] expanded(
                                            u,
                                            e,
                                            dict,
                                        ) by {
                                            if u == b || has_key(ps, u) {
                                                if in_queue(queue_mid, u) {
                                                    let j = choose|j: int|
                                                        0 <= j < queue_mid.len() && (
                                                        #[trigger] queue_mid[j])@ == u;
                                                    assert(queue@[j]@ == u);
                                                }
                                                assert(!in_queue(queue_mid, u));
                                                assert(expanded(u, e, dict0));
                                                assert forall|v: Seq<char>|
                                                    #[trigger] is_step(u, v) implies !dict.spec_contains(
                                                    v,
                                                ) && v != e by {
                                                    assert(!dict0.spec_contains(v));
                                                }
                                            } else {
                                                let ki = key_index(ps2, u);
                                                assert(ps2[ki].0 == u);
                                                if ki < ps.len() {
                                                    assert(ps2[ki] == ps[ki]);
                                                    assert(has_key(ps, u));
                                                }
                                                assert(u == cand);
                                            }
                                        }
                                    }
                                    lemma_insert_chains(ps, cand, w0, w0);
                                    lemma_insert_chains(ps, cand, w0, cand);
                                    assert(chain(ps2, cand).len() == level + 1);
                                    assert forall|x: Seq<char>| x != cand implies chain(ps2, x)
                                        == chain(ps, x) by {
                                        lemma_insert_chains(ps, cand, w0, x);
                                    }
                                    assert forall|u: Seq<char>| #[trigger] has_key(ps2, u)
                                        implies chain(ps2, u).len() <= level + 1 by {
                                        if u != cand {
                                            let ki = key_index(ps2, u);
                                            assert(ps2[ki].0 == u);
                                            if ki < ps.len() {
                                                assert(ps2[ki] == ps[ki]);
                                                assert(has_key(ps, u));
                                            }
                                            assert(has_key(ps, u));
                                            assert(chain(ps2, u) == chain(ps, u));
                                        }
                                    }
                                    assert forall|u: Seq<char>|
                                        (u == b || has_key(ps2, u)) && chain(ps2, u).len()
                                            < level implies #[trigger] expanded(u, e, dict) by {
                                        if u == cand {
                                            assert(chain(ps2, cand).len() == level + 1);
                                        } else {
                                            if has_key(ps2, u) {
                                                let ki = key_index(ps2, u);
                                                assert(ps2[ki].0 == u);
                                                if ki < ps.len() {
                                                    assert(ps2[ki] == ps[ki]);
                                                    assert(has_key(ps, u));
                                                }
                                            }
                                            assert(chain(ps2, u) == chain(ps, u));
                                            assert(expanded(u, e, dict0));
                                            assert forall|v: Seq<char>| #[trigger] is_step(u, v)
                                                implies !dict.spec_contains(v) && v != e by {
                                                assert(!dict0.spec_contains(v));
                                            }
                                        }
                                    }
                                    assert forall|u: Seq<char>, v: Seq<char>|
                                        #[trigger] is_step(u, v) && (u == b || has_key(ps2, u))
                                            && chain(ps2, u).len() < level && word_in_list(
                                            wl,
                                            v,
                                        ) implies ((v == b || has_key(ps2, v)) && chain(
                                            ps2,
                                            v,
                                        ).len() <= chain(ps2, u).len() + 1) by {
                                        if u != cand {
                                            if has_key(ps2, u) {
                                                let ki = key_index(ps2, u);
                                                assert(ps2[ki].0 == u);
                                                if ki < ps.len() {
                                                    assert(ps2[ki] == ps[ki]);
                                                    assert(has_key(ps, u));
                                                }
                                            }
                                            assert(chain(ps2, u) == chain(ps, u));
                                            assert((v == b || has_key(ps, v)) && chain(
                                                ps,
                                                v,
                                            ).len() <= chain(ps, u).len() + 1);
                                            assert(v != cand);
                                            assert(chain(ps2, v) == chain(ps, v));
                                        } else {
                                            assert(chain(ps2, cand).len() == level + 1);
                                        }
                                    }
                                    assert(explored_inv(wl, b, e, dict, parents, level));
                                    assert forall|j: int|
                                        0 <= j < queue@.len() implies {
                                        &&& (#[trigger] queue@[j])@.len() == b.len()
                                        &&& (queue@[j]@ == b || has_key(ps2, queue@[j]@))
                                        &&& !dict.spec_contains(queue@[j]@)
                                        &&& (j < count - k - 1 ==> chain(ps2, queue@[j]@).len()
                                            == level)
                                        &&& (count - k - 1 <= j ==> chain(ps2, queue@[j]@).len()
                                            == level + 1)
                                    } by {
                                        if j < queue@.len() - 1 {
                                            let qw = queue@[j]@;
                                            assert(qw != cand);
                                            lemma_insert_chains(ps, cand, w0, qw);
                                            if has_key(ps, qw) {
                                                let ki = key_index(ps, qw);
                                                assert(ps[ki].0 == qw);
                                                assert(ps2[ki] == ps[ki]);
                                                assert(has_key(ps2, qw));
                                            }
                                        } else {
                                            assert(queue@[j]@ == cand);
                                            assert(ps2[ps.len() as int].0 == cand);
                                            assert(has_key(ps2, cand));
                                        }
                                    }
                                    assert(queue_inv(b, dict, parents, queue@));
                                }
                            }
                        }
                        proof {
                            if visit_next_level {
                                assert forall|v: Seq<char>|
                                    #[trigger] is_step(w0, v) && diff_pos(w0, v) == pos && (v[
                                    pos as int] as int) == c implies !dict.spec_contains(v) && v
                                    != e by {
                                    let dpv = diff_pos(w0, v);
                                    assert(0 <= dpv < w0.len() && w0[dpv] != v[dpv] && (forall|
                                        j: int,
                                    |
                                        0 <= j < w0.len() && j != dpv ==> w0[j] == v[j]));
                                    assert(v[pos as int] == ch);
                                    if ch == r {
                                        assert(v[dpv] == w0[dpv]);
                                        assert(false);
                                    } else {
                                        assert(v =~= word@);
                                        assert(v != e);
                                        assert(!dict.spec_contains(v));
                                    }
                                }
                            }
                        }
                        c = c + 1;
                    }
                    word[pos] = r;
                    proof {
                        assert(word@ =~= w0);
                        if visit_next_level {
                            assert forall|v: Seq<char>|
                                #[trigger] is_step(w0, v) && diff_pos(w0, v) < pos + 1
                                    implies !dict.spec_contains(v) && v != e by {
                                if diff_pos(w0, v) == pos {
                                    assert((v[pos as int] as int) <= 122);
                                    assert((v[pos as int] as int) < c);
                                }
                            }
                        }
                    }
                    pos = pos + 1;
                }
                proof {
                    if visit_next_level {
                        assert forall|u: Seq<char>|
                            (u == b || has_key(parents.pairs(), u)) && !in_queue(queue@, u)
                                implies #[trigger] expanded(u, e, dict) by {
                            if u == w0 {
                                assert forall|v: Seq<char>|
                                    #[trigger] is_step(w0, v) implies !dict.spec_contains(v) && v
                                    != e by {
                                    let dpv = diff_pos(w0, v);
                                    assert(0 <= dpv < w0.len());
                                    assert(dpv < pos);
                                }
                                assert(expanded(w0, e, dict));
                            }
                        }
                    }
                }
                k = k + 1;
            }
            proof {
                let ghost lvl0 = level;
                let ps = parents.pairs();
                level = level + 1;
                if visit_next_level {
                    assert forall|u: Seq<char>|
                        (u == b || has_key(ps, u)) && chain(ps, u).len() < level
                            implies #[trigger] expanded(u, e, dict) by {
                        if chain(ps, u).len() == lvl0 {
                            if in_queue(queue@, u) {
                                let j = choose|j: int|
                                    0 <= j < queue@.len() && (#[trigger] queue@[j])@ == u;
                                assert(chain(ps, queue@[j]@).len() == lvl0 + 1);
                            }
                            assert(!in_queue(queue@, u));
                        }
                    }
                    assert forall|u: Seq<char>, v: Seq<char>|
                        #[trigger] is_step(u, v) && (u == b || has_key(ps, u)) && chain(
                            ps,
                            u,
                        ).len() < level && word_in_list(wl, v) implies ((v == b || has_key(ps, v))
                        && chain(ps, v).len() <= chain(ps, u).len() + 1) by {
                        if chain(ps, u).len() == lvl0 {
                            assert(expanded(u, e, dict));
                            assert(!dict.spec_contains(v));
                            if v == b {
                                if has_key(ps, b) {
                                    let ki = key_index(ps, b);
                                    assert(ps[ki].0 == b);
                                }
                                assert(chain(ps, b).len() == 0);
                            }
                        }
                    }
                    assert(explored_inv(wl, b, e, dict, parents, level));
                }
            }
        }
        proof {
            assert forall|k: int, q2: Seq<Seq<char>>|
                0 <= k < paths@.len() && is_ladder(q2, b, e, wl) implies q2.len() >= (
            paths@[k])@.len() by {
                assert(!visit_next_level);
                if has_key(parents.pairs(), b) {
                    let ki = key_index(parents.pairs(), b);
                    assert(parents.pairs()[ki].0 == b);
                }
                assert(chain(parents.pairs(), b).len() == 0);
                assert(q2[0] == b);
                lemma_ladder_bound(wl, b, e, dict, parents, level - 1, q2, 0);
                assert(q2.len() >= level + 1);
                assert((paths@[k])@.len() == level + 1);
            }
            if paths@.len() == 0 && (exists|q: Seq<Seq<char>>| is_ladder(q, b, e, wl)) {
                assert(visit_next_level);
                assert(queue@.len() == 0);
                let q = choose|q: Seq<Seq<char>>| is_ladder(q, b, e, wl);
                assert forall|u: Seq<char>|
                    (u == b || has_key(parents.pairs(), u)) implies #[trigger] expanded(
                    u,
                    e,
                    dict,
                ) by {
                    assert(!in_queue(queue@, u));
                }
                assert(q[0] == b);
                lemma_no_ladder(wl, b, e, dict, parents, q, 0);
            }
        }
        paths
    }

    /// The word list of the worked example that reaches the target.
    pub fn text_fixture_1() -> (v: Vec<String>)
        ensures
            v.deep_view() == seq!["hot"@, "dot"@, "dog"@, "lot"@, "log"@, "cog"@],
    {
        let mut v: Vec<String> = Vec::new();
        v.push(String::from_str("hot"));
        v.push(String::from_str("dot"));
        v.push(String::from_str("dog"));
        v.push(String::from_str("lot"));
        v.push(String::from_str("log"));
        v.push(String::from_str("cog"));
        proof {
            assert(v.deep_view() =~= seq!["hot"@, "dot"@, "dog"@, "lot"@, "log"@, "cog"@]);
        }
        v
    }

    /// The same word list with the target removed.
    pub fn text_fixture_2() -> (v: Vec<String>)
        ensures
            v.deep_view() == seq!["hot"@, "dot"@, "dog"@, "lot"@, "log"@],
    {
        let mut v: Vec<String> = Vec::new();
        v.push(String::from_str("hot"));
        v.push(String::from_str("dot"));
        v.push(String::from_str("dog"));
        v.push(String::from_str("lot"));
        v.push(String::from_str("log"));
        proof {
            assert(v.deep_view() =~= seq!["hot"@, "dot"@, "dog"@, "lot"@, "log"@]);
        }
        v
    }

    /// A three-deep ancestry record rooted at "hit".
    pub fn text_fixture_3() -> (m: AncestryMap)
        ensures
            m.wf(),
            m.root_word() == "hit"@,
            m.pairs() == seq![("hot"@, "hit"@), ("dot"@, "hot"@), ("dog"@, "dot"@)],
    {
        proof {
            reveal_strlit("hit");
            reveal_strlit("hot");
            reveal_strlit("dot");
            reveal_strlit("dog");
        }
        let mut m = AncestryMap::new(String::from_str("hit"));
        proof {
            assert("hot"@[1] != "hit"@[1]);
        }
        m.insert(String::from_str("hot"), String::from_str("hit"));
        proof {
            assert(m.pairs()[0].0 == "hot"@);
            assert("dot"@[0] != "hot"@[0]);
            assert("dot"@[0] != "hit"@[0]);
            if has_key(m.pairs(), "dot"@) {
                let ki = key_index(m.pairs(), "dot"@);
                assert(m.pairs()[ki].0 == "dot"@);
            }
        }
        m.insert(String::from_str("dot"), String::from_str("hot"));
        proof {
            assert(m.pairs()[1].0 == "dot"@);
            assert("dog"@[2] != "dot"@[2]);
            assert("dog"@[0] != "hot"@[0]);
            assert("dog"@[0] != "hit"@[0]);
            if has_key(m.pairs(), "dog"@) {
                let ki = key_index(m.pairs(), "dog"@);
                assert(m.pairs()[ki].0 == "dog"@);
            }
        }
        m.insert(String::from_str("dog"), String::from_str("dot"));
        proof {
            assert(m.pairs() =~= seq![("hot"@, "hit"@), ("dot"@, "hot"@), ("dog"@, "dot"@)]);
        }
        m
    }
}

} // verus!
