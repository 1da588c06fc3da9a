//! The ancestry record: for every discovered word, the word that first
//! produced it.
//!
//! Entries are appended in discovery order, and every parent is either the
//! root (the start word, which never gets an entry of its own) or a word
//! recorded earlier. Walking parents from any recorded word therefore moves
//! strictly toward the front of the record and always ends at the root:
//! the record is a tree rooted at the start word.

use vstd::prelude::*;

verus! {

/// Whether some pair of `ps` has `w` as its first component.
pub open spec fn has_key(ps: Seq<(Seq<char>, Seq<char>)>, w: Seq<char>) -> bool {
    exists|i: int| 0 <= i < ps.len() && (#[trigger] ps[i]).0 == w
}

/// The index of the pair whose first component is `w`.
pub open spec fn key_index(ps: Seq<(Seq<char>, Seq<char>)>, w: Seq<char>) -> int {
    choose|i: int| 0 <= i < ps.len() && (#[trigger] ps[i]).0 == w
}

/// The recorded parent of `w`.
pub open spec fn parent_in(ps: Seq<(Seq<char>, Seq<char>)>, w: Seq<char>) -> Seq<char> {
    ps[key_index(ps, w)].1
}

/// No word is recorded twice.
pub open spec fn distinct_keys(ps: Seq<(Seq<char>, Seq<char>)>) -> bool {
    forall|i: int, j: int|
        0 <= i < j < ps.len() ==> (#[trigger] ps[i]).0 != (#[trigger] ps[j]).0
}

/// The record forms a tree rooted at `root`: keys are distinct, the root is
/// never recorded, and every parent is the root or an earlier key.
pub open spec fn wf_pairs(root: Seq<char>, ps: Seq<(Seq<char>, Seq<char>)>) -> bool {
    &&& distinct_keys(ps)
    &&& forall|i: int| 0 <= i < ps.len() ==> (#[trigger] ps[i]).0 != root
    &&& forall|i: int|
        0 <= i < ps.len() ==> ((#[trigger] ps[i]).1 == root || exists|j: int|
            0 <= j < i && (#[trigger] ps[j]).0 == ps[i].1)
}

/// The ancestors of `w`: the words on the recorded walk from the root down
/// to (and including) `w`'s parent; empty when `w` has no entry.
pub open spec fn chain(ps: Seq<(Seq<char>, Seq<char>)>, w: Seq<char>) -> Seq<Seq<char>>
    decreases ps.len(),
{
    if has_key(ps, w) {
        let i = key_index(ps, w);
        chain(ps.take(i), ps[i].1).push(ps[i].1)
    } else {
        Seq::<Seq<char>>::empty()
    }
}

/// Any index holding key `w` is `key_index(ps, w)`.
pub proof fn lemma_key_index_unique(ps: Seq<(Seq<char>, Seq<char>)>, w: Seq<char>, i: int)
    requires
        distinct_keys(ps),
        0 <= i < ps.len(),
        ps[i].0 == w,
    ensures
        has_key(ps, w),
        key_index(ps, w) == i,
{
    assert(has_key(ps, w));
    let k = key_index(ps, w);
    assert(ps[k].0 == w);
    if k < i {
        assert(ps[k].0 != ps[i].0);
    } else if i < k {
        assert(ps[i].0 != ps[k].0);
    }
}

/// Taking a prefix that still holds `w`'s entry (and all earlier ones)
/// leaves `w`'s ancestor chain unchanged.
pub proof fn lemma_chain_prefix(ps: Seq<(Seq<char>, Seq<char>)>, m: int, w: Seq<char>)
    requires
        distinct_keys(ps),
        0 <= m <= ps.len(),
        has_key(ps, w) ==> key_index(ps, w) < m,
    ensures
        chain(ps.take(m), w) == chain(ps, w),
{
    let pm = ps.take(m);
    if has_key(ps, w) {
        let i = key_index(ps, w);
        assert(ps[i].0 == w);
        assert(pm[i] == ps[i]);
        lemma_key_index_unique_take(ps, m, w, i);
        assert(pm.take(i) =~= ps.take(i));
        assert(chain(pm, w) == chain(pm.take(i), pm[i].1).push(pm[i].1));
        assert(chain(ps, w) == chain(ps.take(i), ps[i].1).push(ps[i].1));
    } else {
        if has_key(pm, w) {
            let j = key_index(pm, w);
            assert(pm[j].0 == w);
            assert(ps[j].0 == w);
            assert(has_key(ps, w));
        }
        assert(chain(pm, w) == Seq::<Seq<char>>::empty());
    }
}

/// Helper for `lemma_chain_prefix`: the key index within the prefix agrees.
proof fn lemma_key_index_unique_take(ps: Seq<(Seq<char>, Seq<char>)>, m: int, w: Seq<char>, i: int)
    requires
        distinct_keys(ps),
        0 <= i < m <= ps.len(),
        ps[i].0 == w,
    ensures
        has_key(ps.take(m), w),
        key_index(ps.take(m), w) == i,
{
    let pm = ps.take(m);
    assert(pm[i] == ps[i]);
    assert(has_key(pm, w));
    let k = key_index(pm, w);
    assert(pm[k].0 == w);
    assert(ps[k].0 == w);
    if k < i {
        assert(ps[k].0 != ps[i].0);
    } else if i < k {
        assert(ps[i].0 != ps[k].0);
    }
}

/// In a well-formed record the chain of `w` is its parent's chain, extended
/// by the parent.
pub proof fn lemma_chain_unfold(root: Seq<char>, ps: Seq<(Seq<char>, Seq<char>)>, w: Seq<char>)
    requires
        wf_pairs(root, ps),
        has_key(ps, w),
    ensures
        chain(ps, w) == chain(ps, parent_in(ps, w)).push(parent_in(ps, w)),
{
    let i = key_index(ps, w);
    assert(ps[i].0 == w);
    let v = ps[i].1;
    if v == root {
        if has_key(ps, v) {
            let k = key_index(ps, v);
            assert(ps[k].0 == v);
        }
        assert(!has_key(ps, v));
        if has_key(ps.take(i), v) {
            let k = key_index(ps.take(i), v);
            assert(ps.take(i)[k].0 == v);
            assert(ps[k].0 == v);
            assert(has_key(ps, v));
        }
        assert(chain(ps.take(i), v) == Seq::<Seq<char>>::empty());
        assert(chain(ps, v) == Seq::<Seq<char>>::empty());
    } else {
        let j = choose|j: int| 0 <= j < i && (#[trigger] ps[j]).0 == v;
        assert(0 <= j < i && ps[j].0 == v);
        lemma_key_index_unique(ps, v, j);
        lemma_chain_prefix(ps, i, v);
    }
}

/// Appending a fresh entry `(c, p)` leaves every other word's chain
/// unchanged and gives `c` the chain of `p`, extended by `p`.
pub proof fn lemma_insert_chains(
    ps: Seq<(Seq<char>, Seq<char>)>,
    c: Seq<char>,
    p: Seq<char>,
    w: Seq<char>,
)
    requires
        distinct_keys(ps),
        !has_key(ps, c),
    ensures
        w != c ==> chain(ps.push((c, p)), w) == chain(ps, w),
        w == c ==> chain(ps.push((c, p)), w) == chain(ps, p).push(p),
{
    let ps2 = ps.push((c, p));
    let n = ps.len() as int;
    assert(ps2[n] == (c, p));
    if w == c {
        assert(distinct_keys(ps2)) by {
            assert forall|a: int, b: int|
                0 <= a < b < ps2.len() implies (#[trigger] ps2[a]).0 != (#[trigger] ps2[b]).0 by {
                if b < n {
                    assert(ps2[a] == ps[a]);
                    assert(ps2[b] == ps[b]);
                } else {
                    assert(ps2[a] == ps[a]);
                    if ps[a].0 == c {
                        assert(has_key(ps, c));
                    }
                }
            }
        }
        lemma_key_index_unique(ps2, c, n);
        assert(ps2.take(n) =~= ps);
        assert(chain(ps2, c) == chain(ps2.take(n), p).push(p));
    } else {
        if has_key(ps, w) {
            let i = key_index(ps, w);
            assert(ps[i].0 == w);
            assert(ps2[i] == ps[i]);
            assert(distinct_keys(ps2)) by {
                assert forall|a: int, b: int|
                    0 <= a < b < ps2.len() implies (#[trigger] ps2[a]).0 != (
                #[trigger] ps2[b]).0 by {
                    if b < n {
                        assert(ps2[a] == ps[a]);
                        assert(ps2[b] == ps[b]);
                    } else {
                        assert(ps2[a] == ps[a]);
                        if ps[a].0 == c {
                            assert(has_key(ps, c));
                        }
                    }
                }
            }
            lemma_key_index_unique(ps2, w, i);
            assert(ps2.take(i) =~= ps.take(i));
            assert(chain(ps2, w) == chain(ps2.take(i), ps2[i].1).push(ps2[i].1));
            assert(chain(ps, w) == chain(ps.take(i), ps[i].1).push(ps[i].1));
        } else {
            if has_key(ps2, w) {
                let k = key_index(ps2, w);
                assert(ps2[k].0 == w);
                if k < n {
                    assert(ps2[k] == ps[k]);
                    assert(has_key(ps, w));
                }
            }
            assert(!has_key(ps2, w));
            assert(chain(ps2, w) == Seq::<Seq<char>>::empty());
            assert(chain(ps, w) == Seq::<Seq<char>>::empty());
        }
    }
}

/// Structure of a chain in a well-formed record: it starts at the root,
/// ends at the parent of `w`, every later element is itself recorded, and
/// consecutive elements are linked by the parent relation.
pub proof fn lemma_chain_props(root: Seq<char>, ps: Seq<(Seq<char>, Seq<char>)>, w: Seq<char>)
    requires
        wf_pairs(root, ps),
        has_key(ps, w),
    ensures
        chain(ps, w).len() >= 1,
        chain(ps, w)[0] == root,
        chain(ps, w).last() == parent_in(ps, w),
        forall|j: int| 1 <= j < chain(ps, w).len() ==> has_key(ps, #[trigger] chain(ps, w)[j]),
        forall|j: int|
            0 <= j < chain(ps, w).len() - 1 ==> parent_in(ps, chain(ps, w)[j + 1]) == #[trigger] chain(
                ps,
                w,
            )[j],
    decreases key_index(ps, w),
{
    lemma_chain_unfold(root, ps, w);
    let i = key_index(ps, w);
    assert(ps[i].0 == w);
    let v = ps[i].1;
    assert(parent_in(ps, w) == v);
    let c = chain(ps, w);
    if v == root {
        if has_key(ps, v) {
            let k = key_index(ps, v);
            assert(ps[k].0 == v);
        }
        assert(!has_key(ps, v));
        assert(chain(ps, v) == Seq::<Seq<char>>::empty());
        assert(c == Seq::<Seq<char>>::empty().push(v));
        assert(c.len() == 1);
        assert(c[0] == root);
    } else {
        let j = choose|j: int| 0 <= j < i && (#[trigger] ps[j]).0 == v;
        assert(0 <= j < i && ps[j].0 == v);
        lemma_key_index_unique(ps, v, j);
        lemma_chain_props(root, ps, v);
        let cv = chain(ps, v);
        assert(c == cv.push(v));
        assert(c[0] == cv[0]);
        assert(c.last() == v);
        assert forall|k: int| 1 <= k < c.len() implies has_key(ps, #[trigger] c[k]) by {
            if k < cv.len() {
                assert(c[k] == cv[k]);
            } else {
                assert(c[k] == v);
            }
        }
        assert forall|k: int|
            0 <= k < c.len() - 1 implies parent_in(ps, c[k + 1]) == #[trigger] c[k] by {
            if k + 1 < cv.len() {
                assert(c[k + 1] == cv[k + 1]);
                assert(c[k] == cv[k]);
                assert(parent_in(ps, cv[k + 1]) == cv[k]);
            } else {
                assert(c[k + 1] == v);
                assert(parent_in(ps, v) == cv.last());
                assert(c[k] == cv[k]);
            }
        }
    }
}

/// The ancestry record. `wf` holds for every value built by `new` and is
/// preserved by `insert`.
pub struct AncestryMap {
    root: String,
    entries: Vec<(String, String)>,
}

impl AncestryMap {
    /// The recorded (word, parent) pairs, in discovery order.
    pub closed spec fn pairs(&self) -> Seq<(Seq<char>, Seq<char>)> {
        self.entries@.map_values(|p: (String, String)| (p.0@, p.1@))
    }

    /// The word the tree is rooted at: the only reachable word without an
    /// entry of its own.
    pub closed spec fn root_word(&self) -> Seq<char> {
        self.root@
    }

    /// The record is a tree rooted at `root_word`.
    pub open spec fn wf(&self) -> bool {
        wf_pairs(self.root_word(), self.pairs())
    }

    /// Whether `w` has a recorded parent.
    pub open spec fn spec_has_key(&self, w: Seq<char>) -> bool {
        has_key(self.pairs(), w)
    }

    /// An empty record rooted at `root`.
    pub fn new(root: String) -> (m: AncestryMap)
        ensures
            m.wf(),
            m.root_word() == root@,
            m.pairs() == Seq::<(Seq<char>, Seq<char>)>::empty(),
    {
        let m = AncestryMap { root, entries: Vec::new() };
        proof {
            assert(m.pairs() =~= Seq::<(Seq<char>, Seq<char>)>::empty());
        }
        m
    }

    /// The index of `w`'s entry, if one is recorded.
    fn find(&self, w: &String) -> (r: Option<usize>)
        ensures
            match r {
                Some(i) => i < self.pairs().len() && self.pairs()[i as int].0 == w@,
                None => !has_key(self.pairs(), w@),
            },
    {
        let mut i: usize = 0;
        while i < self.entries.len()
            invariant
                i <= self.entries@.len(),
                forall|j: int| 0 <= j < i ==> (#[trigger] self.pairs()[j]).0 != w@,
            decreases self.entries@.len() - i,
        {
            let e = &self.entries[i];
            if e.0 == *w {
                return Some(i);
            }
            i = i + 1;
        }
        proof {
            if has_key(self.pairs(), w@) {
                let k = key_index(self.pairs(), w@);
                assert(self.pairs()[k].0 == w@);
            }
        }
        None
    }

    /// Whether `w` has a recorded parent.
    pub fn contains_key(&self, w: &String) -> (r: bool)
        ensures
            r == self.spec_has_key(w@),
    {
        match self.find(w) {
            Some(i) => {
                proof {
                    assert(self.pairs()[i as int].0 == w@);
                }
                true
            },
            None => false,
        }
    }

    /// Records that `child` was first produced by `parent`. `child` must be
    /// new, must not be the root, and `parent` must already be reachable.
    pub fn insert(&mut self, child: String, parent: String)
        requires
            old(self).wf(),
            !old(self).spec_has_key(child@),
            child@ != old(self).root_word(),
            parent@ == old(self).root_word() || old(self).spec_has_key(parent@),
        ensures
            final(self).wf(),
            final(self).root_word() == old(self).root_word(),
            final(self).pairs() == old(self).pairs().push((child@, parent@)),
    {
        let ghost ps = self.pairs();
        let ghost c = child@;
        let ghost p = parent@;
        let ghost root = self.root_word();
        self.entries.push((child, parent));
        proof {
            let ps2 = self.pairs();
            let n = ps.len() as int;
            assert(ps2 =~= ps.push((c, p)));
            assert forall|a: int, b: int|
                0 <= a < b < ps2.len() implies (#[trigger] ps2[a]).0 != (#[trigger] ps2[b]).0 by {
                if b < n {
                    assert(ps2[a] == ps[a]);
                    assert(ps2[b] == ps[b]);
                } else {
                    assert(ps2[a] == ps[a]);
                    if ps[a].0 == c {
                        assert(has_key(ps, c));
                    }
                }
            }
            assert forall|a: int| 0 <= a < ps2.len() implies (#[trigger] ps2[a]).0 != root by {
                if a < n {
                    assert(ps2[a] == ps[a]);
                }
            }
            assert forall|a: int|
                0 <= a < ps2.len() implies ((#[trigger] ps2[a]).1 == root || exists|j: int|
                    0 <= j < a && (#[trigger] ps2[j]).0 == ps2[a].1) by {
                if a < n {
                    assert(ps2[a] == ps[a]);
                    if ps[a].1 != root {
                        let j = choose|j: int| 0 <= j < a && (#[trigger] ps[j]).0 == ps[a].1;
                        assert(ps2[j] == ps[j]);
                        assert(ps2[j].0 == ps2[a].1);
                    }
                } else {
                    if p != root {
                        let j = key_index(ps, p);
                        assert(ps[j].0 == p);
                        assert(ps2[j] == ps[j]);
                        assert(ps2[j].0 == ps2[a].1);
                    }
                }
            }
        }
    }

    /// The recorded ancestors of `w`, in root-first order; empty when `w`
    /// has no entry. `bound` limits how far back an entry may sit.
    fn ancestors_from(&self, w: &String, bound: usize) -> (r: Vec<String>)
        requires
            self.wf(),
            bound <= self.pairs().len(),
            has_key(self.pairs(), w@) ==> key_index(self.pairs(), w@) < bound,
        ensures
            r.deep_view() == chain(self.pairs(), w@),
        decreases bound,
    {
        let ps = Ghost(self.pairs());
        match self.find(w) {
            None => {
                let r: Vec<String> = Vec::new();
                proof {
                    assert(r.deep_view() =~= chain(ps@, w@));
                }
                r
            },
            Some(i) => {
                proof {
                    lemma_key_index_unique(ps@, w@, i as int);
                }
                let e = &self.entries[i];
                let parent = e.1.clone();
                proof {
                    assert(parent@ == ps@[i as int].1);
                    if has_key(ps@, parent@) {
                        if ps@[i as int].1 == self.root_word() {
                            let k = key_index(ps@, parent@);
                            assert(ps@[k].0 == parent@);
                        } else {
                            let j = choose|j: int|
                                0 <= j < i && (#[trigger] ps@[j]).0 == ps@[i as int].1;
                            lemma_key_index_unique(ps@, parent@, j);
                        }
                    }
                }
                let mut r = self.ancestors_from(&parent, i);
                let ghost below = r.deep_view();
                r.push(parent);
                proof {
                    lemma_chain_prefix(ps@, i as int, ps@[i as int].1);
                    assert(chain(ps@, w@) == chain(ps@.take(i as int), ps@[i as int].1).push(
                        ps@[i as int].1,
                    ));
                    assert(r.deep_view() =~= below.push(ps@[i as int].1));
                    assert(r.deep_view() =~= chain(ps@, w@));
                }
                r
            },
        }
    }

    /// The recorded ancestors of `node`, from the root down to its parent;
    /// empty when `node` has no entry.
    pub fn ancestors(&self, node: &String) -> (r: Vec<String>)
        requires
            self.wf(),
        ensures
            r.deep_view() == chain(self.pairs(), node@),
    {
        let n = self.entries.len();
        proof {
            if has_key(self.pairs(), node@) {
                let k = key_index(self.pairs(), node@);
                assert(self.pairs()[k].0 == node@);
            }
        }
        self.ancestors_from(node, n)
    }
}

} // verus!
