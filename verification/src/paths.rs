//! The path model and the ordered path set.
//!
//! A path is a sequence of segments, relative to the base directory; the
//! empty sequence stands for the base itself and is never stored.  The set
//! keeps its paths strictly sorted in lexicographic segment order, which
//! gives uniqueness and a stable, deterministic iteration order (ancestors
//! always precede their descendants).

use vstd::prelude::*;
use vstd::assert_sets_equal;
use crate::text::{seq_char_lt, str_lt, str_eq, lemma_char_lt_trichotomy, lemma_char_lt_trans};

verus! {

/// Strict lexicographic order on paths: segment sequences compared
/// segment-by-segment with `seq_char_lt`, a proper prefix ordering first.
pub open spec fn path_lt(a: Seq<Seq<char>>, b: Seq<Seq<char>>) -> bool
    decreases a.len(),
{
    if b.len() == 0 {
        false
    } else if a.len() == 0 {
        true
    } else if a[0] == b[0] {
        path_lt(a.drop_first(), b.drop_first())
    } else {
        seq_char_lt(a[0], b[0])
    }
}

/// `path_lt` is a strict total order: exactly one of `a < b`, `b < a`,
/// `a == b` holds.
pub proof fn lemma_path_lt_trichotomy(a: Seq<Seq<char>>, b: Seq<Seq<char>>)
    ensures
        path_lt(a, b) || path_lt(b, a) || a == b,
        !(path_lt(a, b) && path_lt(b, a)),
        path_lt(a, b) ==> a != b,
    decreases a.len(),
{
    if a.len() == 0 && b.len() == 0 {
        assert(a =~= b);
    } else if a.len() > 0 && b.len() > 0 {
        if a[0] == b[0] {
            lemma_path_lt_trichotomy(a.drop_first(), b.drop_first());
            if a.drop_first() == b.drop_first() {
                assert(a =~= b) by {
                    assert(a.len() == b.len());
                    assert(forall|i: int|
                        1 <= i < a.len() ==> #[trigger] a[i] == a.drop_first()[i - 1]);
                    assert(forall|i: int|
                        1 <= i < b.len() ==> #[trigger] b[i] == b.drop_first()[i - 1]);
                }
            }
            if a == b {
                assert(a.drop_first() =~= b.drop_first());
            }
        } else {
            lemma_char_lt_trichotomy(a[0], b[0]);
        }
    }
}

/// `path_lt` is transitive.
pub proof fn lemma_path_lt_trans(a: Seq<Seq<char>>, b: Seq<Seq<char>>, c: Seq<Seq<char>>)
    requires
        path_lt(a, b),
        path_lt(b, c),
    ensures
        path_lt(a, c),
    decreases a.len(),
{
    if a.len() > 0 && b.len() > 0 && c.len() > 0 {
        if a[0] == b[0] && b[0] == c[0] {
            lemma_path_lt_trans(a.drop_first(), b.drop_first(), c.drop_first());
        } else if a[0] == b[0] {
            // b[0] differs from c[0], so seq_char_lt(b[0], c[0]) holds.
            lemma_char_lt_trichotomy(b[0], c[0]);
            assert(a[0] != c[0]);
        } else if b[0] == c[0] {
            lemma_char_lt_trichotomy(a[0], b[0]);
            assert(a[0] != c[0]);
        } else {
            lemma_char_lt_trans(a[0], b[0], c[0]);
            lemma_char_lt_trichotomy(a[0], c[0]);
        }
    }
}

/// Decides `path_lt` on vectors of segments.
pub fn path_lt_vec(a: &Vec<String>, b: &Vec<String>) -> (r: bool)
    ensures
        r == path_lt(a.deep_view(), b.deep_view()),
{
    let ghost av = a.deep_view();
    let ghost bv = b.deep_view();
    let mut i: usize = 0;
    proof {
        assert(av.skip(0) =~= av);
        assert(bv.skip(0) =~= bv);
    }
    loop
        invariant
            av == a.deep_view(),
            bv == b.deep_view(),
            av.len() == a@.len(),
            bv.len() == b@.len(),
            i <= av.len(),
            i <= bv.len(),
            path_lt(av, bv) == path_lt(av.skip(i as int), bv.skip(i as int)),
        decreases av.len() - i,
    {
        if i == b.len() {
            return false;
        }
        if i == a.len() {
            return true;
        }
        proof {
            assert(av.skip(i as int)[0] == av[i as int]);
            assert(bv.skip(i as int)[0] == bv[i as int]);
            assert(av[i as int] == a@[i as int]@);
            assert(bv[i as int] == b@[i as int]@);
        }
        if str_eq(a[i].as_str(), b[i].as_str()) {
            proof {
                assert(av.skip(i as int).drop_first() =~= av.skip(i + 1));
                assert(bv.skip(i as int).drop_first() =~= bv.skip(i + 1));
            }
            i += 1;
        } else {
            return str_lt(a[i].as_str(), b[i].as_str());
        }
    }
}

/// An ordered, deduplicated set of relative paths: the accumulated output
/// of path collection, iterated in sorted order for deterministic preview
/// and creation.
pub struct PathSet {
    paths: Vec<Vec<String>>,
}

impl View for PathSet {
    type V = Seq<Seq<Seq<char>>>;

    closed spec fn view(&self) -> Seq<Seq<Seq<char>>> {
        self.paths.deep_view()
    }
}

impl PathSet {
    /// Strictly sorted, hence free of duplicates.
    pub open spec fn wf(&self) -> bool {
        forall|i: int, j: int| 0 <= i < j < self@.len() ==> path_lt(self@[i], self@[j])
    }

    /// Strict sortedness makes the stored paths pairwise distinct, so the
    /// set's order is fit for materialization (no path is created twice in
    /// one run).
    pub proof fn lemma_no_duplicates(&self)
        requires
            self.wf(),
        ensures
            self@.no_duplicates(),
    {
        assert forall|i: int, j: int| 0 <= i < self@.len() && 0 <= j < self@.len() && i != j
            implies self@[i] != self@[j] by {
            if i < j {
                lemma_path_lt_trichotomy(self@[i], self@[j]);
            } else {
                lemma_path_lt_trichotomy(self@[j], self@[i]);
            }
        }
    }

    pub fn new() -> (s: Self)
        ensures
            s.wf(),
            s@ == Seq::<Seq<Seq<char>>>::empty(),
    {
        let s = PathSet { paths: Vec::new() };
        proof {
            assert(s@ =~= Seq::<Seq<Seq<char>>>::empty());
        }
        s
    }

    pub fn len(&self) -> (n: usize)
        ensures
            n == self@.len(),
    {
        self.paths.len()
    }

    pub fn is_empty(&self) -> (r: bool)
        ensures
            r == (self@.len() == 0),
    {
        self.paths.len() == 0
    }

    /// The path at a given position of the sorted order.
    pub fn path_at(&self, i: usize) -> (p: &Vec<String>)
        requires
            i < self@.len(),
        ensures
            p.deep_view() == self@[i as int],
    {
        &self.paths[i]
    }

    /// Inserts the path made of the first `k` segments of `p`, keeping the
    /// sorted order; a path already present is not duplicated.
    pub fn insert_prefix(&mut self, p: &Vec<String>, k: usize)
        requires
            old(self).wf(),
            1 <= k <= p@.len(),
        ensures
            final(self).wf(),
            final(self)@.to_set() == old(self)@.to_set().insert(
                p.deep_view().take(k as int),
            ),
    {
        let ghost old_dv = self@;
        // Build the prefix as its own vector.
        let mut q: Vec<String> = Vec::new();
        let mut j: usize = 0;
        while j < k
            invariant
                j <= k,
                k <= p@.len(),
                q@.len() == j,
                forall|t: int| 0 <= t < j ==> #[trigger] q.deep_view()[t] == p.deep_view()[t],
            decreases k - j,
        {
            let ghost prev = q@;
            let ghost prev_dv = q.deep_view();
            let s = p[j].clone();
            q.push(s);
            proof {
                assert forall|t: int| 0 <= t < j + 1 implies #[trigger] q.deep_view()[t]
                    == p.deep_view()[t] by {
                    assert(q.deep_view()[t] == q@[t].deep_view());
                    if t < j {
                        assert(q@[t] == prev[t]);
                        assert(prev_dv[t] == prev[t].deep_view());
                        assert(prev_dv[t] == p.deep_view()[t]);
                    } else {
                        assert(q@[t]@ == p@[t]@);
                        assert(p.deep_view()[t] == p@[t].deep_view());
                    }
                }
            }
            j += 1;
        }
        let ghost qv = q.deep_view();
        proof {
            assert(p.deep_view().len() == p@.len());
            assert(qv =~= p.deep_view().take(k as int));
        }
        // Find the insertion position.
        let mut idx: usize = 0;
        while idx < self.paths.len() && path_lt_vec(&self.paths[idx], &q)
            invariant
                self@ == old_dv,
                qv == q.deep_view(),
                idx <= self@.len(),
                self@.len() == self.paths@.len(),
                forall|t: int| 0 <= t < idx ==> path_lt(#[trigger] self@[t], qv),
            decreases self@.len() - idx,
        {
            proof {
                assert(self.paths@[idx as int].deep_view() == self@[idx as int]);
            }
            idx += 1;
        }
        proof {
            let i0 = idx as int;
            assert(idx < self@.len() ==> self.paths@[i0].deep_view() == self@[i0]);
        }
        if idx < self.paths.len() && !path_lt_vec(&q, &self.paths[idx]) {
            // Neither strictly smaller nor greater: the path is already present.
            proof {
                lemma_path_lt_trichotomy(qv, old_dv[idx as int]);
                assert(old_dv[idx as int] == qv);
                assert(old_dv.contains(qv));
                assert_sets_equal!(old_dv.to_set().insert(qv) == old_dv.to_set());
            }
            return;
        }
        proof {
            if idx < self@.len() {
                lemma_path_lt_trichotomy(qv, old_dv[idx as int]);
                assert(path_lt(qv, old_dv[idx as int]));
            }
            assert forall|t: int| idx < t < old_dv.len() implies path_lt(
                qv,
                #[trigger] old_dv[t],
            ) by {
                lemma_path_lt_trans(qv, old_dv[idx as int], old_dv[t]);
            }
        }
        self.paths.insert(idx, q);
        proof {
            let new_dv = self@;
            assert forall|t: int| 0 <= t < new_dv.len() implies #[trigger] new_dv[t] == (if t
                < idx {
                old_dv[t]
            } else if t == idx {
                qv
            } else {
                old_dv[t - 1]
            }) by {
                assert(new_dv[t] == self.paths@[t].deep_view());
            }
            assert(new_dv.len() == old_dv.len() + 1);
            assert forall|i: int, j: int| 0 <= i < j < new_dv.len() implies path_lt(
                new_dv[i],
                new_dv[j],
            ) by {
                assert(new_dv[i] == (if i < idx {
                    old_dv[i]
                } else if i == idx {
                    qv
                } else {
                    old_dv[i - 1]
                }));
                assert(new_dv[j] == (if j < idx {
                    old_dv[j]
                } else if j == idx {
                    qv
                } else {
                    old_dv[j - 1]
                }));
            }
            assert_sets_equal!(new_dv.to_set() == old_dv.to_set().insert(qv), elem => {
                if new_dv.to_set().contains(elem) {
                    let w = choose|w: int| 0 <= w < new_dv.len() && new_dv[w] == elem;
                    if w < idx {
                        assert(old_dv[w] == elem);
                        assert(old_dv.contains(elem));
                    } else if w > idx {
                        assert(old_dv[w - 1] == elem);
                        assert(old_dv.contains(elem));
                    }
                }
                if old_dv.to_set().insert(qv).contains(elem) {
                    if elem == qv {
                        assert(new_dv[idx as int] == elem);
                        assert(new_dv.contains(elem));
                    } else {
                        let w = choose|w: int| 0 <= w < old_dv.len() && old_dv[w] == elem;
                        if w < idx {
                            assert(new_dv[w] == elem);
                        } else {
                            assert(new_dv[w + 1] == elem);
                        }
                        assert(new_dv.contains(elem));
                    }
                }
            });
        }
    }
}

} // verus!
