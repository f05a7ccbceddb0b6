//! Path collection: walking each group's tokens with a directory cursor,
//! emitting every resolved path together with all of its ancestors.
//!
//! A token equal to the ascend marker moves the cursor to its parent,
//! clamped at the base.  Any other token is split at slashes into segments
//! (empty segments and bare dots are dropped, an embedded ascend segment
//! pops one level, clamped at the base) and resolved against the cursor;
//! the resolved path and all its ancestors enter the set.  The cursor
//! descends into the resolved path only when its final segment is
//! directory-like.

use vstd::prelude::*;
use vstd::assert_sets_equal;
use crate::classify::{dir_like, classify_segment};
use crate::paths::PathSet;
use crate::text::str_eq;

verus! {

/// The reserved ascend-one-level token.
pub open spec fn ascend_token() -> Seq<char> {
    seq!['.', '.']
}

/// The current-directory segment, dropped during resolution.
pub open spec fn dot_token() -> Seq<char> {
    seq!['.']
}

/// Splitting a sequence at a separator character, with the piece built so
/// far as the accumulator.
pub open spec fn split_rec(t: Seq<char>, cur: Seq<char>, sep: char) -> Seq<Seq<char>>
    decreases t.len(),
{
    if t.len() == 0 {
        seq![cur]
    } else if t[0] == sep {
        seq![cur] + split_rec(t.drop_first(), Seq::empty(), sep)
    } else {
        split_rec(t.drop_first(), cur.push(t[0]), sep)
    }
}

/// Splitting a sequence at every occurrence of a separator (empty pieces
/// kept).
pub open spec fn split_at_char(t: Seq<char>, sep: char) -> Seq<Seq<char>> {
    split_rec(t, Seq::empty(), sep)
}

/// The raw pieces of a token, split at slashes (empty pieces kept).
pub open spec fn split_slashes(t: Seq<char>) -> Seq<Seq<char>> {
    split_at_char(t, '/')
}

/// One resolution step: empty pieces and bare dots are dropped, an ascend
/// piece pops one level (a no-op at the base), anything else descends.
pub open spec fn resolve_step(cursor: Seq<Seq<char>>, piece: Seq<char>) -> Seq<Seq<char>> {
    if piece.len() == 0 || piece == dot_token() {
        cursor
    } else if piece == ascend_token() {
        if cursor.len() > 0 {
            cursor.drop_last()
        } else {
            cursor
        }
    } else {
        cursor.push(piece)
    }
}

/// Resolving a token's pieces against the cursor.
pub open spec fn resolve(cursor: Seq<Seq<char>>, pieces: Seq<Seq<char>>) -> Seq<Seq<char>>
    decreases pieces.len(),
{
    if pieces.len() == 0 {
        cursor
    } else {
        resolve(resolve_step(cursor, pieces[0]), pieces.drop_first())
    }
}

/// The path a non-ascend token resolves to against the cursor.
pub open spec fn token_target(cursor: Seq<Seq<char>>, token: Seq<char>) -> Seq<Seq<char>> {
    resolve(cursor, split_slashes(token))
}

/// The non-empty prefixes of a path, up to length `k`: the path itself and
/// all of its ancestors below the base.
pub open spec fn prefixes_upto(p: Seq<Seq<char>>, k: int) -> Set<Seq<Seq<char>>> {
    Set::new(|q: Seq<Seq<char>>| exists|i: int| 1 <= i <= k && i <= p.len() && q == #[trigger] p.take(i))
}

/// The non-empty prefixes of a path: the path itself and all its ancestors
/// below the base.
pub open spec fn prefixes(p: Seq<Seq<char>>) -> Set<Seq<Seq<char>>> {
    prefixes_upto(p, p.len() as int)
}

/// The paths a token adds to the set: nothing for the ascend token or a
/// token resolving to the base, else the resolved path with its ancestors.
pub open spec fn token_emits(cursor: Seq<Seq<char>>, token: Seq<char>) -> Set<Seq<Seq<char>>> {
    if token == ascend_token() {
        Set::empty()
    } else {
        let r = token_target(cursor, token);
        if r.len() == 0 {
            Set::empty()
        } else {
            prefixes(r)
        }
    }
}

/// The cursor after a token: the ascend token pops one level (a no-op at
/// the base); a token resolving to a directory-like path descends into it;
/// anything else leaves the cursor alone.
pub open spec fn token_next_cursor(cursor: Seq<Seq<char>>, token: Seq<char>) -> Seq<Seq<char>> {
    if token == ascend_token() {
        if cursor.len() > 0 {
            cursor.drop_last()
        } else {
            cursor
        }
    } else {
        let r = token_target(cursor, token);
        if r.len() > 0 && dir_like(r.last()) {
            r
        } else {
            cursor
        }
    }
}

/// The set accumulated by walking a group's remaining tokens.
pub open spec fn collect_group_rec(
    tokens: Seq<Seq<char>>,
    cursor: Seq<Seq<char>>,
    acc: Set<Seq<Seq<char>>>,
) -> Set<Seq<Seq<char>>>
    decreases tokens.len(),
{
    if tokens.len() == 0 {
        acc
    } else {
        collect_group_rec(
            tokens.drop_first(),
            token_next_cursor(cursor, tokens[0]),
            acc.union(token_emits(cursor, tokens[0])),
        )
    }
}

/// The set accumulated by one group, its cursor starting at the base.
pub open spec fn collect_group(tokens: Seq<Seq<char>>, acc: Set<Seq<Seq<char>>>) -> Set<
    Seq<Seq<char>>,
> {
    collect_group_rec(tokens, Seq::empty(), acc)
}

/// The set accumulated by all groups in order, sharing one accumulator.
pub open spec fn collect_groups_spec(
    groups: Seq<Seq<Seq<char>>>,
    acc: Set<Seq<Seq<char>>>,
) -> Set<Seq<Seq<char>>>
    decreases groups.len(),
{
    if groups.len() == 0 {
        acc
    } else {
        collect_groups_spec(groups.drop_first(), collect_group(groups[0], acc))
    }
}

/// Ancestor closure: the base is never stored, and every stored path of
/// depth greater than one has its immediate parent stored too (a depth-one
/// path's parent is the base itself).
pub open spec fn ancestor_closed(s: Set<Seq<Seq<char>>>) -> bool {
    forall|p: Seq<Seq<char>>|
        #[trigger] s.contains(p) ==> p.len() >= 1 && (p.len() > 1 ==> s.contains(p.drop_last()))
}

proof fn lemma_prefixes_closed(r: Seq<Seq<char>>, acc: Set<Seq<Seq<char>>>)
    requires
        ancestor_closed(acc),
    ensures
        ancestor_closed(acc.union(prefixes(r))),
{
    assert forall|p: Seq<Seq<char>>| #[trigger] acc.union(prefixes(r)).contains(p) implies p.len()
        >= 1 && (p.len() > 1 ==> acc.union(prefixes(r)).contains(p.drop_last())) by {
        if prefixes(r).contains(p) {
            let i = choose|i: int|
                1 <= i <= r.len() as int && i <= r.len() && p == #[trigger] r.take(i);
            assert(p.len() == i);
            if p.len() > 1 {
                assert(r.take(i).drop_last() =~= r.take(i - 1));
                assert(prefixes(r).contains(r.take(i - 1)));
            }
        } else {
            assert(acc.contains(p));
        }
    }
}

proof fn lemma_group_rec_closed(
    tokens: Seq<Seq<char>>,
    cursor: Seq<Seq<char>>,
    acc: Set<Seq<Seq<char>>>,
)
    requires
        ancestor_closed(acc),
    ensures
        ancestor_closed(collect_group_rec(tokens, cursor, acc)),
    decreases tokens.len(),
{
    if tokens.len() > 0 {
        let em = token_emits(cursor, tokens[0]);
        if tokens[0] == ascend_token() {
            assert(acc.union(em) =~= acc);
        } else {
            let r = token_target(cursor, tokens[0]);
            if r.len() == 0 {
                assert(acc.union(em) =~= acc);
            } else {
                lemma_prefixes_closed(r, acc);
            }
        }
        lemma_group_rec_closed(
            tokens.drop_first(),
            token_next_cursor(cursor, tokens[0]),
            acc.union(em),
        );
    }
}

/// The ancestor-closure invariant: starting from an ancestor-closed
/// accumulator (in particular the empty set), collection yields a set in
/// which every path's parent is present too, unless that parent is the
/// base directory; the base itself is never stored.
pub proof fn lemma_ancestor_closure(groups: Seq<Seq<Seq<char>>>, acc: Set<Seq<Seq<char>>>)
    requires
        ancestor_closed(acc),
    ensures
        ancestor_closed(collect_groups_spec(groups, acc)),
    decreases groups.len(),
{
    if groups.len() > 0 {
        lemma_group_rec_closed(groups[0], Seq::empty(), acc);
        lemma_ancestor_closure(groups.drop_first(), collect_group(groups[0], acc));
    }
}

/// Ascending is clamped at the base: at the base it is a no-op, elsewhere
/// it moves to the parent; it never emits a path and never leaves the base
/// (the cursor is a path at or below the base by construction).
pub proof fn lemma_ascend_clamped(cursor: Seq<Seq<char>>)
    ensures
        token_next_cursor(Seq::<Seq<char>>::empty(), ascend_token()) == Seq::<Seq<char>>::empty(),
        cursor.len() > 0 ==> token_next_cursor(cursor, ascend_token()) == cursor.drop_last(),
        token_next_cursor(cursor, ascend_token()).len() <= cursor.len(),
        token_emits(cursor, ascend_token()) == Set::<Seq<Seq<char>>>::empty(),
{
}

/// Splits a string at every occurrence of a separator into its raw pieces.
pub fn split_token(t: &str, sep: char) -> (pieces: Vec<String>)
    ensures
        pieces.deep_view() == split_at_char(t@, sep),
{
    let n = t.unicode_len();
    let mut pieces: Vec<String> = Vec::new();
    let mut start: usize = 0;
    let mut i: usize = 0;
    proof {
        assert(t@.skip(0) =~= t@);
        assert(t@.subrange(0, 0) =~= Seq::<char>::empty());
        assert(pieces.deep_view() =~= Seq::<Seq<char>>::empty());
        assert(Seq::<Seq<char>>::empty() + split_at_char(t@, sep) =~= split_at_char(t@, sep));
    }
    while i < n
        invariant
            n == t@.len(),
            start <= i <= n,
            split_at_char(t@, sep) == pieces.deep_view() + split_rec(
                t@.skip(i as int),
                t@.subrange(start as int, i as int),
                sep,
            ),
        decreases n - i,
    {
        proof {
            assert(t@.skip(i as int)[0] == t@[i as int]);
            assert(t@.skip(i as int).drop_first() =~= t@.skip(i + 1));
        }
        if t.get_char(i) == sep {
            let piece = t.substring_char(start, i).to_owned();
            let ghost prev = pieces.deep_view();
            pieces.push(piece);
            proof {
                assert(pieces.deep_view() =~= prev.push(t@.subrange(start as int, i as int)));
                assert(prev.push(t@.subrange(start as int, i as int)) + split_rec(
                    t@.skip(i + 1),
                    Seq::empty(),
                    sep,
                ) =~= prev + (seq![t@.subrange(start as int, i as int)] + split_rec(
                    t@.skip(i + 1),
                    Seq::empty(),
                    sep,
                )));
                assert(t@.subrange(i + 1, i + 1) =~= Seq::<char>::empty());
            }
            i += 1;
            start = i;
        } else {
            proof {
                assert(t@.subrange(start as int, i as int).push(t@[i as int]) =~= t@.subrange(
                    start as int,
                    i + 1,
                ));
            }
            i += 1;
        }
    }
    proof {
        assert(t@.skip(n as int) =~= Seq::<char>::empty());
    }
    let piece = t.substring_char(start, n).to_owned();
    let ghost prev = pieces.deep_view();
    pieces.push(piece);
    proof {
        assert(pieces.deep_view() =~= prev.push(t@.subrange(start as int, n as int)));
        assert(prev.push(t@.subrange(start as int, n as int)) =~= prev + seq![
            t@.subrange(start as int, n as int),
        ]);
    }
    pieces
}

/// Copies a cursor so resolution leaves the original untouched.
fn clone_segs(v: &Vec<String>) -> (r: Vec<String>)
    ensures
        r.deep_view() == v.deep_view(),
{
    let mut r: Vec<String> = Vec::new();
    let mut i: usize = 0;
    while i < v.len()
        invariant
            i <= v@.len(),
            r@.len() == i,
            forall|t: int| 0 <= t < i ==> #[trigger] r.deep_view()[t] == v.deep_view()[t],
        decreases v@.len() - i,
    {
        let ghost prev = r@;
        let ghost prev_dv = r.deep_view();
        let s = v[i].clone();
        r.push(s);
        proof {
            assert forall|t: int| 0 <= t < i + 1 implies #[trigger] r.deep_view()[t]
                == v.deep_view()[t] by {
                assert(r.deep_view()[t] == r@[t].deep_view());
                if t < i {
                    assert(r@[t] == prev[t]);
                    assert(prev_dv[t] == prev[t].deep_view());
                } else {
                    assert(r@[t]@ == v@[t]@);
                    assert(v.deep_view()[t] == v@[t].deep_view());
                }
            }
        }
        i += 1;
    }
    proof {
        assert(r.deep_view() =~= v.deep_view());
    }
    r
}

/// Resolves a token's pieces against the cursor.
fn resolve_pieces(cursor: &Vec<String>, pieces: &Vec<String>) -> (r: Vec<String>)
    ensures
        r.deep_view() == resolve(cursor.deep_view(), pieces.deep_view()),
{
    let ghost pv = pieces.deep_view();
    let mut r = clone_segs(cursor);
    let mut j: usize = 0;
    proof {
        assert(pv.skip(0) =~= pv);
    }
    while j < pieces.len()
        invariant
            pv == pieces.deep_view(),
            pv.len() == pieces@.len(),
            j <= pv.len(),
            resolve(cursor.deep_view(), pv) == resolve(r.deep_view(), pv.skip(j as int)),
        decreases pv.len() - j,
    {
        proof {
            assert(pv.skip(j as int)[0] == pv[j as int]);
            assert(pv.skip(j as int).drop_first() =~= pv.skip(j + 1));
            assert(pv[j as int] == pieces@[j as int]@);
        }
        let piece = &pieces[j];
        let is_empty = piece.as_str().is_empty();
        let is_dot = str_eq(piece.as_str(), ".");
        let is_ascend = str_eq(piece.as_str(), "..");
        proof {
            reveal_strlit(".");
            reveal_strlit("..");
            assert("."@ =~= dot_token());
            assert(".."@ =~= ascend_token());
        }
        if is_empty || is_dot {
            // dropped
        } else if is_ascend {
            if r.len() > 0 {
                let ghost before = r.deep_view();
                let ghost before_raw = r@;
                let _popped = r.pop();
                proof {
                    assert(r@ =~= before_raw.drop_last());
                    assert(r.deep_view() =~= before.drop_last()) by {
                        assert forall|t: int| 0 <= t < r@.len() implies #[trigger] r.deep_view()[t]
                            == before.drop_last()[t] by {
                            assert(r.deep_view()[t] == r@[t].deep_view());
                            assert(r@[t] == before_raw[t]);
                            assert(before[t] == before_raw[t].deep_view());
                        }
                    }
                }
            }
        } else {
            let ghost before = r.deep_view();
            let ghost before_raw = r@;
            let s = piece.clone();
            r.push(s);
            proof {
                assert(r.deep_view() =~= before.push(pv[j as int])) by {
                    assert forall|t: int| 0 <= t < r@.len() implies #[trigger] r.deep_view()[t]
                        == before.push(pv[j as int])[t] by {
                        assert(r.deep_view()[t] == r@[t].deep_view());
                        if t < r@.len() - 1 {
                            assert(r@[t] == before_raw[t]);
                            assert(before[t] == before_raw[t].deep_view());
                        }
                    }
                }
            }
        }
        j += 1;
    }
    proof {
        assert(pv.skip(pv.len() as int) =~= Seq::<Seq<char>>::empty());
    }
    r
}

/// Inserts a path and all of its ancestors into the set.
fn insert_with_ancestors(set: &mut PathSet, p: &Vec<String>)
    requires
        old(set).wf(),
        p@.len() >= 1,
    ensures
        final(set).wf(),
        final(set)@.to_set() == old(set)@.to_set().union(prefixes(p.deep_view())),
{
    let ghost s0 = old(set)@.to_set();
    let ghost pv = p.deep_view();
    let mut k: usize = 0;
    proof {
        assert(pv.len() == p@.len());
        assert_sets_equal!(s0.union(prefixes_upto(pv, 0)) == s0, elem => {
        });
    }
    while k < p.len()
        invariant
            set.wf(),
            pv == p.deep_view(),
            pv.len() == p@.len(),
            k <= p@.len(),
            set@.to_set() == s0.union(prefixes_upto(pv, k as int)),
        decreases p@.len() - k,
    {
        set.insert_prefix(p, k + 1);
        proof {
            assert_sets_equal!(s0.union(prefixes_upto(pv, k as int)).insert(pv.take(k + 1))
                == s0.union(prefixes_upto(pv, k + 1)), elem => {
                if elem == pv.take(k + 1) {
                    assert(prefixes_upto(pv, k + 1).contains(pv.take(k + 1)));
                }
            });
        }
        k += 1;
    }
}

/// Applies one token: updates the set with what the token emits and
/// returns the new cursor.
fn apply_token(set: &mut PathSet, cursor: Vec<String>, token: &String) -> (c2: Vec<String>)
    requires
        old(set).wf(),
    ensures
        final(set).wf(),
        final(set)@.to_set() == old(set)@.to_set().union(
            token_emits(cursor.deep_view(), token@),
        ),
        c2.deep_view() == token_next_cursor(cursor.deep_view(), token@),
{
    let ghost cv = cursor.deep_view();
    let ghost s0 = old(set)@.to_set();
    let is_ascend = str_eq(token.as_str(), "..");
    proof {
        reveal_strlit("..");
        assert(".."@ =~= ascend_token());
    }
    if is_ascend {
        proof {
            assert_sets_equal!(s0.union(Set::empty()) == s0, elem => {});
        }
        let mut cur = cursor;
        if cur.len() > 0 {
            let ghost before = cur.deep_view();
            let ghost before_raw = cur@;
            let _popped = cur.pop();
            proof {
                assert(cur.deep_view() =~= before.drop_last()) by {
                    assert forall|t: int| 0 <= t < cur@.len() implies #[trigger] cur.deep_view()[t]
                        == before.drop_last()[t] by {
                        assert(cur.deep_view()[t] == cur@[t].deep_view());
                        assert(cur@[t] == before_raw[t]);
                        assert(before[t] == before_raw[t].deep_view());
                    }
                }
            }
        }
        return cur;
    }
    let pieces = split_token(token.as_str(), '/');
    let resolved = resolve_pieces(&cursor, &pieces);
    let ghost rv = resolved.deep_view();
    proof {
        assert(rv == token_target(cv, token@));
        assert(rv.len() == resolved@.len());
    }
    if resolved.len() == 0 {
        proof {
            assert_sets_equal!(s0.union(token_emits(cv, token@)) == s0, elem => {});
        }
        return cursor;
    }
    insert_with_ancestors(set, &resolved);
    let last = resolved.len() - 1;
    proof {
        assert(rv[last as int] == resolved@[last as int]@);
        assert(rv.last() == rv[last as int]);
    }
    if classify_segment(resolved[last].as_str()) {
        resolved
    } else {
        cursor
    }
}

/// Walks every group with a fresh cursor, accumulating all emitted paths
/// (with their ancestors) into one shared, ordered set.
pub fn collect_groups(set: &mut PathSet, groups: &Vec<Vec<String>>)
    requires
        old(set).wf(),
    ensures
        final(set).wf(),
        final(set)@.to_set() == collect_groups_spec(groups.deep_view(), old(set)@.to_set()),
{
    let ghost gv = groups.deep_view();
    let ghost s0 = old(set)@.to_set();
    let mut g: usize = 0;
    proof {
        assert(gv.skip(0) =~= gv);
    }
    while g < groups.len()
        invariant
            set.wf(),
            gv == groups.deep_view(),
            gv.len() == groups@.len(),
            g <= gv.len(),
            collect_groups_spec(gv, s0) == collect_groups_spec(gv.skip(g as int), set@.to_set()),
        decreases gv.len() - g,
    {
        proof {
            assert(gv.skip(g as int)[0] == gv[g as int]);
            assert(gv.skip(g as int).drop_first() =~= gv.skip(g + 1));
            assert(gv[g as int] == groups@[g as int].deep_view());
        }
        let group = &groups[g];
        let ghost tv = group.deep_view();
        let ghost sg = set@.to_set();
        let mut cursor: Vec<String> = Vec::new();
        proof {
            assert(cursor.deep_view() =~= Seq::<Seq<char>>::empty());
            assert(tv.skip(0) =~= tv);
        }
        let mut t: usize = 0;
        while t < group.len()
            invariant
                set.wf(),
                tv == group.deep_view(),
                tv.len() == group@.len(),
                t <= tv.len(),
                collect_group_rec(tv, Seq::empty(), sg) == collect_group_rec(
                    tv.skip(t as int),
                    cursor.deep_view(),
                    set@.to_set(),
                ),
            decreases tv.len() - t,
        {
            proof {
                assert(tv.skip(t as int)[0] == tv[t as int]);
                assert(tv.skip(t as int).drop_first() =~= tv.skip(t + 1));
                assert(tv[t as int] == group@[t as int]@);
            }
            cursor = apply_token(set, cursor, &group[t]);
            t += 1;
        }
        proof {
            assert(tv.skip(tv.len() as int) =~= Seq::<Seq<char>>::empty());
            assert(collect_group(gv[g as int], sg) == set@.to_set());
        }
        g += 1;
    }
    proof {
        assert(gv.skip(gv.len() as int) =~= Seq::<Seq<Seq<char>>>::empty());
    }
}

} // verus!
