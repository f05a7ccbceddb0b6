//! Token grouping: a flat token sequence is split into groups at each
//! occurrence of the separator token.  Separators are discarded and empty
//! accumulators are dropped, so no group is ever empty; any input, including
//! an empty one, yields zero or more groups without failure.

use vstd::prelude::*;
use crate::sep_token;
use crate::text::str_eq;

verus! {

/// The token is the group separator.
pub open spec fn is_sep(t: Seq<char>) -> bool {
    t == sep_token()
}

/// Grouping with an explicit accumulator of tokens not yet emitted.
pub open spec fn groups_rec(tokens: Seq<Seq<char>>, cur: Seq<Seq<char>>) -> Seq<Seq<Seq<char>>>
    decreases tokens.len(),
{
    if tokens.len() == 0 {
        if cur.len() > 0 {
            seq![cur]
        } else {
            Seq::empty()
        }
    } else if is_sep(tokens[0]) {
        if cur.len() > 0 {
            seq![cur] + groups_rec(tokens.drop_first(), Seq::empty())
        } else {
            groups_rec(tokens.drop_first(), Seq::empty())
        }
    } else {
        groups_rec(tokens.drop_first(), cur.push(tokens[0]))
    }
}

/// The groups obtained from a token sequence.
pub open spec fn spec_groups(tokens: Seq<Seq<char>>) -> Seq<Seq<Seq<char>>> {
    groups_rec(tokens, Seq::empty())
}

/// Concatenation of all groups' tokens, in order.
pub open spec fn flatten_groups(gs: Seq<Seq<Seq<char>>>) -> Seq<Seq<char>>
    decreases gs.len(),
{
    if gs.len() == 0 {
        Seq::empty()
    } else {
        gs[0] + flatten_groups(gs.drop_first())
    }
}

/// The input tokens with every separator removed, in order.
pub open spec fn non_separators(tokens: Seq<Seq<char>>) -> Seq<Seq<char>>
    decreases tokens.len(),
{
    if tokens.len() == 0 {
        Seq::empty()
    } else if is_sep(tokens[0]) {
        non_separators(tokens.drop_first())
    } else {
        seq![tokens[0]] + non_separators(tokens.drop_first())
    }
}

proof fn lemma_groups_rec_sound(tokens: Seq<Seq<char>>, cur: Seq<Seq<char>>)
    ensures
        forall|i: int|
            0 <= i < groups_rec(tokens, cur).len() ==> #[trigger] groups_rec(tokens, cur)[i].len()
                > 0,
        flatten_groups(groups_rec(tokens, cur)) == cur + non_separators(tokens),
    decreases tokens.len(),
{
    if tokens.len() == 0 {
        assert(non_separators(tokens) =~= Seq::<Seq<char>>::empty());
        if cur.len() > 0 {
            assert(seq![cur].drop_first() =~= Seq::<Seq<Seq<char>>>::empty());
            assert(flatten_groups(seq![cur]) == seq![cur][0] + flatten_groups(
                Seq::<Seq<Seq<char>>>::empty(),
            ));
            assert(cur + Seq::<Seq<char>>::empty() =~= cur + non_separators(tokens));
        } else {
            assert(cur + non_separators(tokens) =~= Seq::<Seq<char>>::empty());
        }
    } else if is_sep(tokens[0]) {
        lemma_groups_rec_sound(tokens.drop_first(), Seq::empty());
        if cur.len() > 0 {
            let rest = groups_rec(tokens.drop_first(), Seq::empty());
            assert((seq![cur] + rest).drop_first() =~= rest);
            assert(flatten_groups(seq![cur] + rest) == cur + flatten_groups(rest));
            assert(cur + (Seq::empty() + non_separators(tokens.drop_first())) =~= cur
                + non_separators(tokens));
        } else {
            assert(Seq::empty() + non_separators(tokens.drop_first()) =~= cur
                + non_separators(tokens));
        }
    } else {
        lemma_groups_rec_sound(tokens.drop_first(), cur.push(tokens[0]));
        assert(cur.push(tokens[0]) + non_separators(tokens.drop_first()) =~= cur + (seq![
            tokens[0],
        ] + non_separators(tokens.drop_first())));
    }
}

/// Grouping never produces an empty group, and concatenating all groups'
/// tokens reproduces the original non-separator tokens in order.
pub proof fn lemma_grouping_sound(tokens: Seq<Seq<char>>)
    ensures
        forall|i: int|
            0 <= i < spec_groups(tokens).len() ==> #[trigger] spec_groups(tokens)[i].len() > 0,
        flatten_groups(spec_groups(tokens)) == non_separators(tokens),
{
    lemma_groups_rec_sound(tokens, Seq::empty());
    assert(Seq::<Seq<char>>::empty() + non_separators(tokens) =~= non_separators(tokens));
}

/// Splits a flat token list into groups at each separator token.
pub fn parse_groups(tokens: Vec<String>) -> (groups: Vec<Vec<String>>)
    ensures
        groups.deep_view() == spec_groups(tokens.deep_view()),
{
    let ghost toks = tokens.deep_view();
    let mut groups: Vec<Vec<String>> = Vec::new();
    let mut current: Vec<String> = Vec::new();
    let mut i: usize = 0;
    proof {
        assert(toks.skip(0) =~= toks);
        assert(groups.deep_view() =~= Seq::<Seq<Seq<char>>>::empty());
        assert(current.deep_view() =~= Seq::<Seq<char>>::empty());
    }
    while i < tokens.len()
        invariant
            i <= tokens.len(),
            toks == tokens.deep_view(),
            toks.len() == tokens.len(),
            spec_groups(toks) == groups.deep_view() + groups_rec(
                toks.skip(i as int),
                current.deep_view(),
            ),
        decreases tokens.len() - i,
    {
        proof {
            assert(toks.skip(i as int)[0] == toks[i as int]);
            assert(toks.skip(i as int).drop_first() =~= toks.skip(i + 1));
            assert(toks[i as int] == tokens@[i as int].deep_view());
        }
        let is_separator = str_eq(tokens[i].as_str(), ":");
        proof {
            reveal_strlit(":");
            assert(":"@ =~= sep_token());
        }
        if is_separator {
            if current.len() > 0 {
                let ghost old_groups = groups.deep_view();
                let ghost old_cur = current.deep_view();
                groups.push(current);
                current = Vec::new();
                proof {
                    assert(groups.deep_view() =~= old_groups.push(old_cur));
                    assert(current.deep_view() =~= Seq::<Seq<char>>::empty());
                    assert(old_groups.push(old_cur) + groups_rec(toks.skip(i + 1), Seq::empty())
                        =~= old_groups + (seq![old_cur] + groups_rec(
                        toks.skip(i + 1),
                        Seq::empty(),
                    )));
                }
            } else {
                proof {
                    assert(current.deep_view() =~= Seq::<Seq<char>>::empty());
                }
            }
        } else {
            let ghost old_cur = current.deep_view();
            let tok = tokens[i].clone();
            current.push(tok);
            proof {
                assert(current.deep_view() =~= old_cur.push(toks[i as int]));
            }
        }
        i += 1;
    }
    proof {
        assert(toks.skip(toks.len() as int) =~= Seq::<Seq<char>>::empty());
    }
    if current.len() > 0 {
        let ghost old_groups = groups.deep_view();
        let ghost old_cur = current.deep_view();
        groups.push(current);
        proof {
            assert(groups.deep_view() =~= old_groups.push(old_cur));
            assert(old_groups + seq![old_cur] =~= old_groups.push(old_cur));
        }
    } else {
        proof {
            assert(groups.deep_view() + Seq::<Seq<Seq<char>>>::empty() =~= groups.deep_view());
        }
    }
    groups
}

} // verus!
