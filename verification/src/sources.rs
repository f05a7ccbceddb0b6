//! Input-source resolution and the line format of structure and template
//! files.
//!
//! Exactly one of four sources feeds the pipeline, by strict priority:
//! named template, then explicit structure file, then built-in language
//! default, then the literal command tokens.  Structure and template files
//! are line-oriented: each non-blank trimmed line is one token, fed into a
//! single implicit group.

use vstd::prelude::*;
use crate::collect::{split_at_char, split_token};

verus! {

/// The one input source selected for a run.
pub enum InputSource {
    /// A named template in the per-user template directory.
    Template(String),
    /// An explicit structure file.
    StructureFile(String),
    /// A built-in per-language default.
    LanguageDefault(String),
    /// The literal command tokens.
    Literal(Vec<String>),
}

/// Selects the input source by strict priority: template, then structure
/// file, then language default, then literal tokens; none yields `None`
/// (the usage error).
pub fn select_source(
    paths: Vec<String>,
    from: Option<String>,
    template: Option<String>,
    default: Option<String>,
) -> (r: Option<InputSource>)
    ensures
        template matches Some(n) ==> r == Some(InputSource::Template(n)),
        template is None ==> (from matches Some(f) ==> r == Some(InputSource::StructureFile(f))),
        template is None && from is None ==> (default matches Some(d) ==> r == Some(
            InputSource::LanguageDefault(d),
        )),
        template is None && from is None && default is None && paths@.len() > 0 ==> r == Some(
            InputSource::Literal(paths),
        ),
        template is None && from is None && default is None && paths@.len() == 0 ==> r is None,
{
    match template {
        Some(n) => Some(InputSource::Template(n)),
        None => match from {
            Some(f) => Some(InputSource::StructureFile(f)),
            None => match default {
                Some(d) => Some(InputSource::LanguageDefault(d)),
                None => if paths.len() > 0 {
                    Some(InputSource::Literal(paths))
                } else {
                    None
                },
            },
        },
    }
}

/// An inter-token whitespace character of the line format.
pub open spec fn is_space(c: char) -> bool {
    c == ' ' || c == '\t' || c == '\r' || c == '\n'
}

/// The sequence with leading whitespace removed.
pub open spec fn trim_front(s: Seq<char>) -> Seq<char>
    decreases s.len(),
{
    if s.len() > 0 && is_space(s[0]) {
        trim_front(s.drop_first())
    } else {
        s
    }
}

/// The sequence with trailing whitespace removed.
pub open spec fn trim_back(s: Seq<char>) -> Seq<char>
    decreases s.len(),
{
    if s.len() > 0 && is_space(s[s.len() - 1]) {
        trim_back(s.drop_last())
    } else {
        s
    }
}

/// The sequence with leading and trailing whitespace removed.
pub open spec fn trim_spec(s: Seq<char>) -> Seq<char> {
    trim_back(trim_front(s))
}

/// The non-blank lines, each trimmed, in order.
pub open spec fn keep_nonblank(lines: Seq<Seq<char>>) -> Seq<Seq<char>>
    decreases lines.len(),
{
    if lines.len() == 0 {
        Seq::empty()
    } else {
        let t = trim_spec(lines[0]);
        if t.len() > 0 {
            seq![t] + keep_nonblank(lines.drop_first())
        } else {
            keep_nonblank(lines.drop_first())
        }
    }
}

/// The token lines of a structure or template file's text: split at line
/// breaks, trimmed, blank lines dropped.
pub open spec fn structure_lines(content: Seq<char>) -> Seq<Seq<char>> {
    keep_nonblank(split_at_char(content, '\n'))
}

fn is_space_char(c: char) -> (r: bool)
    ensures
        r == is_space(c),
{
    c == ' ' || c == '\t' || c == '\r' || c == '\n'
}

/// Removes leading and trailing whitespace.
fn trim(s: &str) -> (r: String)
    ensures
        r@ == trim_spec(s@),
{
    let n = s.unicode_len();
    let mut start: usize = 0;
    proof {
        assert(s@.skip(0) =~= s@);
    }
    while start < n && is_space_char(s.get_char(start))
        invariant
            n == s@.len(),
            start <= n,
            trim_front(s@) == trim_front(s@.skip(start as int)),
        decreases n - start,
    {
        proof {
            assert(s@.skip(start as int)[0] == s@[start as int]);
            assert(s@.skip(start as int).drop_first() =~= s@.skip(start + 1));
        }
        start += 1;
    }
    proof {
        if start < n {
            assert(s@.skip(start as int)[0] == s@[start as int]);
        }
        assert(trim_front(s@) == s@.skip(start as int));
        assert(s@.skip(start as int) =~= s@.subrange(start as int, n as int));
    }
    let mut end: usize = n;
    while end > start && is_space_char(s.get_char(end - 1))
        invariant
            n == s@.len(),
            start <= end <= n,
            trim_back(s@.subrange(start as int, n as int)) == trim_back(
                s@.subrange(start as int, end as int),
            ),
        decreases end,
    {
        proof {
            let sub = s@.subrange(start as int, end as int);
            assert(sub[sub.len() - 1] == s@[end - 1]);
            assert(sub.drop_last() =~= s@.subrange(start as int, end - 1));
        }
        end -= 1;
    }
    proof {
        let sub = s@.subrange(start as int, end as int);
        if end > start {
            assert(sub[sub.len() - 1] == s@[end - 1]);
        }
        assert(trim_back(sub) == sub);
    }
    s.substring_char(start, end).to_owned()
}

/// Parses the text of a structure or template file into its token lines:
/// one trimmed token per non-blank line.  Any text, including an empty
/// one, parses without failure; callers treat an empty result as an error.
pub fn parse_structure_lines(content: &str) -> (tokens: Vec<String>)
    ensures
        tokens.deep_view() == structure_lines(content@),
{
    let raw = split_token(content, '\n');
    let ghost rv = raw.deep_view();
    let mut tokens: Vec<String> = Vec::new();
    let mut i: usize = 0;
    proof {
        assert(rv.skip(0) =~= rv);
        assert(tokens.deep_view() =~= Seq::<Seq<char>>::empty());
        assert(Seq::<Seq<char>>::empty() + keep_nonblank(rv) =~= keep_nonblank(rv));
    }
    while i < raw.len()
        invariant
            rv == raw.deep_view(),
            rv.len() == raw@.len(),
            i <= rv.len(),
            structure_lines(content@) == tokens.deep_view() + keep_nonblank(rv.skip(i as int)),
        decreases rv.len() - i,
    {
        proof {
            assert(rv.skip(i as int)[0] == rv[i as int]);
            assert(rv.skip(i as int).drop_first() =~= rv.skip(i + 1));
            assert(rv[i as int] == raw@[i as int]@);
        }
        let t = trim(raw[i].as_str());
        if !t.as_str().is_empty() {
            let ghost prev = tokens.deep_view();
            let ghost prev_raw = tokens@;
            tokens.push(t);
            proof {
                assert(tokens.deep_view() =~= prev.push(trim_spec(rv[i as int]))) by {
                    assert forall|w: int| 0 <= w < tokens@.len() implies #[trigger] tokens.deep_view()[w]
                        == prev.push(trim_spec(rv[i as int]))[w] by {
                        assert(tokens.deep_view()[w] == tokens@[w].deep_view());
                        if w < tokens@.len() - 1 {
                            assert(tokens@[w] == prev_raw[w]);
                            assert(prev[w] == prev_raw[w].deep_view());
                        }
                    }
                }
                assert(prev.push(trim_spec(rv[i as int])) + keep_nonblank(rv.skip(i + 1)) =~= prev
                    + (seq![trim_spec(rv[i as int])] + keep_nonblank(rv.skip(i + 1))));
            }
        }
        i += 1;
    }
    proof {
        assert(rv.skip(rv.len() as int) =~= Seq::<Seq<char>>::empty());
        assert(tokens.deep_view() + Seq::<Seq<char>>::empty() =~= tokens.deep_view());
    }
    tokens
}

/// An affirmative confirmation answer: `y` or `yes`, ignoring case and
/// surrounding whitespace.  Anything else declines.
pub open spec fn affirmative(answer: Seq<char>) -> bool {
    let t = trim_spec(answer);
    (t.len() == 1 && (t[0] == 'y' || t[0] == 'Y')) || (t.len() == 3 && (t[0] == 'y' || t[0] == 'Y')
        && (t[1] == 'e' || t[1] == 'E') && (t[2] == 's' || t[2] == 'S'))
}

/// Decides whether a confirmation answer is affirmative.
pub fn is_affirmative(answer: &str) -> (r: bool)
    ensures
        r == affirmative(answer@),
{
    let t = trim(answer);
    let n = t.as_str().unicode_len();
    if n == 1 {
        let c = t.as_str().get_char(0);
        c == 'y' || c == 'Y'
    } else if n == 3 {
        let c0 = t.as_str().get_char(0);
        let c1 = t.as_str().get_char(1);
        let c2 = t.as_str().get_char(2);
        (c0 == 'y' || c0 == 'Y') && (c1 == 'e' || c1 == 'E') && (c2 == 's' || c2 == 'S')
    } else {
        false
    }
}

/// The home-relative path of a named template:
/// `.config/treegen/templates/<name>.txt`.
pub fn template_rel_path(name: &str) -> (r: String)
    ensures
        r@ == ".config/treegen/templates/"@ + name@ + ".txt"@,
{
    let s = String::from_str(".config/treegen/templates/");
    let s = s.concat(name);
    let s = s.concat(".txt");
    s
}

} // verus!
