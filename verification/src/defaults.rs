//! Built-in per-language default structures: a fixed mapping from language
//! identifiers to a literal token list; an unrecognized identifier yields
//! the empty list, which callers treat as an error.

use vstd::prelude::*;
use crate::text::str_eq;

verus! {

/// The token list for a language identifier; empty when unknown.
pub open spec fn default_tokens(lang: Seq<char>) -> Seq<Seq<char>> {
    if lang == "py"@ || lang == "python"@ {
        seq![
            "src/__init__.py"@,
            "src/main.py"@,
            ".gitignore"@,
            "requirements.txt"@,
            "README.md"@,
        ]
    } else if lang == "rs"@ || lang == "rust"@ {
        seq!["src/main.rs"@, "Cargo.toml"@, ".gitignore"@, "README.md"@]
    } else if lang == "web"@ || lang == "js"@ || lang == "ts"@ {
        seq![
            "src/index.js"@,
            "src/style.css"@,
            "public/index.html"@,
            ".gitignore"@,
            "package.json"@,
            "README.md"@,
        ]
    } else {
        Seq::empty()
    }
}

/// Returns the built-in token list for a language identifier, empty when
/// the identifier is unknown.
pub fn get_default(lang: &str) -> (r: Vec<String>)
    ensures
        r.deep_view() == default_tokens(lang@),
{
    if str_eq(lang, "py") || str_eq(lang, "python") {
        let mut v: Vec<String> = Vec::new();
        v.push(String::from_str("src/__init__.py"));
        v.push(String::from_str("src/main.py"));
        v.push(String::from_str(".gitignore"));
        v.push(String::from_str("requirements.txt"));
        v.push(String::from_str("README.md"));
        proof {
            assert(v.deep_view() =~= default_tokens(lang@));
        }
        v
    } else if str_eq(lang, "rs") || str_eq(lang, "rust") {
        let mut v: Vec<String> = Vec::new();
        v.push(String::from_str("src/main.rs"));
        v.push(String::from_str("Cargo.toml"));
        v.push(String::from_str(".gitignore"));
        v.push(String::from_str("README.md"));
        proof {
            assert(v.deep_view() =~= default_tokens(lang@));
        }
        v
    } else if str_eq(lang, "web") || str_eq(lang, "js") || str_eq(lang, "ts") {
        let mut v: Vec<String> = Vec::new();
        v.push(String::from_str("src/index.js"));
        v.push(String::from_str("src/style.css"));
        v.push(String::from_str("public/index.html"));
        v.push(String::from_str(".gitignore"));
        v.push(String::from_str("package.json"));
        v.push(String::from_str("README.md"));
        proof {
            assert(v.deep_view() =~= default_tokens(lang@));
        }
        v
    } else {
        let v: Vec<String> = Vec::new();
        proof {
            assert(v.deep_view() =~= default_tokens(lang@));
        }
        v
    }
}

} // verus!
