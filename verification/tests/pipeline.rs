use treegen::classify::classify_segment;
use treegen::collect::collect_groups;
use treegen::grouping::parse_groups;
use treegen::paths::PathSet;

fn toks(xs: &[&str]) -> Vec<String> {
    xs.iter().map(|s| s.to_string()).collect()
}

fn groups_of(xs: &[&[&str]]) -> Vec<Vec<String>> {
    xs.iter().map(|g| toks(g)).collect()
}

fn paths_of(set: &PathSet) -> Vec<Vec<String>> {
    let mut out = Vec::new();
    let mut i = 0;
    while i < set.len() {
        out.push(set.path_at(i).clone());
        i += 1;
    }
    out
}

fn collect_tokens(xs: &[&str]) -> Vec<Vec<String>> {
    let groups = parse_groups(toks(xs));
    let mut set = PathSet::new();
    collect_groups(&mut set, &groups);
    paths_of(&set)
}

#[test]
fn example_two_groups() {
    let groups = parse_groups(toks(&["src", "main.rs", ":", "README.md"]));
    assert_eq!(groups, groups_of(&[&["src", "main.rs"], &["README.md"]]));
}

#[test]
fn example_two_groups_paths() {
    let paths = collect_tokens(&["src", "main.rs", ":", "README.md"]);
    assert_eq!(
        paths,
        groups_of(&[&["README.md"], &["src"], &["src", "main.rs"]])
    );
}

#[test]
fn example_ascend() {
    let paths = collect_tokens(&["a", "..", "b.txt"]);
    assert_eq!(paths, groups_of(&[&["a"], &["b.txt"]]));
}

#[test]
fn ascend_past_base_is_noop() {
    let paths = collect_tokens(&["..", "..", "x.txt"]);
    assert_eq!(paths, groups_of(&[&["x.txt"]]));
}

#[test]
fn ascend_alone_emits_nothing() {
    let paths = collect_tokens(&[".."]);
    assert!(paths.is_empty());
}

#[test]
fn no_empty_groups() {
    let groups = parse_groups(toks(&[":", ":", "a", ":", ":", "b", ":"]));
    assert_eq!(groups, groups_of(&[&["a"], &["b"]]));
}

#[test]
fn empty_tokens_empty_groups() {
    let groups = parse_groups(Vec::new());
    assert!(groups.is_empty());
}

#[test]
fn grouping_keeps_non_separator_tokens_in_order() {
    let input = &["x", ":", "y", "z", ":", ":", "w"];
    let groups = parse_groups(toks(input));
    let flattened: Vec<String> = groups.into_iter().flatten().collect();
    let expected: Vec<String> = toks(input).into_iter().filter(|t| t != ":").collect();
    assert_eq!(flattened, expected);
}

#[test]
fn embedded_slashes_insert_all_ancestors() {
    let paths = collect_tokens(&["src/deep/file.txt"]);
    assert_eq!(
        paths,
        groups_of(&[&["src"], &["src", "deep"], &["src", "deep", "file.txt"]])
    );
}

#[test]
fn cursor_descends_into_directories_only() {
    let paths = collect_tokens(&["a.txt", "b"]);
    assert_eq!(paths, groups_of(&[&["a.txt"], &["b"]]));
    let nested = collect_tokens(&["a", "b"]);
    assert_eq!(nested, groups_of(&[&["a"], &["a", "b"]]));
}

#[test]
fn duplicate_paths_are_stored_once() {
    let paths = collect_tokens(&["x", "..", "x"]);
    assert_eq!(paths, groups_of(&[&["x"]]));
}

#[test]
fn groups_share_one_path_set() {
    let paths = collect_tokens(&["a", "f.txt", ":", "a", "g.txt"]);
    assert_eq!(
        paths,
        groups_of(&[&["a"], &["a", "f.txt"], &["a", "g.txt"]])
    );
}

#[test]
fn order_is_independent_of_insertion_order() {
    let one = collect_tokens(&["b", "..", "a"]);
    let two = collect_tokens(&["a", "..", "b"]);
    assert_eq!(one, two);
    assert_eq!(one, groups_of(&[&["a"], &["b"]]));
}

#[test]
fn every_parent_is_present() {
    let paths = collect_tokens(&["a/b/c/d.txt", ":", "x", "y/z"]);
    for p in &paths {
        if p.len() > 1 {
            let parent: Vec<String> = p[..p.len() - 1].to_vec();
            assert!(paths.contains(&parent), "missing parent of {:?}", p);
        }
    }
}

#[test]
fn classify_plain_name_is_directory() {
    assert!(classify_segment("src"));
    assert!(classify_segment("no_dots"));
}

#[test]
fn classify_extension_is_file() {
    assert!(!classify_segment("main.rs"));
    assert!(!classify_segment("v1.2"));
    assert!(!classify_segment("x."));
}

#[test]
fn classify_dotfile_is_file() {
    assert!(!classify_segment(".gitignore"));
    assert!(!classify_segment(".env"));
}

#[test]
fn classification_ignores_position() {
    // The same final segment classifies the same wherever it stands.
    let deep = collect_tokens(&["a/b/notes", "inner.txt"]);
    // "notes" is directory-like even as the last of three segments, so the
    // cursor descended into it.
    assert_eq!(
        deep,
        groups_of(&[
            &["a"],
            &["a", "b"],
            &["a", "b", "notes"],
            &["a", "b", "notes", "inner.txt"]
        ])
    );
}
