use treegen::collect::collect_groups;
use treegen::defaults::get_default;
use treegen::paths::PathSet;
use treegen::sources::{
    is_affirmative, parse_structure_lines, select_source, template_rel_path, InputSource,
};

fn toks(xs: &[&str]) -> Vec<String> {
    xs.iter().map(|s| s.to_string()).collect()
}

fn paths_of(set: &PathSet) -> Vec<Vec<String>> {
    let mut out = Vec::new();
    let mut i = 0;
    while i < set.len() {
        out.push(set.path_at(i).clone());
        i += 1;
    }
    out
}

#[test]
fn default_python_tokens() {
    let tokens = get_default("python");
    assert_eq!(
        tokens,
        toks(&[
            "src/__init__.py",
            "src/main.py",
            ".gitignore",
            "requirements.txt",
            "README.md"
        ])
    );
    assert_eq!(get_default("py"), tokens);
}

#[test]
fn default_python_paths() {
    let tokens = get_default("python");
    let mut set = PathSet::new();
    collect_groups(&mut set, &vec![tokens]);
    let paths = paths_of(&set);
    let expect: Vec<Vec<String>> = vec![
        toks(&[".gitignore"]),
        toks(&["README.md"]),
        toks(&["requirements.txt"]),
        toks(&["src"]),
        toks(&["src", "__init__.py"]),
        toks(&["src", "main.py"]),
    ];
    assert_eq!(paths, expect);
}

#[test]
fn default_rust_tokens() {
    assert_eq!(
        get_default("rust"),
        toks(&["src/main.rs", "Cargo.toml", ".gitignore", "README.md"])
    );
    assert_eq!(get_default("rs"), get_default("rust"));
}

#[test]
fn default_web_tokens() {
    let expected = toks(&[
        "src/index.js",
        "src/style.css",
        "public/index.html",
        ".gitignore",
        "package.json",
        "README.md",
    ]);
    assert_eq!(get_default("web"), expected);
    assert_eq!(get_default("js"), expected);
    assert_eq!(get_default("ts"), expected);
}

#[test]
fn default_unknown_is_empty() {
    assert!(get_default("foo").is_empty());
    assert!(get_default("").is_empty());
    assert!(get_default("Python").is_empty());
}

#[test]
fn source_priority_template_first() {
    let r = select_source(
        toks(&["a"]),
        Some("file.txt".to_string()),
        Some("tpl".to_string()),
        Some("py".to_string()),
    );
    assert!(matches!(r, Some(InputSource::Template(n)) if n == "tpl"));
}

#[test]
fn source_priority_file_second() {
    let r = select_source(
        toks(&["a"]),
        Some("file.txt".to_string()),
        None,
        Some("py".to_string()),
    );
    assert!(matches!(r, Some(InputSource::StructureFile(f)) if f == "file.txt"));
}

#[test]
fn source_priority_default_third() {
    let r = select_source(toks(&["a"]), None, None, Some("py".to_string()));
    assert!(matches!(r, Some(InputSource::LanguageDefault(d)) if d == "py"));
}

#[test]
fn source_priority_literal_last() {
    let r = select_source(toks(&["a", "b"]), None, None, None);
    assert!(matches!(r, Some(InputSource::Literal(p)) if p == toks(&["a", "b"])));
}

#[test]
fn source_nothing_is_usage_error() {
    let r = select_source(Vec::new(), None, None, None);
    assert!(r.is_none());
}

#[test]
fn structure_lines_trim_and_drop_blanks() {
    let content = "src\n  main.rs  \n\n\t\nREADME.md\n";
    assert_eq!(
        parse_structure_lines(content),
        toks(&["src", "main.rs", "README.md"])
    );
}

#[test]
fn structure_lines_empty_text() {
    assert!(parse_structure_lines("").is_empty());
    assert!(parse_structure_lines(" \n \n\t\n").is_empty());
}

#[test]
fn structure_lines_crlf() {
    assert_eq!(
        parse_structure_lines("a\r\nb.txt\r\n"),
        toks(&["a", "b.txt"])
    );
}

#[test]
fn affirmative_answers() {
    assert!(is_affirmative("y"));
    assert!(is_affirmative("Y"));
    assert!(is_affirmative("yes"));
    assert!(is_affirmative("YES"));
    assert!(is_affirmative("  yes \n"));
}

#[test]
fn non_affirmative_answers() {
    assert!(!is_affirmative("n"));
    assert!(!is_affirmative("no"));
    assert!(!is_affirmative(""));
    assert!(!is_affirmative("yeah"));
    assert!(!is_affirmative("y e s"));
}

#[test]
fn template_path_shape() {
    assert_eq!(
        template_rel_path("py"),
        ".config/treegen/templates/py.txt".to_string()
    );
    assert_eq!(
        template_rel_path("my-app"),
        ".config/treegen/templates/my-app.txt".to_string()
    );
}
