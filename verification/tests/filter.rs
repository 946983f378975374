use bush::filter::{Filter, PatternList};

fn strings(v: &[&str]) -> Vec<String> {
    v.iter().map(|s| s.to_string()).collect()
}

#[test]
fn empty_filter_is_inactive() {
    let f = Filter::new(&[], &[]).unwrap();
    assert!(!f.is_active());
    assert!(!f.has_include());
    assert!(f.keep("any/thing", false));
    assert!(f.keep("any/dir", true));
}

#[test]
fn exclude_only() {
    let f = Filter::new(&[], &strings(&["*.log"])).unwrap();
    assert!(f.is_active());
    assert!(!f.keep("noisy.log", false));
    assert!(f.keep("keep.txt", false));
}

#[test]
fn filter_exclude_directory_by_name() {
    let f = Filter::new(&[], &strings(&["dist"])).unwrap();
    assert!(!f.keep("dist", true));
}

#[test]
fn exclude_propagates_to_descendants() {
    let f = Filter::new(&[], &strings(&["vendor"])).unwrap();
    assert!(!f.keep("vendor", true));
    assert!(!f.keep("vendor/lib.go", false));
    assert!(!f.keep("vendor/sub/deep.go", false));
    assert!(f.keep("main.go", false));
}

#[test]
fn include_only_files_matching() {
    let f = Filter::new(&strings(&["*.rs"]), &[]).unwrap();
    assert!(f.has_include());
    assert!(f.keep("main.rs", false));
    assert!(!f.keep("README.md", false));
    assert!(f.keep("src", true), "dirs always kept");
}

#[test]
fn exclude_overrides_include() {
    let f = Filter::new(&strings(&["*.rs"]), &strings(&["target.rs"])).unwrap();
    assert!(f.keep("main.rs", false));
    assert!(!f.keep("target.rs", false));
}

#[test]
fn filter_invalid_glob_errors() {
    let err = Filter::new(&strings(&["[unclosed"]), &[]).unwrap_err();
    let msg = err.message();
    assert!(msg.contains("--include"), "got: {msg}");
}

#[test]
fn multiple_includes_or() {
    let f = Filter::new(&strings(&["*.rs", "*.toml"]), &[]).unwrap();
    assert!(f.keep("main.rs", false));
    assert!(f.keep("Cargo.toml", false));
    assert!(!f.keep("foo.md", false));
}

#[test]
fn nested_path_globs() {
    let f = Filter::new(&strings(&["**/*.test.js"]), &[]).unwrap();
    assert!(f.keep("a/b/c/x.test.js", false));
    assert!(!f.keep("a/b/regular.js", false));
}

// ----- further cases -----

#[test]
fn invalid_exclude_glob_names_exclude_and_pattern() {
    let err = Filter::new(&strings(&["*.rs"]), &strings(&["ok", "a[b"])).unwrap_err();
    assert_eq!(err.list, PatternList::Exclude);
    assert_eq!(err.pattern.as_deref(), Some("a[b"));
    let msg = err.message();
    assert!(msg.starts_with("compiling --exclude patterns: invalid glob: \"a[b\": "), "got: {msg}");
}

#[test]
fn invalid_include_reported_before_exclude() {
    let err = Filter::new(&strings(&["[x"]), &strings(&["[y"])).unwrap_err();
    assert_eq!(err.list, PatternList::Include);
    assert_eq!(err.pattern.as_deref(), Some("[x"));
}

#[test]
fn first_invalid_pattern_is_reported() {
    let err = Filter::new(&strings(&["a", "[b", "[c"]), &[]).unwrap_err();
    assert_eq!(err.pattern.as_deref(), Some("[b"));
}

#[test]
fn include_does_not_apply_to_directories_but_exclude_does() {
    let f = Filter::new(&strings(&["*.rs"]), &strings(&["build"])).unwrap();
    assert!(f.keep("docs", true));
    assert!(!f.keep("build", true));
    assert!(!f.keep("build/x.rs", false));
}

#[test]
fn exclude_matches_an_ancestor_in_the_middle() {
    let f = Filter::new(&[], &strings(&["a/b"])).unwrap();
    assert!(!f.keep("a/b/c/d.txt", false));
    assert!(f.keep("a/c/b", false));
    assert!(f.keep("a", true));
}

#[test]
fn default_filter_keeps_everything() {
    let f = Filter::default();
    assert!(!f.is_active());
    assert!(f.keep("x/y", false));
}

#[test]
fn invalid_pattern_is_quoted_with_escapes() {
    let pattern = "[\t\"\\\u{1}é\u{200b}";
    let err = Filter::new(&strings(&[pattern]), &[]).unwrap_err();
    let msg = err.message();
    let expected = format!("compiling --include patterns: invalid glob: {pattern:?}: ");
    assert!(msg.starts_with(&expected), "got: {msg}");
    assert!(msg.starts_with("compiling --include patterns: invalid glob: \"[\\t\\\"\\\\\\u{1}é\\u{200b}\": "), "got: {msg}");
}

#[test]
fn error_detail_is_the_glob_library_text() {
    let err = Filter::new(&strings(&["[unclosed"]), &[]).unwrap_err();
    assert!(err.detail.starts_with("error parsing glob '[unclosed': "), "got: {}", err.detail);
    assert!(err.message().ends_with(&err.detail));
}
