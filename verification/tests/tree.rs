use bush::config::SortKey;
use bush::tree::{apply_sort, build, counts, prepare, prune_empty_dirs, render, render_prepared, Node, NodeMeta, RenderOptions};
use bush::walker::{Entry, FileTime};

fn render_to_string(root: &str, entries: &[Entry]) -> String {
    let opts = RenderOptions::default();
    render(root, entries, &opts)
}

fn entry(path: &str, is_dir: bool) -> Entry {
    Entry { path: path.to_string(), is_dir, ..Default::default() }
}

fn names(node: &Node) -> Vec<&str> {
    node.children.iter().map(|c| c.name.as_str()).collect()
}

fn dir_node(name: &str, children: Vec<Node>) -> Node {
    Node { name: name.into(), meta: NodeMeta { is_dir: true, ..Default::default() }, children }
}

fn file_node(name: &str) -> Node {
    Node { name: name.into(), meta: NodeMeta::default(), children: vec![] }
}

#[test]
fn empty_tree_shows_root_and_zero_counts() {
    let s = render_to_string("/some/root", &[]);
    assert!(s.starts_with("/some/root\n"), "got: {s}");
    assert!(s.contains("0 directories, 0 files"), "got: {s}");
}

#[test]
fn single_file_uses_last_connector() {
    let s = render_to_string("/root", &[entry("/root/foo.txt", false)]);
    assert!(s.contains("└── foo.txt"), "got: {s}");
    assert!(s.contains("0 directories, 1 file"), "got: {s}");
}

#[test]
fn multiple_siblings_use_correct_connectors() {
    let s = render_to_string(
        "/root",
        &[entry("/root/a.txt", false), entry("/root/b.txt", false), entry("/root/c.txt", false)],
    );
    assert!(s.contains("├── a.txt"), "got: {s}");
    assert!(s.contains("├── b.txt"), "got: {s}");
    assert!(s.contains("└── c.txt"), "got: {s}");
}

#[test]
fn alphabetical_ordering_within_a_dir() {
    let s = render_to_string(
        "/r",
        &[entry("/r/zebra", false), entry("/r/apple", false), entry("/r/mango", false)],
    );
    let a = s.find("apple").unwrap();
    let m = s.find("mango").unwrap();
    let z = s.find("zebra").unwrap();
    assert!(a < m && m < z, "got: {s}");
}

#[test]
fn nested_non_last_uses_pipe_continuation() {
    let s = render_to_string(
        "/root",
        &[
            entry("/root/dir", true),
            entry("/root/dir/a.txt", false),
            entry("/root/dir/b.txt", false),
            entry("/root/last.txt", false),
        ],
    );
    assert!(s.contains("├── dir"), "got: {s}");
    assert!(s.contains("│   ├── a.txt"), "got: {s}");
    assert!(s.contains("│   └── b.txt"), "got: {s}");
    assert!(s.contains("└── last.txt"), "got: {s}");
}

#[test]
fn nested_last_uses_space_continuation() {
    let s = render_to_string(
        "/root",
        &[entry("/root/dir", true), entry("/root/dir/a.txt", false), entry("/root/dir/b.txt", false)],
    );
    assert!(s.contains("└── dir"), "got: {s}");
    assert!(s.contains("    ├── a.txt"), "got: {s}");
    assert!(s.contains("    └── b.txt"), "got: {s}");
}

#[test]
fn intermediate_path_creates_dir_node() {
    let s = render_to_string("/root", &[entry("/root/a/b/c/leaf.txt", false)]);
    assert!(s.contains("a"), "got: {s}");
    assert!(s.contains("b"), "got: {s}");
    assert!(s.contains("c"), "got: {s}");
    assert!(s.contains("leaf.txt"), "got: {s}");
    assert!(s.contains("3 directories, 1 file"), "got: {s}");
}

#[test]
fn footer_singular_one_dir_one_file() {
    let s = render_to_string("/r", &[entry("/r/d", true), entry("/r/f", false)]);
    assert!(s.contains("1 directory, 1 file"), "got: {s}");
}

#[test]
fn footer_plural_two_each() {
    let s = render_to_string(
        "/r",
        &[entry("/r/d1", true), entry("/r/d2", true), entry("/r/f1", false), entry("/r/f2", false)],
    );
    assert!(s.contains("2 directories, 2 files"), "got: {s}");
}

#[test]
fn footer_plural_zero() {
    let s = render_to_string("/r", &[]);
    assert!(s.contains("0 directories, 0 files"), "got: {s}");
}

#[test]
fn non_ascii_filename_renders_intact() {
    let s = render_to_string("/r", &[entry("/r/café.txt", false), entry("/r/日本語.md", false)]);
    assert!(s.contains("café.txt"), "got: {s}");
    assert!(s.contains("日本語.md"), "got: {s}");
}

#[test]
fn filename_with_spaces_renders() {
    let s = render_to_string("/r", &[entry("/r/file with spaces.txt", false)]);
    assert!(s.contains("file with spaces.txt"), "got: {s}");
}

#[test]
fn many_siblings_all_present_and_only_last_uses_corner() {
    let mut entries = Vec::new();
    for i in 0..20 {
        entries.push(entry(&format!("/r/f{i:02}"), false));
    }
    let s = render_to_string("/r", &entries);
    for i in 0..20 {
        assert!(s.contains(&format!("f{i:02}")), "missing f{i:02}");
    }
    let corners = s.matches("└── ").count();
    assert_eq!(corners, 1, "exactly one └── among 20 siblings");
    let tees = s.matches("├── ").count();
    assert_eq!(tees, 19, "exactly 19 ├── among 20 siblings");
}

#[test]
fn deep_nesting_repeats_pipe_continuation() {
    let mut entries = Vec::new();
    let mut current = String::from("/r");
    for i in 0..6 {
        current.push_str(&format!("/d{i}"));
        entries.push(entry(&current, true));
    }
    entries.push(entry(&format!("{current}/leaf.txt"), false));
    let s = render_to_string("/r", &entries);
    assert!(s.contains("                        └── leaf.txt"), "got: {s}");
}

#[test]
fn mixed_dirs_and_files_interleave_alphabetically() {
    let s = render_to_string(
        "/r",
        &[entry("/r/banana", false), entry("/r/apple_dir", true), entry("/r/cherry_dir", true)],
    );
    let a = s.find("apple_dir").unwrap();
    let b = s.find("banana").unwrap();
    let c = s.find("cherry_dir").unwrap();
    assert!(a < b && b < c, "expected interleaved alphabetical");
}

#[test]
fn footer_zero_dirs_one_file_uses_correct_forms() {
    let s = render_to_string("/r", &[entry("/r/f", false)]);
    assert!(s.contains("0 directories, 1 file"), "got: {s}");
}

#[test]
fn footer_one_dir_zero_files() {
    let s = render_to_string("/r", &[entry("/r/d", true)]);
    assert!(s.contains("1 directory, 0 files"), "got: {s}");
}

#[test]
fn root_path_appears_as_first_line() {
    let s = render_to_string("/some/path", &[]);
    let first_line = s.lines().next().unwrap();
    assert_eq!(first_line, "/some/path");
}

#[test]
fn relative_root_renders_intact() {
    let s = render_to_string(".", &[entry("./a.txt", false)]);
    assert!(s.starts_with(".\n"), "got: {s}");
    assert!(s.contains("a.txt"));
}

#[test]
fn directories_count_includes_nested() {
    let s = render_to_string("/r", &[entry("/r/a", true), entry("/r/a/b", true), entry("/r/a/b/c", true)]);
    assert!(s.contains("3 directories, 0 files"), "got: {s}");
}

#[test]
fn build_creates_node_with_metadata() {
    let entries = vec![Entry {
        path: "/r/a.txt".to_string(),
        is_dir: false,
        size: 1234,
        mtime: Some(FileTime { secs: 0, nanos: 0 }),
        mode: Some(0o100644),
        ..Default::default()
    }];
    let tree = build("/r", &entries);
    assert_eq!(tree.children.len(), 1);
    let leaf = &tree.children[0];
    assert_eq!(leaf.name, "a.txt");
    assert_eq!(leaf.meta.size, 1234);
    assert_eq!(leaf.meta.mode, Some(0o100644));
    assert!(leaf.meta.mtime.is_some());
}

#[test]
fn build_creates_intermediate_dirs() {
    let entries = vec![Entry { path: "/r/a/b/c.txt".to_string(), is_dir: false, ..Default::default() }];
    let tree = build("/r", &entries);
    assert_eq!(tree.children.len(), 1);
    assert_eq!(tree.children[0].name, "a");
    assert!(tree.children[0].meta.is_dir);
    assert_eq!(tree.children[0].children[0].name, "b");
    assert!(tree.children[0].children[0].meta.is_dir);
}

#[test]
fn build_preserves_entry_order() {
    let entries = vec![entry("/r/zeta", false), entry("/r/alpha", false), entry("/r/mu", false)];
    let tree = build("/r", &entries);
    assert_eq!(names(&tree), vec!["zeta", "alpha", "mu"], "build preserves walker order; sort happens at render");
}

#[test]
fn apply_sort_by_name_ascending() {
    let mut tree = build("/r", &[entry("/r/zeta", false), entry("/r/alpha", false), entry("/r/mu", false)]);
    apply_sort(&mut tree, SortKey::Name, false);
    assert_eq!(names(&tree), vec!["alpha", "mu", "zeta"]);
}

#[test]
fn apply_sort_by_name_reversed() {
    let mut tree = build("/r", &[entry("/r/zeta", false), entry("/r/alpha", false), entry("/r/mu", false)]);
    apply_sort(&mut tree, SortKey::Name, true);
    assert_eq!(names(&tree), vec!["zeta", "mu", "alpha"]);
}

#[test]
fn apply_sort_by_size_ascending() {
    let big = Entry { path: "/r/big".to_string(), size: 9999, ..Default::default() };
    let small = Entry { path: "/r/small".to_string(), size: 1, ..Default::default() };
    let mid = Entry { path: "/r/mid".to_string(), size: 500, ..Default::default() };
    let mut tree = build("/r", &[big, mid, small]);
    apply_sort(&mut tree, SortKey::Size, false);
    assert_eq!(names(&tree), vec!["small", "mid", "big"]);
}

#[test]
fn apply_sort_by_mtime_newest_first() {
    let old = Entry { path: "/r/old".to_string(), mtime: Some(FileTime { secs: 0, nanos: 0 }), ..Default::default() };
    let new = Entry {
        path: "/r/new".to_string(),
        mtime: Some(FileTime { secs: 1_000_000, nanos: 0 }),
        ..Default::default()
    };
    let mid = Entry { path: "/r/mid".to_string(), mtime: Some(FileTime { secs: 500_000, nanos: 0 }), ..Default::default() };
    let mut tree = build("/r", &[old, mid, new]);
    apply_sort(&mut tree, SortKey::Mtime, false);
    assert_eq!(names(&tree), vec!["new", "mid", "old"], "newest first");
}

#[test]
fn apply_sort_none_preserves_walker_order() {
    let mut tree = build("/r", &[entry("/r/zeta", false), entry("/r/alpha", false), entry("/r/mu", false)]);
    apply_sort(&mut tree, SortKey::Unsorted, false);
    assert_eq!(names(&tree), vec!["zeta", "alpha", "mu"]);
}

#[test]
fn apply_sort_recursive_into_children() {
    let mut tree = build("/r", &[entry("/r/dir/zeta", false), entry("/r/dir/alpha", false)]);
    apply_sort(&mut tree, SortKey::Name, false);
    assert_eq!(names(&tree.children[0]), vec!["alpha", "zeta"]);
}

#[test]
fn symlink_suffix_rendered_when_enabled() {
    let entries = vec![Entry {
        path: "/r/link".to_string(),
        is_symlink: true,
        symlink_target: Some("/real/target".to_string()),
        ..Default::default()
    }];
    let opts = RenderOptions { show_symlink_target: true, ..RenderOptions::default() };
    let s = render("/r", &entries, &opts);
    assert!(s.contains("link -> /real/target"), "got: {s}");
}

#[test]
fn symlink_suffix_not_rendered_for_regular_file() {
    let entries = vec![Entry { path: "/r/file".to_string(), ..Default::default() }];
    let opts = RenderOptions { show_symlink_target: true, ..RenderOptions::default() };
    let s = render("/r", &entries, &opts);
    assert!(!s.contains(" -> "), "got: {s}");
}

#[test]
fn permissions_rendered_when_enabled() {
    let entries = vec![Entry { path: "/r/script".to_string(), mode: Some(0o755), ..Default::default() }];
    let opts = RenderOptions { show_permissions: true, ..RenderOptions::default() };
    let s = render("/r", &entries, &opts);
    assert!(s.contains("[rwxr-xr-x]"), "got: {s}");
    assert!(!s.contains("[---------]"), "got: {s}");
}

#[test]
fn permissions_missing_renders_dashes() {
    let entries = vec![Entry { path: "/r/file".to_string(), mode: None, ..Default::default() }];
    let opts = RenderOptions { show_permissions: true, ..RenderOptions::default() };
    let s = render("/r", &entries, &opts);
    assert!(s.contains("[---------]"), "got: {s}");
}

#[test]
fn tree_noreport_suppresses_footer() {
    let entries = vec![entry("/r/x", false)];
    let opts = RenderOptions { no_report: true, ..RenderOptions::default() };
    let s = render("/r", &entries, &opts);
    assert!(!s.contains("director"), "got: {s}");
    assert!(!s.contains("file"), "got: {s}");
}

#[test]
fn prune_empty_dirs_removes_childless_dir() {
    let mut tree = dir_node("", vec![dir_node("empty_dir", vec![]), file_node("file.txt")]);
    prune_empty_dirs(&mut tree);
    assert_eq!(tree.children.len(), 1);
    assert_eq!(tree.children[0].name, "file.txt");
}

#[test]
fn prune_keeps_dir_with_file_descendants() {
    let mut tree = dir_node("", vec![dir_node("kept", vec![file_node("deep.txt")])]);
    prune_empty_dirs(&mut tree);
    assert_eq!(tree.children.len(), 1);
    assert_eq!(tree.children[0].name, "kept");
}

#[test]
fn prune_removes_nested_only_empty_dir() {
    let mut tree = dir_node("", vec![dir_node("outer", vec![dir_node("inner", vec![])])]);
    prune_empty_dirs(&mut tree);
    assert!(tree.children.is_empty(), "no file descendant means outer dropped");
}

#[test]
fn apply_sort_size_with_name_tiebreak() {
    let a = Entry { path: "/r/a".to_string(), size: 100, ..Default::default() };
    let b = Entry { path: "/r/b".to_string(), size: 100, ..Default::default() };
    let c = Entry { path: "/r/c".to_string(), size: 100, ..Default::default() };
    let mut tree = build("/r", &[c, a, b]);
    apply_sort(&mut tree, SortKey::Size, false);
    assert_eq!(names(&tree), vec!["a", "b", "c"], "alphabetical tiebreak");
}

#[test]
fn build_dedupes_repeated_paths() {
    let entries = vec![entry("/r/a/x.txt", false), entry("/r/a/y.txt", false), entry("/r/a", true)];
    let tree = build("/r", &entries);
    assert_eq!(tree.children.len(), 1, "single 'a' node");
    assert_eq!(tree.children[0].children.len(), 2);
}

#[test]
fn node_meta_carries_symlink_target() {
    let entries = vec![Entry {
        path: "/r/link".to_string(),
        is_symlink: true,
        symlink_target: Some("/real/target".to_string()),
        ..Default::default()
    }];
    let tree = build("/r", &entries);
    assert_eq!(tree.children[0].meta.symlink_target, Some("/real/target".to_string()));
    assert!(tree.children[0].meta.is_symlink);
}

// ----- further cases -----

#[test]
fn render_exact_text_of_small_tree() {
    let s = render_to_string(
        "/r",
        &[entry("/r/b", true), entry("/r/b/x", false), entry("/r/a", false)],
    );
    assert_eq!(s, "/r\n├── a\n└── b\n    └── x\n\n1 directory, 2 files\n");
}

#[test]
fn entry_outside_root_uses_whole_path() {
    let tree = build("/r", &[entry("/other/z.txt", false)]);
    assert_eq!(names(&tree), vec!["/"]);
    assert_eq!(names(&tree.children[0]), vec!["other"]);
    assert_eq!(names(&tree.children[0].children[0]), vec!["z.txt"]);
}

#[test]
fn entry_equal_to_root_is_skipped() {
    let tree = build("/r", &[entry("/r", true)]);
    assert!(tree.children.is_empty());
    assert!(tree.meta.is_dir);
}

#[test]
fn later_entry_overwrites_metadata_of_same_path() {
    let first = Entry { path: "/r/a".to_string(), size: 1, ..Default::default() };
    let second = Entry { path: "/r/a".to_string(), size: 2, is_dir: true, ..Default::default() };
    let tree = build("/r", &[first, second]);
    assert_eq!(tree.children.len(), 1);
    assert_eq!(tree.children[0].meta.size, 2);
    assert!(tree.children[0].meta.is_dir);
}

#[test]
fn counts_every_depth() {
    let tree = dir_node("", vec![dir_node("d", vec![file_node("f1"), dir_node("e", vec![file_node("f2")])]), file_node("g")]);
    assert_eq!(counts(&tree), (2, 3));
}

#[test]
fn prune_keeps_files_and_count_of_files() {
    let mut tree = dir_node(
        "",
        vec![dir_node("d", vec![dir_node("empty", vec![]), file_node("f")]), dir_node("e", vec![]), file_node("g")],
    );
    let before = counts(&tree).1;
    prune_empty_dirs(&mut tree);
    assert_eq!(counts(&tree), (1, before));
    assert_eq!(names(&tree), vec!["d", "g"]);
    assert_eq!(names(&tree.children[0]), vec!["f"]);
}

#[test]
fn sort_keeps_counts() {
    let mut tree = build("/r", &[entry("/r/z/y", false), entry("/r/a", true), entry("/r/m", false)]);
    let before = counts(&tree);
    apply_sort(&mut tree, SortKey::Name, true);
    assert_eq!(counts(&tree), before);
    assert_eq!(names(&tree), vec!["z", "m", "a"]);
}

#[test]
fn mtime_sort_puts_missing_times_last_and_ties_by_name() {
    let t = Some(FileTime { secs: 10, nanos: 5 });
    let entries = vec![
        Entry { path: "/r/none".to_string(), mtime: None, ..Default::default() },
        Entry { path: "/r/b".to_string(), mtime: t, ..Default::default() },
        Entry { path: "/r/a".to_string(), mtime: t, ..Default::default() },
        Entry { path: "/r/later".to_string(), mtime: Some(FileTime { secs: 10, nanos: 6 }), ..Default::default() },
    ];
    let mut tree = build("/r", &entries);
    apply_sort(&mut tree, SortKey::Mtime, false);
    assert_eq!(names(&tree), vec!["later", "a", "b", "none"]);
}

#[test]
fn reversed_unsorted_keeps_walker_order() {
    let mut tree = build("/r", &[entry("/r/zeta", false), entry("/r/alpha", false)]);
    apply_sort(&mut tree, SortKey::Unsorted, true);
    assert_eq!(names(&tree), vec!["zeta", "alpha"]);
}

#[test]
fn reversed_size_sort_reverses_the_tiebreak_too() {
    let a = Entry { path: "/r/a".to_string(), size: 5, ..Default::default() };
    let b = Entry { path: "/r/b".to_string(), size: 5, ..Default::default() };
    let c = Entry { path: "/r/c".to_string(), size: 1, ..Default::default() };
    let mut tree = build("/r", &[a, c, b]);
    apply_sort(&mut tree, SortKey::Size, true);
    assert_eq!(names(&tree), vec!["b", "a", "c"]);
}

#[test]
fn prepare_prunes_then_sorts() {
    let opts = RenderOptions { prune_empty_dirs: true, ..RenderOptions::default() };
    let tree = prepare("/r", &[entry("/r/z", false), entry("/r/empty", true), entry("/r/b", false)], &opts);
    assert_eq!(names(&tree), vec!["b", "z"]);
}

#[test]
fn render_prepared_shows_sizes_and_times() {
    let entries = vec![Entry {
        path: "/r/f".to_string(),
        size: 1536,
        mtime: Some(FileTime { secs: 946684800, nanos: 0 }),
        ..Default::default()
    }];
    let opts = RenderOptions { show_sizes: true, show_mtime: true, ..RenderOptions::default() };
    let tree = prepare("/r", &entries, &opts);
    let s = render_prepared("/r", &tree, &opts);
    assert_eq!(s, "/r\n└── [1.5K] [2000-01-01 00:00] f\n\n0 directories, 1 file\n");
}

#[test]
fn missing_mtime_renders_placeholder() {
    let opts = RenderOptions { show_mtime: true, no_report: true, ..RenderOptions::default() };
    let s = render("/r", &[entry("/r/f", false)], &opts);
    assert_eq!(s, "/r\n└── [----- ----- -----] f\n");
}

#[test]
fn symlink_without_target_has_no_suffix() {
    let entries = vec![Entry { path: "/r/l".to_string(), is_symlink: true, ..Default::default() }];
    let opts = RenderOptions { show_symlink_target: true, no_report: true, ..RenderOptions::default() };
    assert_eq!(render("/r", &entries, &opts), "/r\n└── l\n");
}

#[test]
fn symlink_target_hidden_unless_enabled() {
    let entries = vec![Entry {
        path: "/r/l".to_string(),
        is_symlink: true,
        symlink_target: Some("/t".to_string()),
        ..Default::default()
    }];
    let opts = RenderOptions { no_report: true, ..RenderOptions::default() };
    assert_eq!(render("/r", &entries, &opts), "/r\n└── l\n");
}

#[test]
fn repeated_paths_at_every_depth_give_one_node_each() {
    let entries = vec![
        entry("/r/a/b/c", false),
        entry("/r/a/b", true),
        entry("/r/a/b/c", false),
        entry("/r/a/d", false),
        entry("/r/a", true),
    ];
    let tree = build("/r", &entries);
    assert_eq!(names(&tree), vec!["a"]);
    assert_eq!(names(&tree.children[0]), vec!["b", "d"]);
    assert_eq!(names(&tree.children[0].children[0]), vec!["c"]);
}

#[test]
fn preparing_twice_renders_the_same() {
    let entries = vec![entry("/r/z", false), entry("/r/a/x", false), entry("/r/a", true)];
    let opts = RenderOptions { sort: SortKey::Size, ..RenderOptions::default() };
    let t1 = prepare("/r", &entries, &opts);
    let t2 = prepare("/r", &entries, &opts);
    assert_eq!(render_prepared("/r", &t1, &opts), render_prepared("/r", &t2, &opts));
    assert_eq!(render("/r", &entries, &opts), render_prepared("/r", &t1, &opts));
}

#[test]
fn reversed_sort_mirrors_forward_sort_at_every_level() {
    let entries = vec![entry("/r/b/y", false), entry("/r/a", false), entry("/r/b/x", false), entry("/r/c", false)];
    let mut fwd = build("/r", &entries);
    let mut rev = build("/r", &entries);
    apply_sort(&mut fwd, SortKey::Name, false);
    apply_sort(&mut rev, SortKey::Name, true);
    let mut f = names(&fwd);
    f.reverse();
    assert_eq!(names(&rev), f);
    assert_eq!(names(&fwd.children[1]), vec!["x", "y"]);
    assert_eq!(names(&rev.children[1]), vec!["y", "x"]);
}

#[test]
fn pruning_twice_is_pruning_once() {
    let mut tree = dir_node("", vec![dir_node("d", vec![dir_node("e", vec![]), file_node("f")]), dir_node("g", vec![])]);
    prune_empty_dirs(&mut tree);
    let once = render_prepared("/r", &tree, &RenderOptions::default());
    prune_empty_dirs(&mut tree);
    assert_eq!(render_prepared("/r", &tree, &RenderOptions::default()), once);
    assert_eq!(names(&tree), vec!["d"]);
}
