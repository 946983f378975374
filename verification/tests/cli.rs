use bush::cli::{apply_cli, dispatch, render_options_for, CliOverrides, Rendered};
use bush::color::ColorMode;
use bush::config::{Config, OutputFormat, SortKey};
use bush::exit::{CLAP_ERROR, ERROR, INTERRUPTED, SUCCESS};
use bush::filter::Filter;
use bush::tree::RenderOptions;
use bush::walker::{admits, passes_git_filter, Entry};

fn no_overrides() -> CliOverrides {
    CliOverrides {
        ignore_file: vec![],
        no_ignore: false,
        hidden: false,
        max_depth: None,
        output: None,
        stdout: false,
        dirs_only: false,
        follow_symlinks: false,
        color: None,
        show_sizes: false,
        show_mtime: false,
        sort: None,
        reverse: false,
        include_globs: vec![],
        exclude: vec![],
        no_report: false,
        show_symlink_target: false,
        show_permissions: false,
        format: None,
    }
}

fn entry(path: &str, is_dir: bool) -> Entry {
    Entry { path: path.to_string(), is_dir, ..Default::default() }
}

#[test]
fn no_overrides_leave_config_unchanged() {
    let mut cfg = Config::default();
    apply_cli(&mut cfg, no_overrides());
    let d = Config::default();
    assert_eq!(cfg.ignore_files, d.ignore_files);
    assert_eq!(cfg.max_depth, d.max_depth);
    assert_eq!(cfg.sort, d.sort);
    assert_eq!(cfg.format, d.format);
    assert!(cfg.use_ignore);
}

#[test]
fn ignore_file_names_added_once() {
    let mut cfg = Config::default();
    let cli = CliOverrides {
        ignore_file: vec![".gitignore".into(), ".dockerignore".into(), ".dockerignore".into()],
        ..no_overrides()
    };
    apply_cli(&mut cfg, cli);
    assert_eq!(cfg.ignore_files, vec![".gitignore".to_string(), ".ignore".to_string(), ".dockerignore".to_string()]);
}

#[test]
fn flags_turn_settings_on_and_no_ignore_turns_off() {
    let mut cfg = Config::default();
    let cli = CliOverrides {
        no_ignore: true,
        dirs_only: true,
        follow_symlinks: true,
        show_sizes: true,
        reverse: true,
        no_report: true,
        ..no_overrides()
    };
    apply_cli(&mut cfg, cli);
    assert!(!cfg.use_ignore);
    assert!(cfg.directories_only);
    assert!(cfg.follow_symlinks);
    assert!(cfg.show_sizes);
    assert!(cfg.reverse);
    assert!(cfg.no_report);
}

#[test]
fn stdout_drops_configured_output() {
    let mut cfg = Config { output: Some("out.txt".into()), ..Config::default() };
    apply_cli(&mut cfg, CliOverrides { stdout: true, ..no_overrides() });
    assert!(cfg.output.is_none());
    let mut cfg2 = Config::default();
    apply_cli(&mut cfg2, CliOverrides { output: Some("o".into()), ..no_overrides() });
    assert_eq!(cfg2.output.as_deref(), Some("o"));
}

#[test]
fn given_globs_replace_configured_ones() {
    let mut cfg = Config { include_globs: vec!["*.md".into()], exclude: vec!["x".into()], ..Config::default() };
    apply_cli(&mut cfg, CliOverrides { include_globs: vec!["*.rs".into()], ..no_overrides() });
    assert_eq!(cfg.include_globs, vec!["*.rs".to_string()]);
    assert_eq!(cfg.exclude, vec!["x".to_string()]);
}

#[test]
fn options_replace_configured_values() {
    let mut cfg = Config::default();
    let cli = CliOverrides {
        max_depth: Some(2),
        color: Some(ColorMode::Never),
        sort: Some(SortKey::Size),
        format: Some(OutputFormat::Xml),
        ..no_overrides()
    };
    apply_cli(&mut cfg, cli);
    assert_eq!(cfg.max_depth, Some(2));
    assert_eq!(cfg.color, ColorMode::Never);
    assert_eq!(cfg.sort, SortKey::Size);
    assert_eq!(cfg.format, OutputFormat::Xml);
}

#[test]
fn auto_colour_only_for_tree_on_a_terminal() {
    let cfg = Config::default();
    assert!(render_options_for(&cfg, true, false).colorizer.enabled());
    assert!(!render_options_for(&cfg, false, false).colorizer.enabled());
    let json = Config { format: OutputFormat::Json, ..Config::default() };
    assert!(!render_options_for(&json, true, false).colorizer.enabled());
    let to_file = Config { output: Some("f".into()), ..Config::default() };
    assert!(!render_options_for(&to_file, true, false).colorizer.enabled());
    let always = Config { color: ColorMode::Always, output: Some("f".into()), ..Config::default() };
    assert!(render_options_for(&always, false, false).colorizer.enabled());
}

#[test]
fn include_globs_prune_empty_directories() {
    let cfg = Config { show_mtime: true, sort: SortKey::Mtime, ..Config::default() };
    let o = render_options_for(&cfg, false, true);
    assert!(o.prune_empty_dirs);
    assert!(o.show_mtime);
    assert_eq!(o.sort, SortKey::Mtime);
    assert!(!render_options_for(&cfg, false, false).prune_empty_dirs);
}

#[test]
fn dispatch_picks_the_renderer() {
    let entries = vec![entry("/r/a", false)];
    let opts = RenderOptions::default();
    match dispatch("/r", &entries, &opts, OutputFormat::Tree) {
        Rendered::Text(s) => assert_eq!(s, "/r\n└── a\n\n0 directories, 1 file\n"),
        Rendered::Json(_) => panic!("expected text"),
    }
    match dispatch("/r", &entries, &opts, OutputFormat::Json) {
        Rendered::Json(j) => assert_eq!(j.report, Some((0, 1))),
        Rendered::Text(_) => panic!("expected json"),
    }
    match dispatch("/r", &entries, &opts, OutputFormat::Html) {
        Rendered::Text(s) => assert!(s.starts_with("<!DOCTYPE html>")),
        Rendered::Json(_) => panic!("expected text"),
    }
    match dispatch("/r", &entries, &opts, OutputFormat::Xml) {
        Rendered::Text(s) => assert!(s.starts_with("<?xml")),
        Rendered::Json(_) => panic!("expected text"),
    }
}

#[test]
fn exit_codes() {
    assert_eq!(SUCCESS, 0);
    assert_eq!(ERROR, 1);
    assert_eq!(CLAP_ERROR, 2);
    assert_eq!(INTERRUPTED, 130);
}

#[test]
fn git_directory_below_root_is_skipped() {
    assert!(passes_git_filter(0, ".git"));
    assert!(!passes_git_filter(1, ".git"));
    assert!(passes_git_filter(1, ".github"));
    assert!(passes_git_filter(2, "src"));
}

#[test]
fn walk_admits_by_depth_kind_and_filter() {
    let none = Filter::default();
    assert!(!admits(&none, "/r", "/r", 0, true, false), "the root itself is not listed");
    assert!(admits(&none, "/r", "/r/a", 1, false, false));
    assert!(!admits(&none, "/r", "/r/a", 1, false, true), "files dropped under dirs-only");
    assert!(admits(&none, "/r", "/r/d", 1, true, true));
    let f = Filter::new(&[], &["vendor".to_string()]).unwrap();
    assert!(!admits(&f, "/r", "/r/vendor/x.go", 2, false, false), "judged relative to the root");
    assert!(admits(&f, "/r", "/r/src/x.go", 2, false, false));
}
