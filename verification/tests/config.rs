use bush::color::ColorMode;
use bush::config::{
    config_text_is_blank, default_ignore_files, load_layered, plan_config_files, Config, LocalSearch, LocalStep,
    OutputFormat, PartialConfig, SortKey,
};
use std::path::Path;

/// Walks up from `start` looking for `.bush.json` or `.bush`, as the program does.
fn find_local_config(start: &str, home: Option<&str>) -> Option<String> {
    let canonical = Path::new(start)
        .canonicalize()
        .map(|p| p.to_string_lossy().into_owned())
        .unwrap_or_else(|_| start.to_string());
    let mut search = LocalSearch::start(canonical, home.map(|h| h.to_string()));
    loop {
        match search.next_step() {
            LocalStep::Check(p) => {
                let hit = Path::new(&p).is_file();
                search = search.observe(hit);
            }
            LocalStep::Found(p) => return Some(p),
            LocalStep::NotFound => return None,
        }
    }
}

#[test]
fn default_config_uses_repo_oriented_ignore_files() {
    let cfg = Config::default();
    assert_eq!(cfg.ignore_files.len(), 2);
    assert!(cfg.ignore_files.contains(&".gitignore".to_string()));
    assert!(cfg.ignore_files.contains(&".ignore".to_string()));
    assert!(cfg.include_hidden);
    assert!(cfg.use_ignore);
    assert!(cfg.max_depth.is_none());
    assert!(cfg.output.is_none());
}

#[test]
fn partial_config_default_is_all_none() {
    let pc = PartialConfig::default();
    assert!(pc.ignore_files.is_none());
    assert!(pc.include_hidden.is_none());
    assert!(pc.max_depth.is_none());
    assert!(pc.output.is_none());
    assert!(pc.follow_symlinks.is_none());
    assert!(pc.directories_only.is_none());
    assert!(pc.use_ignore.is_none());
}

#[test]
fn apply_replaces_only_specified_fields() {
    let mut cfg = Config::default();
    let original_files = cfg.ignore_files.clone();
    let pc = PartialConfig { max_depth: Some(3), ..Default::default() };
    pc.apply(&mut cfg);
    assert_eq!(cfg.max_depth, Some(3));
    assert_eq!(cfg.ignore_files, original_files);
    assert!(cfg.include_hidden);
}

#[test]
fn apply_replaces_ignore_files_when_specified() {
    let mut cfg = Config::default();
    let pc = PartialConfig { ignore_files: Some(vec![".only".into()]), ..Default::default() };
    pc.apply(&mut cfg);
    assert_eq!(cfg.ignore_files, vec![".only".to_string()]);
}

#[test]
fn apply_replaces_ignore_files_with_empty_list() {
    let mut cfg = Config::default();
    let pc = PartialConfig { ignore_files: Some(vec![]), ..Default::default() };
    pc.apply(&mut cfg);
    assert!(cfg.ignore_files.is_empty());
}

#[test]
fn apply_replaces_all_fields_when_all_specified() {
    let mut cfg = Config::default();
    let pc = PartialConfig {
        ignore_files: Some(vec![".x".into()]),
        include_hidden: Some(true),
        max_depth: Some(7),
        output: Some("out.txt".to_string()),
        follow_symlinks: Some(true),
        directories_only: Some(true),
        use_ignore: Some(false),
        color: Some(ColorMode::Always),
        show_sizes: Some(true),
        show_mtime: Some(true),
        sort: Some(SortKey::Size),
        reverse: Some(true),
        include_globs: Some(vec!["*.rs".into()]),
        exclude: Some(vec!["target".into()]),
        no_report: Some(true),
        show_symlink_target: Some(true),
        show_permissions: Some(true),
        format: Some(OutputFormat::Json),
    };
    pc.apply(&mut cfg);
    assert_eq!(cfg.ignore_files, vec![".x".to_string()]);
    assert!(cfg.include_hidden);
    assert_eq!(cfg.max_depth, Some(7));
    assert_eq!(cfg.output, Some("out.txt".to_string()));
    assert!(cfg.follow_symlinks);
    assert!(cfg.directories_only);
    assert!(!cfg.use_ignore);
}

#[test]
fn find_local_config_handles_nonexistent_start() {
    let found = find_local_config("/_bush_test_does_not_exist_xyz_43/deeper", None);
    assert!(found.is_none());
}

#[test]
fn find_local_config_handles_filesystem_root() {
    let found = find_local_config("/", None);
    assert!(found.is_none(), "expected no .bush at /; got {found:?}");
}

// ----- further cases -----

#[test]
fn default_ignore_files_are_gitignore_then_ignore() {
    assert_eq!(default_ignore_files(), vec![".gitignore".to_string(), ".ignore".to_string()]);
}

#[test]
fn default_config_other_settings() {
    let cfg = Config::default();
    assert!(!cfg.follow_symlinks);
    assert!(!cfg.directories_only);
    assert_eq!(cfg.color, ColorMode::Auto);
    assert_eq!(cfg.sort, SortKey::Name);
    assert_eq!(cfg.format, OutputFormat::Tree);
    assert!(cfg.include_globs.is_empty());
    assert!(cfg.exclude.is_empty());
    assert!(!cfg.no_report);
}

#[test]
fn load_layered_no_configs_returns_defaults() {
    let cfg = load_layered(vec![]);
    let d = Config::default();
    assert_eq!(cfg.ignore_files, d.ignore_files);
    assert_eq!(cfg.include_hidden, d.include_hidden);
    assert_eq!(cfg.max_depth, d.max_depth);
    assert_eq!(cfg.use_ignore, d.use_ignore);
}

#[test]
fn load_layered_later_layer_wins_and_earlier_survives() {
    let home = PartialConfig { max_depth: Some(5), include_hidden: Some(false), ..Default::default() };
    let local = PartialConfig { max_depth: Some(9), ..Default::default() };
    let cfg = load_layered(vec![home, local]);
    assert_eq!(cfg.max_depth, Some(9));
    assert!(!cfg.include_hidden, "a setting no later layer overrides survives");
}

#[test]
fn load_layered_empty_layer_changes_nothing() {
    let first = PartialConfig { sort: Some(SortKey::Mtime), ..Default::default() };
    let cfg = load_layered(vec![first, PartialConfig::default()]);
    assert_eq!(cfg.sort, SortKey::Mtime);
}

#[test]
fn plan_with_explicit_file_reads_only_that() {
    let plan = plan_config_files(Some("/x/custom.json"), true, Some("/home/u"), Some("/xdg"));
    assert_eq!(plan.candidates.len(), 1);
    assert_eq!(plan.candidates[0].path, "/x/custom.json");
    assert!(plan.candidates[0].required);
    assert!(!plan.search_local);
}

#[test]
fn plan_skipping_config_reads_nothing() {
    let plan = plan_config_files(None, true, Some("/home/u"), Some("/xdg"));
    assert!(plan.candidates.is_empty());
    assert!(!plan.search_local);
}

#[test]
fn plan_orders_home_then_xdg_then_local() {
    let plan = plan_config_files(None, false, Some("/home/u"), Some("/xdg"));
    let paths: Vec<&str> = plan.candidates.iter().map(|c| c.path.as_str()).collect();
    assert_eq!(paths, vec!["/home/u/.bush", "/home/u/.config/bush/config.json", "/xdg/bush/config.json"]);
    assert!(plan.candidates.iter().all(|c| !c.required));
    assert!(plan.search_local);
}

#[test]
fn plan_without_home_or_xdg_only_searches_locally() {
    let plan = plan_config_files(None, false, None, None);
    assert!(plan.candidates.is_empty());
    assert!(plan.search_local);
}

#[test]
fn local_search_checks_json_first_then_plain_then_parent() {
    let mut s = LocalSearch::start("/a/b".to_string(), None);
    assert!(matches!(s.next_step(), LocalStep::Check(p) if p == "/a/b/.bush.json"));
    s = s.observe(false);
    assert!(matches!(s.next_step(), LocalStep::Check(p) if p == "/a/b/.bush"));
    s = s.observe(false);
    assert!(matches!(s.next_step(), LocalStep::Check(p) if p == "/a/.bush.json"));
    s = s.observe(true);
    assert!(matches!(s.next_step(), LocalStep::Found(p) if p == "/a/.bush.json"));
}

#[test]
fn local_search_stops_at_home() {
    let mut s = LocalSearch::start("/home/u/project".to_string(), Some("/home/u".to_string()));
    s = s.observe(false);
    s = s.observe(false);
    assert!(matches!(s.next_step(), LocalStep::NotFound));
    let at_home = LocalSearch::start("/home/u/.".to_string(), Some("/home/u".to_string()));
    assert!(matches!(at_home.next_step(), LocalStep::NotFound));
}

#[test]
fn local_search_ends_after_root() {
    let mut s = LocalSearch::start("/".to_string(), None);
    s = s.observe(false);
    s = s.observe(false);
    assert!(matches!(s.next_step(), LocalStep::NotFound));
}

#[test]
fn blank_config_text() {
    assert!(config_text_is_blank(""));
    assert!(config_text_is_blank("   \n  \t\n"));
    assert!(config_text_is_blank("\u{a0}\u{3000}"));
    assert!(!config_text_is_blank("{}"));
    assert!(!config_text_is_blank("  x "));
}

#[test]
fn applying_a_layer_twice_is_applying_it_once() {
    let mut cfg = Config::default();
    PartialConfig { max_depth: Some(2), sort: Some(SortKey::Size), ..Default::default() }.apply(&mut cfg);
    PartialConfig { max_depth: Some(2), sort: Some(SortKey::Size), ..Default::default() }.apply(&mut cfg);
    assert_eq!(cfg.max_depth, Some(2));
    assert_eq!(cfg.sort, SortKey::Size);
    assert!(cfg.include_hidden);
}
