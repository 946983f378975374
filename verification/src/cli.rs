//! What the command line changes in the settings, the render options that
//! follow from the settings, and the choice of renderer.

use vstd::prelude::*;
use crate::color::{color_enabled, ColorMode, Colorizer};
use crate::config::{overlay_into, overlay_some_into, Config, OutputFormat, SortKey};
use crate::format::{json_matches, node_to_json, render_html, render_xml, html_text, xml_text, JsonNode};
use crate::tree::{prepare, prepared_from, render, tree_text, Node, RenderOptions};
use crate::walker::Entry;

verus! {

/// The settings given on the command line, as plain values.
#[derive(Debug)]
pub struct CliOverrides {
    /// Extra ignore-file names (`-I`), added when not already listed.
    pub ignore_file: Vec<String>,
    pub no_ignore: bool,
    pub hidden: bool,
    pub max_depth: Option<usize>,
    pub output: Option<String>,
    /// Force standard output, dropping any output file.
    pub stdout: bool,
    pub dirs_only: bool,
    pub follow_symlinks: bool,
    pub color: Option<ColorMode>,
    pub show_sizes: bool,
    pub show_mtime: bool,
    pub sort: Option<SortKey>,
    pub reverse: bool,
    /// `--include` globs; replace the configured ones when any are given.
    pub include_globs: Vec<String>,
    /// `--exclude` globs; replace the configured ones when any are given.
    pub exclude: Vec<String>,
    pub no_report: bool,
    pub show_symlink_target: bool,
    pub show_permissions: bool,
    pub format: Option<OutputFormat>,
}

/// The names of a list of strings.
pub open spec fn texts(v: Seq<String>) -> Seq<Seq<char>> {
    v.map_values(|s: String| s@)
}

/// `list` with each of `names` appended, in order, unless already present.
pub open spec fn with_names_added(list: Seq<Seq<char>>, names: Seq<Seq<char>>) -> Seq<Seq<char>>
    decreases names.len(),
{
    if names.len() == 0 {
        list
    } else {
        let l = with_names_added(list, names.drop_last());
        if l.contains(names.last()) {
            l
        } else {
            l.push(names.last())
        }
    }
}

/// `after` is `before` with the command line applied: a flag that is set
/// (or an option that is given) wins over the configured value, and
/// `--stdout` drops any output file.
pub open spec fn cli_applied(after: Config, before: Config, cli: CliOverrides) -> bool {
    &&& texts(after.ignore_files@) == with_names_added(texts(before.ignore_files@), texts(cli.ignore_file@))
    &&& after.use_ignore == (before.use_ignore && !cli.no_ignore)
    &&& after.include_hidden == (before.include_hidden || cli.hidden)
    &&& after.max_depth == (if cli.max_depth is Some {
        cli.max_depth
    } else {
        before.max_depth
    })
    &&& after.output == (if cli.stdout {
        None
    } else if cli.output is Some {
        cli.output
    } else {
        before.output
    })
    &&& after.directories_only == (before.directories_only || cli.dirs_only)
    &&& after.follow_symlinks == (before.follow_symlinks || cli.follow_symlinks)
    &&& after.color == (match cli.color {
        Some(c) => c,
        None => before.color,
    })
    &&& after.show_sizes == (before.show_sizes || cli.show_sizes)
    &&& after.show_mtime == (before.show_mtime || cli.show_mtime)
    &&& after.sort == (match cli.sort {
        Some(s) => s,
        None => before.sort,
    })
    &&& after.reverse == (before.reverse || cli.reverse)
    &&& after.include_globs == (if cli.include_globs@.len() > 0 {
        cli.include_globs
    } else {
        before.include_globs
    })
    &&& after.exclude == (if cli.exclude@.len() > 0 {
        cli.exclude
    } else {
        before.exclude
    })
    &&& after.no_report == (before.no_report || cli.no_report)
    &&& after.show_symlink_target == (before.show_symlink_target || cli.show_symlink_target)
    &&& after.show_permissions == (before.show_permissions || cli.show_permissions)
    &&& after.format == (match cli.format {
        Some(f) => f,
        None => before.format,
    })
}

/// Each command-line flag acts on its own setting alone: after the command
/// line, a shown-or-not setting is on exactly when it was on in the loaded
/// settings or its own flag was given (`--no-ignore` turns ignore files
/// off); a value given on the command line replaces the loaded one, and
/// when none is given the loaded one stays; `--stdout` drops any output
/// file.
pub proof fn lemma_each_flag_sets_its_own_setting(after: Config, before: Config, cli: CliOverrides)
    requires
        cli_applied(after, before, cli),
    ensures
        after.show_permissions == (before.show_permissions || cli.show_permissions),
        after.show_symlink_target == (before.show_symlink_target || cli.show_symlink_target),
        after.show_sizes == (before.show_sizes || cli.show_sizes),
        after.show_mtime == (before.show_mtime || cli.show_mtime),
        after.reverse == (before.reverse || cli.reverse),
        after.no_report == (before.no_report || cli.no_report),
        after.directories_only == (before.directories_only || cli.dirs_only),
        after.follow_symlinks == (before.follow_symlinks || cli.follow_symlinks),
        after.include_hidden == (before.include_hidden || cli.hidden),
        after.use_ignore == (before.use_ignore && !cli.no_ignore),
        cli.max_depth is Some ==> after.max_depth == cli.max_depth,
        cli.max_depth is None ==> after.max_depth == before.max_depth,
        cli.sort matches Some(k) ==> after.sort == k,
        cli.sort is None ==> after.sort == before.sort,
        cli.color matches Some(c) ==> after.color == c,
        cli.color is None ==> after.color == before.color,
        cli.format matches Some(f) ==> after.format == f,
        cli.format is None ==> after.format == before.format,
        cli.stdout ==> after.output is None,
        !cli.stdout && cli.output is Some ==> after.output == cli.output,
        !cli.stdout && cli.output is None ==> after.output == before.output,
{
}

/// Whether `list` already holds `name`.
fn contains_name(list: &Vec<String>, name: &String) -> (r: bool)
    ensures
        r == texts(list@).contains(name@),
{
    let mut i: usize = 0;
    while i < list.len()
        invariant
            i <= list@.len(),
            forall|j: int| 0 <= j < i ==> list@[j]@ != name@,
        decreases list@.len() - i,
    {
        if list[i] == *name {
            assert(texts(list@)[i as int] == name@);
            return true;
        }
        i = i + 1;
    }
    proof {
        if texts(list@).contains(name@) {
            let k = choose|k: int| 0 <= k < texts(list@).len() && texts(list@)[k] == name@;
            assert(list@[k]@ == name@);
        }
    }
    false
}

/// Appends each of `names` not yet in `list`.
fn add_missing_names(list: &mut Vec<String>, names: &Vec<String>)
    ensures
        texts(final(list)@) == with_names_added(texts(old(list)@), texts(names@)),
{
    let ghost start = texts(list@);
    let mut i: usize = 0;
    while i < names.len()
        invariant
            i <= names@.len(),
            texts(list@) == with_names_added(start, texts(names@).subrange(0, i as int)),
        decreases names@.len() - i,
    {
        let ghost before = texts(list@);
        let name = &names[i];
        if !contains_name(list, name) {
            list.push(name.clone());
            assert(texts(list@) =~= before.push(name@));
        }
        proof {
            let pre = texts(names@).subrange(0, i + 1);
            assert(pre.drop_last() =~= texts(names@).subrange(0, i as int));
            assert(pre.last() == name@);
        }
        i = i + 1;
    }
    assert(texts(names@).subrange(0, names@.len() as int) =~= texts(names@));
}

/// Turns a setting on when its flag is given.
fn set_flag(dst: &mut bool, flag: bool)
    ensures
        *final(dst) == (*old(dst) || flag),
{
    if flag {
        *dst = true;
    }
}

/// Turns a setting off when its flag is given.
fn clear_flag(dst: &mut bool, flag: bool)
    ensures
        *final(dst) == (*old(dst) && !flag),
{
    if flag {
        *dst = false;
    }
}

/// Replaces a list when the command line gives a non-empty one.
fn replace_if_given(dst: &mut Vec<String>, given: Vec<String>)
    ensures
        *final(dst) == (if given@.len() > 0 {
            given
        } else {
            *old(dst)
        }),
{
    if given.len() > 0 {
        *dst = given;
    }
}

/// Applies the command-line settings over the loaded ones.
pub fn apply_cli(config: &mut Config, cli: CliOverrides)
    ensures
        cli_applied(*final(config), *old(config), cli),
{
    add_missing_names(&mut config.ignore_files, &cli.ignore_file);
    clear_flag(&mut config.use_ignore, cli.no_ignore);
    set_flag(&mut config.include_hidden, cli.hidden);
    overlay_some_into(&mut config.max_depth, cli.max_depth);
    overlay_some_into(&mut config.output, cli.output);
    if cli.stdout {
        config.output = None;
    }
    set_flag(&mut config.directories_only, cli.dirs_only);
    set_flag(&mut config.follow_symlinks, cli.follow_symlinks);
    overlay_into(&mut config.color, cli.color);
    set_flag(&mut config.show_sizes, cli.show_sizes);
    set_flag(&mut config.show_mtime, cli.show_mtime);
    overlay_into(&mut config.sort, cli.sort);
    set_flag(&mut config.reverse, cli.reverse);
    replace_if_given(&mut config.include_globs, cli.include_globs);
    replace_if_given(&mut config.exclude, cli.exclude);
    set_flag(&mut config.no_report, cli.no_report);
    set_flag(&mut config.show_symlink_target, cli.show_symlink_target);
    set_flag(&mut config.show_permissions, cli.show_permissions);
    overlay_into(&mut config.format, cli.format);
}

/// The render options of a run: colour on when the mode asks for it, where
/// `Auto` counts standard output as a terminal only when nothing is written
/// to a file, the format is the tree, and standard output is a terminal;
/// empty directories are pruned when include globs are active.
pub fn render_options_for(config: &Config, stdout_is_tty: bool, has_include: bool) -> (o: RenderOptions)
    ensures
        o.colorizer@ == color_enabled(
            config.color,
            config.output is None && config.format == OutputFormat::Tree && stdout_is_tty,
        ),
        o.show_sizes == config.show_sizes,
        o.show_mtime == config.show_mtime,
        o.show_symlink_target == config.show_symlink_target,
        o.show_permissions == config.show_permissions,
        o.sort == config.sort,
        o.reverse == config.reverse,
        o.prune_empty_dirs == has_include,
        o.no_report == config.no_report,
{
    let writing_to_file = config.output.is_some();
    let is_tree = match config.format {
        OutputFormat::Tree => true,
        _ => false,
    };
    let is_tty = !writing_to_file && is_tree && stdout_is_tty;
    RenderOptions {
        colorizer: Colorizer::new(config.color, is_tty),
        show_sizes: config.show_sizes,
        show_mtime: config.show_mtime,
        show_symlink_target: config.show_symlink_target,
        show_permissions: config.show_permissions,
        sort: config.sort,
        reverse: config.reverse,
        prune_empty_dirs: has_include,
        no_report: config.no_report,
    }
}

/// The output of a run before it is written: text, or the content of the
/// JSON document.
#[derive(Debug)]
pub enum Rendered {
    Text(String),
    Json(JsonNode),
}

/// Renders the walk in the chosen format: the tree text, the JSON content,
/// the HTML page or the XML document of the prepared tree.
pub fn dispatch(root: &str, entries: &[Entry], opts: &RenderOptions, fmt: OutputFormat) -> (r: Rendered)
    ensures
        exists|tree: Node|
            #[trigger] prepared_from(tree, root@, entries@, opts.prune_empty_dirs, opts.sort, opts.reverse)
                && match fmt {
                OutputFormat::Tree => r matches Rendered::Text(s) && s@ == tree_text(root@, tree, *opts),
                OutputFormat::Json => r matches Rendered::Json(j) && json_matches(j, tree, Some(root@)),
                OutputFormat::Html => r matches Rendered::Text(s) && s@ == html_text(root@, tree),
                OutputFormat::Xml => r matches Rendered::Text(s) && s@ == xml_text(root@, tree),
            },
{
    match fmt {
        OutputFormat::Tree => Rendered::Text(render(root, entries, opts)),
        OutputFormat::Json => {
            let prepared = prepare(root, entries, opts);
            Rendered::Json(node_to_json(Some(root), &prepared))
        },
        OutputFormat::Html => {
            let prepared = prepare(root, entries, opts);
            Rendered::Text(render_html(root, &prepared))
        },
        OutputFormat::Xml => {
            let prepared = prepare(root, entries, opts);
            Rendered::Text(render_xml(root, &prepared))
        },
    }
}

} // verus!
