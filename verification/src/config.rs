//! Settings: the built-in defaults, partial settings read from config files,
//! and how layers of them combine.

use vstd::prelude::*;
use crate::color::ColorMode;
use crate::text::push_str;

verus! {

/// The key that siblings are ordered by.
#[derive(Debug, Clone, Copy, PartialEq, Eq, Structural)]
pub enum SortKey {
    Name,
    Size,
    Mtime,
    /// Keep the walk's order (written `none` on the command line and in
    /// config files).
    Unsorted,
}

impl Default for SortKey {
    fn default() -> (k: SortKey)
        ensures
            k == SortKey::Name,
    {
        SortKey::Name
    }
}

/// The output format.
#[derive(Debug, Clone, Copy, PartialEq, Eq, Structural)]
pub enum OutputFormat {
    Tree,
    Json,
    Html,
    Xml,
}

impl Default for OutputFormat {
    fn default() -> (f: OutputFormat)
        ensures
            f == OutputFormat::Tree,
    {
        OutputFormat::Tree
    }
}

/// The ignore files honoured when no setting names any.
pub open spec fn default_ignore_names() -> Seq<Seq<char>> {
    seq![".gitignore"@, ".ignore"@]
}

/// The names of the ignore files honoured by default: `.gitignore` and
/// `.ignore`.
pub fn default_ignore_files() -> (v: Vec<String>)
    ensures
        v@.map_values(|s: String| s@) == default_ignore_names(),
{
    let mut a = String::new();
    push_str(&mut a, ".gitignore");
    let mut b = String::new();
    push_str(&mut b, ".ignore");
    let v = vec![a, b];
    assert(v@.map_values(|s: String| s@) =~= default_ignore_names());
    v
}

/// The complete settings of one run.
#[derive(Debug, Clone)]
pub struct Config {
    pub ignore_files: Vec<String>,
    pub include_hidden: bool,
    pub max_depth: Option<usize>,
    pub output: Option<String>,
    pub follow_symlinks: bool,
    pub directories_only: bool,
    pub use_ignore: bool,
    pub color: ColorMode,
    pub show_sizes: bool,
    pub show_mtime: bool,
    pub sort: SortKey,
    pub reverse: bool,
    pub include_globs: Vec<String>,
    pub exclude: Vec<String>,
    pub no_report: bool,
    pub show_symlink_target: bool,
    pub show_permissions: bool,
    pub format: OutputFormat,
}

/// The built-in settings: the default ignore files, hidden entries shown,
/// no depth limit, standard output, no symlink following, ignore files
/// honoured, automatic colour, sorted by name, the summary shown, tree
/// format, and nothing else.
pub open spec fn is_default_config(c: Config) -> bool {
    &&& c.ignore_files@.map_values(|s: String| s@) == default_ignore_names()
    &&& c.include_hidden
    &&& c.max_depth is None
    &&& c.output is None
    &&& !c.follow_symlinks
    &&& !c.directories_only
    &&& c.use_ignore
    &&& c.color == ColorMode::Auto
    &&& !c.show_sizes
    &&& !c.show_mtime
    &&& c.sort == SortKey::Name
    &&& !c.reverse
    &&& c.include_globs@.len() == 0
    &&& c.exclude@.len() == 0
    &&& !c.no_report
    &&& !c.show_symlink_target
    &&& !c.show_permissions
    &&& c.format == OutputFormat::Tree
}

impl Default for Config {
    fn default() -> (c: Config)
        ensures
            is_default_config(c),
    {
        Config {
            ignore_files: default_ignore_files(),
            include_hidden: true,
            max_depth: None,
            output: None,
            follow_symlinks: false,
            directories_only: false,
            use_ignore: true,
            color: ColorMode::Auto,
            show_sizes: false,
            show_mtime: false,
            sort: SortKey::Name,
            reverse: false,
            include_globs: Vec::new(),
            exclude: Vec::new(),
            no_report: false,
            show_symlink_target: false,
            show_permissions: false,
            format: OutputFormat::Tree,
        }
    }
}

/// Settings read from one config file: each one that the file sets.
#[derive(Debug)]
pub struct PartialConfig {
    pub ignore_files: Option<Vec<String>>,
    pub include_hidden: Option<bool>,
    pub max_depth: Option<usize>,
    pub output: Option<String>,
    pub follow_symlinks: Option<bool>,
    pub directories_only: Option<bool>,
    pub use_ignore: Option<bool>,
    pub color: Option<ColorMode>,
    pub show_sizes: Option<bool>,
    pub show_mtime: Option<bool>,
    pub sort: Option<SortKey>,
    pub reverse: Option<bool>,
    pub include_globs: Option<Vec<String>>,
    pub exclude: Option<Vec<String>>,
    pub no_report: Option<bool>,
    pub show_symlink_target: Option<bool>,
    pub show_permissions: Option<bool>,
    pub format: Option<OutputFormat>,
}

/// A partial setting that sets nothing.
pub open spec fn sets_nothing(p: PartialConfig) -> bool {
    &&& p.ignore_files is None
    &&& p.include_hidden is None
    &&& p.max_depth is None
    &&& p.output is None
    &&& p.follow_symlinks is None
    &&& p.directories_only is None
    &&& p.use_ignore is None
    &&& p.color is None
    &&& p.show_sizes is None
    &&& p.show_mtime is None
    &&& p.sort is None
    &&& p.reverse is None
    &&& p.include_globs is None
    &&& p.exclude is None
    &&& p.no_report is None
    &&& p.show_symlink_target is None
    &&& p.show_permissions is None
    &&& p.format is None
}

impl Default for PartialConfig {
    fn default() -> (p: PartialConfig)
        ensures
            sets_nothing(p),
    {
        PartialConfig {
            ignore_files: None,
            include_hidden: None,
            max_depth: None,
            output: None,
            follow_symlinks: None,
            directories_only: None,
            use_ignore: None,
            color: None,
            show_sizes: None,
            show_mtime: None,
            sort: None,
            reverse: None,
            include_globs: None,
            exclude: None,
            no_report: None,
            show_symlink_target: None,
            show_permissions: None,
            format: None,
        }
    }
}

/// The value that a layer sets, or `current` when it sets none.
pub open spec fn overlay<T>(layer: Option<T>, current: T) -> T {
    match layer {
        Some(v) => v,
        None => current,
    }
}

/// The settings `c` with every setting that `p` sets replaced by it.
pub open spec fn applied(p: PartialConfig, c: Config) -> Config {
    Config {
        ignore_files: overlay(p.ignore_files, c.ignore_files),
        include_hidden: overlay(p.include_hidden, c.include_hidden),
        max_depth: match p.max_depth {
            Some(d) => Some(d),
            None => c.max_depth,
        },
        output: match p.output {
            Some(o) => Some(o),
            None => c.output,
        },
        follow_symlinks: overlay(p.follow_symlinks, c.follow_symlinks),
        directories_only: overlay(p.directories_only, c.directories_only),
        use_ignore: overlay(p.use_ignore, c.use_ignore),
        color: overlay(p.color, c.color),
        show_sizes: overlay(p.show_sizes, c.show_sizes),
        show_mtime: overlay(p.show_mtime, c.show_mtime),
        sort: overlay(p.sort, c.sort),
        reverse: overlay(p.reverse, c.reverse),
        include_globs: overlay(p.include_globs, c.include_globs),
        exclude: overlay(p.exclude, c.exclude),
        no_report: overlay(p.no_report, c.no_report),
        show_symlink_target: overlay(p.show_symlink_target, c.show_symlink_target),
        show_permissions: overlay(p.show_permissions, c.show_permissions),
        format: overlay(p.format, c.format),
    }
}

/// Replaces `dst` by the layer's value when it has one.
pub(crate) fn overlay_into<T>(dst: &mut T, layer: Option<T>)
    ensures
        *final(dst) == overlay(layer, *old(dst)),
{
    if let Some(v) = layer {
        *dst = v;
    }
}

/// Replaces an optional setting by the layer's value when it has one.
pub(crate) fn overlay_some_into<T>(dst: &mut Option<T>, layer: Option<T>)
    ensures
        *final(dst) == (match layer {
            Some(v) => Some(v),
            None => *old(dst),
        }),
{
    if let Some(v) = layer {
        *dst = Some(v);
    }
}

impl PartialConfig {
    /// Overrides each setting of `cfg` that this layer sets, leaving the
    /// others as they are.
    pub fn apply(self, cfg: &mut Config)
        ensures
            *final(cfg) == applied(self, *old(cfg)),
    {
        overlay_into(&mut cfg.ignore_files, self.ignore_files);
        overlay_into(&mut cfg.include_hidden, self.include_hidden);
        overlay_some_into(&mut cfg.max_depth, self.max_depth);
        overlay_some_into(&mut cfg.output, self.output);
        overlay_into(&mut cfg.follow_symlinks, self.follow_symlinks);
        overlay_into(&mut cfg.directories_only, self.directories_only);
        overlay_into(&mut cfg.use_ignore, self.use_ignore);
        overlay_into(&mut cfg.color, self.color);
        overlay_into(&mut cfg.show_sizes, self.show_sizes);
        overlay_into(&mut cfg.show_mtime, self.show_mtime);
        overlay_into(&mut cfg.sort, self.sort);
        overlay_into(&mut cfg.reverse, self.reverse);
        overlay_into(&mut cfg.include_globs, self.include_globs);
        overlay_into(&mut cfg.exclude, self.exclude);
        overlay_into(&mut cfg.no_report, self.no_report);
        overlay_into(&mut cfg.show_symlink_target, self.show_symlink_target);
        overlay_into(&mut cfg.show_permissions, self.show_permissions);
        overlay_into(&mut cfg.format, self.format);
    }
}

/// The settings `base` with the layers applied one after the other, the
/// last one taking precedence.
pub open spec fn layered(layers: Seq<PartialConfig>, base: Config) -> Config
    decreases layers.len(),
{
    if layers.len() == 0 {
        base
    } else {
        applied(layers.last(), layered(layers.drop_last(), base))
    }
}

/// Combines the layers of settings found, lowest precedence first, over the
/// built-in defaults.
pub fn load_layered(layers: Vec<PartialConfig>) -> (cfg: Config)
    ensures
        exists|base: Config| is_default_config(base) && cfg == layered(layers@, base),
{
    let mut cfg = Config::default();
    let ghost base = cfg;
    let mut layers = layers;
    let ghost all = layers@;
    let mut rev: Vec<PartialConfig> = Vec::new();
    while layers.len() > 0
        invariant
            all == layers@ + rev@.reverse(),
        decreases layers@.len(),
    {
        let p = layers.pop().unwrap();
        rev.push(p);
        assert(all =~= layers@ + rev@.reverse());
    }
    let ghost mut done: Seq<PartialConfig> = seq![];
    while rev.len() > 0
        invariant
            all == done + rev@.reverse(),
            cfg == layered(done, base),
        decreases rev@.len(),
    {
        let p = rev.pop().unwrap();
        proof {
            assert(done.push(p).drop_last() =~= done);
        }
        p.apply(&mut cfg);
        proof {
            done = done.push(p);
            assert(all =~= done + rev@.reverse());
        }
    }
    assert(done =~= all);
    cfg
}

// ===== precedence =====

/// The value a setting ends with after a series of layers: that of the last
/// layer that sets it, or `current` when none does.
pub open spec fn last_set<T>(values: Seq<Option<T>>, current: T) -> T
    decreases values.len(),
{
    if values.len() == 0 {
        current
    } else {
        match values.last() {
            Some(v) => v,
            None => last_set(values.drop_last(), current),
        }
    }
}

/// A layer that sets nothing changes nothing.
pub proof fn lemma_empty_layer_is_identity(p: PartialConfig, c: Config)
    requires
        sets_nothing(p),
    ensures
        applied(p, c) == c,
{
}

/// Applying a layer a second time changes nothing.
pub proof fn lemma_apply_twice_is_once(p: PartialConfig, c: Config)
    ensures
        applied(p, applied(p, c)) == applied(p, c),
{
    let once = applied(p, c);
    let twice = applied(p, once);
    assert(twice.ignore_files == once.ignore_files);
    assert(twice.include_globs == once.include_globs);
    assert(twice.exclude == once.exclude);
    assert(twice.max_depth == once.max_depth);
    assert(twice.output == once.output);
}

/// Later layers win: for any setting (read from the layers by `of_layer`
/// and from the settings by `of_config`, a pair that `apply` overlays),
/// the layered result holds the value of the last layer that sets it, and
/// the base value when no layer does.
pub proof fn lemma_last_layer_wins<T>(
    layers: Seq<PartialConfig>,
    base: Config,
    of_layer: spec_fn(PartialConfig) -> Option<T>,
    of_config: spec_fn(Config) -> T,
)
    requires
        forall|p: PartialConfig, c: Config|
            #[trigger] of_config(applied(p, c)) == overlay(of_layer(p), of_config(c)),
    ensures
        of_config(layered(layers, base)) == last_set(layers.map_values(of_layer), of_config(base)),
    decreases layers.len(),
{
    if layers.len() > 0 {
        lemma_last_layer_wins(layers.drop_last(), base, of_layer, of_config);
        assert(layers.map_values(of_layer).drop_last() =~= layers.drop_last().map_values(of_layer));
        assert(of_config(layered(layers, base)) == overlay(
            of_layer(layers.last()),
            of_config(layered(layers.drop_last(), base)),
        ));
    }
}

/// The depth limit as a layer sets it: `Some(Some(d))` for a limit `d`.
pub open spec fn depth_layer(p: PartialConfig) -> Option<Option<usize>> {
    match p.max_depth {
        Some(d) => Some(Some(d)),
        None => None,
    }
}

/// The depth limit follows the layers: the last layer that sets it decides.
pub proof fn lemma_max_depth_precedence(layers: Seq<PartialConfig>, base: Config)
    ensures
        layered(layers, base).max_depth == last_set(
            layers.map_values(|p: PartialConfig| depth_layer(p)),
            base.max_depth,
        ),
{
    let of_layer = |p: PartialConfig| depth_layer(p);
    let of_config = |c: Config| c.max_depth;
    assert forall|p: PartialConfig, c: Config|
        #[trigger] of_config(applied(p, c)) == overlay(of_layer(p), of_config(c)) by {}
    lemma_last_layer_wins(layers, base, of_layer, of_config);
}

// ===== discovery =====

/// `Path::join`: `rel` adjoined to `base`.
pub uninterp spec fn joined_path(base: Seq<char>, rel: Seq<char>) -> Seq<char>;

/// `Path::parent`: the path without its final component, if there is one.
pub uninterp spec fn path_parent(p: Seq<char>) -> Option<Seq<char>>;

/// `Path == Path`: the two paths have the same components.
pub uninterp spec fn same_path(a: Seq<char>, b: Seq<char>) -> bool;

/// `Path::join` on displayed paths.
///
/// Trusted: the result is `Path::new(base).join(rel)` as text; it depends on
/// the two paths alone.
#[verifier::external_body]
pub(crate) fn join_path(base: &str, rel: &str) -> (r: String)
    ensures
        r@ == joined_path(base@, rel@),
{
    std::path::Path::new(base).join(rel).to_string_lossy().into_owned()
}

/// `Path::parent` on a displayed path.
///
/// Trusted: the result is `Path::new(p).parent()` as text. Since the parent
/// is the path without its (non-empty) final component, it is shorter than
/// `p`.
#[verifier::external_body]
pub(crate) fn parent_path(p: &str) -> (r: Option<String>)
    ensures
        r matches Some(q) ==> path_parent(p@) == Some(q@) && q@.len() < p@.len(),
        r is None ==> path_parent(p@) is None,
{
    std::path::Path::new(p).parent().map(|q| q.to_string_lossy().into_owned())
}

/// `Path == Path` on displayed paths.
///
/// Trusted: the result is `Path::new(a) == Path::new(b)`, which compares
/// the paths component by component; it depends on the two paths alone.
#[verifier::external_body]
pub(crate) fn paths_equal(a: &str, b: &str) -> (r: bool)
    ensures
        r == same_path(a@, b@),
{
    std::path::Path::new(a) == std::path::Path::new(b)
}

/// A config file that may add a layer of settings.
#[derive(Debug)]
pub struct ConfigCandidate {
    pub path: String,
    /// The file must be read (a missing one is an error); otherwise it is
    /// used only when it exists as a file.
    pub required: bool,
}

/// The config files to consult, lowest precedence first, and whether the
/// local `.bush.json` / `.bush` search follows them.
#[derive(Debug)]
pub struct ConfigPlan {
    pub candidates: Vec<ConfigCandidate>,
    pub search_local: bool,
}

/// `c` is the optional candidate at `path`.
pub open spec fn optional_at(c: ConfigCandidate, path: Seq<char>) -> bool {
    c.path@ == path && !c.required
}

/// The legacy global file, `~/.bush`.
pub open spec fn home_config_path(home: Seq<char>) -> Seq<char> {
    joined_path(home, ".bush"@)
}

/// The XDG fallback, `~/.config/bush/config.json`.
pub open spec fn home_xdg_config_path(home: Seq<char>) -> Seq<char> {
    joined_path(joined_path(joined_path(home, ".config"@), "bush"@), "config.json"@)
}

/// The explicit XDG file, `$XDG_CONFIG_HOME/bush/config.json`.
pub open spec fn xdg_config_path(xdg: Seq<char>) -> Seq<char> {
    joined_path(joined_path(xdg, "bush"@), "config.json"@)
}

/// Which config files to read: an explicit file alone (it must exist);
/// nothing when config files are skipped; otherwise `~/.bush`, then
/// `~/.config/bush/config.json`, then `$XDG_CONFIG_HOME/bush/config.json`
/// (each when it exists), then the local search.
pub fn plan_config_files(
    explicit: Option<&str>,
    skip_config_files: bool,
    home: Option<&str>,
    xdg_config: Option<&str>,
) -> (plan: ConfigPlan)
    ensures
        explicit matches Some(e) ==> plan.candidates@.len() == 1 && plan.candidates@[0].path@ == e@
            && plan.candidates@[0].required && !plan.search_local,
        explicit is None && skip_config_files ==> plan.candidates@.len() == 0 && !plan.search_local,
        explicit is None && !skip_config_files ==> {
            let cs = plan.candidates@;
            let nh: int = if home is Some {
                2
            } else {
                0
            };
            &&& plan.search_local
            &&& cs.len() == nh + (if xdg_config is Some {
                1int
            } else {
                0int
            })
            &&& home matches Some(h) ==> optional_at(cs[0], home_config_path(h@)) && optional_at(
                cs[1],
                home_xdg_config_path(h@),
            )
            &&& xdg_config matches Some(x) ==> optional_at(cs[nh], xdg_config_path(x@))
        },
{
    let mut candidates: Vec<ConfigCandidate> = Vec::new();
    if let Some(path) = explicit {
        candidates.push(ConfigCandidate { path: path.to_owned(), required: true });
        return ConfigPlan { candidates, search_local: false };
    }
    if skip_config_files {
        return ConfigPlan { candidates, search_local: false };
    }
    if let Some(h) = home {
        candidates.push(ConfigCandidate { path: join_path(h, ".bush"), required: false });
        let dot_config = join_path(h, ".config");
        let bush_dir = join_path(dot_config.as_str(), "bush");
        candidates.push(
            ConfigCandidate { path: join_path(bush_dir.as_str(), "config.json"), required: false },
        );
    }
    if let Some(x) = xdg_config {
        let bush_dir = join_path(x, "bush");
        candidates.push(
            ConfigCandidate { path: join_path(bush_dir.as_str(), "config.json"), required: false },
        );
    }
    ConfigPlan { candidates, search_local: true }
}

/// The state of the search for a local config file, which walks up from
/// the target directory and stops at the home directory.
#[derive(Debug)]
pub enum LocalSearch {
    /// Looking in `dir`: at `.bush.json` first (`json`), then at `.bush`.
    Probing { dir: String, home: Option<String>, json: bool },
    /// The search is over, with the file found, if any.
    Done { found: Option<String> },
}

/// What the search needs next, or what it found.
#[derive(Debug)]
pub enum LocalStep {
    /// Report whether this path is an existing file.
    Check(String),
    Found(String),
    NotFound,
}

/// The search state for looking in `dir`, unless `dir` is the home
/// directory, where the search ends without a result.
pub open spec fn enter_dir(dir: Seq<char>, home: Option<String>, s: LocalSearch) -> bool {
    if home matches Some(h) && same_path(h@, dir) {
        s matches LocalSearch::Done { found } && found is None
    } else {
        s matches LocalSearch::Probing { dir: d, home: h2, json } && (d@ == dir && h2 == home && json)
    }
}

/// A bound on the checks the search still makes: two for each character
/// of the current directory (each directory on the way up is shorter than
/// the one before), and one or two more; none once it is over.
pub open spec fn checks_left(s: LocalSearch) -> nat {
    match s {
        LocalSearch::Probing { dir, json, .. } => 2 * dir@.len() + if json {
            2nat
        } else {
            1nat
        },
        LocalSearch::Done { .. } => 0,
    }
}

impl LocalSearch {
    /// Starts the search in `dir` (the target directory, canonical where
    /// possible), never looking at or above `home`.
    pub fn start(dir: String, home: Option<String>) -> (s: LocalSearch)
        ensures
            enter_dir(dir@, home, s),
    {
        let at_home = match &home {
            Some(h) => paths_equal(h.as_str(), dir.as_str()),
            None => false,
        };
        if at_home {
            LocalSearch::Done { found: None }
        } else {
            LocalSearch::Probing { dir, home, json: true }
        }
    }

    /// What to do next: check `.bush.json`, then `.bush`, in the current
    /// directory; or report the result.
    pub fn next_step(&self) -> (step: LocalStep)
        ensures
            match *self {
                LocalSearch::Probing { dir, json, .. } => step matches LocalStep::Check(p) && p@
                    == joined_path(
                    dir@,
                    if json {
                        ".bush.json"@
                    } else {
                        ".bush"@
                    },
                ),
                LocalSearch::Done { found: Some(f) } => step matches LocalStep::Found(p) && p@
                    == f@,
                LocalSearch::Done { found: None } => step is NotFound,
            },
    {
        match self {
            LocalSearch::Probing { dir, json, .. } => {
                if *json {
                    LocalStep::Check(join_path(dir.as_str(), ".bush.json"))
                } else {
                    LocalStep::Check(join_path(dir.as_str(), ".bush"))
                }
            },
            LocalSearch::Done { found: Some(f) } => LocalStep::Found(f.clone()),
            LocalSearch::Done { found: None } => LocalStep::NotFound,
        }
    }

    /// Takes in whether the path of the last `Check` is an existing file: a
    /// hit ends the search; after a miss on `.bush.json` comes `.bush`; after
    /// a miss on `.bush` the search moves to the parent directory, and ends
    /// at the root or at the home directory.
    pub fn observe(self, is_file: bool) -> (s: LocalSearch)
        ensures
            match self {
                LocalSearch::Probing { dir, home, json } => if is_file {
                    s matches LocalSearch::Done { found: Some(f) } && f@ == joined_path(
                        dir@,
                        if json {
                            ".bush.json"@
                        } else {
                            ".bush"@
                        },
                    )
                } else if json {
                    s matches LocalSearch::Probing { dir: d, home: h, json: j } && (d == dir && h
                        == home && !j)
                } else {
                    match path_parent(dir@) {
                        None => s matches LocalSearch::Done { found } && found is None,
                        Some(p) => enter_dir(p, home, s),
                    }
                },
                LocalSearch::Done { found } => s matches LocalSearch::Done { found: f } && f
                    == found,
            },
            self is Probing ==> checks_left(s) < checks_left(self),
    {
        match self {
            LocalSearch::Probing { dir, home, json } => {
                if is_file {
                    let name = if json {
                        ".bush.json"
                    } else {
                        ".bush"
                    };
                    LocalSearch::Done { found: Some(join_path(dir.as_str(), name)) }
                } else if json {
                    LocalSearch::Probing { dir, home, json: false }
                } else {
                    match parent_path(dir.as_str()) {
                        None => LocalSearch::Done { found: None },
                        Some(parent) => LocalSearch::start(parent, home),
                    }
                }
            },
            LocalSearch::Done { found } => LocalSearch::Done { found },
        }
    }
}

// ===== config text =====

/// Whether `c` is white space (the Unicode `White_Space` property).
pub open spec fn is_white_space(c: char) -> bool {
    ('\u{9}' <= c && c <= '\u{d}') || c == ' ' || c == '\u{85}' || c == '\u{a0}' || c == '\u{1680}'
        || ('\u{2000}' <= c && c <= '\u{200a}') || c == '\u{2028}' || c == '\u{2029}' || c
        == '\u{202f}' || c == '\u{205f}' || c == '\u{3000}'
}

/// Whether the text of a config file is blank (empty or only white
/// space); a blank file sets nothing.
pub fn config_text_is_blank(contents: &str) -> (blank: bool)
    ensures
        blank == forall|i: int| 0 <= i < contents@.len() ==> is_white_space(#[trigger] contents@[i]),
{
    let ghost chars = contents@;
    for ch in it: contents.chars()
        invariant
            it.seq() == chars,
            chars == contents@,
            forall|i: int| 0 <= i < it.index() ==> is_white_space(#[trigger] chars[i]),
    {
        if !(('\u{9}' <= ch && ch <= '\u{d}') || ch == ' ' || ch == '\u{85}' || ch == '\u{a0}' || ch
            == '\u{1680}' || ('\u{2000}' <= ch && ch <= '\u{200a}') || ch == '\u{2028}' || ch
            == '\u{2029}' || ch == '\u{202f}' || ch == '\u{205f}' || ch == '\u{3000}') {
            assert(chars[it.index() as int] == ch);
            assert(!is_white_space(contents@[it.index() as int]));
            return false;
        }
    }
    true
}

} // verus!
