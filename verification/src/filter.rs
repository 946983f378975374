//! `--include` / `--exclude` glob filtering of walk entries.

use vstd::prelude::*;
use globset::{Glob, GlobSet, GlobSetBuilder};
use crate::config::{parent_path, path_parent};
use crate::text::{push_char, push_str};

verus! {

/// `globset::Glob`, one compiled-from-text glob, held opaque.
#[verifier::external_type_specification]
#[verifier::external_body]
pub struct ExGlob(globset::Glob);

/// `globset::GlobSet`, a matcher for several globs at once, held opaque.
#[verifier::external_type_specification]
#[verifier::external_body]
pub struct ExGlobSet(globset::GlobSet);

/// `globset::GlobSetBuilder`, the globs collected for a set, held opaque.
#[verifier::external_type_specification]
#[verifier::external_body]
pub struct ExGlobSetBuilder(globset::GlobSetBuilder);


/// Whether `pattern` is a valid glob (`Glob::new` succeeds on it).
pub uninterp spec fn glob_parses(pattern: Seq<char>) -> bool;

/// The pattern a glob was made from (what `Glob::glob` returns).
pub uninterp spec fn glob_pattern(g: Glob) -> Seq<char>;

/// Whether the glob `pattern` matches `path` (`GlobMatcher::is_match`).
pub uninterp spec fn glob_matches(pattern: Seq<char>, path: Seq<char>) -> bool;

/// Whether a set of valid globs compiles into a matcher
/// (`GlobSetBuilder::build` succeeds).
pub uninterp spec fn globs_compile(patterns: Seq<Seq<char>>) -> bool;

/// The text of the error that `Glob::new` gives for an invalid `pattern`
/// (its `Display`).
pub uninterp spec fn glob_error_of(pattern: Seq<char>) -> Seq<char>;

/// The text of the error that `GlobSetBuilder::build` gives when the
/// `patterns` fail to compile together (its `Display`).
pub uninterp spec fn set_error_of(patterns: Seq<Seq<char>>) -> Seq<char>;

/// A string as `{:?}` writes it: in double quotes, with quotes,
/// backslashes and unprintable characters escaped.
pub uninterp spec fn debug_quoted(s: Seq<char>) -> Seq<char>;

/// The patterns added to a builder, in order.
pub uninterp spec fn builder_patterns(b: GlobSetBuilder) -> Seq<Seq<char>>;

/// The patterns a glob set was built from, in order.
pub uninterp spec fn set_patterns(s: GlobSet) -> Seq<Seq<char>>;

/// Some pattern of `patterns` matches `path`.
pub open spec fn any_glob_matches(patterns: Seq<Seq<char>>, path: Seq<char>) -> bool {
    exists|i: int| 0 <= i < patterns.len() && glob_matches(#[trigger] patterns[i], path)
}

/// `Glob::new`, with its error shown as text.
///
/// Trusted: it succeeds exactly on valid patterns, the glob it returns
/// remembers the pattern it was made from, and the error's text depends on
/// the pattern alone.
#[verifier::external_body]
fn glob_new(pattern: &str) -> (r: Result<Glob, String>)
    ensures
        r is Ok <==> glob_parses(pattern@),
        r matches Ok(g) ==> glob_pattern(g) == pattern@,
        r matches Err(t) ==> t@ == glob_error_of(pattern@),
{
    Glob::new(pattern).map_err(|e| e.to_string())
}

/// `GlobSetBuilder::new`.
///
/// Trusted: a new builder holds no pattern.
#[verifier::external_body]
fn builder_new() -> (b: GlobSetBuilder)
    ensures
        builder_patterns(b) == Seq::<Seq<char>>::empty(),
{
    GlobSetBuilder::new()
}

/// `GlobSetBuilder::add`.
///
/// Trusted: the glob's pattern is appended to the builder's patterns.
#[verifier::external_body]
fn builder_add(b: &mut GlobSetBuilder, g: Glob)
    ensures
        builder_patterns(*final(b)) == builder_patterns(*old(b)).push(glob_pattern(g)),
{
    b.add(g);
}

/// `GlobSetBuilder::build`, with its error shown as text.
///
/// Trusted: building succeeds exactly when the patterns compile, the set
/// holds the builder's patterns in order, and the error's text depends on
/// the patterns alone.
#[verifier::external_body]
fn builder_build(b: &GlobSetBuilder) -> (r: Result<GlobSet, String>)
    ensures
        r is Ok <==> globs_compile(builder_patterns(*b)),
        r matches Ok(s) ==> set_patterns(s) == builder_patterns(*b),
        r matches Err(t) ==> t@ == set_error_of(builder_patterns(*b)),
{
    b.build().map_err(|e| e.to_string())
}

/// `GlobSet::is_match`.
///
/// Trusted: as documented, it is true exactly when some glob of the set
/// matches the path.
#[verifier::external_body]
fn set_is_match(s: &GlobSet, path: &str) -> (r: bool)
    ensures
        r == (exists|i: int|
            0 <= i < set_patterns(*s).len() && glob_matches(#[trigger] set_patterns(*s)[i], path@)),
{
    s.is_match(path)
}

/// `{:?}` of a string slice.
///
/// Trusted: the text is the string's `Debug` form, which depends on the
/// string alone.
#[verifier::external_body]
fn debug_quote(s: &str) -> (r: String)
    ensures
        r@ == debug_quoted(s@),
{
    format!("{s:?}")
}

/// Which list of patterns an error is about.
#[derive(Debug, Clone, Copy, PartialEq, Eq, Structural)]
pub enum PatternList {
    Include,
    Exclude,
}

/// Why the patterns could not be compiled.
#[derive(Debug)]
pub struct FilterError {
    pub list: PatternList,
    /// The pattern that is not a valid glob, when one is at fault; `None`
    /// when the valid patterns failed to compile together.
    pub pattern: Option<String>,
    /// The glob library's description of the problem.
    pub detail: String,
}

impl FilterError {
    /// The error as one line: `compiling --include patterns: invalid glob:
    /// "PATTERN": DETAIL` (or `--exclude`, and without the pattern part when
    /// no single pattern is at fault).
    pub fn message(&self) -> (s: String)
        ensures
            s@ == error_message_text(self.list, opt_text(self.pattern), self.detail@),
    {
        let mut s = String::new();
        push_str(&mut s, "compiling ");
        match self.list {
            PatternList::Include => push_str(&mut s, "--include"),
            PatternList::Exclude => push_str(&mut s, "--exclude"),
        }
        push_str(&mut s, " patterns: ");
        match &self.pattern {
            Some(p) => {
                push_str(&mut s, "invalid glob: ");
                let q = debug_quote(p.as_str());
                push_str(&mut s, q.as_str());
                push_str(&mut s, ": ");
            },
            None => {},
        }
        push_str(&mut s, self.detail.as_str());
        assert(s@ =~= error_message_text(self.list, opt_text(self.pattern), self.detail@));
        s
    }
}

/// The text of an optional string.
pub open spec fn opt_text(o: Option<String>) -> Option<Seq<char>> {
    match o {
        Some(t) => Some(t@),
        None => None,
    }
}

/// The text of a filter error.
pub open spec fn error_message_text(list: PatternList, pattern: Option<Seq<char>>, detail: Seq<
    char,
>) -> Seq<char> {
    "compiling "@ + (match list {
        PatternList::Include => "--include"@,
        PatternList::Exclude => "--exclude"@,
    }) + " patterns: "@ + (match pattern {
        Some(p) => "invalid glob: "@ + debug_quoted(p) + ": "@,
        None => seq![],
    }) + detail
}

/// Decides which walk entries to keep from `--include` and `--exclude`
/// globs.
#[derive(Debug)]
pub struct Filter {
    include_set: Option<GlobSet>,
    exclude_set: Option<GlobSet>,
}

impl View for Filter {
    /// The include and the exclude patterns; `None` when none were given.
    type V = (Option<Seq<Seq<char>>>, Option<Seq<Seq<char>>>);

    closed spec fn view(&self) -> Self::V {
        (
            match self.include_set {
                Some(s) => Some(set_patterns(s)),
                None => None,
            },
            match self.exclude_set {
                Some(s) => Some(set_patterns(s)),
                None => None,
            },
        )
    }
}

/// The patterns as plain text.
pub open spec fn pattern_texts(patterns: Seq<String>) -> Seq<Seq<char>> {
    patterns.map_values(|p: String| p@)
}

/// The index of the first pattern that is not a valid glob, if any.
pub open spec fn first_invalid(patterns: Seq<Seq<char>>) -> Option<int> {
    if exists|i: int| 0 <= i < patterns.len() && !glob_parses(#[trigger] patterns[i]) {
        Some(
            choose|i: int|
                0 <= i < patterns.len() && !glob_parses(patterns[i]) && forall|j: int|
                    0 <= j < i ==> glob_parses(#[trigger] patterns[j]),
        )
    } else {
        None
    }
}

/// The patterns of one list compile: there are none, or all are valid globs
/// that compile together.
pub open spec fn list_compiles(patterns: Seq<Seq<char>>) -> bool {
    patterns.len() == 0 || (first_invalid(patterns) is None && globs_compile(patterns))
}

/// `e` is the error of compiling `patterns` as `list`: the first pattern
/// that is not a valid glob, with the glob library's text for it; or, when
/// all are valid, the library's text for the set that failed to compile.
pub open spec fn list_error(e: FilterError, list: PatternList, patterns: Seq<Seq<char>>) -> bool {
    &&& e.list == list
    &&& match first_invalid(patterns) {
        Some(i) => e.pattern matches Some(p) && p@ == patterns[i] && e.detail@ == glob_error_of(
            patterns[i],
        ),
        None => e.pattern is None && e.detail@ == set_error_of(patterns),
    }
}

/// Compiles one list of patterns: `None` when it is empty.
fn build_set(patterns: &[String], list: PatternList) -> (r: Result<Option<GlobSet>, FilterError>)
    ensures
        r is Ok <==> list_compiles(pattern_texts(patterns@)),
        r matches Ok(o) ==> (if patterns@.len() == 0 {
            o is None
        } else {
            o matches Some(s) && set_patterns(s) == pattern_texts(patterns@)
        }),
        r matches Err(e) ==> list_error(e, list, pattern_texts(patterns@)),
{
    let ghost texts = pattern_texts(patterns@);
    if patterns.len() == 0 {
        return Ok(None);
    }
    let mut b = builder_new();
    let mut i: usize = 0;
    while i < patterns.len()
        invariant
            i <= patterns@.len(),
            texts == pattern_texts(patterns@),
            builder_patterns(b) == texts.subrange(0, i as int),
            forall|j: int| 0 <= j < i ==> glob_parses(#[trigger] texts[j]),
        decreases patterns@.len() - i,
    {
        let p = &patterns[i];
        match glob_new(p.as_str()) {
            Ok(g) => {
                builder_add(&mut b, g);
                assert(builder_patterns(b) =~= texts.subrange(0, i + 1));
            },
            Err(e) => {
                proof {
                    assert(!glob_parses(texts[i as int]));
                    let k = choose|k: int|
                        0 <= k < texts.len() && !glob_parses(texts[k]) && forall|j: int|
                            0 <= j < k ==> glob_parses(#[trigger] texts[j]);
                    if k > i {
                        assert(glob_parses(texts[i as int]));
                    }
                }
                return Err(
                    FilterError { list, pattern: Some(p.clone()), detail: e },
                );
            },
        }
        i = i + 1;
    }
    proof {
        assert(texts.subrange(0, texts.len() as int) =~= texts);
        assert(first_invalid(texts) is None);
    }
    match builder_build(&b) {
        Ok(s) => Ok(Some(s)),
        Err(e) => Err(FilterError { list, pattern: None, detail: e }),
    }
}

/// Some path on the way up from `path` (itself, its parent, and so on,
/// stopping before an empty path) matches one of `patterns`; at most `steps`
/// paths are looked at.
pub open spec fn ancestor_matches(patterns: Seq<Seq<char>>, path: Seq<char>, steps: nat) -> bool
    decreases steps,
{
    if steps == 0 || path.len() == 0 {
        false
    } else if any_glob_matches(patterns, path) {
        true
    } else {
        match path_parent(path) {
            Some(p) => ancestor_matches(patterns, p, (steps - 1) as nat),
            None => false,
        }
    }
}

/// Whether the filter keeps an entry at `rel_path` (relative to the walk
/// root): dropped when the path or any of its ancestors matches an exclude
/// glob; otherwise a file (not a directory) must match an include glob when
/// there are any; directories are kept.
pub open spec fn keeps(f: (Option<Seq<Seq<char>>>, Option<Seq<Seq<char>>>), rel_path: Seq<char>, is_dir: bool) -> bool {
    let excluded = match f.1 {
        Some(ex) => ancestor_matches(ex, rel_path, rel_path.len() + 1),
        None => false,
    };
    let included = match f.0 {
        Some(inc) => is_dir || any_glob_matches(inc, rel_path),
        None => true,
    };
    !excluded && included
}

/// Looking at more ancestors finds whatever fewer found.
proof fn lemma_ancestor_steps(patterns: Seq<Seq<char>>, path: Seq<char>, n: nat, m: nat)
    requires
        n <= m,
    ensures
        ancestor_matches(patterns, path, n) ==> ancestor_matches(patterns, path, m),
    decreases n,
{
    if n > 0 && path.len() > 0 && !any_glob_matches(patterns, path) {
        if let Some(p) = path_parent(path) {
            lemma_ancestor_steps(patterns, p, (n - 1) as nat, (m - 1) as nat);
        }
    }
}

/// Include globs select files only, and exclusion wins over inclusion: a
/// directory is kept exactly when the exclude globs alone keep it, and
/// whatever the filter keeps, the exclude globs alone keep too.
pub proof fn lemma_include_selects_files_only(
    f: (Option<Seq<Seq<char>>>, Option<Seq<Seq<char>>>),
    rel_path: Seq<char>,
    is_dir: bool,
)
    ensures
        keeps(f, rel_path, true) == keeps((None, f.1), rel_path, true),
        keeps(f, rel_path, is_dir) ==> keeps((None, f.1), rel_path, is_dir),
{
}

/// Excluding a path excludes everything below it: when the parent of
/// `rel_path` is dropped, so is `rel_path`, directory or not.
pub proof fn lemma_exclusion_covers_descendants(
    f: (Option<Seq<Seq<char>>>, Option<Seq<Seq<char>>>),
    rel_path: Seq<char>,
    parent: Seq<char>,
    is_dir: bool,
)
    requires
        path_parent(rel_path) == Some(parent),
        parent.len() < rel_path.len(),
        !keeps(f, parent, true),
    ensures
        !keeps(f, rel_path, is_dir),
{
    let ex = f.1->0;
    lemma_ancestor_steps(ex, parent, parent.len() + 1, rel_path.len());
}

impl Default for Filter {
    fn default() -> (f: Filter)
        ensures
            f@ == (None::<Seq<Seq<char>>>, None::<Seq<Seq<char>>>),
    {
        Filter { include_set: None, exclude_set: None }
    }
}

impl Filter {
    /// Compiles the include and exclude globs (include first); an empty
    /// list filters nothing.
    pub fn new(include_patterns: &[String], exclude_patterns: &[String]) -> (r: Result<Self, FilterError>)
        ensures
            r is Ok <==> list_compiles(pattern_texts(include_patterns@)) && list_compiles(
                pattern_texts(exclude_patterns@),
            ),
            r matches Ok(f) ==> f@ == (
                if include_patterns@.len() == 0 {
                    None
                } else {
                    Some(pattern_texts(include_patterns@))
                },
                if exclude_patterns@.len() == 0 {
                    None
                } else {
                    Some(pattern_texts(exclude_patterns@))
                },
            ),
            r matches Err(e) ==> if list_compiles(pattern_texts(include_patterns@)) {
                list_error(e, PatternList::Exclude, pattern_texts(exclude_patterns@))
            } else {
                list_error(e, PatternList::Include, pattern_texts(include_patterns@))
            },
    {
        let include_set = build_set(include_patterns, PatternList::Include)?;
        let exclude_set = build_set(exclude_patterns, PatternList::Exclude)?;
        Ok(Filter { include_set, exclude_set })
    }

    /// Whether any glob is active.
    pub fn is_active(&self) -> (b: bool)
        ensures
            b == (self@.0 is Some || self@.1 is Some),
    {
        self.include_set.is_some() || self.exclude_set.is_some()
    }

    /// Whether include globs are active.
    pub fn has_include(&self) -> (b: bool)
        ensures
            b == self@.0 is Some,
    {
        self.include_set.is_some()
    }

    /// Whether the entry at `rel_path` (relative to the walk root) is kept.
    pub fn keep(&self, rel_path: &str, is_dir: bool) -> (b: bool)
        ensures
            b == keeps(self@, rel_path@, is_dir),
    {
        if let Some(ex) = &self.exclude_set {
            let ghost pats = set_patterns(*ex);
            let ghost total = rel_path@.len() + 1;
            let mut cur = rel_path.to_owned();
            let ghost mut steps: nat = total as nat;
            loop
                invariant
                    pats == set_patterns(*ex),
                    cur@.len() < steps,
                    ancestor_matches(pats, rel_path@, total as nat) == ancestor_matches(
                        pats,
                        cur@,
                        steps,
                    ),
                    self@.1 == Some(pats),
                    total == rel_path@.len() + 1,
                ensures
                    !ancestor_matches(pats, rel_path@, total as nat),
                decreases cur@.len(),
            {
                if cur.as_str().is_empty() {
                    break;
                }
                if set_is_match(ex, cur.as_str()) {
                    assert(any_glob_matches(pats, cur@));
                    assert(ancestor_matches(pats, rel_path@, total as nat));
                    return false;
                }
                match parent_path(cur.as_str()) {
                    Some(p) => {
                        proof {
                            steps = (steps - 1) as nat;
                        }
                        cur = p;
                    },
                    None => {
                        break;
                    },
                }
            }
        }
        if let Some(inc) = &self.include_set {
            if !is_dir && !set_is_match(inc, rel_path) {
                return false;
            }
        }
        true
    }
}

} // verus!
