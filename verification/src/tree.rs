//! The directory tree: building it from walk entries, pruning, sorting,
//! counting, and rendering it as `tree`-style text.

use vstd::prelude::*;
use std::borrow::Cow;
use crate::color::{painted, ColorMode, Colorizer};
use crate::format_meta::{format_mode, format_mtime, format_size, mode_text, mtime_text, size_text};
use crate::text::{begins_with, chars_of, decimal, push_char, push_decimal, push_str};
use crate::config::SortKey;
use crate::walker::{time_before, Entry, FileTime};

verus! {

/// How the tree is ordered and what each line shows.
pub struct RenderOptions {
    pub colorizer: Colorizer,
    pub show_sizes: bool,
    pub show_mtime: bool,
    pub show_symlink_target: bool,
    pub show_permissions: bool,
    pub sort: SortKey,
    pub reverse: bool,
    pub prune_empty_dirs: bool,
    pub no_report: bool,
}

impl Default for RenderOptions {
    fn default() -> (o: RenderOptions)
        ensures
            !o.colorizer@,
            !o.show_sizes,
            !o.show_mtime,
            !o.show_symlink_target,
            !o.show_permissions,
            o.sort == SortKey::Name,
            !o.reverse,
            !o.prune_empty_dirs,
            !o.no_report,
    {
        RenderOptions {
            colorizer: Colorizer::new(ColorMode::Never, false),
            show_sizes: false,
            show_mtime: false,
            show_symlink_target: false,
            show_permissions: false,
            sort: SortKey::Name,
            reverse: false,
            prune_empty_dirs: false,
            no_report: false,
        }
    }
}

/// What is known of one node of the tree.
#[derive(Debug, Clone)]
pub struct NodeMeta {
    pub is_dir: bool,
    pub is_symlink: bool,
    pub size: u64,
    pub mtime: Option<FileTime>,
    pub mode: Option<u32>,
    pub symlink_target: Option<String>,
}

impl Default for NodeMeta {
    fn default() -> (m: NodeMeta)
        ensures
            m == default_meta(),
    {
        NodeMeta {
            is_dir: false,
            is_symlink: false,
            size: 0,
            mtime: None,
            mode: None,
            symlink_target: None,
        }
    }
}

/// The metadata of a node that no walk entry described.
pub open spec fn default_meta() -> NodeMeta {
    NodeMeta {
        is_dir: false,
        is_symlink: false,
        size: 0,
        mtime: None,
        mode: None,
        symlink_target: None,
    }
}

/// One node: its name (one path component), its metadata and its children
/// in display order.
#[derive(Debug)]
pub struct Node {
    pub name: String,
    pub meta: NodeMeta,
    pub children: Vec<Node>,
}

impl Default for Node {
    fn default() -> (n: Node)
        ensures
            n.name@ == Seq::<char>::empty(),
            n.meta == default_meta(),
            n.children@ == Seq::<Node>::empty(),
    {
        Node { name: String::new(), meta: NodeMeta::default(), children: Vec::new() }
    }
}

// ===== counting =====

/// The numbers of directories and of other entries in the forest `s`,
/// counting every node at every depth.
pub open spec fn forest_counts(s: Seq<Node>) -> (nat, nat)
    decreases s,
{
    if s.len() == 0 {
        (0, 0)
    } else {
        let last = s[s.len() - 1];
        let rest = forest_counts(s.subrange(0, s.len() - 1));
        let inner = forest_counts(last.children@);
        (
            rest.0 + inner.0 + (if last.meta.is_dir {
                1nat
            } else {
                0nat
            }),
            rest.1 + inner.1 + (if last.meta.is_dir {
                0nat
            } else {
                1nat
            }),
        )
    }
}

/// The numbers of directories and of other entries strictly below `n`.
pub open spec fn tree_counts(n: Node) -> (nat, nat) {
    forest_counts(n.children@)
}

/// `n`, or `usize::MAX` when `n` is larger.
pub open spec fn capped(n: nat) -> usize {
    if n <= usize::MAX {
        n as usize
    } else {
        usize::MAX
    }
}

/// Counts the directories and the other entries below `node`, at every
/// depth. The counts saturate at `usize::MAX`, a number of nodes that no
/// tree held in memory reaches.
pub fn counts(node: &Node) -> (r: (usize, usize))
    ensures
        r.0 == capped(tree_counts(*node).0),
        r.1 == capped(tree_counts(*node).1),
    decreases node,
{
    let mut dirs: usize = 0;
    let mut files: usize = 0;
    let mut i: usize = 0;
    while i < node.children.len()
        invariant
            i <= node.children@.len(),
            dirs == capped(forest_counts(node.children@.subrange(0, i as int)).0),
            files == capped(forest_counts(node.children@.subrange(0, i as int)).1),
        decreases node.children@.len() - i,
    {
        let child = &node.children[i];
        proof {
            assert(decreases_to!(node => node.children));
            assert(decreases_to!(node.children => node.children@));
            assert(decreases_to!(node.children@ => node.children@[i as int]));
        }
        if child.meta.is_dir {
            dirs = dirs.saturating_add(1);
        } else {
            files = files.saturating_add(1);
        }
        let (d, f) = counts(child);
        dirs = dirs.saturating_add(d);
        files = files.saturating_add(f);
        proof {
            let s = node.children@.subrange(0, i + 1);
            assert(s.subrange(0, s.len() - 1) =~= node.children@.subrange(0, i as int));
            assert(s[s.len() - 1] == node.children@[i as int]);
        }
        i = i + 1;
    }
    proof {
        assert(node.children@.subrange(0, node.children@.len() as int) =~= node.children@);
    }
    (dirs, files)
}

// ===== pruning =====

/// `n` keeps a place in a pruned tree: it is not a directory, or some child
/// of it keeps its place.
pub open spec fn survives(n: Node) -> bool
    decreases n,
{
    !n.meta.is_dir || any_survives(n.children@)
}

/// Some node of the forest `s` survives pruning.
pub open spec fn any_survives(s: Seq<Node>) -> bool
    decreases s,
{
    s.len() > 0 && (survives(s[s.len() - 1]) || any_survives(s.subrange(0, s.len() - 1)))
}

/// `any_survives` is the existence of a surviving node.
proof fn lemma_any_survives(s: Seq<Node>)
    ensures
        any_survives(s) <==> exists|i: int| 0 <= i < s.len() && #[trigger] survives(s[i]),
    decreases s.len(),
{
    if s.len() > 0 {
        let rest = s.subrange(0, s.len() - 1);
        lemma_any_survives(rest);
        if exists|i: int| 0 <= i < s.len() && #[trigger] survives(s[i]) {
            let i = choose|i: int| 0 <= i < s.len() && #[trigger] survives(s[i]);
            if i < s.len() - 1 {
                assert(rest[i] == s[i]);
            }
        }
        if exists|i: int| 0 <= i < rest.len() && #[trigger] survives(rest[i]) {
            let i = choose|i: int| 0 <= i < rest.len() && #[trigger] survives(rest[i]);
            assert(rest[i] == s[i]);
            assert(survives(s[i]));
        }
        if any_survives(s) {
            if survives(s[s.len() - 1]) {
                assert(survives(s[s.len() - 1]));
            } else {
                assert(any_survives(rest));
            }
        }
    }
}

/// `after` is the forest `before` pruned: the nodes of `before` that survive, in
/// their order, each pruned in turn.
pub open spec fn pruned_forest(after: Seq<Node>, before: Seq<Node>) -> bool
    decreases before,
{
    if before.len() == 0 {
        after.len() == 0
    } else if survives(before[before.len() - 1]) {
        &&& after.len() > 0
        &&& pruned_node(after[after.len() - 1], before[before.len() - 1])
        &&& pruned_forest(after.subrange(0, after.len() - 1), before.subrange(0, before.len() - 1))
    } else {
        pruned_forest(after, before.subrange(0, before.len() - 1))
    }
}

/// `after` is `before` with its descendants pruned: same name and metadata, and
/// its children are the pruned children of `before`.
pub open spec fn pruned_node(after: Node, before: Node) -> bool
    decreases before,
{
    &&& after.name == before.name
    &&& after.meta == before.meta
    &&& pruned_forest(after.children@, before.children@)
}

/// A pruned forest is empty exactly when no node of the original survives.
proof fn lemma_pruned_forest_empty(after: Seq<Node>, before: Seq<Node>)
    requires
        pruned_forest(after, before),
    ensures
        after.len() > 0 <==> exists|i: int| 0 <= i < before.len() && #[trigger] survives(before[i]),
    decreases before.len(),
{
    if before.len() > 0 {
        let rest = before.subrange(0, before.len() - 1);
        if survives(before[before.len() - 1]) {
            assert(survives(before[before.len() - 1]));
        } else {
            lemma_pruned_forest_empty(after, rest);
            if exists|i: int| 0 <= i < before.len() && #[trigger] survives(before[i]) {
                let i = choose|i: int| 0 <= i < before.len() && #[trigger] survives(before[i]);
                assert(rest[i] == before[i]);
            }
            if exists|i: int| 0 <= i < rest.len() && #[trigger] survives(rest[i]) {
                let i = choose|i: int| 0 <= i < rest.len() && #[trigger] survives(rest[i]);
                assert(rest[i] == before[i]);
            }
        }
    }
}

/// A node kept after pruning its children is exactly a surviving one.
proof fn lemma_kept_iff_survives(after: Node, before: Node)
    requires
        pruned_node(after, before),
    ensures
        (!after.meta.is_dir || after.children@.len() > 0) <==> survives(before),
{
    lemma_pruned_forest_empty(after.children@, before.children@);
    lemma_any_survives(before.children@);
}

/// Removes, bottom-up, every directory that is left with no children: a
/// directory survives when it has a file, symlink or surviving directory
/// below it. The root itself is kept.
pub fn prune_empty_dirs(node: &mut Node)
    ensures
        pruned_node(*final(node), *old(node)),
    decreases *old(node),
{
    let ghost orig = *node;
    let mut kids: Vec<Node> = Vec::new();
    std::mem::swap(&mut kids, &mut node.children);
    let n = kids.len();
    let mut i: usize = 0;
    while i < n
        invariant
            n == kids@.len(),
            n == orig.children@.len(),
            i <= n,
            node.name == orig.name,
            node.meta == orig.meta,
            forall|k: int| i <= k < n ==> kids@[k] == orig.children@[k],
            pruned_forest(node.children@, orig.children@.subrange(0, i as int)),
            orig == *old(node),
        decreases n - i,
    {
        let mut c = Node::default();
        std::mem::swap(&mut c, &mut kids[i]);
        proof {
            assert(c == orig.children@[i as int]);
            assert(decreases_to!(orig => orig.children));
            assert(decreases_to!(orig.children => orig.children@));
            assert(decreases_to!(orig.children@ => orig.children@[i as int]));
            assert(orig == *old(node));
            assert(decreases_to!(*old(node) => c));
        }
        let ghost c_old = c;
        prune_empty_dirs(&mut c);
        proof {
            lemma_kept_iff_survives(c, c_old);
        }
        let ghost before = node.children@;
        if !c.meta.is_dir || c.children.len() > 0 {
            node.children.push(c);
        }
        proof {
            let prefix = orig.children@.subrange(0, i + 1);
            assert(prefix.subrange(0, prefix.len() - 1) =~= orig.children@.subrange(0, i as int));
            assert(prefix[prefix.len() - 1] == c_old);
            if survives(c_old) {
                assert(node.children@.subrange(0, node.children@.len() - 1) =~= before);
            }
        }
        i = i + 1;
    }
    proof {
        assert(orig.children@.subrange(0, n as int) =~= orig.children@);
    }
}

/// No directory in the forest `s`, at any depth, is left without children.
pub open spec fn no_empty_dirs(s: Seq<Node>) -> bool
    decreases s,
{
    s.len() == 0 || {
        let last = s[s.len() - 1];
        &&& (!last.meta.is_dir || last.children@.len() > 0)
        &&& no_empty_dirs(last.children@)
        &&& no_empty_dirs(s.subrange(0, s.len() - 1))
    }
}

/// A node that does not survive pruning is a directory with no file below it.
proof fn lemma_doomed_node_has_no_files(n: Node)
    requires
        !survives(n),
    ensures
        n.meta.is_dir,
        tree_counts(n).1 == 0,
    decreases n,
{
    lemma_doomed_forest_has_no_files(n.children@);
}

/// A forest none of whose nodes survives has no file in it.
proof fn lemma_doomed_forest_has_no_files(s: Seq<Node>)
    requires
        !any_survives(s),
    ensures
        forest_counts(s).1 == 0,
    decreases s,
{
    if s.len() > 0 {
        lemma_doomed_node_has_no_files(s[s.len() - 1]);
        lemma_doomed_forest_has_no_files(s.subrange(0, s.len() - 1));
    }
}

/// Pruning a forest keeps its number of files, and leaves no empty
/// directory in it.
proof fn lemma_pruned_forest_law(after: Seq<Node>, before: Seq<Node>)
    requires
        pruned_forest(after, before),
    ensures
        forest_counts(after).1 == forest_counts(before).1,
        no_empty_dirs(after),
    decreases before,
{
    if before.len() > 0 {
        let last = before[before.len() - 1];
        let rest = before.subrange(0, before.len() - 1);
        if survives(last) {
            let a_last = after[after.len() - 1];
            let a_rest = after.subrange(0, after.len() - 1);
            assert(pruned_node(a_last, last));
            assert(pruned_forest(a_last.children@, last.children@));
            lemma_pruned_forest_law(a_last.children@, last.children@);
            lemma_pruned_forest_law(a_rest, rest);
            lemma_kept_iff_survives(a_last, last);
        } else {
            lemma_doomed_node_has_no_files(last);
            lemma_pruned_forest_law(after, rest);
            assert(forest_counts(before).1 == forest_counts(rest).1 + forest_counts(last.children@).1);
        }
    }
}

/// Pruning drops no file and leaves no empty directory: the pruned tree
/// has as many non-directory entries as before, and every directory below
/// its root has a child.
pub proof fn lemma_prune_keeps_files_and_drops_empty_dirs(after: Node, before: Node)
    requires
        pruned_node(after, before),
    ensures
        tree_counts(after).1 == tree_counts(before).1,
        no_empty_dirs(after.children@),
{
    lemma_pruned_forest_law(after.children@, before.children@);
}

// ===== building =====

/// The parts of `path` relative to `root`: what is left of `path` after
/// the leading components it shares with `root` are removed, or `None` when
/// `path` does not start with `root`.
pub uninterp spec fn strip_path_prefix(path: Seq<char>, root: Seq<char>) -> Option<Seq<char>>;

/// The components of `path` as text (`Path::components`, each shown as text).
pub uninterp spec fn path_components(path: Seq<char>) -> Seq<Seq<char>>;

/// `Path::strip_prefix` on displayed paths.
///
/// Trusted: the result is `Path::new(path).strip_prefix(root)`, taken as
/// text; it depends on the two paths alone.
#[verifier::external_body]
pub(crate) fn strip_prefix_of(path: &str, root: &str) -> (r: Option<String>)
    ensures
        r matches Some(rest) ==> strip_path_prefix(path@, root@) == Some(rest@),
        r is None ==> strip_path_prefix(path@, root@) is None,
{
    std::path::Path::new(path).strip_prefix(root).ok().map(|p| p.to_string_lossy().into_owned())
}

/// `Path::components` on a displayed path.
///
/// Trusted: the result lists `Path::new(path).components()`, each component
/// as text; it depends on the path alone.
#[verifier::external_body]
fn components_of(path: &str) -> (parts: Vec<String>)
    ensures
        parts@.map_values(|p: String| p@) == path_components(path@),
{
    std::path::Path::new(path).components().map(|c| c.as_os_str().to_string_lossy().into_owned()).collect()
}

/// The components of an entry's path below the walk root: its path with the
/// root stripped when it starts with the root, its whole path otherwise.
pub open spec fn entry_parts(root: Seq<char>, path: Seq<char>) -> Seq<Seq<char>> {
    match strip_path_prefix(path, root) {
        Some(rest) => path_components(rest),
        None => path_components(path),
    }
}

/// The node metadata that a walk entry carries.
pub open spec fn entry_meta(e: Entry) -> NodeMeta {
    NodeMeta {
        is_dir: e.is_dir,
        is_symlink: e.is_symlink,
        size: e.size,
        mtime: e.mtime,
        mode: e.mode,
        symlink_target: e.symlink_target,
    }
}

/// The index of the first node of `s` named `name`, if any.
pub open spec fn first_named(s: Seq<Node>, name: Seq<char>) -> Option<int> {
    if exists|i: int| 0 <= i < s.len() && s[i].name@ == name {
        Some(
            choose|i: int|
                0 <= i < s.len() && s[i].name@ == name && forall|j: int|
                    0 <= j < i ==> s[j].name@ != name,
        )
    } else {
        None
    }
}

/// `after` is the child named `parts[0]` once the entry `e` with the
/// remaining components `parts` has been put below it; before that the
/// child had metadata `meta` and children `children`.
pub open spec fn child_inserted(
    after: Node,
    meta: NodeMeta,
    children: Seq<Node>,
    parts: Seq<Seq<char>>,
    e: Entry,
) -> bool
    decreases parts.len(), 0nat,
{
    &&& parts.len() >= 1
    &&& after.name@ == parts[0]
    &&& if parts.len() == 1 {
        after.meta == entry_meta(e) && after.children@ == children
    } else {
        &&& after.meta == NodeMeta { is_dir: true, ..meta }
        &&& forest_inserted(after.children@, children, parts.subrange(1, parts.len() as int), e)
    }
}

/// `after` is the forest `before` once the entry `e`, with the path
/// components `parts` below the forest, has been put in: the first node
/// named `parts[0]` is updated in place, or a new node with default
/// metadata is appended when there is none.
pub open spec fn forest_inserted(
    after: Seq<Node>,
    before: Seq<Node>,
    parts: Seq<Seq<char>>,
    e: Entry,
) -> bool
    decreases parts.len(), 1nat,
{
    parts.len() >= 1 && match first_named(before, parts[0]) {
        Some(i) => {
            &&& after.len() == before.len()
            &&& forall|j: int| 0 <= j < before.len() && j != i ==> after[j] == before[j]
            &&& child_inserted(after[i], before[i].meta, before[i].children@, parts, e)
        },
        None => {
            &&& after.len() == before.len() + 1
            &&& forall|j: int| 0 <= j < before.len() ==> after[j] == before[j]
            &&& child_inserted(after[before.len() as int], default_meta(), seq![], parts, e)
        },
    }
}

/// `after` is the forest `before` once the walk entry `e` is put in below
/// the walk root `root`; an entry with no components below the root changes
/// nothing.
pub open spec fn build_step(after: Seq<Node>, before: Seq<Node>, root: Seq<char>, e: Entry) -> bool {
    let parts = entry_parts(root, e.path@);
    if parts.len() == 0 {
        after == before
    } else {
        forest_inserted(after, before, parts, e)
    }
}

/// `children` are the root's children after the entries `entries` were put,
/// one after the other, into an empty tree rooted at `root`: `states[k]` is
/// the forest before entry `k` is put in.
pub open spec fn built_through(
    children: Seq<Node>,
    root: Seq<char>,
    entries: Seq<Entry>,
    states: Seq<Seq<Node>>,
) -> bool {
    &&& states.len() == entries.len() + 1
    &&& states[0].len() == 0
    &&& states[entries.len() as int] == children
    &&& forall|k: int|
        0 <= k < entries.len() ==> #[trigger] build_step(states[k + 1], states[k], root, entries[k])
}

/// `children` are the root's children after the entries `entries` were put,
/// in order, into an empty tree rooted at `root`.
pub open spec fn built_forest(children: Seq<Node>, root: Seq<char>, entries: Seq<Entry>) -> bool {
    exists|states: Seq<Seq<Node>>| built_through(children, root, entries, states)
}

/// No two nodes of `s` share a name.
pub open spec fn names_distinct(s: Seq<Node>) -> bool {
    forall|i: int, j: int| 0 <= i < j < s.len() ==> s[i].name@ != s[j].name@
}

/// No two siblings, at any depth of the forest `s`, share a name.
pub open spec fn unique_names(s: Seq<Node>) -> bool
    decreases s,
{
    &&& names_distinct(s)
    &&& (s.len() == 0 || (unique_names(s[s.len() - 1].children@) && unique_names(
        s.subrange(0, s.len() - 1),
    )))
}

/// `unique_names` holds of a forest exactly when its names are distinct and
/// it holds below each of its nodes.
pub(crate) proof fn lemma_unique_names_each(s: Seq<Node>)
    ensures
        unique_names(s) <==> (names_distinct(s) && forall|k: int|
            0 <= k < s.len() ==> #[trigger] unique_names(s[k].children@)),
    decreases s.len(),
{
    if s.len() > 0 {
        let rest = s.subrange(0, s.len() - 1);
        lemma_unique_names_each(rest);
        if names_distinct(s) {
            assert(names_distinct(rest)) by {
                assert forall|i: int, j: int| 0 <= i < j < rest.len() implies rest[i].name@
                    != rest[j].name@ by {
                    assert(rest[i] == s[i] && rest[j] == s[j]);
                }
            }
        }
        if unique_names(s) {
            assert forall|k: int| 0 <= k < s.len() implies #[trigger] unique_names(
                s[k].children@,
            ) by {
                if k < s.len() - 1 {
                    assert(rest[k] == s[k]);
                }
            }
        }
        if names_distinct(s) && forall|k: int|
            0 <= k < s.len() ==> #[trigger] unique_names(s[k].children@) {
            assert forall|k: int| 0 <= k < rest.len() implies #[trigger] unique_names(
                rest[k].children@,
            ) by {
                assert(rest[k] == s[k]);
                assert(unique_names(s[k].children@));
            }
            assert(unique_names(rest));
            assert(unique_names(s[s.len() - 1].children@));
            assert(unique_names(s));
        }
    } else {
        assert(names_distinct(s));
        assert(unique_names(s));
    }
}

/// When some node of `s` is named `name`, a first one is.
proof fn lemma_least_named(s: Seq<Node>, name: Seq<char>, k: int)
    requires
        0 <= k < s.len(),
        s[k].name@ == name,
    ensures
        exists|i: int|
            0 <= i < s.len() && s[i].name@ == name && forall|j: int|
                0 <= j < i ==> #[trigger] s[j].name@ != name,
    decreases k,
{
    if exists|j: int| 0 <= j < k && #[trigger] s[j].name@ == name {
        let j = choose|j: int| 0 <= j < k && #[trigger] s[j].name@ == name;
        lemma_least_named(s, name, j);
    } else {
        assert(forall|j: int| 0 <= j < k ==> #[trigger] s[j].name@ != name);
    }
}

/// What `first_named` finds: the first node so named, or none.
pub(crate) proof fn lemma_first_named(s: Seq<Node>, name: Seq<char>)
    ensures
        first_named(s, name) matches Some(i) ==> 0 <= i < s.len() && s[i].name@ == name && forall|j: int|
            0 <= j < i ==> s[j].name@ != name,
        first_named(s, name) is None ==> forall|j: int| 0 <= j < s.len() ==> s[j].name@ != name,
{
    if exists|i: int| 0 <= i < s.len() && s[i].name@ == name {
        let k = choose|i: int| 0 <= i < s.len() && s[i].name@ == name;
        lemma_least_named(s, name, k);
    }
}

/// Putting an entry into a forest whose sibling names are unique keeps them
/// unique.
proof fn lemma_forest_inserted_unique(after: Seq<Node>, before: Seq<Node>, parts: Seq<Seq<char>>, e: Entry)
    requires
        forest_inserted(after, before, parts, e),
        unique_names(before),
    ensures
        unique_names(after),
    decreases parts.len(), 1nat,
{
    lemma_first_named(before, parts[0]);
    lemma_unique_names_each(before);
    match first_named(before, parts[0]) {
        Some(i) => {
            lemma_child_inserted_unique(after[i], before[i].meta, before[i].children@, parts, e);
            assert forall|a: int, b: int| 0 <= a < b < after.len() implies after[a].name@
                != after[b].name@ by {
                assert(after[a].name@ == before[a].name@);
                assert(after[b].name@ == before[b].name@);
            }
            assert forall|k: int| 0 <= k < after.len() implies #[trigger] unique_names(
                after[k].children@,
            ) by {
                if k != i {
                    assert(after[k] == before[k]);
                    assert(unique_names(before[k].children@));
                }
            }
        },
        None => {
            assert(unique_names(Seq::<Node>::empty()));
            lemma_child_inserted_unique(after[before.len() as int], default_meta(), seq![], parts, e);
            assert forall|a: int, b: int| 0 <= a < b < after.len() implies after[a].name@
                != after[b].name@ by {
                assert(after[a] == before[a]);
                if b < before.len() {
                    assert(after[b] == before[b]);
                }
            }
            assert forall|k: int| 0 <= k < after.len() implies #[trigger] unique_names(
                after[k].children@,
            ) by {
                if k < before.len() {
                    assert(after[k] == before[k]);
                    assert(unique_names(before[k].children@));
                }
            }
        },
    }
    lemma_unique_names_each(after);
}

/// Putting an entry below a child whose children have unique names keeps
/// them unique.
proof fn lemma_child_inserted_unique(
    after: Node,
    meta: NodeMeta,
    children: Seq<Node>,
    parts: Seq<Seq<char>>,
    e: Entry,
)
    requires
        child_inserted(after, meta, children, parts, e),
        unique_names(children),
    ensures
        unique_names(after.children@),
    decreases parts.len(), 0nat,
{
    if parts.len() > 1 {
        lemma_forest_inserted_unique(after.children@, children, parts.subrange(1, parts.len() as int), e);
    }
}

/// Every forest of a build, up to entry `k`, has unique sibling names.
proof fn lemma_built_states_unique(root: Seq<char>, entries: Seq<Entry>, states: Seq<Seq<Node>>, k: int)
    requires
        states.len() == entries.len() + 1,
        states[0].len() == 0,
        forall|j: int| 0 <= j < entries.len() ==> #[trigger] build_step(states[j + 1], states[j], root, entries[j]),
        0 <= k <= entries.len(),
    ensures
        unique_names(states[k]),
    decreases k,
{
    if k == 0 {
        assert(states[0] =~= Seq::<Node>::empty());
        assert(unique_names(Seq::<Node>::empty()));
    } else {
        let j = k - 1;
        lemma_built_states_unique(root, entries, states, j);
        assert(build_step(states[j + 1], states[j], root, entries[j]));
        assert(j + 1 == k);
        if entry_parts(root, entries[j].path@).len() > 0 {
            lemma_forest_inserted_unique(states[k], states[j], entry_parts(root, entries[j].path@), entries[j]);
        }
    }
}

/// A built tree has one node per distinct path: no two siblings, at any
/// depth, share a name, however often a path or its ancestors recur among
/// the entries.
pub proof fn lemma_built_names_unique(children: Seq<Node>, root: Seq<char>, entries: Seq<Entry>)
    requires
        built_forest(children, root, entries),
    ensures
        unique_names(children),
{
    let states = choose|states: Seq<Seq<Node>>| built_through(children, root, entries, states);
    lemma_built_states_unique(root, entries, states, entries.len() as int);
}

/// The metadata of the root of a built tree: a directory, nothing else known.
pub open spec fn root_meta() -> NodeMeta {
    NodeMeta { is_dir: true, ..default_meta() }
}

fn meta_of_entry(e: &Entry) -> (m: NodeMeta)
    ensures
        m == entry_meta(*e),
{
    let target = match &e.symlink_target {
        Some(t) => Some(t.clone()),
        None => None,
    };
    NodeMeta {
        is_dir: e.is_dir,
        is_symlink: e.is_symlink,
        size: e.size,
        mtime: e.mtime,
        mode: e.mode,
        symlink_target: target,
    }
}

/// The index of the first child of `node` named `name`.
fn find_child(children: &Vec<Node>, name: &String) -> (r: Option<usize>)
    ensures
        r matches Some(i) ==> i < children@.len() && children@[i as int].name@ == name@
            && first_named(children@, name@) == Some(i as int),
        r is None ==> first_named(children@, name@) is None,
{
    let mut i: usize = 0;
    while i < children.len()
        invariant
            i <= children@.len(),
            forall|j: int| 0 <= j < i ==> children@[j].name@ != name@,
        decreases children@.len() - i,
    {
        if children[i].name == *name {
            proof {
                assert(children@[i as int].name@ == name@);
                let k = choose|k: int|
                    0 <= k < children@.len() && children@[k].name@ == name@ && forall|j: int|
                        0 <= j < k ==> children@[j].name@ != name@;
                if k > i {
                    assert(children@[i as int].name@ != name@);
                }
            }
            return Some(i);
        }
        i = i + 1;
    }
    None
}

/// Puts `c` at position `idx` and hands back what was there.
fn replace_child(children: &mut Vec<Node>, idx: usize, c: Node) -> (prev: Node)
    requires
        idx < old(children)@.len(),
    ensures
        final(children)@ == old(children)@.update(idx as int, c),
        prev == old(children)@[idx as int],
{
    let mut c = c;
    std::mem::swap(&mut c, &mut children[idx]);
    c
}

/// Applies `entry` to the child `child` named `parts[from]` (the entry's
/// own node when `from` is the last component, an ancestor otherwise).
fn update_child(child: &mut Node, parts: &Vec<String>, from: usize, entry: &Entry)
    requires
        from < parts@.len(),
        old(child).name@ == parts@[from as int]@,
    ensures
        child_inserted(
            *final(child),
            old(child).meta,
            old(child).children@,
            parts@.map_values(|p: String| p@).subrange(from as int, parts@.len() as int),
            *entry,
        ),
    decreases parts@.len() - from, 0nat,
{
    let ghost names = parts@.map_values(|p: String| p@);
    let ghost rest = names.subrange(from as int, parts@.len() as int);
    if parts.len() - from == 1 {
        child.meta = meta_of_entry(entry);
    } else {
        child.meta.is_dir = true;
        insert(child, parts, from + 1, entry);
        proof {
            assert(rest.subrange(1, rest.len() as int) =~= names.subrange(
                from + 1,
                parts@.len() as int,
            ));
        }
    }
    assert(rest[0] == parts@[from as int]@);
}

/// Puts `entry`, whose remaining path components are `parts[from..]`, below
/// `node`; with no component left, `node` is left as it is.
fn insert(node: &mut Node, parts: &Vec<String>, from: usize, entry: &Entry)
    ensures
        from >= parts@.len() ==> *final(node) == *old(node),
        from < parts@.len() ==> {
            &&& final(node).name == old(node).name
            &&& final(node).meta == old(node).meta
            &&& forest_inserted(
                final(node).children@,
                old(node).children@,
                parts@.map_values(|p: String| p@).subrange(from as int, parts@.len() as int),
                *entry,
            )
        },
    decreases parts@.len() - from, 1nat,
{
    if from >= parts.len() {
        return;
    }
    let ghost names = parts@.map_values(|p: String| p@);
    let ghost rest = names.subrange(from as int, parts@.len() as int);
    let ghost before = node.children@;
    let first = &parts[from];
    assert(rest[0] == first@);
    let found = find_child(&node.children, first);
    let idx: usize = match found {
        Some(i) => i,
        None => {
            node.children.push(
                Node { name: first.clone(), meta: NodeMeta::default(), children: Vec::new() },
            );
            node.children.len() - 1
        },
    };
    let ghost mid = node.children@;
    let mut child = replace_child(&mut node.children, idx, Node::default());
    let ghost child_before = child;
    update_child(&mut child, parts, from, entry);
    let _ = replace_child(&mut node.children, idx, child);
    proof {
        assert(node.children@ == mid.update(idx as int, child));
        match found {
            Some(i) => {
                assert(child_before == before[i as int]);
            },
            None => {
                assert(child_before.meta == default_meta());
                assert(child_before.children@ =~= Seq::<Node>::empty());
            },
        }
    }
}

/// Builds the tree of `entries` below `root`: one node per distinct path,
/// siblings in the order their names first appear. An entry's metadata is
/// recorded on its own node (a later entry for the same path replaces it),
/// and every node that has something below it is marked a directory.
pub fn build(root: &str, entries: &[Entry]) -> (tree: Node)
    ensures
        tree.name@ == Seq::<char>::empty(),
        tree.meta == root_meta(),
        built_forest(tree.children@, root@, entries@),
{
    let mut tree = Node {
        name: String::new(),
        meta: NodeMeta { is_dir: true, ..NodeMeta::default() },
        children: Vec::new(),
    };
    let ghost mut states: Seq<Seq<Node>> = seq![Seq::<Node>::empty()];
    let mut i: usize = 0;
    while i < entries.len()
        invariant
            i <= entries@.len(),
            tree.name@ == Seq::<char>::empty(),
            tree.meta == root_meta(),
            built_through(tree.children@, root@, entries@.subrange(0, i as int), states),
        decreases entries@.len() - i,
    {
        let entry = &entries[i];
        let parts = match strip_prefix_of(entry.path.as_str(), root) {
            Some(rel) => components_of(rel.as_str()),
            None => components_of(entry.path.as_str()),
        };
        let ghost mid = tree.children@;
        proof {
            assert(parts@.map_values(|p: String| p@) == entry_parts(root@, entry.path@));
        }
        if parts.len() > 0 {
            insert(&mut tree, &parts, 0, entry);
            proof {
                assert(parts@.map_values(|p: String| p@).subrange(0, parts@.len() as int)
                    =~= parts@.map_values(|p: String| p@));
            }
        }
        proof {
            let prefix = entries@.subrange(0, i + 1);
            let old_states = states;
            states = states.push(tree.children@);
            assert(build_step(states[i + 1], states[i as int], root@, prefix[i as int]));
            assert forall|k: int| 0 <= k < prefix.len() implies #[trigger] build_step(
                states[k + 1],
                states[k],
                root@,
                prefix[k],
            ) by {
                if k < i {
                    assert(prefix[k] == entries@.subrange(0, i as int)[k]);
                    assert(old_states[k] == states[k] && old_states[k + 1] == states[k + 1]);
                }
            }
        }
        i = i + 1;
    }
    proof {
        assert(entries@.subrange(0, entries@.len() as int) =~= entries@);
    }
    tree
}

// ===== ordering =====

/// `a` comes before `b` in the lexicographic order of their characters
/// (by code point); a proper prefix comes first.
pub open spec fn chars_less(a: Seq<char>, b: Seq<char>) -> bool
    decreases a.len(),
{
    if a.len() == 0 {
        b.len() > 0
    } else if b.len() == 0 {
        false
    } else if a[0] != b[0] {
        (a[0] as u32) < (b[0] as u32)
    } else {
        chars_less(a.subrange(1, a.len() as int), b.subrange(1, b.len() as int))
    }
}

proof fn lemma_chars_less_irreflexive(a: Seq<char>)
    ensures
        !chars_less(a, a),
    decreases a.len(),
{
    if a.len() > 0 {
        lemma_chars_less_irreflexive(a.subrange(1, a.len() as int));
    }
}

proof fn lemma_chars_less_transitive(a: Seq<char>, b: Seq<char>, c: Seq<char>)
    requires
        chars_less(a, b),
        chars_less(b, c),
    ensures
        chars_less(a, c),
    decreases a.len(),
{
    if a.len() > 0 && b.len() > 0 && c.len() > 0 && a[0] == b[0] && b[0] == c[0] {
        lemma_chars_less_transitive(
            a.subrange(1, a.len() as int),
            b.subrange(1, b.len() as int),
            c.subrange(1, c.len() as int),
        );
    }
}

proof fn lemma_chars_less_total(a: Seq<char>, b: Seq<char>)
    ensures
        a == b || chars_less(a, b) || chars_less(b, a),
    decreases a.len(),
{
    if a.len() > 0 && b.len() > 0 && a[0] == b[0] {
        let a1 = a.subrange(1, a.len() as int);
        let b1 = b.subrange(1, b.len() as int);
        lemma_chars_less_total(a1, b1);
        if a1 == b1 {
            assert(a =~= seq![a[0]] + a1);
            assert(b =~= seq![b[0]] + b1);
        }
    } else if a.len() > 0 && b.len() > 0 {
        vstd::utf8::char_u32_cast(a[0], a[0] as u32);
        vstd::utf8::char_u32_cast(b[0], b[0] as u32);
        assert((a[0] as u32) != (b[0] as u32));
    } else if a.len() == 0 && b.len() == 0 {
        assert(a =~= b);
    }
}

/// A proper prefix comes first: `a` is ordered strictly before every longer
/// text that starts with it, and never after it.
pub proof fn lemma_prefix_sorts_first(a: Seq<char>, s: Seq<char>)
    requires
        s.len() > 0,
    ensures
        chars_less(a, a + s),
        !chars_less(a + s, a),
    decreases a.len(),
{
    let b = a + s;
    if a.len() == 0 {
        assert(b =~= s);
    } else {
        let a1 = a.subrange(1, a.len() as int);
        lemma_prefix_sorts_first(a1, s);
        assert(b[0] == a[0]);
        assert(b.subrange(1, b.len() as int) =~= a1 + s);
    }
}

/// Texts that agree up to position `i` are ordered by the code points of
/// their characters at `i`.
pub proof fn lemma_first_difference_decides(a: Seq<char>, b: Seq<char>, i: int)
    requires
        0 <= i < a.len(),
        i < b.len(),
        forall|j: int| 0 <= j < i ==> a[j] == b[j],
        a[i] != b[i],
    ensures
        chars_less(a, b) == ((a[i] as u32) < (b[i] as u32)),
    decreases i,
{
    if i > 0 {
        let a1 = a.subrange(1, a.len() as int);
        let b1 = b.subrange(1, b.len() as int);
        assert(a[0] == b[0]);
        assert forall|j: int| 0 <= j < i - 1 implies a1[j] == b1[j] by {
            assert(a1[j] == a[j + 1] && b1[j] == b[j + 1]);
        }
        lemma_first_difference_decides(a1, b1, i - 1);
    }
}

/// Under every sort key, a node whose name is a proper prefix of another's
/// comes first when the key does not tell them apart: always by name, and
/// as the tie-break for equal sizes or equal modification times.
pub proof fn lemma_prefix_name_sorts_first(a: Node, b: Node, s: Seq<char>)
    requires
        s.len() > 0,
        b.name@ == a.name@ + s,
    ensures
        key_less(a, b, SortKey::Name),
        !key_less(b, a, SortKey::Name),
        a.meta.size == b.meta.size ==> key_less(a, b, SortKey::Size) && !key_less(b, a, SortKey::Size),
        a.meta.mtime == b.meta.mtime ==> key_less(a, b, SortKey::Mtime) && !key_less(
            b,
            a,
            SortKey::Mtime,
        ),
{
    lemma_prefix_sorts_first(a.name@, s);
}

/// `a` comes strictly before `b` in modification-time order, a missing time
/// first.
pub open spec fn mtime_less(a: Option<FileTime>, b: Option<FileTime>) -> bool {
    match (a, b) {
        (None, Some(_)) => true,
        (Some(x), Some(y)) => time_before(x, y),
        _ => false,
    }
}

/// `a` comes strictly before `b` under `key` in ascending order: by name;
/// by size, then name; by modification time newest first, then name; and
/// never when unsorted.
pub open spec fn key_less(a: Node, b: Node, key: SortKey) -> bool {
    match key {
        SortKey::Name => chars_less(a.name@, b.name@),
        SortKey::Size => a.meta.size < b.meta.size || (a.meta.size == b.meta.size && chars_less(
            a.name@,
            b.name@,
        )),
        SortKey::Mtime => mtime_less(b.meta.mtime, a.meta.mtime) || (a.meta.mtime == b.meta.mtime
            && chars_less(a.name@, b.name@)),
        SortKey::Unsorted => false,
    }
}

/// `a` comes strictly before `b` in display order: the key order, turned
/// around when `reverse` is set.
pub open spec fn sorts_before(a: Node, b: Node, key: SortKey, reverse: bool) -> bool {
    if reverse {
        key_less(b, a, key)
    } else {
        key_less(a, b, key)
    }
}

/// The display order is a strict weak order: irreflexive, asymmetric, and
/// whatever lies between two ordered nodes is ordered with one of them.
pub proof fn lemma_sorts_before_strict_weak(a: Node, b: Node, c: Node, key: SortKey, reverse: bool)
    ensures
        !sorts_before(a, a, key, reverse),
        sorts_before(a, b, key, reverse) ==> !sorts_before(b, a, key, reverse),
        sorts_before(a, c, key, reverse) ==> sorts_before(a, b, key, reverse) || sorts_before(
            b,
            c,
            key,
            reverse,
        ),
{
    lemma_chars_less_irreflexive(a.name@);
    lemma_chars_less_total(a.name@, b.name@);
    lemma_chars_less_total(b.name@, c.name@);
    lemma_chars_less_total(a.name@, c.name@);
    if chars_less(a.name@, b.name@) && chars_less(b.name@, a.name@) {
        lemma_chars_less_transitive(a.name@, b.name@, a.name@);
    }
    if chars_less(a.name@, b.name@) && chars_less(b.name@, c.name@) {
        lemma_chars_less_transitive(a.name@, b.name@, c.name@);
    }
    if chars_less(c.name@, b.name@) && chars_less(b.name@, a.name@) {
        lemma_chars_less_transitive(c.name@, b.name@, a.name@);
    }
    if chars_less(b.name@, a.name@) && chars_less(c.name@, b.name@) {
        lemma_chars_less_transitive(c.name@, b.name@, a.name@);
    }
    if chars_less(a.name@, c.name@) && chars_less(c.name@, a.name@) {
        lemma_chars_less_transitive(a.name@, c.name@, a.name@);
    }
}

/// `a < b` on two string slices: the lexicographic order of their
/// characters.
fn str_less(a: &str, b: &str) -> (r: bool)
    ensures
        r == chars_less(a@, b@),
{
    let x = chars_of(a);
    let y = chars_of(b);
    let mut i: usize = 0;
    assert(a@.subrange(0, a@.len() as int) =~= a@);
    assert(b@.subrange(0, b@.len() as int) =~= b@);
    while i < x.len() && i < y.len()
        invariant
            x@ == a@,
            y@ == b@,
            i <= x@.len(),
            i <= y@.len(),
            chars_less(a@, b@) == chars_less(
                a@.subrange(i as int, a@.len() as int),
                b@.subrange(i as int, b@.len() as int),
            ),
        decreases x@.len() - i,
    {
        let ghost sa = a@.subrange(i as int, a@.len() as int);
        let ghost sb = b@.subrange(i as int, b@.len() as int);
        if x[i] != y[i] {
            assert(sa[0] == x@[i as int] && sb[0] == y@[i as int]);
            let cx = x[i] as u32;
            let cy = y[i] as u32;
            assert(chars_less(sa, sb) == ((sa[0] as u32) < (sb[0] as u32)));
            return cx < cy;
        }
        assert(sa.subrange(1, sa.len() as int) =~= a@.subrange(i + 1, a@.len() as int));
        assert(sb.subrange(1, sb.len() as int) =~= b@.subrange(i + 1, b@.len() as int));
        i = i + 1;
    }
    let ghost sa = a@.subrange(i as int, a@.len() as int);
    let ghost sb = b@.subrange(i as int, b@.len() as int);
    assert(chars_less(sa, sb) == (sa.len() == 0 && sb.len() > 0));
    i == x.len() && i < y.len()
}

fn mtime_less_exec(a: Option<FileTime>, b: Option<FileTime>) -> (r: bool)
    ensures
        r == mtime_less(a, b),
{
    match (a, b) {
        (None, Some(_)) => true,
        (Some(x), Some(y)) => x.secs < y.secs || (x.secs == y.secs && x.nanos < y.nanos),
        _ => false,
    }
}

fn same_mtime(a: Option<FileTime>, b: Option<FileTime>) -> (r: bool)
    ensures
        r == (a == b),
{
    match (a, b) {
        (None, None) => true,
        (Some(x), Some(y)) => x.secs == y.secs && x.nanos == y.nanos,
        _ => false,
    }
}

/// Whether `a` is displayed strictly before `b`.
fn sorts_before_exec(a: &Node, b: &Node, key: SortKey, reverse: bool) -> (r: bool)
    ensures
        r == sorts_before(*a, *b, key, reverse),
{
    let (x, y) = if reverse {
        (b, a)
    } else {
        (a, b)
    };
    match key {
        SortKey::Name => str_less(x.name.as_str(), y.name.as_str()),
        SortKey::Size => x.meta.size < y.meta.size || (x.meta.size == y.meta.size && str_less(
            x.name.as_str(),
            y.name.as_str(),
        )),
        SortKey::Mtime => mtime_less_exec(y.meta.mtime, x.meta.mtime) || (same_mtime(
            x.meta.mtime,
            y.meta.mtime,
        ) && str_less(x.name.as_str(), y.name.as_str())),
        SortKey::Unsorted => false,
    }
}

// ===== sorting =====

/// The first position at or after `from` in `order` whose node (of `cs`)
/// is not displayed strictly before `x`; `order.len()` when there is none.
pub open spec fn insert_position(
    order: Seq<int>,
    cs: Seq<Node>,
    x: Node,
    key: SortKey,
    reverse: bool,
    from: int,
) -> int
    decreases order.len() - from,
{
    if from >= order.len() || !sorts_before(cs[order[from]], x, key, reverse) {
        from
    } else {
        insert_position(order, cs, x, key, reverse, from + 1)
    }
}

/// The display order of the nodes `cs[i..]`, as indices into `cs`: each
/// node, taken from the last one back, goes in front of the first node that
/// is not displayed strictly before it, so that nodes with equal keys keep
/// their original order.
pub open spec fn display_order_from(cs: Seq<Node>, i: int, key: SortKey, reverse: bool) -> Seq<int>
    decreases cs.len() - i,
{
    if i >= cs.len() || i < 0 {
        seq![]
    } else {
        let rest = display_order_from(cs, i + 1, key, reverse);
        rest.insert(insert_position(rest, cs, cs[i], key, reverse, 0), i)
    }
}

/// The display order of the siblings `cs`, as indices into `cs`.
pub open spec fn display_order(cs: Seq<Node>, key: SortKey, reverse: bool) -> Seq<int> {
    display_order_from(cs, 0, key, reverse)
}

/// `order` lists every index of `cs` exactly once, sorted by display order,
/// with nodes of equal key in their original relative order: a stable sort.
pub open spec fn is_stable_sort(order: Seq<int>, cs: Seq<Node>, key: SortKey, reverse: bool) -> bool {
    &&& order.len() == cs.len()
    &&& forall|k: int| 0 <= k < order.len() ==> 0 <= #[trigger] order[k] < cs.len()
    &&& forall|k: int, l: int| 0 <= k < l < order.len() ==> order[k] != order[l]
    &&& forall|k: int, l: int|
        0 <= k < l < order.len() ==> !sorts_before(cs[order[l]], cs[order[k]], key, reverse)
    &&& forall|k: int, l: int|
        0 <= k < l < order.len() && !sorts_before(cs[order[k]], cs[order[l]], key, reverse)
            && !sorts_before(cs[order[l]], cs[order[k]], key, reverse) ==> order[k] < order[l]
}

proof fn lemma_insert_position(order: Seq<int>, cs: Seq<Node>, x: Node, key: SortKey, reverse: bool, from: int)
    requires
        0 <= from <= order.len(),
        forall|k: int| 0 <= k < order.len() ==> 0 <= #[trigger] order[k] < cs.len(),
    ensures
        from <= insert_position(order, cs, x, key, reverse, from) <= order.len(),
        forall|p: int|
            from <= p < insert_position(order, cs, x, key, reverse, from) ==> sorts_before(
                cs[#[trigger] order[p]],
                x,
                key,
                reverse,
            ),
        insert_position(order, cs, x, key, reverse, from) < order.len() ==> !sorts_before(
            cs[order[insert_position(order, cs, x, key, reverse, from)]],
            x,
            key,
            reverse,
        ),
    decreases order.len() - from,
{
    if from < order.len() && sorts_before(cs[order[from]], x, key, reverse) {
        lemma_insert_position(order, cs, x, key, reverse, from + 1);
    }
}

/// The indices in `display_order_from(cs, i, ..)` sort the nodes `cs[i..]`
/// stably.
pub(crate) proof fn lemma_display_order_from(cs: Seq<Node>, i: int, key: SortKey, reverse: bool)
    requires
        0 <= i <= cs.len(),
    ensures
        ({
            let order = display_order_from(cs, i, key, reverse);
            &&& order.len() == cs.len() - i
            &&& forall|k: int| 0 <= k < order.len() ==> i <= #[trigger] order[k] < cs.len()
            &&& forall|k: int, l: int| 0 <= k < l < order.len() ==> order[k] != order[l]
            &&& forall|k: int, l: int|
                0 <= k < l < order.len() ==> !sorts_before(cs[order[l]], cs[order[k]], key, reverse)
            &&& forall|k: int, l: int|
                0 <= k < l < order.len() && !sorts_before(cs[order[k]], cs[order[l]], key, reverse)
                    && !sorts_before(cs[order[l]], cs[order[k]], key, reverse) ==> order[k]
                    < order[l]
        }),
    decreases cs.len() - i,
{
    if i < cs.len() {
        lemma_display_order_from(cs, i + 1, key, reverse);
        let rest = display_order_from(cs, i + 1, key, reverse);
        let x = cs[i];
        lemma_insert_position(rest, cs, x, key, reverse, 0);
        let q = insert_position(rest, cs, x, key, reverse, 0);
        let order = rest.insert(q, i);
        assert(order == display_order_from(cs, i, key, reverse));
        assert forall|k: int, l: int| 0 <= k < l < order.len() implies !sorts_before(
            cs[order[l]],
            cs[order[k]],
            key,
            reverse,
        ) by {
            if k < q && l == q {
                assert(order[k] == rest[k] && order[l] == i);
                assert(sorts_before(cs[rest[k]], x, key, reverse));
                lemma_sorts_before_strict_weak(cs[rest[k]], x, x, key, reverse);
            } else if k == q && l > q {
                assert(order[k] == i);
                let rl = order[l];
                assert(rl == rest[l - 1]);
                assert(!sorts_before(cs[rest[q]], x, key, reverse));
                if l - 1 > q {
                    assert(!sorts_before(cs[rest[l - 1]], cs[rest[q]], key, reverse));
                    lemma_sorts_before_strict_weak(cs[rl], cs[rest[q]], x, key, reverse);
                }
            } else if k < q && l > q {
                assert(order[k] == rest[k] && order[l] == rest[l - 1]);
            } else if l < q {
                assert(order[k] == rest[k] && order[l] == rest[l]);
            } else {
                assert(order[k] == rest[k - 1] && order[l] == rest[l - 1]);
            }
        }
        assert forall|k: int, l: int|
            0 <= k < l < order.len() && !sorts_before(cs[order[k]], cs[order[l]], key, reverse)
                && !sorts_before(cs[order[l]], cs[order[k]], key, reverse) implies order[k]
            < order[l] by {
            if k < q && l == q {
                assert(sorts_before(cs[rest[k]], x, key, reverse));
            } else if k == q {
                assert(order[l] == rest[l - 1]);
            } else if k < q && l > q {
                assert(order[k] == rest[k] && order[l] == rest[l - 1]);
            } else if l < q {
                assert(order[k] == rest[k] && order[l] == rest[l]);
            } else {
                assert(order[k] == rest[k - 1] && order[l] == rest[l - 1]);
            }
        }
        assert forall|k: int, l: int| 0 <= k < l < order.len() implies order[k] != order[l] by {
            if k == q {
                assert(order[l] == rest[l - 1]);
            } else if l == q {
                assert(order[k] == rest[k]);
            } else if k < q && l > q {
                assert(order[k] == rest[k] && order[l] == rest[l - 1]);
            } else if l < q {
                assert(order[k] == rest[k] && order[l] == rest[l]);
            } else {
                assert(order[k] == rest[k - 1] && order[l] == rest[l - 1]);
            }
        }
        assert forall|k: int| 0 <= k < order.len() implies i <= #[trigger] order[k] < cs.len() by {
            if k < q {
                assert(order[k] == rest[k]);
            } else if k > q {
                assert(order[k] == rest[k - 1]);
            }
        }
    }
}

/// The display order of siblings is a stable sort of them.
pub proof fn lemma_display_order_is_stable_sort(cs: Seq<Node>, key: SortKey, reverse: bool)
    ensures
        is_stable_sort(display_order(cs, key, reverse), cs, key, reverse),
{
    lemma_display_order_from(cs, 0, key, reverse);
}

/// Without a sort key, the display order of `cs[i..]` is their walk order.
proof fn lemma_unsorted_order_from(cs: Seq<Node>, i: int, reverse: bool)
    requires
        0 <= i <= cs.len(),
    ensures
        display_order_from(cs, i, SortKey::Unsorted, reverse) == Seq::new(
            (cs.len() - i) as nat,
            |k: int| i + k,
        ),
    decreases cs.len() - i,
{
    if i < cs.len() {
        lemma_unsorted_order_from(cs, i + 1, reverse);
        let rest = display_order_from(cs, i + 1, SortKey::Unsorted, reverse);
        assert(insert_position(rest, cs, cs[i], SortKey::Unsorted, reverse, 0) == 0);
        assert(display_order_from(cs, i, SortKey::Unsorted, reverse) =~= Seq::new(
            (cs.len() - i) as nat,
            |k: int| i + k,
        ));
    } else {
        assert(Seq::new((cs.len() - i) as nat, |k: int| i + k) =~= Seq::<int>::empty());
    }
}

/// Without a sort key, siblings keep the order in which the walk produced
/// them.
pub proof fn lemma_unsorted_keeps_walk_order(cs: Seq<Node>, reverse: bool)
    ensures
        display_order(cs, SortKey::Unsorted, reverse) == Seq::new(cs.len(), |k: int| k),
{
    lemma_unsorted_order_from(cs, 0, reverse);
    assert(Seq::new(cs.len(), |k: int| 0 + k) =~= Seq::new(cs.len(), |k: int| k));
}

/// With a sort key, nodes of different names are ordered one way or the
/// other.
proof fn lemma_key_less_total(a: Node, b: Node, key: SortKey)
    requires
        key != SortKey::Unsorted,
        a.name@ != b.name@,
    ensures
        key_less(a, b, key) || key_less(b, a, key),
{
    lemma_chars_less_total(a.name@, b.name@);
}

/// The display order is transitive.
proof fn lemma_sorts_before_transitive(a: Node, b: Node, c: Node, key: SortKey, reverse: bool)
    requires
        sorts_before(a, b, key, reverse),
        sorts_before(b, c, key, reverse),
    ensures
        sorts_before(a, c, key, reverse),
{
    lemma_sorts_before_strict_weak(a, c, b, key, reverse);
    lemma_sorts_before_strict_weak(b, c, a, key, reverse);
}

/// A sequence with `v` inserted at `q`, turned around, is the sequence
/// turned around with `v` inserted at the mirrored place.
proof fn lemma_reverse_insert(s: Seq<int>, q: int, v: int)
    requires
        0 <= q <= s.len(),
    ensures
        s.insert(q, v).reverse() == s.reverse().insert(s.len() - q, v),
{
    assert(s.insert(q, v).reverse() =~= s.reverse().insert(s.len() - q, v));
}

/// With a sort key and distinct names, the reversed display order of
/// `cs[i..]` is the forward one turned around.
proof fn lemma_reversed_order_from(cs: Seq<Node>, i: int, key: SortKey)
    requires
        key != SortKey::Unsorted,
        names_distinct(cs),
        0 <= i <= cs.len(),
    ensures
        display_order_from(cs, i, key, true) == display_order_from(cs, i, key, false).reverse(),
    decreases cs.len() - i,
{
    if i < cs.len() {
        lemma_reversed_order_from(cs, i + 1, key);
        lemma_display_order_from(cs, i + 1, key, false);
        let rf = display_order_from(cs, i + 1, key, false);
        let rr = display_order_from(cs, i + 1, key, true);
        let n = rf.len();
        let x = cs[i];
        assert forall|k: int| 0 <= k < rr.len() implies 0 <= #[trigger] rr[k] < cs.len() by {
            assert(rr[k] == rf[n - 1 - k]);
        }
        lemma_insert_position(rf, cs, x, key, false, 0);
        lemma_insert_position(rr, cs, x, key, true, 0);
        let qf = insert_position(rf, cs, x, key, false, 0);
        let qr = insert_position(rr, cs, x, key, true, 0);
        // every node from position qf on comes after x
        assert forall|p: int| qf <= p < n implies key_less(x, #[trigger] cs[rf[p]], key) by {
            if key_less(cs[rf[p]], x, key) {
                if p > qf {
                    assert(!sorts_before(cs[rf[p]], cs[rf[qf]], key, false));
                    assert(cs[rf[p]].name@ != cs[rf[qf]].name@);
                    lemma_key_less_total(cs[rf[p]], cs[rf[qf]], key);
                    lemma_sorts_before_transitive(cs[rf[qf]], cs[rf[p]], x, key, false);
                }
                assert(false);
            }
            assert(cs[rf[p]].name@ != x.name@);
            lemma_key_less_total(cs[rf[p]], x, key);
        }
        if qr < n - qf {
            assert(rr[qr] == rf[n - 1 - qr]);
            assert(key_less(x, cs[rf[n - 1 - qr]], key));
        }
        if qr > n - qf {
            let p = n - qf;
            assert(rr[p] == rf[qf - 1]);
            assert(sorts_before(cs[rr[p]], x, key, true));
            assert(sorts_before(cs[rf[qf - 1]], x, key, false));
            lemma_sorts_before_strict_weak(x, cs[rf[qf - 1]], x, key, false);
        }
        assert(qr == n - qf);
        lemma_reverse_insert(rf, qf, i);
    }
}

/// With a sort key and siblings of distinct names, the reversed display
/// order is exactly the forward display order turned around.
pub proof fn lemma_reversed_order_is_reverse(cs: Seq<Node>, key: SortKey)
    requires
        key != SortKey::Unsorted,
        names_distinct(cs),
    ensures
        display_order(cs, key, true) == display_order(cs, key, false).reverse(),
{
    lemma_reversed_order_from(cs, 0, key);
}

/// `after` is `before` with the siblings at every level put in display
/// order: same name and metadata, and its children are the children of
/// `before`, each sorted in turn, listed in `display_order`.
pub open spec fn sorted_tree(after: Node, before: Node, key: SortKey, reverse: bool) -> bool
    decreases before, 0nat,
{
    &&& after.name == before.name
    &&& after.meta == before.meta
    &&& after.children@.len() == before.children@.len()
    &&& sorted_children(
        after.children@,
        before.children@,
        display_order(before.children@, key, reverse),
        key,
        reverse,
        after.children@.len(),
    )
}

/// The first `n` nodes of `after` are the sorted forms of the nodes of
/// `before` picked by `order`.
pub open spec fn sorted_children(
    after: Seq<Node>,
    before: Seq<Node>,
    order: Seq<int>,
    key: SortKey,
    reverse: bool,
    n: nat,
) -> bool
    decreases before, n,
{
    n == 0 || {
        &&& n <= after.len()
        &&& n <= order.len()
        &&& 0 <= order[n - 1] < before.len()
        &&& sorted_tree(after[n - 1], before[order[n - 1]], key, reverse)
        &&& sorted_children(after, before, order, key, reverse, (n - 1) as nat)
    }
}

proof fn lemma_sorted_children(
    after: Seq<Node>,
    before: Seq<Node>,
    order: Seq<int>,
    key: SortKey,
    reverse: bool,
    n: nat,
)
    requires
        n <= after.len(),
        n <= order.len(),
        forall|k: int| 0 <= k < n ==> 0 <= #[trigger] order[k] < before.len(),
        forall|k: int| 0 <= k < n ==> sorted_tree(#[trigger] after[k], before[order[k]], key, reverse),
    ensures
        sorted_children(after, before, order, key, reverse, n),
    decreases n,
{
    if n > 0 {
        lemma_sorted_children(after, before, order, key, reverse, (n - 1) as nat);
    }
}

/// The first `n` nodes of `after` are sorted forms of the nodes picked by
/// `order`, one by one.
pub(crate) proof fn lemma_sorted_children_each(
    after: Seq<Node>,
    before: Seq<Node>,
    order: Seq<int>,
    key: SortKey,
    reverse: bool,
    n: nat,
)
    requires
        sorted_children(after, before, order, key, reverse, n),
    ensures
        forall|k: int| 0 <= k < n ==> 0 <= #[trigger] order[k] < before.len(),
        forall|k: int| 0 <= k < n ==> sorted_tree(#[trigger] after[k], before[order[k]], key, reverse),
    decreases n,
{
    if n > 0 {
        lemma_sorted_children_each(after, before, order, key, reverse, (n - 1) as nat);
        assert(0 <= order[n - 1] < before.len());
        assert(sorted_tree(after[n - 1], before[order[n - 1]], key, reverse));
    }
}

/// The numbers of directories and of other entries that a node adds to
/// its forest: itself and everything below it.
pub open spec fn node_counts(n: Node) -> (nat, nat) {
    (
        tree_counts(n).0 + (if n.meta.is_dir {
            1nat
        } else {
            0nat
        }),
        tree_counts(n).1 + (if n.meta.is_dir {
            0nat
        } else {
            1nat
        }),
    )
}

/// Taking one node out of a forest takes its counts out of the forest's.
proof fn lemma_counts_remove(s: Seq<Node>, p: int)
    requires
        0 <= p < s.len(),
    ensures
        forest_counts(s).0 == forest_counts(s.remove(p)).0 + node_counts(s[p]).0,
        forest_counts(s).1 == forest_counts(s.remove(p)).1 + node_counts(s[p]).1,
    decreases s.len(),
{
    let rest = s.subrange(0, s.len() - 1);
    if p == s.len() - 1 {
        assert(s.remove(p) =~= rest);
    } else {
        lemma_counts_remove(rest, p);
        let r = s.remove(p);
        assert(r.subrange(0, r.len() - 1) =~= rest.remove(p));
        assert(r[r.len() - 1] == s[s.len() - 1]);
        assert(rest[p] == s[p]);
    }
}

/// Two forests whose nodes correspond one to one, with equal counts, have
/// equal counts.
proof fn lemma_counts_permuted(a: Seq<Node>, b: Seq<Node>, order: Seq<int>)
    requires
        a.len() == b.len(),
        order.len() == a.len(),
        forall|k: int| 0 <= k < order.len() ==> 0 <= #[trigger] order[k] < b.len(),
        forall|k: int, l: int| 0 <= k < l < order.len() ==> order[k] != order[l],
        forall|k: int| 0 <= k < a.len() ==> node_counts(#[trigger] a[k]) == node_counts(b[order[k]]),
    ensures
        forest_counts(a) == forest_counts(b),
    decreases a.len(),
{
    if a.len() > 0 {
        let n = a.len() - 1;
        let p = order[n];
        let a2 = a.subrange(0, n);
        let b2 = b.remove(p);
        let order2 = order.subrange(0, n).map_values(|i: int| if i > p { i - 1 } else { i });
        assert forall|k: int| 0 <= k < order2.len() implies 0 <= #[trigger] order2[k] < b2.len() by {
            assert(order[k] != order[n]);
        }
        assert forall|k: int, l: int| 0 <= k < l < order2.len() implies order2[k] != order2[l] by {
            assert(order[k] != order[n]);
            assert(order[l] != order[n]);
        }
        assert forall|k: int| 0 <= k < a2.len() implies node_counts(#[trigger] a2[k]) == node_counts(
            b2[order2[k]],
        ) by {
            assert(a2[k] == a[k]);
            assert(order[k] != order[n]);
            assert(node_counts(a[k]) == node_counts(b[order[k]]));
        }
        lemma_counts_permuted(a2, b2, order2);
        lemma_counts_remove(b, p);
        assert(node_counts(a[n]) == node_counts(b[p]));
    }
}

/// Sorting neither adds nor drops a node, at any depth: the sorted tree
/// has the same numbers of directories and of other entries.
pub proof fn lemma_sort_keeps_counts(after: Node, before: Node, key: SortKey, reverse: bool)
    requires
        sorted_tree(after, before, key, reverse),
    ensures
        tree_counts(after) == tree_counts(before),
    decreases before,
{
    let cs = before.children@;
    let order = display_order(cs, key, reverse);
    lemma_display_order_is_stable_sort(cs, key, reverse);
    lemma_sorted_children_each(after.children@, cs, order, key, reverse, after.children@.len());
    assert forall|k: int| 0 <= k < after.children@.len() implies node_counts(
        #[trigger] after.children@[k],
    ) == node_counts(cs[order[k]]) by {
        assert(decreases_to!(before => before.children));
        assert(decreases_to!(before.children => before.children@));
        assert(decreases_to!(before.children@ => before.children@[order[k]]));
        lemma_sort_keeps_counts(after.children@[k], cs[order[k]], key, reverse);
    }
    lemma_counts_permuted(after.children@, cs, order);
}

/// Sorted forms of the same node compare like the node itself.
proof fn lemma_sorted_same_key(after: Node, before: Node, other: Node, key: SortKey, reverse: bool)
    requires
        after.name == before.name,
        after.meta == before.meta,
    ensures
        sorts_before(after, other, key, reverse) == sorts_before(before, other, key, reverse),
        sorts_before(other, after, key, reverse) == sorts_before(other, before, key, reverse),
{
}

/// In a sorted node, no child comes after one that it sorts before: the
/// children are in display order.
pub proof fn lemma_sorted_children_in_order(after: Node, before: Node, key: SortKey, reverse: bool)
    requires
        sorted_tree(after, before, key, reverse),
    ensures
        forall|k: int, l: int|
            0 <= k < l < after.children@.len() ==> !sorts_before(
                #[trigger] after.children@[l],
                #[trigger] after.children@[k],
                key,
                reverse,
            ),
{
    let cs = before.children@;
    let order = display_order(cs, key, reverse);
    lemma_display_order_is_stable_sort(cs, key, reverse);
    lemma_sorted_children_each(after.children@, cs, order, key, reverse, after.children@.len());
    assert forall|k: int, l: int| 0 <= k < l < after.children@.len() implies !sorts_before(
        #[trigger] after.children@[l],
        #[trigger] after.children@[k],
        key,
        reverse,
    ) by {
        assert(sorted_tree(after.children@[k], cs[order[k]], key, reverse));
        assert(sorted_tree(after.children@[l], cs[order[l]], key, reverse));
        assert(!sorts_before(cs[order[l]], cs[order[k]], key, reverse));
    }
}

/// Sorted siblings are in key order: by size, sizes never decrease (never
/// increase when reversed); by modification time, no sibling is older than
/// one after it (newest first; the other way when reversed), and a sibling
/// with a known time comes before one without; by name, no name sorts
/// before an earlier sibling's (after it, when reversed).
pub proof fn lemma_sorted_siblings_in_key_order(after: Node, before: Node, key: SortKey, reverse: bool, k: int, l: int)
    requires
        sorted_tree(after, before, key, reverse),
        0 <= k < l < after.children@.len(),
    ensures
        ({
            let a = after.children@[k];
            let b = after.children@[l];
            &&& key == SortKey::Size && !reverse ==> a.meta.size <= b.meta.size
            &&& key == SortKey::Size && reverse ==> a.meta.size >= b.meta.size
            &&& key == SortKey::Mtime && !reverse ==> (a.meta.mtime is None ==> b.meta.mtime is None)
                && (a.meta.mtime is Some && b.meta.mtime is Some ==> !(a.meta.mtime->0.secs
                < b.meta.mtime->0.secs || (a.meta.mtime->0.secs == b.meta.mtime->0.secs
                && a.meta.mtime->0.nanos < b.meta.mtime->0.nanos)))
            &&& key == SortKey::Mtime && reverse ==> (b.meta.mtime is None ==> a.meta.mtime is None)
                && (a.meta.mtime is Some && b.meta.mtime is Some ==> !(b.meta.mtime->0.secs
                < a.meta.mtime->0.secs || (b.meta.mtime->0.secs == a.meta.mtime->0.secs
                && b.meta.mtime->0.nanos < a.meta.mtime->0.nanos)))
            &&& key == SortKey::Name && !reverse ==> !chars_less(b.name@, a.name@)
            &&& key == SortKey::Name && reverse ==> !chars_less(a.name@, b.name@)
        }),
{
    lemma_sorted_children_in_order(after, before, key, reverse);
    let a = after.children@[k];
    let b = after.children@[l];
    assert(!sorts_before(b, a, key, reverse));
    if key == SortKey::Mtime {
        if reverse {
            assert(!mtime_less(b.meta.mtime, a.meta.mtime));
        } else {
            assert(!mtime_less(a.meta.mtime, b.meta.mtime));
        }
        if let (Some(x), Some(y)) = (a.meta.mtime, b.meta.mtime) {
            if reverse {
                assert(!time_before(y, x));
            } else {
                assert(!time_before(x, y));
            }
        }
    }
}

/// Sorting by name puts a name before its extensions: when one child's
/// name is a proper prefix of another's, it comes first (`test` before
/// `tests`).
pub proof fn lemma_name_sort_puts_prefix_first(after: Node, before: Node, k: int, l: int, s: Seq<char>)
    requires
        sorted_tree(after, before, SortKey::Name, false),
        0 <= k < after.children@.len(),
        0 <= l < after.children@.len(),
        s.len() > 0,
        after.children@[l].name@ == after.children@[k].name@ + s,
    ensures
        k < l,
{
    lemma_sorted_children_in_order(after, before, SortKey::Name, false);
    lemma_prefix_name_sorts_first(after.children@[k], after.children@[l], s);
    if l == k {
        assert(after.children@[k].name@.len() == after.children@[l].name@.len());
    }
}

/// Orders the children of every node by `key` (ascending; mtime newest
/// first; ties broken by name), turned around when `reverse` is set; the
/// sort is stable, and `Unsorted` keeps the walk order.
pub fn apply_sort(node: &mut Node, key: SortKey, reverse: bool)
    ensures
        sorted_tree(*final(node), *old(node), key, reverse),
    decreases *old(node),
{
    let ghost orig = *node;
    let mut kids: Vec<Node> = Vec::new();
    std::mem::swap(&mut kids, &mut node.children);
    let ghost cs = kids@;
    let mut sorted: Vec<Node> = Vec::new();
    let ghost mut order: Seq<int> = seq![];
    let mut i = kids.len();
    while i > 0
        invariant
            orig == *old(node),
            cs == orig.children@,
            i <= cs.len(),
            kids@ == cs.subrange(0, i as int),
            node.name == orig.name,
            node.meta == orig.meta,
            order == display_order_from(cs, i as int, key, reverse),
            sorted@.len() == order.len(),
            order.len() == cs.len() - i,
            forall|k: int| 0 <= k < order.len() ==> i <= #[trigger] order[k] < cs.len(),
            forall|k: int|
                0 <= k < sorted@.len() ==> sorted_tree(
                    #[trigger] sorted@[k],
                    cs[order[k]],
                    key,
                    reverse,
                ),
        decreases i,
    {
        let ghost before_pop = kids@;
        let mut x = match kids.pop() {
            Some(n) => n,
            None => {
                assert(false);
                Node::default()
            },
        };
        i = i - 1;
        let ghost x_orig = x;
        proof {
            assert(x == cs[i as int]);
            assert(decreases_to!(orig => orig.children));
            assert(decreases_to!(orig.children => orig.children@));
            assert(decreases_to!(orig.children@ => orig.children@[i as int]));
            assert(decreases_to!(*old(node) => x));
            lemma_insert_position(order, cs, x_orig, key, reverse, 0);
        }
        apply_sort(&mut x, key, reverse);
        let mut q: usize = 0;
        while q < sorted.len() && sorts_before_exec(&sorted[q], &x, key, reverse)
            invariant
                q <= sorted@.len(),
                sorted@.len() == order.len(),
                x.name == x_orig.name && x.meta == x_orig.meta,
                forall|k: int| 0 <= k < order.len() ==> i < #[trigger] order[k] < cs.len(),
                forall|k: int|
                    0 <= k < sorted@.len() ==> sorted_tree(
                        #[trigger] sorted@[k],
                        cs[order[k]],
                        key,
                        reverse,
                    ),
                forall|p: int| 0 <= p < q ==> sorts_before(cs[#[trigger] order[p]], x_orig, key, reverse),
            decreases sorted@.len() - q,
        {
            proof {
                lemma_sorted_same_key(sorted@[q as int], cs[order[q as int]], x, key, reverse);
                lemma_sorted_same_key(x, x_orig, cs[order[q as int]], key, reverse);
            }
            q = q + 1;
        }
        proof {
            if q < sorted@.len() {
                lemma_sorted_same_key(sorted@[q as int], cs[order[q as int]], x, key, reverse);
                lemma_sorted_same_key(x, x_orig, cs[order[q as int]], key, reverse);
                assert(!sorts_before(cs[order[q as int]], x_orig, key, reverse));
            }
            // q is the insertion position of the display order
            assert(insert_position(order, cs, x_orig, key, reverse, 0) == q) by {
                lemma_insert_position_is_first(order, cs, x_orig, key, reverse, 0, q as int);
            }
        }
        let ghost old_sorted = sorted@;
        sorted.insert(q, x);
        proof {
            let new_order = order.insert(q as int, i as int);
            assert(new_order == display_order_from(cs, i as int, key, reverse));
            assert forall|k: int| 0 <= k < sorted@.len() implies sorted_tree(
                #[trigger] sorted@[k],
                cs[new_order[k]],
                key,
                reverse,
            ) by {
                if k < q {
                    assert(sorted@[k] == old_sorted[k] && new_order[k] == order[k]);
                } else if k > q {
                    assert(sorted@[k] == old_sorted[k - 1] && new_order[k] == order[k - 1]);
                }
            }
            assert forall|k: int| 0 <= k < new_order.len() implies i <= #[trigger] new_order[k]
                < cs.len() by {
                if k < q {
                    assert(new_order[k] == order[k]);
                } else if k > q {
                    assert(new_order[k] == order[k - 1]);
                }
            }
            order = new_order;
            assert(kids@ =~= cs.subrange(0, i as int));
        }
    }
    node.children = sorted;
    proof {
        assert(order == display_order(cs, key, reverse));
        lemma_sorted_children(node.children@, cs, order, key, reverse, node.children@.len());
    }
}

/// A position before which every node sorts before `x` and at which the node
/// does not (or which is the end) is the insertion position.
proof fn lemma_insert_position_is_first(
    order: Seq<int>,
    cs: Seq<Node>,
    x: Node,
    key: SortKey,
    reverse: bool,
    from: int,
    q: int,
)
    requires
        0 <= from <= q <= order.len(),
        forall|p: int| from <= p < q ==> sorts_before(cs[#[trigger] order[p]], x, key, reverse),
        q < order.len() ==> !sorts_before(cs[order[q]], x, key, reverse),
    ensures
        insert_position(order, cs, x, key, reverse, from) == q,
    decreases q - from,
{
    if from < q {
        assert(sorts_before(cs[order[from]], x, key, reverse));
        lemma_insert_position_is_first(order, cs, x, key, reverse, from + 1, q);
    }
}

// ===== rendering =====

/// The bracketed metadata shown before a name: permissions, size and
/// modification time, each when enabled, as `[...] `.
pub open spec fn meta_prefix_text(meta: NodeMeta, opts: RenderOptions) -> Seq<char> {
    let perms = if opts.show_permissions {
        seq!['['] + (match meta.mode {
            Some(m) => mode_text(m),
            None => "---------"@,
        }) + "] "@
    } else {
        seq![]
    };
    let size = if opts.show_sizes {
        seq!['['] + size_text(meta.size) + "] "@
    } else {
        seq![]
    };
    let time = if opts.show_mtime {
        seq!['['] + (match meta.mtime {
            Some(t) => mtime_text(t),
            None => "----- ----- -----"@,
        }) + "] "@
    } else {
        seq![]
    };
    perms + size + time
}

/// The ` -> target` shown after a symlink's name when enabled.
pub open spec fn symlink_suffix_text(meta: NodeMeta, opts: RenderOptions) -> Seq<char> {
    if opts.show_symlink_target && meta.is_symlink && meta.symlink_target is Some {
        " -> "@ + meta.symlink_target->0@
    } else {
        seq![]
    }
}

/// The branch drawn in front of an entry.
pub open spec fn connector(is_last: bool) -> Seq<char> {
    if is_last {
        "└── "@
    } else {
        "├── "@
    }
}

/// What the children of an entry add to the indentation of their lines.
pub open spec fn continuation(is_last: bool) -> Seq<char> {
    if is_last {
        "    "@
    } else {
        "│   "@
    }
}

/// The line of one entry: indentation, branch, metadata, (painted) name and
/// symlink target.
pub open spec fn entry_line(n: Node, is_last: bool, prefix: Seq<char>, opts: RenderOptions) -> Seq<
    char,
> {
    prefix + connector(is_last) + meta_prefix_text(n.meta, opts) + painted(
        opts.colorizer@,
        n.name@,
        n.meta,
    ) + symlink_suffix_text(n.meta, opts) + seq!['\n']
}

/// The lines of the first `n` of the `total` siblings `cs`, each followed
/// by the lines of its own children, indented one level deeper.
pub open spec fn forest_text(
    cs: Seq<Node>,
    n: nat,
    total: nat,
    prefix: Seq<char>,
    opts: RenderOptions,
) -> Seq<char>
    decreases cs, n,
{
    if n == 0 || n > cs.len() {
        seq![]
    } else {
        let c = cs[n - 1];
        let is_last = n == total;
        forest_text(cs, (n - 1) as nat, total, prefix, opts) + entry_line(c, is_last, prefix, opts)
            + if c.children@.len() > 0 {
            forest_text(
                c.children@,
                c.children@.len(),
                c.children@.len(),
                prefix + continuation(is_last),
                opts,
            )
        } else {
            seq![]
        }
    }
}

/// The lines of the first `j` siblings begin those of the first `k`.
proof fn lemma_forest_text_grows(cs: Seq<Node>, j: nat, k: nat, total: nat, prefix: Seq<char>, opts: RenderOptions)
    requires
        j <= k <= cs.len(),
    ensures
        begins_with(forest_text(cs, k, total, prefix, opts), forest_text(cs, j, total, prefix, opts)),
    decreases k,
{
    if j < k {
        lemma_forest_text_grows(cs, j, (k - 1) as nat, total, prefix, opts);
        let a = forest_text(cs, j, total, prefix, opts);
        let b = forest_text(cs, (k - 1) as nat, total, prefix, opts);
        let c = forest_text(cs, k, total, prefix, opts);
        assert(c.subrange(0, b.len() as int) =~= b);
        assert(c.subrange(0, a.len() as int) =~= b.subrange(0, a.len() as int));
    } else {
        let a = forest_text(cs, j, total, prefix, opts);
        assert(a.subrange(0, a.len() as int) =~= a);
    }
}

/// The tree text draws siblings in the children's order: the lines of the
/// first `k` children, then the line of child `k` (with the corner branch
/// exactly when it is the last child), begin the lines of the siblings.
pub proof fn lemma_tree_lines_in_child_order(cs: Seq<Node>, k: nat, prefix: Seq<char>, opts: RenderOptions)
    requires
        k < cs.len(),
    ensures
        begins_with(
            forest_text(cs, cs.len(), cs.len(), prefix, opts),
            forest_text(cs, k, cs.len(), prefix, opts) + entry_line(cs[k as int], k + 1 == cs.len(), prefix, opts),
        ),
{
    let n = cs.len();
    lemma_forest_text_grows(cs, k + 1, n, n, prefix, opts);
    let a = forest_text(cs, k, n, prefix, opts);
    let line = entry_line(cs[k as int], k + 1 == n, prefix, opts);
    let q = forest_text(cs, k + 1, n, prefix, opts);
    let p = a + line;
    assert(q.subrange(0, p.len() as int) =~= p);
    let r = forest_text(cs, n, n, prefix, opts);
    assert(r.subrange(0, p.len() as int) =~= q.subrange(0, p.len() as int));
}

/// The lines of all descendants of `node`, drawn as a tree.
pub open spec fn children_text(node: Node, prefix: Seq<char>, opts: RenderOptions) -> Seq<char> {
    forest_text(node.children@, node.children@.len(), node.children@.len(), prefix, opts)
}

/// The summary line: `N directories, M files`, singular for exactly one.
pub open spec fn report_text(dirs: nat, files: nat) -> Seq<char> {
    decimal(dirs) + (if dirs == 1 {
        " directory"@
    } else {
        " directories"@
    }) + ", "@ + decimal(files) + (if files == 1 {
        " file"@
    } else {
        " files"@
    })
}

/// The whole `tree`-style text: the root as given, the tree below it, and,
/// unless turned off, a blank line and the summary line.
pub open spec fn tree_text(root: Seq<char>, tree: Node, opts: RenderOptions) -> Seq<char> {
    root + seq!['\n'] + children_text(tree, seq![], opts) + if opts.no_report {
        seq![]
    } else {
        seq!['\n'] + report_text(
            capped(tree_counts(tree).0) as nat,
            capped(tree_counts(tree).1) as nat,
        ) + seq!['\n']
    }
}

/// The bracketed metadata shown before a name.
fn meta_prefix(meta: &NodeMeta, opts: &RenderOptions) -> (s: String)
    ensures
        s@ == meta_prefix_text(*meta, *opts),
{
    let mut s = String::new();
    if opts.show_permissions {
        push_char(&mut s, '[');
        match meta.mode {
            Some(m) => push_str(&mut s, format_mode(m).as_str()),
            None => push_str(&mut s, "---------"),
        }
        push_str(&mut s, "] ");
    }
    let ghost after_perms = s@;
    if opts.show_sizes {
        push_char(&mut s, '[');
        push_str(&mut s, format_size(meta.size).as_str());
        push_str(&mut s, "] ");
    }
    let ghost after_size = s@;
    if opts.show_mtime {
        push_char(&mut s, '[');
        match meta.mtime {
            Some(t) => push_str(&mut s, format_mtime(t).as_str()),
            None => push_str(&mut s, "----- ----- -----"),
        }
        push_str(&mut s, "] ");
    }
    assert(s@ =~= meta_prefix_text(*meta, *opts));
    s
}

/// The ` -> target` shown after a symlink's name.
fn symlink_suffix(meta: &NodeMeta, opts: &RenderOptions) -> (s: String)
    ensures
        s@ == symlink_suffix_text(*meta, *opts),
{
    if !opts.show_symlink_target {
        return String::new();
    }
    if !meta.is_symlink {
        return String::new();
    }
    match &meta.symlink_target {
        Some(target) => {
            let mut s = String::new();
            push_str(&mut s, " -> ");
            push_str(&mut s, target.as_str());
            s
        },
        None => String::new(),
    }
}

/// Appends the line of one entry.
fn push_entry_line(out: &mut String, child: &Node, is_last: bool, prefix: &String, opts: &RenderOptions)
    ensures
        final(out)@ == old(out)@ + entry_line(*child, is_last, prefix@, *opts),
{
    let ghost start = out@;
    push_str(out, prefix.as_str());
    if is_last {
        push_str(out, "└── ");
    } else {
        push_str(out, "├── ");
    }
    push_str(out, meta_prefix(&child.meta, opts).as_str());
    match opts.colorizer.paint(child.name.as_str(), &child.meta) {
        Cow::Borrowed(b) => push_str(out, b),
        Cow::Owned(o) => push_str(out, o.as_str()),
    }
    push_str(out, symlink_suffix(&child.meta, opts).as_str());
    push_char(out, '\n');
    assert(out@ =~= start + entry_line(*child, is_last, prefix@, *opts));
}

/// Appends the lines of the descendants of `node`, each line starting with
/// `prefix`.
fn render_children(node: &Node, prefix: &String, opts: &RenderOptions, out: &mut String)
    ensures
        final(out)@ == old(out)@ + children_text(*node, prefix@, *opts),
    decreases node,
{
    let total = node.children.len();
    let ghost start = out@;
    let mut i: usize = 0;
    while i < total
        invariant
            total == node.children@.len(),
            i <= total,
            out@ == start + forest_text(node.children@, i as nat, total as nat, prefix@, *opts),
        decreases total - i,
    {
        let child = &node.children[i];
        let is_last = i + 1 == total;
        push_entry_line(out, child, is_last, prefix, opts);
        let ghost after_line = out@;
        if child.children.len() > 0 {
            let mut deeper = prefix.clone();
            if is_last {
                push_str(&mut deeper, "    ");
            } else {
                push_str(&mut deeper, "│   ");
            }
            proof {
                assert(decreases_to!(node => node.children));
                assert(decreases_to!(node.children => node.children@));
                assert(decreases_to!(node.children@ => node.children@[i as int]));
            }
            render_children(child, &deeper, opts, out);
        }
        proof {
            let cs = node.children@;
            assert(forest_text(cs, (i + 1) as nat, total as nat, prefix@, *opts) == forest_text(
                cs,
                i as nat,
                total as nat,
                prefix@,
                *opts,
            ) + entry_line(cs[i as int], is_last, prefix@, *opts) + if cs[i as int].children@.len()
                > 0 {
                forest_text(
                    cs[i as int].children@,
                    cs[i as int].children@.len(),
                    cs[i as int].children@.len(),
                    prefix@ + continuation(is_last),
                    *opts,
                )
            } else {
                seq![]
            });
            assert(out@ =~= start + forest_text(cs, (i + 1) as nat, total as nat, prefix@, *opts));
        }
        i = i + 1;
    }
}

/// Appends the summary line (without the line break).
fn push_report(out: &mut String, dirs: usize, files: usize)
    ensures
        final(out)@ == old(out)@ + report_text(dirs as nat, files as nat),
{
    let ghost start = out@;
    push_decimal(out, dirs as u64);
    if dirs == 1 {
        push_str(out, " directory");
    } else {
        push_str(out, " directories");
    }
    push_str(out, ", ");
    push_decimal(out, files as u64);
    if files == 1 {
        push_str(out, " file");
    } else {
        push_str(out, " files");
    }
    assert(out@ =~= start + report_text(dirs as nat, files as nat));
}

/// Renders a prepared tree as `tree`-style text: the root line, the tree,
/// and the summary unless `no_report` is set.
pub fn render_prepared(root: &str, tree: &Node, opts: &RenderOptions) -> (out: String)
    ensures
        out@ == tree_text(root@, *tree, *opts),
{
    let mut out = String::new();
    push_str(&mut out, root);
    push_char(&mut out, '\n');
    let prefix = String::new();
    render_children(tree, &prefix, opts, &mut out);
    if !opts.no_report {
        let (dirs, files) = counts(tree);
        push_char(&mut out, '\n');
        push_report(&mut out, dirs, files);
        push_char(&mut out, '\n');
    }
    assert(out@ =~= tree_text(root@, *tree, *opts));
    out
}

/// `tree` is what `prepare` makes of the walk `entries` below `root`: the
/// built tree, with empty directories pruned when `prune` is set, then
/// sorted.
pub open spec fn prepared_from(
    tree: Node,
    root: Seq<char>,
    entries: Seq<Entry>,
    prune: bool,
    key: SortKey,
    reverse: bool,
) -> bool {
    exists|built: Node, pruned: Node|
        #![trigger built_forest(built.children@, root, entries), sorted_tree(tree, pruned, key, reverse)]
        {
            &&& built.name@ == Seq::<char>::empty()
            &&& built.meta == root_meta()
            &&& built_forest(built.children@, root, entries)
            &&& if prune {
                pruned_node(pruned, built)
            } else {
                pruned == built
            }
            &&& sorted_tree(tree, pruned, key, reverse)
        }
}

/// Builds the tree of the walk, prunes empty directories when asked, and
/// sorts it.
pub fn prepare(root: &str, entries: &[Entry], opts: &RenderOptions) -> (tree: Node)
    ensures
        prepared_from(tree, root@, entries@, opts.prune_empty_dirs, opts.sort, opts.reverse),
{
    let mut tree = build(root, entries);
    let ghost built = tree;
    if opts.prune_empty_dirs {
        prune_empty_dirs(&mut tree);
    }
    let ghost pruned = tree;
    apply_sort(&mut tree, opts.sort, opts.reverse);
    assert(built.name@ == Seq::<char>::empty() && built.meta == root_meta() && built_forest(
        built.children@,
        root@,
        entries@,
    ) && (if opts.prune_empty_dirs {
        pruned_node(pruned, built)
    } else {
        pruned == built
    }) && sorted_tree(tree, pruned, opts.sort, opts.reverse));
    tree
}

/// Prepares the tree of the walk and renders it as `tree`-style text.
pub fn render(root: &str, entries: &[Entry], opts: &RenderOptions) -> (out: String)
    ensures
        exists|tree: Node|
            prepared_from(tree, root@, entries@, opts.prune_empty_dirs, opts.sort, opts.reverse)
                && out@ == tree_text(root@, tree, *opts),
{
    let tree = prepare(root, entries, opts);
    render_prepared(root, &tree, opts)
}

} // verus!
