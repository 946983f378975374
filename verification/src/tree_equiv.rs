//! Trees that agree in every name, every piece of metadata and their shape:
//! preparing a walk always gives such trees, and such trees render alike.

use vstd::prelude::*;
use crate::config::SortKey;
use crate::walker::Entry;
use crate::format::{html_forest, html_text, json_forest, json_matches, xml_forest, xml_text, JsonNode};
use crate::tree::{
    forest_counts, forest_text, lemma_prune_keeps_files_and_drops_empty_dirs, lemma_reversed_order_is_reverse,
    lemma_unique_names_each, no_empty_dirs, tree_text, unique_names, RenderOptions,
};
use crate::tree::{
    build_step, built_forest, built_through, child_inserted, entry_parts, first_named,
    forest_inserted, lemma_first_named, prepared_from, root_meta, any_survives, display_order, display_order_from, insert_position, lemma_display_order_from,
    lemma_display_order_is_stable_sort, lemma_sorted_children_each, pruned_forest, pruned_node,
    sorted_tree, sorts_before, survives, Node,
};

verus! {

/// `a` and `b` have the same name (as text), the same metadata, and
/// children that agree in the same way, one by one.
pub open spec fn same_node(a: Node, b: Node) -> bool
    decreases a,
{
    &&& a.name@ == b.name@
    &&& a.meta == b.meta
    &&& same_forest(a.children@, b.children@)
}

/// The forests `s` and `t` have the same length and agree node by node.
pub open spec fn same_forest(s: Seq<Node>, t: Seq<Node>) -> bool
    decreases s,
{
    &&& s.len() == t.len()
    &&& (s.len() == 0 || (same_node(s[s.len() - 1], t[t.len() - 1]) && same_forest(
        s.subrange(0, s.len() - 1),
        t.subrange(0, t.len() - 1),
    )))
}

/// Two forests agree exactly when they have the same length and agree at
/// every position.
pub proof fn lemma_same_forest_each(s: Seq<Node>, t: Seq<Node>)
    ensures
        same_forest(s, t) <==> (s.len() == t.len() && forall|k: int|
            0 <= k < s.len() ==> #[trigger] same_node(s[k], t[k])),
    decreases s.len(),
{
    if s.len() > 0 && s.len() == t.len() {
        let rs = s.subrange(0, s.len() - 1);
        let rt = t.subrange(0, t.len() - 1);
        lemma_same_forest_each(rs, rt);
        if same_forest(s, t) {
            assert forall|k: int| 0 <= k < s.len() implies #[trigger] same_node(s[k], t[k]) by {
                if k < s.len() - 1 {
                    assert(rs[k] == s[k] && rt[k] == t[k]);
                }
            }
        }
        if forall|k: int| 0 <= k < s.len() ==> #[trigger] same_node(s[k], t[k]) {
            assert forall|k: int| 0 <= k < rs.len() implies #[trigger] same_node(rs[k], rt[k]) by {
                assert(rs[k] == s[k] && rt[k] == t[k]);
                assert(same_node(s[k], t[k]));
            }
            assert(same_node(s[s.len() - 1], t[t.len() - 1]));
            assert(same_forest(rs, rt));
            assert(same_forest(s, t));
        }
    } else if s.len() == 0 && t.len() == 0 {
        assert(same_forest(s, t));
    }
}

// ===== pruning =====

/// Agreeing nodes survive pruning alike.
proof fn lemma_survives_same(a: Node, b: Node)
    requires
        same_node(a, b),
    ensures
        survives(a) == survives(b),
    decreases a,
{
    lemma_any_survives_same(a.children@, b.children@);
}

/// Agreeing forests have a surviving node alike.
proof fn lemma_any_survives_same(s: Seq<Node>, t: Seq<Node>)
    requires
        same_forest(s, t),
    ensures
        any_survives(s) == any_survives(t),
    decreases s,
{
    if s.len() > 0 {
        lemma_survives_same(s[s.len() - 1], t[t.len() - 1]);
        lemma_any_survives_same(s.subrange(0, s.len() - 1), t.subrange(0, t.len() - 1));
    }
}

/// Pruning agreeing nodes gives agreeing nodes.
proof fn lemma_pruned_node_same(a1: Node, b1: Node, a2: Node, b2: Node)
    requires
        pruned_node(a1, b1),
        pruned_node(a2, b2),
        same_node(b1, b2),
    ensures
        same_node(a1, a2),
    decreases b1,
{
    lemma_pruned_forest_same(a1.children@, b1.children@, a2.children@, b2.children@);
}

/// Pruning agreeing forests gives agreeing forests.
proof fn lemma_pruned_forest_same(a1: Seq<Node>, b1: Seq<Node>, a2: Seq<Node>, b2: Seq<Node>)
    requires
        pruned_forest(a1, b1),
        pruned_forest(a2, b2),
        same_forest(b1, b2),
    ensures
        same_forest(a1, a2),
    decreases b1,
{
    if b1.len() > 0 {
        let l1 = b1[b1.len() - 1];
        let l2 = b2[b2.len() - 1];
        let r1 = b1.subrange(0, b1.len() - 1);
        let r2 = b2.subrange(0, b2.len() - 1);
        lemma_survives_same(l1, l2);
        if survives(l1) {
            let x1 = a1[a1.len() - 1];
            let x2 = a2[a2.len() - 1];
            assert(pruned_node(x1, l1));
            assert(pruned_node(x2, l2));
            lemma_pruned_node_same(x1, l1, x2, l2);
            lemma_pruned_forest_same(a1.subrange(0, a1.len() - 1), r1, a2.subrange(0, a2.len() - 1), r2);
        } else {
            lemma_pruned_forest_same(a1, r1, a2, r2);
        }
    } else {
        assert(same_forest(a1, a2));
    }
}

/// A node that is a file, or a directory with children and no empty
/// directory below it, survives pruning.
proof fn lemma_kept_node_survives(n: Node)
    requires
        !n.meta.is_dir || n.children@.len() > 0,
        no_empty_dirs(n.children@),
    ensures
        survives(n),
    decreases n,
{
    let cs = n.children@;
    if n.meta.is_dir {
        let last = cs[cs.len() - 1];
        lemma_kept_node_survives(last);
        assert(any_survives(cs));
    }
}

/// Pruning a node that has no empty directory below it gives a node that
/// agrees with it.
proof fn lemma_prune_kept_node(a: Node, n: Node)
    requires
        pruned_node(a, n),
        no_empty_dirs(n.children@),
    ensures
        same_node(a, n),
    decreases n,
{
    lemma_prune_kept_forest(a.children@, n.children@);
}

/// Pruning a forest with no empty directory in it gives a forest that
/// agrees with it.
proof fn lemma_prune_kept_forest(a: Seq<Node>, s: Seq<Node>)
    requires
        pruned_forest(a, s),
        no_empty_dirs(s),
    ensures
        same_forest(a, s),
    decreases s,
{
    if s.len() > 0 {
        let last = s[s.len() - 1];
        lemma_kept_node_survives(last);
        let x = a[a.len() - 1];
        assert(pruned_node(x, last));
        lemma_prune_kept_node(x, last);
        lemma_prune_kept_forest(a.subrange(0, a.len() - 1), s.subrange(0, s.len() - 1));
    } else {
        assert(same_forest(a, s));
    }
}

/// Pruning twice is pruning once: pruning an already pruned tree gives a
/// tree that agrees with it in every name, every piece of metadata and its
/// shape.
pub proof fn lemma_prune_twice_is_once(a: Node, b: Node, c: Node)
    requires
        pruned_node(a, b),
        pruned_node(c, a),
    ensures
        same_node(c, a),
{
    lemma_prune_keeps_files_and_drops_empty_dirs(a, b);
    lemma_prune_kept_node(c, a);
}

// ===== sorting =====

/// The nodes of `s` and `t` have, position by position, the same names and
/// metadata: what the display order looks at.
pub open spec fn same_keys(s: Seq<Node>, t: Seq<Node>) -> bool {
    &&& s.len() == t.len()
    &&& forall|k: int| 0 <= k < s.len() ==> #[trigger] s[k].name@ == t[k].name@ && s[k].meta == t[k].meta
}

/// Where a node goes among already ordered ones depends on names and
/// metadata alone.
proof fn lemma_insert_position_same(
    order: Seq<int>,
    s: Seq<Node>,
    t: Seq<Node>,
    x: Node,
    y: Node,
    key: SortKey,
    reverse: bool,
    from: int,
)
    requires
        same_keys(s, t),
        x.name@ == y.name@,
        x.meta == y.meta,
        forall|k: int| 0 <= k < order.len() ==> 0 <= #[trigger] order[k] < s.len(),
        0 <= from,
    ensures
        insert_position(order, s, x, key, reverse, from) == insert_position(order, t, y, key, reverse, from),
    decreases order.len() - from,
{
    if from < order.len() {
        assert(s[order[from]].name@ == t[order[from]].name@);
        assert(sorts_before(s[order[from]], x, key, reverse) == sorts_before(t[order[from]], y, key, reverse));
        lemma_insert_position_same(order, s, t, x, y, key, reverse, from + 1);
    }
}

/// The display order depends on names and metadata alone.
proof fn lemma_display_order_from_same(s: Seq<Node>, t: Seq<Node>, i: int, key: SortKey, reverse: bool)
    requires
        same_keys(s, t),
        0 <= i <= s.len(),
    ensures
        display_order_from(s, i, key, reverse) == display_order_from(t, i, key, reverse),
    decreases s.len() - i,
{
    if i < s.len() {
        lemma_display_order_from_same(s, t, i + 1, key, reverse);
        lemma_display_order_from(s, i + 1, key, reverse);
        let rest = display_order_from(s, i + 1, key, reverse);
        assert(s[i].name@ == t[i].name@);
        lemma_insert_position_same(rest, s, t, s[i], t[i], key, reverse, 0);
    }
}

/// Sorting agreeing nodes gives agreeing nodes.
proof fn lemma_sorted_same(a1: Node, b1: Node, a2: Node, b2: Node, key: SortKey, reverse: bool)
    requires
        sorted_tree(a1, b1, key, reverse),
        sorted_tree(a2, b2, key, reverse),
        same_node(b1, b2),
    ensures
        same_node(a1, a2),
    decreases b1,
{
    let cs1 = b1.children@;
    let cs2 = b2.children@;
    lemma_same_forest_each(cs1, cs2);
    assert(same_keys(cs1, cs2)) by {
        assert forall|k: int| 0 <= k < cs1.len() implies #[trigger] cs1[k].name@ == cs2[k].name@
            && cs1[k].meta == cs2[k].meta by {
            assert(same_node(cs1[k], cs2[k]));
        }
    }
    lemma_display_order_from_same(cs1, cs2, 0, key, reverse);
    let order = display_order(cs1, key, reverse);
    lemma_display_order_is_stable_sort(cs1, key, reverse);
    lemma_sorted_children_each(a1.children@, cs1, order, key, reverse, a1.children@.len());
    lemma_sorted_children_each(a2.children@, cs2, order, key, reverse, a2.children@.len());
    assert forall|k: int| 0 <= k < a1.children@.len() implies #[trigger] same_node(
        a1.children@[k],
        a2.children@[k],
    ) by {
        assert(0 <= order[k] < cs1.len());
        assert(same_node(cs1[order[k]], cs2[order[k]]));
        assert(decreases_to!(b1 => b1.children));
        assert(decreases_to!(b1.children => b1.children@));
        assert(decreases_to!(b1.children@ => b1.children@[order[k]]));
        lemma_sorted_same(a1.children@[k], cs1[order[k]], a2.children@[k], cs2[order[k]], key, reverse);
    }
    lemma_same_forest_each(a1.children@, a2.children@);
}

/// `b` is `a` with the children at every level in the opposite order:
/// same names and metadata, siblings mirrored.
pub open spec fn mirrored(a: Node, b: Node) -> bool
    decreases a,
{
    &&& a.name@ == b.name@
    &&& a.meta == b.meta
    &&& mirrored_forest(a.children@, b.children@)
}

/// `t` is the forest `s` turned around, each node mirrored in turn.
pub open spec fn mirrored_forest(s: Seq<Node>, t: Seq<Node>) -> bool
    decreases s,
{
    &&& s.len() == t.len()
    &&& (s.len() == 0 || (mirrored(s[s.len() - 1], t[0]) && mirrored_forest(
        s.subrange(0, s.len() - 1),
        t.subrange(1, t.len() as int),
    )))
}

/// Two forests mirror each other exactly when the node at each position
/// mirrors the node at the opposite position.
proof fn lemma_mirrored_forest_each(s: Seq<Node>, t: Seq<Node>)
    requires
        s.len() == t.len(),
        forall|k: int| 0 <= k < s.len() ==> mirrored(#[trigger] s[k], t[s.len() - 1 - k]),
    ensures
        mirrored_forest(s, t),
    decreases s.len(),
{
    if s.len() > 0 {
        let n = s.len();
        let rs = s.subrange(0, n - 1);
        let rt = t.subrange(1, n as int);
        assert forall|k: int| 0 <= k < rs.len() implies mirrored(#[trigger] rs[k], rt[rs.len() - 1 - k]) by {
            assert(rs[k] == s[k]);
            assert(rt[rs.len() - 1 - k] == t[n - 1 - k]);
        }
        lemma_mirrored_forest_each(rs, rt);
        assert(mirrored(s[n - 1], t[0]));
    }
}

/// With a sort key and unique sibling names, sorting in reverse order gives,
/// at every level, exactly the forward order turned around.
pub proof fn lemma_reverse_sort_mirrors(n1: Node, n2: Node, before: Node, key: SortKey)
    requires
        key != SortKey::Unsorted,
        unique_names(before.children@),
        sorted_tree(n1, before, key, false),
        sorted_tree(n2, before, key, true),
    ensures
        mirrored(n1, n2),
    decreases before,
{
    let cs = before.children@;
    let len = cs.len();
    lemma_unique_names_each(cs);
    lemma_reversed_order_is_reverse(cs, key);
    let order = display_order(cs, key, false);
    let rorder = display_order(cs, key, true);
    lemma_display_order_is_stable_sort(cs, key, false);
    lemma_sorted_children_each(n1.children@, cs, order, key, false, n1.children@.len());
    lemma_sorted_children_each(n2.children@, cs, rorder, key, true, n2.children@.len());
    assert forall|k: int| 0 <= k < len implies mirrored(#[trigger] n1.children@[k], n2.children@[len - 1 - k]) by {
        assert(rorder[len - 1 - k] == order[k]);
        assert(0 <= order[k] < len);
        assert(unique_names(cs[order[k]].children@));
        assert(decreases_to!(before => before.children));
        assert(decreases_to!(before.children => before.children@));
        assert(decreases_to!(before.children@ => before.children@[order[k]]));
        lemma_reverse_sort_mirrors(n1.children@[k], n2.children@[len - 1 - k], cs[order[k]], key);
    }
    lemma_mirrored_forest_each(n1.children@, n2.children@);
}

// ===== building =====

/// Forests with the same names, position by position, find a name at the
/// same place.
proof fn lemma_first_named_same(s: Seq<Node>, t: Seq<Node>, name: Seq<char>)
    requires
        s.len() == t.len(),
        forall|k: int| 0 <= k < s.len() ==> #[trigger] s[k].name@ == t[k].name@,
    ensures
        first_named(s, name) == first_named(t, name),
{
    lemma_first_named(s, name);
    lemma_first_named(t, name);
    match first_named(s, name) {
        Some(i) => {
            assert(t[i].name@ == name);
            match first_named(t, name) {
                Some(j) => {
                    assert(s[j].name@ == name);
                    if i < j {
                        assert(t[i].name@ != name);
                    }
                    if j < i {
                        assert(s[j].name@ != name);
                    }
                },
                None => {},
            }
        },
        None => {
            if let Some(j) = first_named(t, name) {
                assert(s[j].name@ == name);
            }
        },
    }
}

/// Agreeing forests have the same names, position by position.
proof fn lemma_same_forest_names(s: Seq<Node>, t: Seq<Node>)
    requires
        same_forest(s, t),
    ensures
        s.len() == t.len(),
        forall|k: int| 0 <= k < s.len() ==> #[trigger] s[k].name@ == t[k].name@,
{
    lemma_same_forest_each(s, t);
    assert forall|k: int| 0 <= k < s.len() implies #[trigger] s[k].name@ == t[k].name@ by {
        assert(same_node(s[k], t[k]));
    }
}

/// Agreeing forests, each with the node at `i` replaced by agreeing nodes,
/// agree.
proof fn lemma_replaced_same(a1: Seq<Node>, b1: Seq<Node>, a2: Seq<Node>, b2: Seq<Node>, i: int)
    requires
        same_forest(b1, b2),
        0 <= i < b1.len(),
        a1.len() == b1.len(),
        a2.len() == b2.len(),
        forall|j: int| 0 <= j < b1.len() && j != i ==> a1[j] == b1[j],
        forall|j: int| 0 <= j < b2.len() && j != i ==> a2[j] == b2[j],
        same_node(a1[i], a2[i]),
    ensures
        same_forest(a1, a2),
{
    lemma_same_forest_each(b1, b2);
    assert forall|k: int| 0 <= k < a1.len() implies #[trigger] same_node(a1[k], a2[k]) by {
        if k != i {
            assert(a1[k] == b1[k] && a2[k] == b2[k]);
            assert(same_node(b1[k], b2[k]));
        }
    }
    lemma_same_forest_each(a1, a2);
}

/// Agreeing forests, each with agreeing nodes appended, agree.
proof fn lemma_appended_same(a1: Seq<Node>, b1: Seq<Node>, a2: Seq<Node>, b2: Seq<Node>)
    requires
        same_forest(b1, b2),
        a1.len() == b1.len() + 1,
        a2.len() == b2.len() + 1,
        forall|j: int| 0 <= j < b1.len() ==> a1[j] == b1[j],
        forall|j: int| 0 <= j < b2.len() ==> a2[j] == b2[j],
        same_node(a1[b1.len() as int], a2[b2.len() as int]),
    ensures
        same_forest(a1, a2),
{
    lemma_same_forest_each(b1, b2);
    assert forall|k: int| 0 <= k < a1.len() implies #[trigger] same_node(a1[k], a2[k]) by {
        if k < b1.len() {
            assert(a1[k] == b1[k] && a2[k] == b2[k]);
            assert(same_node(b1[k], b2[k]));
        }
    }
    lemma_same_forest_each(a1, a2);
}

/// Putting the same entry into agreeing forests gives agreeing forests.
proof fn lemma_forest_inserted_same(
    a1: Seq<Node>,
    b1: Seq<Node>,
    a2: Seq<Node>,
    b2: Seq<Node>,
    parts: Seq<Seq<char>>,
    e: Entry,
)
    requires
        forest_inserted(a1, b1, parts, e),
        forest_inserted(a2, b2, parts, e),
        same_forest(b1, b2),
    ensures
        same_forest(a1, a2),
    decreases parts.len(), 2nat,
{
    lemma_same_forest_names(b1, b2);
    lemma_first_named_same(b1, b2, parts[0]);
    lemma_first_named(b1, parts[0]);
    match first_named(b1, parts[0]) {
        Some(i) => {
            lemma_updated_child_same(a1, b1, a2, b2, i, parts, e);
        },
        None => {
            lemma_new_child_same(a1, b1, a2, b2, parts, e);
        },
    }
}

/// The entry went below the agreeing children at `i`.
proof fn lemma_updated_child_same(
    a1: Seq<Node>,
    b1: Seq<Node>,
    a2: Seq<Node>,
    b2: Seq<Node>,
    i: int,
    parts: Seq<Seq<char>>,
    e: Entry,
)
    requires
        same_forest(b1, b2),
        0 <= i < b1.len(),
        a1.len() == b1.len(),
        a2.len() == b2.len(),
        forall|j: int| 0 <= j < b1.len() && j != i ==> a1[j] == b1[j],
        forall|j: int| 0 <= j < b2.len() && j != i ==> a2[j] == b2[j],
        child_inserted(a1[i], b1[i].meta, b1[i].children@, parts, e),
        child_inserted(a2[i], b2[i].meta, b2[i].children@, parts, e),
    ensures
        same_forest(a1, a2),
    decreases parts.len(), 1nat,
{
    lemma_same_forest_each(b1, b2);
    assert(same_node(b1[i], b2[i]));
    lemma_child_inserted_same(a1[i], a2[i], b1[i].meta, b1[i].children@, b2[i].children@, parts, e);
    lemma_replaced_same(a1, b1, a2, b2, i);
}

/// The entry went below new nodes appended to the agreeing forests.
proof fn lemma_new_child_same(
    a1: Seq<Node>,
    b1: Seq<Node>,
    a2: Seq<Node>,
    b2: Seq<Node>,
    parts: Seq<Seq<char>>,
    e: Entry,
)
    requires
        same_forest(b1, b2),
        a1.len() == b1.len() + 1,
        a2.len() == b2.len() + 1,
        forall|j: int| 0 <= j < b1.len() ==> a1[j] == b1[j],
        forall|j: int| 0 <= j < b2.len() ==> a2[j] == b2[j],
        child_inserted(a1[b1.len() as int], crate::tree::default_meta(), seq![], parts, e),
        child_inserted(a2[b2.len() as int], crate::tree::default_meta(), seq![], parts, e),
    ensures
        same_forest(a1, a2),
    decreases parts.len(), 1nat,
{
    assert(same_forest(Seq::<Node>::empty(), Seq::<Node>::empty()));
    lemma_child_inserted_same(
        a1[b1.len() as int],
        a2[b2.len() as int],
        crate::tree::default_meta(),
        seq![],
        seq![],
        parts,
        e,
    );
    lemma_appended_same(a1, b1, a2, b2);
}

/// Putting the same entry below agreeing children gives agreeing nodes.
proof fn lemma_child_inserted_same(
    a1: Node,
    a2: Node,
    meta: crate::tree::NodeMeta,
    c1: Seq<Node>,
    c2: Seq<Node>,
    parts: Seq<Seq<char>>,
    e: Entry,
)
    requires
        child_inserted(a1, meta, c1, parts, e),
        child_inserted(a2, meta, c2, parts, e),
        same_forest(c1, c2),
    ensures
        same_node(a1, a2),
    decreases parts.len(), 0nat,
{
    if parts.len() > 1 {
        lemma_forest_inserted_same(a1.children@, c1, a2.children@, c2, parts.subrange(1, parts.len() as int), e);
    }
}

/// Two builds of the same entries agree after each entry.
proof fn lemma_built_states_same(
    root: Seq<char>,
    entries: Seq<Entry>,
    s1: Seq<Seq<Node>>,
    s2: Seq<Seq<Node>>,
    k: int,
)
    requires
        built_through(s1[entries.len() as int], root, entries, s1),
        built_through(s2[entries.len() as int], root, entries, s2),
        0 <= k <= entries.len(),
    ensures
        same_forest(s1[k], s2[k]),
    decreases k,
{
    if k == 0 {
        assert(same_forest(s1[0], s2[0]));
    } else {
        let j = k - 1;
        lemma_built_states_same(root, entries, s1, s2, j);
        assert(build_step(s1[j + 1], s1[j], root, entries[j]));
        assert(build_step(s2[j + 1], s2[j], root, entries[j]));
        if entry_parts(root, entries[j].path@).len() > 0 {
            lemma_forest_inserted_same(s1[k], s1[j], s2[k], s2[j], entry_parts(root, entries[j].path@), entries[j]);
        }
    }
}

/// Building is deterministic: two builds of the same entries below the
/// same root agree.
pub proof fn lemma_build_is_deterministic(c1: Seq<Node>, c2: Seq<Node>, root: Seq<char>, entries: Seq<Entry>)
    requires
        built_forest(c1, root, entries),
        built_forest(c2, root, entries),
    ensures
        same_forest(c1, c2),
{
    let s1 = choose|states: Seq<Seq<Node>>| built_through(c1, root, entries, states);
    let s2 = choose|states: Seq<Seq<Node>>| built_through(c2, root, entries, states);
    lemma_built_states_same(root, entries, s1, s2, entries.len() as int);
}

/// Preparing is deterministic: two trees prepared from the same walk with
/// the same options agree in every name, every piece of metadata and their
/// shape.
pub proof fn lemma_prepare_is_deterministic(
    t1: Node,
    t2: Node,
    root: Seq<char>,
    entries: Seq<Entry>,
    prune: bool,
    key: SortKey,
    reverse: bool,
)
    requires
        prepared_from(t1, root, entries, prune, key, reverse),
        prepared_from(t2, root, entries, prune, key, reverse),
    ensures
        same_node(t1, t2),
{
    let (built1, pruned1) = choose|built: Node, pruned: Node|
        #![trigger built_forest(built.children@, root, entries), sorted_tree(t1, pruned, key, reverse)]
        {
            &&& built.name@ == Seq::<char>::empty()
            &&& built.meta == root_meta()
            &&& built_forest(built.children@, root, entries)
            &&& if prune {
                pruned_node(pruned, built)
            } else {
                pruned == built
            }
            &&& sorted_tree(t1, pruned, key, reverse)
        };
    let (built2, pruned2) = choose|built: Node, pruned: Node|
        #![trigger built_forest(built.children@, root, entries), sorted_tree(t2, pruned, key, reverse)]
        {
            &&& built.name@ == Seq::<char>::empty()
            &&& built.meta == root_meta()
            &&& built_forest(built.children@, root, entries)
            &&& if prune {
                pruned_node(pruned, built)
            } else {
                pruned == built
            }
            &&& sorted_tree(t2, pruned, key, reverse)
        };
    lemma_build_is_deterministic(built1.children@, built2.children@, root, entries);
    assert(same_node(built1, built2));
    if prune {
        lemma_pruned_node_same(pruned1, built1, pruned2, built2);
    }
    lemma_sorted_same(t1, pruned1, t2, pruned2, key, reverse);
}

// ===== rendering =====

/// Agreeing forests have the same counts.
proof fn lemma_forest_counts_same(s: Seq<Node>, t: Seq<Node>)
    requires
        same_forest(s, t),
    ensures
        forest_counts(s) == forest_counts(t),
    decreases s,
{
    if s.len() > 0 {
        let l1 = s[s.len() - 1];
        let l2 = t[t.len() - 1];
        assert(same_node(l1, l2));
        lemma_forest_counts_same(l1.children@, l2.children@);
        lemma_forest_counts_same(s.subrange(0, s.len() - 1), t.subrange(0, t.len() - 1));
    }
}

/// Agreeing forests draw the same tree lines.
proof fn lemma_forest_text_same(
    s: Seq<Node>,
    t: Seq<Node>,
    n: nat,
    total: nat,
    prefix: Seq<char>,
    opts: RenderOptions,
)
    requires
        same_forest(s, t),
    ensures
        forest_text(s, n, total, prefix, opts) == forest_text(t, n, total, prefix, opts),
    decreases s, n,
{
    lemma_same_forest_each(s, t);
    if n > 0 && n <= s.len() {
        let c1 = s[n - 1];
        let c2 = t[n - 1];
        assert(same_node(c1, c2));
        lemma_forest_text_same(s, t, (n - 1) as nat, total, prefix, opts);
        let cont = prefix + if n == total {
            "    "@
        } else {
            "│   "@
        };
        assert(decreases_to!(s => s[n - 1]));
        lemma_forest_text_same(c1.children@, c2.children@, c1.children@.len(), c1.children@.len(), cont, opts);
    }
}

/// Agreeing forests give the same HTML list items.
proof fn lemma_html_forest_same(s: Seq<Node>, t: Seq<Node>, k: nat, pad: Seq<char>)
    requires
        same_forest(s, t),
    ensures
        html_forest(s, k, pad) == html_forest(t, k, pad),
    decreases s, k,
{
    lemma_same_forest_each(s, t);
    if k > 0 && k <= s.len() {
        let c1 = s[k - 1];
        let c2 = t[k - 1];
        assert(same_node(c1, c2));
        lemma_html_forest_same(s, t, (k - 1) as nat, pad);
        assert(decreases_to!(s => s[k - 1]));
        lemma_html_forest_same(c1.children@, c2.children@, c1.children@.len(), pad + "    "@);
    }
}

/// Agreeing forests give the same XML elements.
proof fn lemma_xml_forest_same(s: Seq<Node>, t: Seq<Node>, k: nat, pad: Seq<char>)
    requires
        same_forest(s, t),
    ensures
        xml_forest(s, k, pad) == xml_forest(t, k, pad),
    decreases s, k,
{
    lemma_same_forest_each(s, t);
    if k > 0 && k <= s.len() {
        let c1 = s[k - 1];
        let c2 = t[k - 1];
        assert(same_node(c1, c2));
        lemma_xml_forest_same(s, t, (k - 1) as nat, pad);
        assert(decreases_to!(s => s[k - 1]));
        lemma_xml_forest_same(c1.children@, c2.children@, c1.children@.len(), pad + "  "@);
    }
}

/// A JSON object of a node is one of any node that agrees with it.
proof fn lemma_json_matches_same(j: JsonNode, n1: Node, n2: Node, root: Option<Seq<char>>)
    requires
        same_node(n1, n2),
        json_matches(j, n1, root),
    ensures
        json_matches(j, n2, root),
    decreases n1, 0nat,
{
    lemma_forest_counts_same(n1.children@, n2.children@);
    if n1.children@.len() > 0 {
        let v = j.children->0;
        lemma_json_forest_same(v@, n1.children@, n2.children@, n1.children@.len());
    }
}

/// JSON objects of a forest are ones of any forest that agrees with it.
proof fn lemma_json_forest_same(vs: Seq<JsonNode>, s: Seq<Node>, t: Seq<Node>, k: nat)
    requires
        same_forest(s, t),
        json_forest(vs, s, k),
    ensures
        json_forest(vs, t, k),
    decreases s, k,
{
    lemma_same_forest_each(s, t);
    if k > 0 {
        assert(same_node(s[k - 1], t[k - 1]));
        assert(decreases_to!(s => s[k - 1]));
        lemma_json_matches_same(vs[k - 1], s[k - 1], t[k - 1], None);
        lemma_json_forest_same(vs, s, t, (k - 1) as nat);
    }
}

/// Agreeing trees render alike: the same tree text, HTML and XML, and every
/// JSON object of the one is a JSON object of the other.
pub proof fn lemma_same_tree_renders_alike(t1: Node, t2: Node, root: Seq<char>, opts: RenderOptions)
    requires
        same_node(t1, t2),
    ensures
        tree_text(root, t1, opts) == tree_text(root, t2, opts),
        html_text(root, t1) == html_text(root, t2),
        xml_text(root, t1) == xml_text(root, t2),
        forall|j: JsonNode| #[trigger] json_matches(j, t1, Some(root)) ==> json_matches(j, t2, Some(root)),
{
    lemma_forest_counts_same(t1.children@, t2.children@);
    lemma_forest_text_same(t1.children@, t2.children@, t1.children@.len(), t1.children@.len(), seq![], opts);
    lemma_html_forest_same(t1.children@, t2.children@, t1.children@.len(), "    "@);
    lemma_xml_forest_same(t1.children@, t2.children@, t1.children@.len(), "  "@);
    assert forall|j: JsonNode| #[trigger] json_matches(j, t1, Some(root)) implies json_matches(j, t2, Some(root)) by {
        lemma_json_matches_same(j, t1, t2, Some(root));
    }
}

/// Rendering a walk is deterministic: the trees that preparing a walk may
/// give all render to the same tree text, HTML and XML, and have the same
/// JSON objects.
pub proof fn lemma_render_is_deterministic(
    t1: Node,
    t2: Node,
    root: Seq<char>,
    entries: Seq<Entry>,
    opts: RenderOptions,
)
    requires
        prepared_from(t1, root, entries, opts.prune_empty_dirs, opts.sort, opts.reverse),
        prepared_from(t2, root, entries, opts.prune_empty_dirs, opts.sort, opts.reverse),
    ensures
        tree_text(root, t1, opts) == tree_text(root, t2, opts),
        html_text(root, t1) == html_text(root, t2),
        xml_text(root, t1) == xml_text(root, t2),
        forall|j: JsonNode| #[trigger] json_matches(j, t1, Some(root)) ==> json_matches(j, t2, Some(root)),
{
    lemma_prepare_is_deterministic(t1, t2, root, entries, opts.prune_empty_dirs, opts.sort, opts.reverse);
    lemma_same_tree_renders_alike(t1, t2, root, opts);
}

} // verus!
