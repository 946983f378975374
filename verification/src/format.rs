//! HTML and XML renderings of a prepared tree, and the content of its JSON
//! rendering.

use vstd::prelude::*;
use crate::format_meta::{format_mode, format_mtime, mode_text, mtime_text};
use crate::text::{
    begins_with, decimal, lemma_begins_with_after, lemma_begins_with_extend, lemma_begins_with_self, lemma_begins_with_trans,
    push_char, push_decimal, push_str,
};
use crate::tree::{capped, counts, report_text, tree_counts, Node, NodeMeta};

verus! {

/// The kind of a node as the structured formats name it.
pub open spec fn node_type_text(meta: NodeMeta) -> Seq<char> {
    if meta.is_symlink {
        "symlink"@
    } else if meta.is_dir {
        "directory"@
    } else {
        "file"@
    }
}

fn node_type(meta: &NodeMeta) -> (t: &'static str)
    ensures
        t@ == node_type_text(*meta),
{
    if meta.is_symlink {
        "symlink"
    } else if meta.is_dir {
        "directory"
    } else {
        "file"
    }
}

// ===== escaping =====

/// The HTML escape of one character.
pub open spec fn html_escape_char(c: char) -> Seq<char> {
    if c == '&' {
        "&amp;"@
    } else if c == '<' {
        "&lt;"@
    } else if c == '>' {
        "&gt;"@
    } else if c == '"' {
        "&quot;"@
    } else if c == '\'' {
        "&#39;"@
    } else {
        seq![c]
    }
}

/// The XML escape of one character.
pub open spec fn xml_escape_char(c: char) -> Seq<char> {
    if c == '&' {
        "&amp;"@
    } else if c == '<' {
        "&lt;"@
    } else if c == '>' {
        "&gt;"@
    } else if c == '"' {
        "&quot;"@
    } else if c == '\'' {
        "&apos;"@
    } else {
        seq![c]
    }
}

/// `s` with each character replaced by its HTML escape.
pub open spec fn html_escaped(s: Seq<char>) -> Seq<char>
    decreases s.len(),
{
    if s.len() == 0 {
        seq![]
    } else {
        html_escaped(s.drop_last()) + html_escape_char(s.last())
    }
}

/// `s` with each character replaced by its XML escape.
pub open spec fn xml_escaped(s: Seq<char>) -> Seq<char>
    decreases s.len(),
{
    if s.len() == 0 {
        seq![]
    } else {
        xml_escaped(s.drop_last()) + xml_escape_char(s.last())
    }
}

/// Whether `c` is one of the characters that markup must not carry raw.
pub open spec fn is_markup_char(c: char) -> bool {
    c == '<' || c == '>' || c == '"' || c == '\''
}

/// Escaped text never contains a raw `<`, `>`, `"` or `'`.
pub proof fn lemma_escaped_has_no_markup(s: Seq<char>)
    ensures
        forall|i: int| 0 <= i < html_escaped(s).len() ==> !is_markup_char(#[trigger] html_escaped(s)[i]),
        forall|i: int| 0 <= i < xml_escaped(s).len() ==> !is_markup_char(#[trigger] xml_escaped(s)[i]),
    decreases s.len(),
{
    reveal_strlit("&amp;");
    reveal_strlit("&lt;");
    reveal_strlit("&gt;");
    reveal_strlit("&quot;");
    reveal_strlit("&#39;");
    reveal_strlit("&apos;");
    if s.len() > 0 {
        lemma_escaped_has_no_markup(s.drop_last());
        let h = html_escaped(s);
        let hp = html_escaped(s.drop_last());
        assert forall|i: int| 0 <= i < h.len() implies !is_markup_char(#[trigger] h[i]) by {
            if i >= hp.len() {
                assert(h[i] == html_escape_char(s.last())[i - hp.len()]);
            } else {
                assert(h[i] == hp[i]);
            }
        }
        let x = xml_escaped(s);
        let xp = xml_escaped(s.drop_last());
        assert forall|i: int| 0 <= i < x.len() implies !is_markup_char(#[trigger] x[i]) by {
            if i >= xp.len() {
                assert(x[i] == xml_escape_char(s.last())[i - xp.len()]);
            } else {
                assert(x[i] == xp[i]);
            }
        }
    }
}

/// XML text decoded left to right: each of `&amp;`, `&lt;`, `&gt;`,
/// `&quot;` and `&apos;` stands for its character, and any other character
/// for itself.
pub open spec fn xml_unescaped(t: Seq<char>) -> Seq<char>
    decreases t.len(),
{
    if t.len() == 0 {
        seq![]
    } else if t.len() >= 5 && t.subrange(0, 5) == seq!['&', 'a', 'm', 'p', ';'] {
        seq!['&'] + xml_unescaped(t.subrange(5, t.len() as int))
    } else if t.len() >= 4 && t.subrange(0, 4) == seq!['&', 'l', 't', ';'] {
        seq!['<'] + xml_unescaped(t.subrange(4, t.len() as int))
    } else if t.len() >= 4 && t.subrange(0, 4) == seq!['&', 'g', 't', ';'] {
        seq!['>'] + xml_unescaped(t.subrange(4, t.len() as int))
    } else if t.len() >= 6 && t.subrange(0, 6) == seq!['&', 'q', 'u', 'o', 't', ';'] {
        seq!['"'] + xml_unescaped(t.subrange(6, t.len() as int))
    } else if t.len() >= 6 && t.subrange(0, 6) == seq!['&', 'a', 'p', 'o', 's', ';'] {
        seq!['\''] + xml_unescaped(t.subrange(6, t.len() as int))
    } else {
        seq![t[0]] + xml_unescaped(t.subrange(1, t.len() as int))
    }
}

/// Escaping a text is escaping its first character, then the rest.
proof fn lemma_xml_escaped_front(c: char, r: Seq<char>)
    ensures
        xml_escaped(seq![c] + r) == xml_escape_char(c) + xml_escaped(r),
    decreases r.len(),
{
    let t = seq![c] + r;
    if r.len() == 0 {
        assert(t.drop_last() =~= Seq::<char>::empty());
        assert(xml_escaped(t.drop_last()) =~= Seq::<char>::empty());
        assert(xml_escaped(r) =~= Seq::<char>::empty());
        assert(xml_escaped(t) =~= xml_escape_char(c));
    } else {
        lemma_xml_escaped_front(c, r.drop_last());
        assert(t.drop_last() =~= seq![c] + r.drop_last());
        assert(t.last() == r.last());
        assert(xml_escaped(t) =~= xml_escape_char(c) + xml_escaped(r));
    }
}

/// Decoding an escaped character followed by more text gives the character
/// back, then the decoding of the rest.
proof fn lemma_xml_unescape_step(c: char, x: Seq<char>)
    ensures
        xml_unescaped(xml_escape_char(c) + x) == seq![c] + xml_unescaped(x),
{
    reveal_strlit("&amp;");
    reveal_strlit("&lt;");
    reveal_strlit("&gt;");
    reveal_strlit("&quot;");
    reveal_strlit("&apos;");
    let e = xml_escape_char(c);
    let t = e + x;
    if c == '&' {
        assert(t.subrange(0, 5) =~= seq!['&', 'a', 'm', 'p', ';']);
        assert(t.subrange(5, t.len() as int) =~= x);
    } else if c == '<' {
        assert(t[1] == 'l');
        assert(t.subrange(0, 4) =~= seq!['&', 'l', 't', ';']);
        assert(t.subrange(4, t.len() as int) =~= x);
        assert(t.len() >= 5 ==> t.subrange(0, 5)[1] == 'l');
    } else if c == '>' {
        assert(t[1] == 'g');
        assert(t.subrange(0, 4) =~= seq!['&', 'g', 't', ';']);
        assert(t.subrange(4, t.len() as int) =~= x);
        assert(t.len() >= 5 ==> t.subrange(0, 5)[1] == 'g');
        assert(t.subrange(0, 4)[1] == 'g');
    } else if c == '"' {
        assert(t[1] == 'q');
        assert(t.subrange(0, 6) =~= seq!['&', 'q', 'u', 'o', 't', ';']);
        assert(t.subrange(6, t.len() as int) =~= x);
        assert(t.subrange(0, 5)[1] == 'q');
        assert(t.subrange(0, 4)[1] == 'q');
    } else if c == '\'' {
        assert(t[1] == 'a' && t[2] == 'p');
        assert(t.subrange(0, 6) =~= seq!['&', 'a', 'p', 'o', 's', ';']);
        assert(t.subrange(6, t.len() as int) =~= x);
        assert(t.subrange(0, 5)[2] == 'p');
        assert(t.subrange(0, 4)[1] == 'a');
        assert(t.subrange(0, 6)[1] == 'a');
    } else {
        assert(e =~= seq![c]);
        assert(t[0] == c);
        assert(t.len() >= 4 ==> t.subrange(0, 4)[0] == c);
        assert(t.len() >= 5 ==> t.subrange(0, 5)[0] == c);
        assert(t.len() >= 6 ==> t.subrange(0, 6)[0] == c);
        assert(t.subrange(1, t.len() as int) =~= x);
    }
}

/// XML escaping loses nothing: decoding the five entities of an escaped
/// text, left to right, gives the text back; and a text without `&`, `<`,
/// `>`, `"` or `'` is left as it is.
pub proof fn lemma_xml_escape_round_trip(s: Seq<char>)
    ensures
        xml_unescaped(xml_escaped(s)) == s,
        (forall|i: int| 0 <= i < s.len() ==> !is_markup_char(#[trigger] s[i]) && s[i] != '&')
            ==> xml_escaped(s) == s,
    decreases s.len(),
{
    if s.len() > 0 {
        let rest = s.subrange(1, s.len() as int);
        assert(s =~= seq![s[0]] + rest);
        lemma_xml_escaped_front(s[0], rest);
        lemma_xml_escape_round_trip(rest);
        lemma_xml_unescape_step(s[0], xml_escaped(rest));
        if forall|i: int| 0 <= i < s.len() ==> !is_markup_char(#[trigger] s[i]) && s[i] != '&' {
            assert(!is_markup_char(s[0]) && s[0] != '&');
            assert forall|i: int| 0 <= i < rest.len() implies !is_markup_char(#[trigger] rest[i])
                && rest[i] != '&' by {
                assert(rest[i] == s[i + 1]);
                assert(!is_markup_char(s[i + 1]));
            }
            assert(xml_escape_char(s[0]) =~= seq![s[0]]);
        }
    } else {
        assert(xml_escaped(s) =~= s);
    }
}

/// HTML text decoded left to right: each of `&amp;`, `&lt;`, `&gt;`,
/// `&quot;` and `&#39;` stands for its character, and any other character
/// for itself.
pub open spec fn html_unescaped(t: Seq<char>) -> Seq<char>
    decreases t.len(),
{
    if t.len() == 0 {
        seq![]
    } else if t.len() >= 5 && t.subrange(0, 5) == seq!['&', 'a', 'm', 'p', ';'] {
        seq!['&'] + html_unescaped(t.subrange(5, t.len() as int))
    } else if t.len() >= 4 && t.subrange(0, 4) == seq!['&', 'l', 't', ';'] {
        seq!['<'] + html_unescaped(t.subrange(4, t.len() as int))
    } else if t.len() >= 4 && t.subrange(0, 4) == seq!['&', 'g', 't', ';'] {
        seq!['>'] + html_unescaped(t.subrange(4, t.len() as int))
    } else if t.len() >= 6 && t.subrange(0, 6) == seq!['&', 'q', 'u', 'o', 't', ';'] {
        seq!['"'] + html_unescaped(t.subrange(6, t.len() as int))
    } else if t.len() >= 5 && t.subrange(0, 5) == seq!['&', '#', '3', '9', ';'] {
        seq!['\''] + html_unescaped(t.subrange(5, t.len() as int))
    } else {
        seq![t[0]] + html_unescaped(t.subrange(1, t.len() as int))
    }
}

/// Escaping a text is escaping its first character, then the rest.
proof fn lemma_html_escaped_front(c: char, r: Seq<char>)
    ensures
        html_escaped(seq![c] + r) == html_escape_char(c) + html_escaped(r),
    decreases r.len(),
{
    let t = seq![c] + r;
    if r.len() == 0 {
        assert(t.drop_last() =~= Seq::<char>::empty());
        assert(html_escaped(t.drop_last()) =~= Seq::<char>::empty());
        assert(html_escaped(r) =~= Seq::<char>::empty());
        assert(html_escaped(t) =~= html_escape_char(c));
    } else {
        lemma_html_escaped_front(c, r.drop_last());
        assert(t.drop_last() =~= seq![c] + r.drop_last());
        assert(t.last() == r.last());
        assert(html_escaped(t) =~= html_escape_char(c) + html_escaped(r));
    }
}

/// Decoding an escaped character followed by more text gives the character
/// back, then the decoding of the rest.
proof fn lemma_html_unescape_step(c: char, x: Seq<char>)
    ensures
        html_unescaped(html_escape_char(c) + x) == seq![c] + html_unescaped(x),
{
    reveal_strlit("&amp;");
    reveal_strlit("&lt;");
    reveal_strlit("&gt;");
    reveal_strlit("&quot;");
    reveal_strlit("&#39;");
    let e = html_escape_char(c);
    let t = e + x;
    if c == '&' {
        assert(t.subrange(0, 5) =~= seq!['&', 'a', 'm', 'p', ';']);
        assert(t.subrange(5, t.len() as int) =~= x);
    } else if c == '<' {
        assert(t[1] == 'l');
        assert(t.subrange(0, 4) =~= seq!['&', 'l', 't', ';']);
        assert(t.subrange(4, t.len() as int) =~= x);
        assert(t.len() >= 5 ==> t.subrange(0, 5)[1] == 'l');
    } else if c == '>' {
        assert(t[1] == 'g');
        assert(t.subrange(0, 4) =~= seq!['&', 'g', 't', ';']);
        assert(t.subrange(4, t.len() as int) =~= x);
        assert(t.len() >= 5 ==> t.subrange(0, 5)[1] == 'g');
        assert(t.subrange(0, 4)[1] == 'g');
    } else if c == '"' {
        assert(t[1] == 'q');
        assert(t.subrange(0, 6) =~= seq!['&', 'q', 'u', 'o', 't', ';']);
        assert(t.subrange(6, t.len() as int) =~= x);
        assert(t.subrange(0, 5)[1] == 'q');
        assert(t.subrange(0, 4)[1] == 'q');
    } else if c == '\'' {
        assert(t[1] == '#');
        assert(t.subrange(0, 5) =~= seq!['&', '#', '3', '9', ';']);
        assert(t.subrange(5, t.len() as int) =~= x);
        assert(t.subrange(0, 5)[1] == '#');
        assert(t.subrange(0, 4)[1] == '#');
        assert(t.len() >= 6 ==> t.subrange(0, 6)[1] == '#');
    } else {
        assert(e =~= seq![c]);
        assert(t[0] == c);
        assert(t.len() >= 4 ==> t.subrange(0, 4)[0] == c);
        assert(t.len() >= 5 ==> t.subrange(0, 5)[0] == c);
        assert(t.len() >= 6 ==> t.subrange(0, 6)[0] == c);
        assert(t.subrange(1, t.len() as int) =~= x);
    }
}

/// HTML escaping loses nothing: decoding the five entities of an escaped
/// text, left to right, gives the text back; and a text without `&`, `<`,
/// `>`, `"` or `'` is left as it is.
pub proof fn lemma_html_escape_round_trip(s: Seq<char>)
    ensures
        html_unescaped(html_escaped(s)) == s,
        (forall|i: int| 0 <= i < s.len() ==> !is_markup_char(#[trigger] s[i]) && s[i] != '&')
            ==> html_escaped(s) == s,
    decreases s.len(),
{
    if s.len() > 0 {
        let rest = s.subrange(1, s.len() as int);
        assert(s =~= seq![s[0]] + rest);
        lemma_html_escaped_front(s[0], rest);
        lemma_html_escape_round_trip(rest);
        lemma_html_unescape_step(s[0], html_escaped(rest));
        if forall|i: int| 0 <= i < s.len() ==> !is_markup_char(#[trigger] s[i]) && s[i] != '&' {
            assert(!is_markup_char(s[0]) && s[0] != '&');
            assert forall|i: int| 0 <= i < rest.len() implies !is_markup_char(#[trigger] rest[i])
                && rest[i] != '&' by {
                assert(rest[i] == s[i + 1]);
                assert(!is_markup_char(s[i + 1]));
            }
            assert(html_escape_char(s[0]) =~= seq![s[0]]);
        }
    } else {
        assert(html_escaped(s) =~= s);
    }
}

/// Appends `s`, escaped for HTML (`xml` false) or XML (`xml` true).
fn push_escaped(out: &mut String, s: &str, xml: bool)
    ensures
        final(out)@ == old(out)@ + if xml {
            xml_escaped(s@)
        } else {
            html_escaped(s@)
        },
{
    let ghost start = out@;
    let ghost chars = s@;
    for ch in it: s.chars()
        invariant
            it.seq() == chars,
            out@ == start + if xml {
                xml_escaped(chars.take(it.index() as int))
            } else {
                html_escaped(chars.take(it.index() as int))
            },
    {
        proof {
            assert(chars.take(it.index() + 1).drop_last() == chars.take(it.index() as int));
            assert(chars.take(it.index() + 1).last() == ch);
        }
        let ghost before = out@;
        if ch == '&' {
            push_str(out, "&amp;");
        } else if ch == '<' {
            push_str(out, "&lt;");
        } else if ch == '>' {
            push_str(out, "&gt;");
        } else if ch == '"' {
            push_str(out, "&quot;");
        } else if ch == '\'' {
            if xml {
                push_str(out, "&apos;");
            } else {
                push_str(out, "&#39;");
            }
        } else {
            push_char(out, ch);
        }
        proof {
            if xml {
                assert(out@ =~= before + xml_escape_char(ch));
            } else {
                assert(out@ =~= before + html_escape_char(ch));
            }
        }
    }
    proof {
        assert(chars.take(chars.len() as int) == chars);
    }
}

/// Escapes `&`, `<`, `>`, `"` and `'` for HTML text and attributes.
pub fn html_escape(s: &str) -> (r: String)
    ensures
        r@ == html_escaped(s@),
{
    let mut r = String::new();
    push_escaped(&mut r, s, false);
    r
}

/// Escapes `&`, `<`, `>`, `"` and `'` for XML text and attributes.
pub fn xml_escape(s: &str) -> (r: String)
    ensures
        r@ == xml_escaped(s@),
{
    let mut r = String::new();
    push_escaped(&mut r, s, true);
    r
}

// ===== HTML =====

/// The opening of the HTML page for `root`, up to the opening of the list.
pub open spec fn html_head(root: Seq<char>) -> Seq<char> {
    "<!DOCTYPE html>\n<html lang=\"en\">\n<head>\n  <meta charset=\"UTF-8\">\n  <title>bush: "@
        + html_escaped(root) + "</title>\n  <style>\n    body { font-family: monospace; }\n    ul.bush-tree { list-style: none; padding-left: 1.2em; }\n    li.directory > span.name { font-weight: bold; }\n    li.symlink > span.target { color: #888; }\n    p.bush-report { margin-top: 1em; }\n  </style>\n</head>\n<body>\n  <h1>"@
        + html_escaped(root) + "</h1>\n  <ul class=\"bush-tree\">\n"@
}

/// The start of the list item of `c`: its class, its escaped name, and
/// the escaped symlink target when known.
pub open spec fn html_item_head(c: Node) -> Seq<char> {
    "<li class=\""@ + node_type_text(c.meta) + "\"><span class=\"name\">"@ + html_escaped(c.name@)
        + "</span>"@ + match c.meta.symlink_target {
        Some(t) => " <span class=\"target\">-&gt; "@ + html_escaped(t@) + "</span>"@,
        None => seq![],
    }
}

/// The list items of the first `k` siblings `cs`, indented by `pad`; a
/// node with children holds a nested list indented two levels deeper.
pub open spec fn html_forest(cs: Seq<Node>, k: nat, pad: Seq<char>) -> Seq<char>
    decreases cs, k,
{
    if k == 0 || k > cs.len() {
        seq![]
    } else {
        let c = cs[k - 1];
        html_forest(cs, (k - 1) as nat, pad) + pad + html_item_head(c) + if c.children@.len() == 0 {
            "</li>\n"@
        } else {
            "\n"@ + pad + "  <ul>\n"@ + html_forest(
                c.children@,
                c.children@.len(),
                pad + "    "@,
            ) + pad + "  </ul>\n"@ + pad + "</li>\n"@
        }
    }
}

fn push_html_item_head(out: &mut String, c: &Node)
    ensures
        final(out)@ == old(out)@ + html_item_head(*c),
{
    let ghost start = out@;
    push_str(out, "<li class=\"");
    push_str(out, node_type(&c.meta));
    push_str(out, "\"><span class=\"name\">");
    push_escaped(out, c.name.as_str(), false);
    push_str(out, "</span>");
    let ghost mid = out@;
    match &c.meta.symlink_target {
        Some(t) => {
            push_str(out, " <span class=\"target\">-&gt; ");
            push_escaped(out, t.as_str(), false);
            push_str(out, "</span>");
        },
        None => {},
    }
    assert(out@ =~= start + html_item_head(*c));
}

/// The whole HTML page of a prepared tree.
pub open spec fn html_text(root: Seq<char>, tree: Node) -> Seq<char> {
    html_head(root) + html_forest(tree.children@, tree.children@.len(), "    "@) + "  </ul>\n  <p class=\"bush-report\">"@
        + report_text(capped(tree_counts(tree).0) as nat, capped(tree_counts(tree).1) as nat)
        + "</p>\n</body>\n</html>\n"@
}

/// The items of the first `j` siblings begin those of the first `k`.
proof fn lemma_html_forest_grows(cs: Seq<Node>, j: nat, k: nat, pad: Seq<char>)
    requires
        j <= k <= cs.len(),
    ensures
        begins_with(html_forest(cs, k, pad), html_forest(cs, j, pad)),
    decreases k,
{
    if j < k {
        lemma_html_forest_grows(cs, j, (k - 1) as nat, pad);
        let a = html_forest(cs, j, pad);
        let b = html_forest(cs, (k - 1) as nat, pad);
        let c = html_forest(cs, k, pad);
        assert(c.subrange(0, b.len() as int) =~= b);
        assert(c.subrange(0, a.len() as int) =~= b.subrange(0, a.len() as int));
    } else {
        let a = html_forest(cs, j, pad);
        assert(a.subrange(0, a.len() as int) =~= a);
    }
}

/// The HTML list writes siblings in the children's order: the items of the
/// first `k` children, then the item of child `k`, begin the list.
pub proof fn lemma_html_items_in_child_order(cs: Seq<Node>, k: nat, pad: Seq<char>)
    requires
        k < cs.len(),
    ensures
        begins_with(
            html_forest(cs, cs.len(), pad),
            html_forest(cs, k, pad) + pad + html_item_head(cs[k as int]),
        ),
{
    lemma_html_forest_grows(cs, k + 1, cs.len(), pad);
    let p = html_forest(cs, k, pad) + pad + html_item_head(cs[k as int]);
    let q = html_forest(cs, k + 1, pad);
    let r = html_forest(cs, cs.len(), pad);
    assert(q.subrange(0, p.len() as int) =~= p);
    assert(r.subrange(0, p.len() as int) =~= q.subrange(0, p.len() as int));
}

/// Appends the list items of the children of `node`, indented by `pad`.
#[verifier::rlimit(40)]
fn push_html_children(out: &mut String, node: &Node, pad: &String)
    ensures
        final(out)@ == old(out)@ + html_forest(node.children@, node.children@.len(), pad@),
    decreases node,
{
    let ghost start = out@;
    let total = node.children.len();
    let mut i: usize = 0;
    while i < total
        invariant
            total == node.children@.len(),
            i <= total,
            out@ == start + html_forest(node.children@, i as nat, pad@),
        decreases total - i,
    {
        let c = &node.children[i];
        let ghost before = out@;
        push_str(out, pad.as_str());
        push_html_item_head(out, c);
        let ghost mid = out@;
        if c.children.len() == 0 {
            push_str(out, "</li>\n");
        } else {
            push_str(out, "\n");
            push_str(out, pad.as_str());
            push_str(out, "  <ul>\n");
            let mut deeper = pad.clone();
            push_str(&mut deeper, "    ");
            proof {
                assert(decreases_to!(node => node.children));
                assert(decreases_to!(node.children => node.children@));
                assert(decreases_to!(node.children@ => node.children@[i as int]));
            }
            push_html_children(out, c, &deeper);
            push_str(out, pad.as_str());
            push_str(out, "  </ul>\n");
            push_str(out, pad.as_str());
            push_str(out, "</li>\n");
        }
        proof {
            let cs = node.children@;
            let tail = if c.children@.len() == 0 {
                "</li>\n"@
            } else {
                "\n"@ + pad@ + "  <ul>\n"@ + html_forest(c.children@, c.children@.len(), pad@ + "    "@)
                    + pad@ + "  </ul>\n"@ + pad@ + "</li>\n"@
            };
            assert(out@ =~= before + (pad@ + html_item_head(*c) + tail));
            assert(html_forest(cs, (i + 1) as nat, pad@) == html_forest(cs, i as nat, pad@) + pad@
                + html_item_head(*c) + tail);
            assert(out@ =~= start + html_forest(cs, (i + 1) as nat, pad@));
        }
        i = i + 1;
    }
}

/// Renders a prepared tree as a standalone HTML page: a nested list of the
/// entries (classed `directory`, `file` or `symlink`, names escaped) and the
/// summary line.
pub fn render_html(root: &str, tree: &Node) -> (out: String)
    ensures
        out@ == html_text(root@, *tree),
{
    let mut out = String::new();
    push_str(&mut out, "<!DOCTYPE html>\n<html lang=\"en\">\n<head>\n  <meta charset=\"UTF-8\">\n  <title>bush: ");
    push_escaped(&mut out, root, false);
    push_str(&mut out, "</title>\n  <style>\n    body { font-family: monospace; }\n    ul.bush-tree { list-style: none; padding-left: 1.2em; }\n    li.directory > span.name { font-weight: bold; }\n    li.symlink > span.target { color: #888; }\n    p.bush-report { margin-top: 1em; }\n  </style>\n</head>\n<body>\n  <h1>");
    push_escaped(&mut out, root, false);
    push_str(&mut out, "</h1>\n  <ul class=\"bush-tree\">\n");
    let mut pad = String::new();
    push_str(&mut pad, "    ");
    push_html_children(&mut out, tree, &pad);
    push_str(&mut out, "  </ul>\n  <p class=\"bush-report\">");
    let (dirs, files) = counts(tree);
    push_report_line(&mut out, dirs, files);
    push_str(&mut out, "</p>\n</body>\n</html>\n");
    assert(out@ =~= html_text(root@, *tree));
    out
}

/// Appends the summary text, `N directories, M files`.
fn push_report_line(out: &mut String, dirs: usize, files: usize)
    ensures
        final(out)@ == old(out)@ + report_text(dirs as nat, files as nat),
{
    let ghost start = out@;
    push_decimal(out, dirs as u64);
    if dirs == 1 {
        push_str(out, " directory");
    } else {
        push_str(out, " directories");
    }
    push_str(out, ", ");
    push_decimal(out, files as u64);
    if files == 1 {
        push_str(out, " file");
    } else {
        push_str(out, " files");
    }
    assert(out@ =~= start + report_text(dirs as nat, files as nat));
}

// ===== XML =====

/// The size attribute: present for everything but directories.
pub open spec fn xml_size_attr(meta: NodeMeta) -> Seq<char> {
    if !meta.is_dir {
        " size=\""@ + decimal(meta.size as nat) + "\""@
    } else {
        seq![]
    }
}

/// The modification-time attribute, when the time is known.
pub open spec fn xml_mtime_attr(meta: NodeMeta) -> Seq<char> {
    match meta.mtime {
        Some(t) => " mtime=\""@ + xml_escaped(mtime_text(t)) + "\""@,
        None => seq![],
    }
}

/// The mode attribute, when the mode is known.
pub open spec fn xml_mode_attr(meta: NodeMeta) -> Seq<char> {
    match meta.mode {
        Some(m) => " mode=\""@ + xml_escaped(mode_text(m)) + "\""@,
        None => seq![],
    }
}

/// The symlink-target attribute, when the target is known.
pub open spec fn xml_target_attr(meta: NodeMeta) -> Seq<char> {
    match meta.symlink_target {
        Some(t) => " target=\""@ + xml_escaped(t@) + "\""@,
        None => seq![],
    }
}

/// The attributes of a node's element: its escaped name; the size for
/// everything but directories; modification time, mode and symlink target
/// when known.
pub open spec fn xml_attrs(n: Node) -> Seq<char> {
    " name=\""@ + xml_escaped(n.name@) + "\""@ + xml_size_attr(n.meta) + xml_mtime_attr(n.meta)
        + xml_mode_attr(n.meta) + xml_target_attr(n.meta)
}

/// The elements of the first `k` siblings `cs`, indented by `pad`; a node
/// with children encloses their elements, indented one level deeper.
pub open spec fn xml_forest(cs: Seq<Node>, k: nat, pad: Seq<char>) -> Seq<char>
    decreases cs, k,
{
    if k == 0 || k > cs.len() {
        seq![]
    } else {
        let c = cs[k - 1];
        let tag = node_type_text(c.meta);
        xml_forest(cs, (k - 1) as nat, pad) + if c.children@.len() == 0 {
            pad + "<"@ + tag + xml_attrs(c) + "/>\n"@
        } else {
            pad + "<"@ + tag + xml_attrs(c) + ">\n"@ + xml_forest(
                c.children@,
                c.children@.len(),
                pad + "  "@,
            ) + pad + "</"@ + tag + ">\n"@
        }
    }
}

/// The whole XML document of a prepared tree.
pub open spec fn xml_text(root: Seq<char>, tree: Node) -> Seq<char> {
    "<?xml version=\"1.0\" encoding=\"UTF-8\"?>\n<tree root=\""@ + xml_escaped(root) + "\">\n"@
        + xml_forest(tree.children@, tree.children@.len(), "  "@) + "  <report directories=\""@
        + decimal(capped(tree_counts(tree).0) as nat) + "\" files=\""@ + decimal(
        capped(tree_counts(tree).1) as nat,
    ) + "\"/>\n</tree>\n"@
}

/// The elements of the first `j` siblings begin those of the first `k`.
proof fn lemma_xml_forest_grows(cs: Seq<Node>, j: nat, k: nat, pad: Seq<char>)
    requires
        j <= k <= cs.len(),
    ensures
        begins_with(xml_forest(cs, k, pad), xml_forest(cs, j, pad)),
    decreases k,
{
    if j < k {
        lemma_xml_forest_grows(cs, j, (k - 1) as nat, pad);
        let a = xml_forest(cs, j, pad);
        let b = xml_forest(cs, (k - 1) as nat, pad);
        let c = xml_forest(cs, k, pad);
        assert(c.subrange(0, b.len() as int) =~= b);
        assert(c.subrange(0, a.len() as int) =~= b.subrange(0, a.len() as int));
    } else {
        let a = xml_forest(cs, j, pad);
        assert(a.subrange(0, a.len() as int) =~= a);
    }
}

/// The XML document writes siblings in the children's order: the elements
/// of the first `k` children, then the opening of child `k`'s element,
/// begin the list.
pub proof fn lemma_xml_elements_in_child_order(cs: Seq<Node>, k: nat, pad: Seq<char>)
    requires
        k < cs.len(),
    ensures
        begins_with(
            xml_forest(cs, cs.len(), pad),
            xml_forest(cs, k, pad) + (pad + "<"@ + node_type_text(cs[k as int].meta) + xml_attrs(
                cs[k as int],
            )),
        ),
{
    lemma_xml_forest_grows(cs, k + 1, cs.len(), pad);
    let c = cs[k as int];
    let a = xml_forest(cs, k, pad);
    let tag = node_type_text(c.meta);
    let h = pad + "<"@ + tag + xml_attrs(c);
    lemma_begins_with_self(h);
    let item = if c.children@.len() == 0 {
        lemma_begins_with_extend(h, h, "/>\n"@);
        h + "/>\n"@
    } else {
        let inner = xml_forest(c.children@, c.children@.len(), pad + "  "@);
        lemma_begins_with_extend(h, h, ">\n"@);
        lemma_begins_with_extend(h + ">\n"@, h, inner);
        lemma_begins_with_extend(h + ">\n"@ + inner, h, pad);
        lemma_begins_with_extend(h + ">\n"@ + inner + pad, h, "</"@);
        lemma_begins_with_extend(h + ">\n"@ + inner + pad + "</"@, h, tag);
        lemma_begins_with_extend(h + ">\n"@ + inner + pad + "</"@ + tag, h, ">\n"@);
        h + ">\n"@ + inner + pad + "</"@ + tag + ">\n"@
    };
    assert(xml_forest(cs, k + 1, pad) == a + item);
    lemma_begins_with_after(a, item, h);
    lemma_begins_with_trans(xml_forest(cs, cs.len(), pad), a + item, a + h);
}

fn push_xml_size_attr(out: &mut String, meta: &NodeMeta)
    ensures
        final(out)@ == old(out)@ + xml_size_attr(*meta),
{
    let ghost start = out@;
    if !meta.is_dir {
        push_str(out, " size=\"");
        push_decimal(out, meta.size);
        push_str(out, "\"");
    }
    assert(out@ =~= start + xml_size_attr(*meta));
}

fn push_xml_mtime_attr(out: &mut String, meta: &NodeMeta)
    ensures
        final(out)@ == old(out)@ + xml_mtime_attr(*meta),
{
    let ghost start = out@;
    match meta.mtime {
        Some(t) => {
            push_str(out, " mtime=\"");
            push_escaped(out, format_mtime(t).as_str(), true);
            push_str(out, "\"");
        },
        None => {},
    }
    assert(out@ =~= start + xml_mtime_attr(*meta));
}

fn push_xml_mode_attr(out: &mut String, meta: &NodeMeta)
    ensures
        final(out)@ == old(out)@ + xml_mode_attr(*meta),
{
    let ghost start = out@;
    match meta.mode {
        Some(m) => {
            push_str(out, " mode=\"");
            push_escaped(out, format_mode(m).as_str(), true);
            push_str(out, "\"");
        },
        None => {},
    }
    assert(out@ =~= start + xml_mode_attr(*meta));
}

fn push_xml_target_attr(out: &mut String, meta: &NodeMeta)
    ensures
        final(out)@ == old(out)@ + xml_target_attr(*meta),
{
    let ghost start = out@;
    match &meta.symlink_target {
        Some(t) => {
            push_str(out, " target=\"");
            push_escaped(out, t.as_str(), true);
            push_str(out, "\"");
        },
        None => {},
    }
    assert(out@ =~= start + xml_target_attr(*meta));
}

fn push_xml_attrs(out: &mut String, n: &Node)
    ensures
        final(out)@ == old(out)@ + xml_attrs(*n),
{
    let ghost start = out@;
    push_str(out, " name=\"");
    push_escaped(out, n.name.as_str(), true);
    push_str(out, "\"");
    push_xml_size_attr(out, &n.meta);
    push_xml_mtime_attr(out, &n.meta);
    push_xml_mode_attr(out, &n.meta);
    push_xml_target_attr(out, &n.meta);
    assert(out@ =~= start + xml_attrs(*n));
}

/// Appends the elements of the children of `node`, indented by `pad`.
#[verifier::rlimit(40)]
fn push_xml_children(out: &mut String, node: &Node, pad: &String)
    ensures
        final(out)@ == old(out)@ + xml_forest(node.children@, node.children@.len(), pad@),
    decreases node,
{
    let ghost start = out@;
    let total = node.children.len();
    let mut i: usize = 0;
    while i < total
        invariant
            total == node.children@.len(),
            i <= total,
            out@ == start + xml_forest(node.children@, i as nat, pad@),
        decreases total - i,
    {
        let c = &node.children[i];
        let tag = node_type(&c.meta);
        let ghost before = out@;
        let ghost cs = node.children@;
        let ghost t = node_type_text(c.meta);
        push_str(out, pad.as_str());
        push_str(out, "<");
        push_str(out, tag);
        push_xml_attrs(out, c);
        let ghost opened = out@;
        assert(opened =~= before + (pad@ + "<"@ + t + xml_attrs(*c)));
        if c.children.len() == 0 {
            push_str(out, "/>\n");
            proof {
                let item = pad@ + "<"@ + t + xml_attrs(*c) + "/>\n"@;
                assert(out@ =~= before + item);
                assert(xml_forest(cs, (i + 1) as nat, pad@) == xml_forest(cs, i as nat, pad@) + item);
            }
        } else {
            push_str(out, ">\n");
            let mut deeper = pad.clone();
            push_str(&mut deeper, "  ");
            proof {
                assert(decreases_to!(node => node.children));
                assert(decreases_to!(node.children => node.children@));
                assert(decreases_to!(node.children@ => node.children@[i as int]));
            }
            push_xml_children(out, c, &deeper);
            push_str(out, pad.as_str());
            push_str(out, "</");
            push_str(out, tag);
            push_str(out, ">\n");
            proof {
                let inner = xml_forest(c.children@, c.children@.len(), pad@ + "  "@);
                let item = pad@ + "<"@ + t + xml_attrs(*c) + ">\n"@ + inner + pad@ + "</"@ + t
                    + ">\n"@;
                assert(out@ =~= before + item);
                assert(xml_forest(cs, (i + 1) as nat, pad@) == xml_forest(cs, i as nat, pad@) + item);
            }
        }
        assert(out@ =~= start + xml_forest(cs, (i + 1) as nat, pad@));
        i = i + 1;
    }
}

/// Renders a prepared tree as an XML document: one `directory`, `file` or
/// `symlink` element per node with escaped attributes, and a `report`
/// element with the counts.
pub fn render_xml(root: &str, tree: &Node) -> (out: String)
    ensures
        out@ == xml_text(root@, *tree),
{
    let mut out = String::new();
    push_str(&mut out, "<?xml version=\"1.0\" encoding=\"UTF-8\"?>\n<tree root=\"");
    push_escaped(&mut out, root, true);
    push_str(&mut out, "\">\n");
    let mut pad = String::new();
    push_str(&mut pad, "  ");
    push_xml_children(&mut out, tree, &pad);
    let (dirs, files) = counts(tree);
    push_str(&mut out, "  <report directories=\"");
    push_decimal(&mut out, dirs as u64);
    push_str(&mut out, "\" files=\"");
    push_decimal(&mut out, files as u64);
    push_str(&mut out, "\"/>\n</tree>\n");
    assert(out@ =~= xml_text(root@, *tree));
    out
}

// ===== JSON =====

/// One object of the JSON rendering, field by field; a field that is `None`
/// is left out of the object.
#[derive(Debug)]
pub struct JsonNode {
    /// The root path, on the top object only.
    pub root: Option<String>,
    /// The node's name, on every object but the top one.
    pub name: Option<String>,
    /// The `type`: `directory`, `file` or `symlink`.
    pub kind: String,
    pub size: Option<u64>,
    pub mtime: Option<String>,
    pub mode: Option<String>,
    pub symlink_target: Option<String>,
    pub children: Option<Vec<JsonNode>>,
    /// The `report` object, `(directories, files)`, on the top object only.
    pub report: Option<(usize, usize)>,
}

/// `j` is the JSON object of node `n`: the top object when `root` is given
/// (it carries the root path and the report), a nested one otherwise (it
/// carries the name). Files and symlinks carry their size; time, mode and
/// symlink target appear when known; children appear when there are any.
pub open spec fn json_matches(j: JsonNode, n: Node, root: Option<Seq<char>>) -> bool
    decreases n, 0nat,
{
    &&& match root {
        Some(r) => j.root matches Some(x) && x@ == r && j.name is None,
        None => j.root is None && (j.name matches Some(x) && x@ == n.name@),
    }
    &&& j.kind@ == node_type_text(n.meta)
    &&& j.size == (if !n.meta.is_dir {
        Some(n.meta.size)
    } else {
        None
    })
    &&& match n.meta.mtime {
        Some(t) => j.mtime matches Some(x) && x@ == mtime_text(t),
        None => j.mtime is None,
    }
    &&& match n.meta.mode {
        Some(m) => j.mode matches Some(x) && x@ == mode_text(m),
        None => j.mode is None,
    }
    &&& match n.meta.symlink_target {
        Some(t) => j.symlink_target matches Some(x) && x@ == t@,
        None => j.symlink_target is None,
    }
    &&& if n.children@.len() == 0 {
        j.children is None
    } else {
        j.children matches Some(v) && (v@.len() == n.children@.len() && json_forest(
            v@,
            n.children@,
            n.children@.len(),
        ))
    }
    &&& j.report == (if root is Some {
        Some((capped(tree_counts(n).0), capped(tree_counts(n).1)))
    } else {
        None
    })
}

/// The first `k` objects of `vs` are the nested JSON objects of the first
/// `k` nodes of `cs`.
pub open spec fn json_forest(vs: Seq<JsonNode>, cs: Seq<Node>, k: nat) -> bool
    decreases cs, k,
{
    k == 0 || {
        &&& k <= vs.len()
        &&& k <= cs.len()
        &&& json_matches(vs[k - 1], cs[k - 1], None)
        &&& json_forest(vs, cs, (k - 1) as nat)
    }
}

fn clone_text(s: &Option<String>) -> (r: Option<String>)
    ensures
        r == *s,
{
    match s {
        Some(t) => Some(t.clone()),
        None => None,
    }
}

/// The JSON object of `node`: the top object when `root` is given, a nested
/// one otherwise.
pub fn node_to_json(root: Option<&str>, node: &Node) -> (j: JsonNode)
    ensures
        json_matches(j, *node, match root {
            Some(r) => Some(r@),
            None => None,
        }),
    decreases node,
{
    let (root_text, name) = match root {
        Some(r) => (Some(r.to_owned()), None),
        None => (None, Some(node.name.clone())),
    };
    let mut kind = String::new();
    push_str(&mut kind, node_type(&node.meta));
    let size = if !node.meta.is_dir {
        Some(node.meta.size)
    } else {
        None
    };
    let mtime = match node.meta.mtime {
        Some(t) => Some(format_mtime(t)),
        None => None,
    };
    let mode = match node.meta.mode {
        Some(m) => Some(format_mode(m)),
        None => None,
    };
    let symlink_target = clone_text(&node.meta.symlink_target);
    let children = if node.children.len() == 0 {
        None
    } else {
        let mut v: Vec<JsonNode> = Vec::new();
        let mut i: usize = 0;
        while i < node.children.len()
            invariant
                i <= node.children@.len(),
                v@.len() == i,
                json_forest(v@, node.children@, i as nat),
            decreases node.children@.len() - i,
        {
            proof {
                assert(decreases_to!(node => node.children));
                assert(decreases_to!(node.children => node.children@));
                assert(decreases_to!(node.children@ => node.children@[i as int]));
            }
            let c = node_to_json(None, &node.children[i]);
            let ghost before = v@;
            v.push(c);
            proof {
                lemma_json_forest_extend(before, c, node.children@, i as nat);
            }
            i = i + 1;
        }
        Some(v)
    };
    let report = match root {
        Some(_) => Some(counts(node)),
        None => None,
    };
    JsonNode { root: root_text, name, kind, size, mtime, mode, symlink_target, children, report }
}

/// Adding the object of the next node keeps the earlier objects matched.
proof fn lemma_json_forest_extend(vs: Seq<JsonNode>, j: JsonNode, cs: Seq<Node>, k: nat)
    requires
        vs.len() == k,
        k < cs.len(),
        json_forest(vs, cs, k),
        json_matches(j, cs[k as int], None),
    ensures
        json_forest(vs.push(j), cs, k + 1),
{
    lemma_json_forest_same_prefix(vs, vs.push(j), cs, k);
}

/// Matching the first `k` objects depends only on those objects.
proof fn lemma_json_forest_same_prefix(vs: Seq<JsonNode>, ws: Seq<JsonNode>, cs: Seq<Node>, k: nat)
    requires
        json_forest(vs, cs, k),
        k <= ws.len(),
        forall|i: int| 0 <= i < k ==> ws[i] == vs[i],
    ensures
        json_forest(ws, cs, k),
    decreases k,
{
    if k > 0 {
        lemma_json_forest_same_prefix(vs, ws, cs, (k - 1) as nat);
    }
}

} // verus!
