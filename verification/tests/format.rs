use bush::format::{html_escape, node_to_json, render_html, render_xml, xml_escape};
use bush::tree::{prepare, Node, NodeMeta, RenderOptions};
use bush::walker::{Entry, FileTime};

fn entry(path: &str, is_dir: bool) -> Entry {
    Entry { path: path.to_string(), is_dir, ..Default::default() }
}

fn prepared(root: &str, entries: &[Entry]) -> Node {
    let opts = RenderOptions::default();
    prepare(root, entries, &opts)
}

fn render_html_str(root: &str, entries: &[Entry]) -> String {
    render_html(root, &prepared(root, entries))
}

fn render_xml_str(root: &str, entries: &[Entry]) -> String {
    render_xml(root, &prepared(root, entries))
}

#[test]
fn json_includes_root_and_report() {
    let tree = prepared("/r", &[entry("/r/a", false)]);
    let v = node_to_json(Some("/r"), &tree);
    assert_eq!(v.root.as_deref(), Some("/r"));
    assert_eq!(v.report, Some((0, 1)));
}

#[test]
fn json_children_have_name_and_type() {
    let tree = prepared("/r", &[entry("/r/dir", true), entry("/r/dir/file.txt", false)]);
    let v = node_to_json(Some("/r"), &tree);
    let children = v.children.as_ref().unwrap();
    assert_eq!(children[0].name.as_deref(), Some("dir"));
    assert_eq!(children[0].kind, "directory");
    let grand = children[0].children.as_ref().unwrap();
    assert_eq!(grand[0].name.as_deref(), Some("file.txt"));
    assert_eq!(grand[0].kind, "file");
}

#[test]
fn json_includes_size_for_files() {
    let entries = vec![Entry { path: "/r/data.bin".to_string(), size: 12345, ..Default::default() }];
    let tree = prepared("/r", &entries);
    let v = node_to_json(Some("/r"), &tree);
    assert_eq!(v.children.as_ref().unwrap()[0].size, Some(12345));
}

#[test]
fn json_symlink_node_has_target_and_type() {
    let entries = vec![Entry {
        path: "/r/link".to_string(),
        is_symlink: true,
        symlink_target: Some("/real/target".to_string()),
        ..Default::default()
    }];
    let tree = prepared("/r", &entries);
    let v = node_to_json(Some("/r"), &tree);
    let c = &v.children.as_ref().unwrap()[0];
    assert_eq!(c.kind, "symlink");
    assert_eq!(c.symlink_target.as_deref(), Some("/real/target"));
}

#[test]
fn html_has_doctype_and_body() {
    let s = render_html_str("/r", &[]);
    assert!(s.starts_with("<!DOCTYPE html>"));
    assert!(s.contains("<body>"));
    assert!(s.contains("</body>"));
}

#[test]
fn html_renders_dir_and_file_classes() {
    let s = render_html_str("/r", &[entry("/r/dir", true), entry("/r/file.txt", false)]);
    assert!(s.contains("class=\"directory\""), "got: {s}");
    assert!(s.contains("class=\"file\""), "got: {s}");
}

#[test]
fn html_escapes_special_chars() {
    let s = render_html_str("/r", &[entry("/r/<script>", false)]);
    assert!(s.contains("&lt;script&gt;"), "got: {s}");
    assert!(!s.contains("<script>"), "raw chars must not leak: {s}");
}

#[test]
fn html_includes_report() {
    let s = render_html_str("/r", &[entry("/r/a", false)]);
    assert!(s.contains("0 directories, 1 file"), "got: {s}");
}

#[test]
fn xml_starts_with_declaration_and_root() {
    let s = render_xml_str("/r", &[]);
    assert!(s.starts_with("<?xml version=\"1.0\""));
    assert!(s.contains("<tree root=\"/r\""));
}

#[test]
fn xml_files_and_dirs_have_appropriate_tags() {
    let s = render_xml_str("/r", &[entry("/r/dir", true), entry("/r/file.txt", false)]);
    assert!(s.contains("<directory name=\"dir\""), "got: {s}");
    assert!(s.contains("<file name=\"file.txt\""), "got: {s}");
}

#[test]
fn xml_escapes_special_chars() {
    let s = render_xml_str("/r", &[entry("/r/<oops>", false)]);
    assert!(s.contains("&lt;oops&gt;"), "got: {s}");
}

#[test]
fn xml_includes_report_element() {
    let s = render_xml_str("/r", &[entry("/r/a", false)]);
    assert!(s.contains("<report directories=\"0\" files=\"1\"/>"), "got: {s}");
}

#[test]
fn xml_file_has_size_attribute() {
    let entries = vec![Entry { path: "/r/data".to_string(), size: 500, ..Default::default() }];
    let s = render_xml_str("/r", &entries);
    assert!(s.contains("size=\"500\""), "got: {s}");
}

// ----- further cases -----

#[test]
fn escapes_cover_every_markup_character() {
    assert_eq!(html_escape("a&b<c>d\"e'f"), "a&amp;b&lt;c&gt;d&quot;e&#39;f");
    assert_eq!(xml_escape("a&b<c>d\"e'f"), "a&amp;b&lt;c&gt;d&quot;e&apos;f");
    assert_eq!(html_escape("plain"), "plain");
    assert_eq!(xml_escape(""), "");
}

#[test]
fn html_exact_document_for_nested_tree() {
    let s = render_html_str("/r", &[entry("/r/d", true), entry("/r/d/f", false)]);
    let expected = "<!DOCTYPE html>\n<html lang=\"en\">\n<head>\n  <meta charset=\"UTF-8\">\n  <title>bush: /r</title>\n  <style>\n    body { font-family: monospace; }\n    ul.bush-tree { list-style: none; padding-left: 1.2em; }\n    li.directory > span.name { font-weight: bold; }\n    li.symlink > span.target { color: #888; }\n    p.bush-report { margin-top: 1em; }\n  </style>\n</head>\n<body>\n  <h1>/r</h1>\n  <ul class=\"bush-tree\">\n    <li class=\"directory\"><span class=\"name\">d</span>\n      <ul>\n        <li class=\"file\"><span class=\"name\">f</span></li>\n      </ul>\n    </li>\n  </ul>\n  <p class=\"bush-report\">1 directory, 1 file</p>\n</body>\n</html>\n";
    assert_eq!(s, expected);
}

#[test]
fn html_symlink_shows_escaped_target() {
    let entries = vec![Entry {
        path: "/r/l".to_string(),
        is_symlink: true,
        symlink_target: Some("/t<x>".to_string()),
        ..Default::default()
    }];
    let s = render_html_str("/r", &entries);
    assert!(s.contains("<li class=\"symlink\"><span class=\"name\">l</span> <span class=\"target\">-&gt; /t&lt;x&gt;</span></li>"), "got: {s}");
}

#[test]
fn xml_exact_document_with_metadata() {
    let entries = vec![
        Entry { path: "/r/d".to_string(), is_dir: true, mode: Some(0o755), ..Default::default() },
        Entry {
            path: "/r/d/f".to_string(),
            size: 7,
            mtime: Some(FileTime { secs: 0, nanos: 0 }),
            ..Default::default()
        },
    ];
    let s = render_xml_str("/r", &entries);
    let expected = "<?xml version=\"1.0\" encoding=\"UTF-8\"?>\n<tree root=\"/r\">\n  <directory name=\"d\" mode=\"rwxr-xr-x\">\n    <file name=\"f\" size=\"7\" mtime=\"1970-01-01 00:00\"/>\n  </directory>\n  <report directories=\"1\" files=\"1\"/>\n</tree>\n";
    assert_eq!(s, expected);
}

#[test]
fn xml_symlink_has_target_attribute() {
    let entries = vec![Entry {
        path: "/r/l".to_string(),
        is_symlink: true,
        symlink_target: Some("/t\"q".to_string()),
        ..Default::default()
    }];
    let s = render_xml_str("/r", &entries);
    assert!(s.contains("<symlink name=\"l\" size=\"0\" target=\"/t&quot;q\"/>"), "got: {s}");
}

#[test]
fn json_nested_objects_have_no_root_or_report() {
    let entries = vec![Entry {
        path: "/r/f".to_string(),
        size: 3,
        mtime: Some(FileTime { secs: 946684800, nanos: 0 }),
        mode: Some(0o644),
        ..Default::default()
    }];
    let tree = prepared("/r", &entries);
    let v = node_to_json(Some("/r"), &tree);
    assert!(v.name.is_none());
    assert_eq!(v.kind, "directory");
    assert_eq!(v.size, None);
    let c = &v.children.as_ref().unwrap()[0];
    assert!(c.root.is_none());
    assert!(c.report.is_none());
    assert!(c.children.is_none());
    assert_eq!(c.mtime.as_deref(), Some("2000-01-01 00:00"));
    assert_eq!(c.mode.as_deref(), Some("rw-r--r--"));
    assert_eq!(c.size, Some(3));
}

#[test]
fn json_of_empty_tree_has_no_children() {
    let tree = prepared("/r", &[]);
    let v = node_to_json(Some("/r"), &tree);
    assert!(v.children.is_none());
    assert_eq!(v.report, Some((0, 0)));
    let n = Node { name: "x".into(), meta: NodeMeta::default(), children: vec![] };
    let j = node_to_json(None, &n);
    assert_eq!(j.name.as_deref(), Some("x"));
    assert!(j.report.is_none());
}

fn xml_decode(t: &str) -> String {
    let mut out = String::new();
    let mut rest = t;
    while !rest.is_empty() {
        let mut matched = false;
        for (entity, c) in [("&amp;", '&'), ("&lt;", '<'), ("&gt;", '>'), ("&quot;", '"'), ("&apos;", '\'')] {
            if rest.starts_with(entity) {
                out.push(c);
                rest = &rest[entity.len()..];
                matched = true;
                break;
            }
        }
        if !matched {
            let c = rest.chars().next().unwrap();
            out.push(c);
            rest = &rest[c.len_utf8()..];
        }
    }
    out
}

#[test]
fn xml_escape_round_trips() {
    for s in ["", "plain", "&amp;", "a<b>&\"'c", "&&lt;;", "日本 & <x>"] {
        assert_eq!(xml_decode(&xml_escape(s)), s);
    }
    assert_eq!(xml_escape("no markup here"), "no markup here");
}
