//! ANSI colouring of names, in the spirit of `LS_COLORS`.

use vstd::prelude::*;
use std::borrow::Cow;
use crate::text::{push_str, str_eq};
use crate::tree::NodeMeta;

verus! {

/// When to colour output.
#[derive(Debug, Clone, Copy, PartialEq, Eq, Structural)]
pub enum ColorMode {
    Auto,
    Always,
    Never,
}

impl Default for ColorMode {
    fn default() -> (m: ColorMode)
        ensures
            m == ColorMode::Auto,
    {
        ColorMode::Auto
    }
}

/// Whether colouring is on for `mode` when standard output is (or is not) a
/// terminal.
pub open spec fn color_enabled(mode: ColorMode, is_tty: bool) -> bool {
    match mode {
        ColorMode::Always => true,
        ColorMode::Never => false,
        ColorMode::Auto => is_tty,
    }
}

/// Paints names with ANSI escape codes when enabled.
pub struct Colorizer {
    enabled: bool,
}

impl View for Colorizer {
    type V = bool;

    /// Whether colouring is on.
    closed spec fn view(&self) -> bool {
        self.enabled
    }
}

/// `c` with ASCII upper-case letters made lower-case.
pub open spec fn ascii_lower(c: char) -> char {
    if 'A' <= c && c <= 'Z' {
        ((c as u32) + 32) as char
    } else {
        c
    }
}

/// The text after the last `.` of `s`, or `None` when `s` has no `.`.
pub open spec fn after_last_dot(s: Seq<char>) -> Option<Seq<char>>
    decreases s.len(),
{
    if s.len() == 0 {
        None
    } else if s.last() == '.' {
        Some(seq![])
    } else {
        match after_last_dot(s.drop_last()) {
            Some(e) => Some(e.push(s.last())),
            None => None,
        }
    }
}

/// The extension used for colouring: the text after the last `.`,
/// lower-cased (ASCII only), or empty when there is no `.`.
pub open spec fn color_ext(name: Seq<char>) -> Seq<char> {
    match after_last_dot(name) {
        Some(e) => e.map_values(|c: char| ascii_lower(c)),
        None => seq![],
    }
}

/// `e` is one of `list`.
pub open spec fn one_of(e: Seq<char>, list: Seq<Seq<char>>) -> bool {
    exists|i: int| 0 <= i < list.len() && list[i] == e
}

/// The style code of a file extension, if it has one.
pub open spec fn ext_style(e: Seq<char>) -> Option<Seq<char>> {
    if one_of(e, seq!["zip"@, "tar"@, "gz"@, "tgz"@, "bz2"@, "xz"@, "7z"@, "rar"@, "zst"@]) {
        Some("31"@)
    } else if one_of(
        e,
        seq!["jpg"@, "jpeg"@, "png"@, "gif"@, "webp"@, "svg"@, "ico"@, "bmp"@, "tiff"@, "tif"@],
    ) {
        Some("35"@)
    } else if one_of(e, seq!["mp3"@, "wav"@, "flac"@, "ogg"@, "m4a"@, "opus"@]) {
        Some("36"@)
    } else if one_of(e, seq!["mp4"@, "mkv"@, "avi"@, "mov"@, "webm"@, "wmv"@, "flv"@]) {
        Some("35"@)
    } else if one_of(
        e,
        seq![
            "rs"@, "go"@, "py"@, "js"@, "ts"@, "tsx"@, "jsx"@, "c"@, "cpp"@, "cc"@, "h"@, "hpp"@,
            "java"@, "rb"@, "swift"@, "kt"@, "scala"@, "sh"@, "bash"@, "zsh"@, "fish"@,
        ],
    ) {
        Some("33"@)
    } else if one_of(
        e,
        seq!["json"@, "yaml"@, "yml"@, "toml"@, "ini"@, "conf"@, "config"@, "env"@],
    ) {
        Some("1;33"@)
    } else {
        None
    }
}

/// The ANSI style code for a name: cyan for symlinks, bold blue for
/// directories, bold green for executables (any execute bit set), then by
/// extension: red archives, magenta images and videos, cyan audio, yellow
/// source code, bold yellow configuration; none otherwise.
pub open spec fn style_code(name: Seq<char>, meta: NodeMeta) -> Option<Seq<char>> {
    if meta.is_symlink {
        Some("36"@)
    } else if meta.is_dir {
        Some("1;34"@)
    } else if meta.mode matches Some(m) && m & 0o111u32 != 0 {
        Some("1;32"@)
    } else {
        ext_style(color_ext(name))
    }
}

/// The painted form of a name: wrapped in `ESC[<code>m` and `ESC[0m` when
/// colouring is on and the name has a style; the name itself otherwise.
pub open spec fn painted(enabled: bool, name: Seq<char>, meta: NodeMeta) -> Seq<char> {
    if enabled && style_code(name, meta) is Some {
        seq!['\x1b', '['] + style_code(name, meta)->0 + seq!['m'] + name + seq!['\x1b', '[', '0', 'm']
    } else {
        name
    }
}

/// The kind of a node decides its colour before its mode or name: a
/// symlink is cyan, any other directory bold blue whatever its mode, and a
/// file with an execute bit bold green whatever its extension. With
/// colouring on, a directory's name is wrapped in `ESC[1;34m` and `ESC[0m`.
pub proof fn lemma_kind_decides_colour(name: Seq<char>, meta: NodeMeta)
    ensures
        meta.is_symlink ==> style_code(name, meta) == Some(seq!['3', '6']),
        !meta.is_symlink && meta.is_dir ==> style_code(name, meta) == Some(seq!['1', ';', '3', '4']),
        !meta.is_symlink && !meta.is_dir && (meta.mode matches Some(m) && m & 0o111u32 != 0)
            ==> style_code(name, meta) == Some(seq!['1', ';', '3', '2']),
        !meta.is_symlink && meta.is_dir ==> painted(true, name, meta) == seq![
            '\x1b',
            '[',
            '1',
            ';',
            '3',
            '4',
            'm',
        ] + name + seq!['\x1b', '[', '0', 'm'],
{
    reveal_strlit("36");
    reveal_strlit("1;34");
    reveal_strlit("1;32");
    if !meta.is_symlink && meta.is_dir {
        assert(painted(true, name, meta) =~= seq!['\x1b', '[', '1', ';', '3', '4', 'm'] + name + seq![
            '\x1b',
            '[',
            '0',
            'm',
        ]);
    }
}

impl Colorizer {
    /// A colorizer that is on for `Always`, off for `Never`, and on under
    /// `Auto` exactly when standard output is a terminal.
    pub fn new(mode: ColorMode, is_tty: bool) -> (c: Self)
        ensures
            c@ == color_enabled(mode, is_tty),
    {
        let enabled = match mode {
            ColorMode::Always => true,
            ColorMode::Never => false,
            ColorMode::Auto => is_tty,
        };
        Self { enabled }
    }

    /// Whether colouring is on.
    pub fn enabled(&self) -> (b: bool)
        ensures
            b == self@,
    {
        self.enabled
    }

    /// The name as it is printed: borrowed unchanged when colouring is off
    /// or the name has no style, otherwise an owned, painted copy.
    pub fn paint<'a>(&self, name: &'a str, meta: &NodeMeta) -> (s: Cow<'a, str>)
        ensures
            s@ == painted(self@, name@, *meta),
            (s is Borrowed) <==> !(self@ && style_code(name@, *meta) is Some),
    {
        if !self.enabled {
            return Cow::Borrowed(name);
        }
        match pick_style(name, meta) {
            Some(code) => {
                let mut s = String::new();
                push_str(&mut s, "\x1b[");
                push_str(&mut s, code);
                push_str(&mut s, "m");
                push_str(&mut s, name);
                push_str(&mut s, "\x1b[0m");
                proof {
                    reveal_strlit("\x1b[");
                    reveal_strlit("m");
                    reveal_strlit("\x1b[0m");
                    assert(s@ =~= painted(self@, name@, *meta));
                }
                Cow::Owned(s)
            },
            None => Cow::Borrowed(name),
        }
    }
}

fn ascii_lower_char(c: char) -> (r: char)
    ensures
        r == ascii_lower(c),
{
    if 'A' <= c && c <= 'Z' {
        let b: u8 = c as u8;
        (b + 32) as char
    } else {
        c
    }
}

/// The colouring extension of a name (see `color_ext`).
fn extension_of(name: &str) -> (e: String)
    ensures
        e@ == color_ext(name@),
{
    let ghost chars = name@;
    let mut ext = String::new();
    let mut seen_dot = false;
    for ch in it: name.chars()
        invariant
            it.seq() == chars,
            seen_dot == (after_last_dot(chars.take(it.index() as int)) is Some),
            seen_dot ==> ext@ == after_last_dot(chars.take(it.index() as int))->0.map_values(
                |c: char| ascii_lower(c),
            ),
    {
        proof {
            assert(chars.take(it.index() + 1).drop_last() == chars.take(it.index() as int));
            assert(chars.take(it.index() + 1).last() == ch);
        }
        if ch == '.' {
            seen_dot = true;
            ext = String::new();
            assert(ext@ =~= Seq::<char>::empty().map_values(|c: char| ascii_lower(c)));
        } else if seen_dot {
            let ghost before = ext@;
            crate::text::push_char(&mut ext, ascii_lower_char(ch));
            proof {
                let prev = after_last_dot(chars.take(it.index() as int))->0;
                assert(ext@ =~= prev.push(ch).map_values(|c: char| ascii_lower(c)));
            }
        }
    }
    proof {
        assert(chars.take(chars.len() as int) == chars);
    }
    if !seen_dot {
        ext = String::new();
    }
    ext
}

fn ext_in(e: &str, list: &[&str]) -> (r: bool)
    ensures
        r == one_of(e@, list@.map_values(|s: &str| s@)),
{
    let mut i: usize = 0;
    while i < list.len()
        invariant
            i <= list@.len(),
            forall|j: int| 0 <= j < i ==> list@[j]@ != e@,
        decreases list@.len() - i,
    {
        if str_eq(list[i], e) {
            assert(list@.map_values(|s: &str| s@)[i as int] == e@);
            return true;
        }
        i = i + 1;
    }
    false
}

/// The style code of a name (see `style_code`).
fn pick_style(name: &str, meta: &NodeMeta) -> (code: Option<&'static str>)
    ensures
        code matches Some(c) ==> style_code(name@, *meta) == Some(c@),
        code is None ==> style_code(name@, *meta) is None,
{
    if meta.is_symlink {
        return Some("36");
    }
    if meta.is_dir {
        return Some("1;34");
    }
    if let Some(mode) = meta.mode {
        if mode & 0o111 != 0 {
            return Some("1;32");
        }
    }
    let ext = extension_of(name);
    let e = ext.as_str();
    let archives = ["zip", "tar", "gz", "tgz", "bz2", "xz", "7z", "rar", "zst"];
    let images = ["jpg", "jpeg", "png", "gif", "webp", "svg", "ico", "bmp", "tiff", "tif"];
    let audio = ["mp3", "wav", "flac", "ogg", "m4a", "opus"];
    let video = ["mp4", "mkv", "avi", "mov", "webm", "wmv", "flv"];
    let code_exts = [
        "rs", "go", "py", "js", "ts", "tsx", "jsx", "c", "cpp", "cc", "h", "hpp", "java", "rb",
        "swift", "kt", "scala", "sh", "bash", "zsh", "fish",
    ];
    let configs = ["json", "yaml", "yml", "toml", "ini", "conf", "config", "env"];
    proof {
        assert(archives@.map_values(|s: &str| s@) =~= seq![
            "zip"@, "tar"@, "gz"@, "tgz"@, "bz2"@, "xz"@, "7z"@, "rar"@, "zst"@,
        ]);
        assert(images@.map_values(|s: &str| s@) =~= seq![
            "jpg"@, "jpeg"@, "png"@, "gif"@, "webp"@, "svg"@, "ico"@, "bmp"@, "tiff"@, "tif"@,
        ]);
        assert(audio@.map_values(|s: &str| s@) =~= seq![
            "mp3"@, "wav"@, "flac"@, "ogg"@, "m4a"@, "opus"@,
        ]);
        assert(video@.map_values(|s: &str| s@) =~= seq![
            "mp4"@, "mkv"@, "avi"@, "mov"@, "webm"@, "wmv"@, "flv"@,
        ]);
        assert(code_exts@.map_values(|s: &str| s@) =~= seq![
            "rs"@, "go"@, "py"@, "js"@, "ts"@, "tsx"@, "jsx"@, "c"@, "cpp"@, "cc"@, "h"@, "hpp"@,
            "java"@, "rb"@, "swift"@, "kt"@, "scala"@, "sh"@, "bash"@, "zsh"@, "fish"@,
        ]);
        assert(configs@.map_values(|s: &str| s@) =~= seq![
            "json"@, "yaml"@, "yml"@, "toml"@, "ini"@, "conf"@, "config"@, "env"@,
        ]);
    }
    if ext_in(e, &archives) {
        Some("31")
    } else if ext_in(e, &images) {
        Some("35")
    } else if ext_in(e, &audio) {
        Some("36")
    } else if ext_in(e, &video) {
        Some("35")
    } else if ext_in(e, &code_exts) {
        Some("33")
    } else if ext_in(e, &configs) {
        Some("1;33")
    } else {
        None
    }
}

} // verus!
