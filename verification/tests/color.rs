use bush::color::{ColorMode, Colorizer};
use bush::tree::NodeMeta;
use std::borrow::Cow;

fn meta(is_dir: bool, is_symlink: bool, mode: Option<u32>) -> NodeMeta {
    NodeMeta {
        is_dir,
        is_symlink,
        size: 0,
        mtime: None,
        mode,
        symlink_target: None,
    }
}

#[test]
fn never_mode_is_disabled() {
    let c = Colorizer::new(ColorMode::Never, true);
    assert!(!c.enabled());
    let name = c.paint("foo", &meta(true, false, None));
    assert_eq!(name, "foo", "no ANSI codes when disabled");
}

#[test]
fn always_mode_is_enabled() {
    let c = Colorizer::new(ColorMode::Always, false);
    assert!(c.enabled());
}

#[test]
fn auto_follows_tty() {
    assert!(Colorizer::new(ColorMode::Auto, true).enabled());
    assert!(!Colorizer::new(ColorMode::Auto, false).enabled());
}

#[test]
fn directory_painted_bold_blue() {
    let c = Colorizer::new(ColorMode::Always, true);
    let s = c.paint("src", &meta(true, false, None));
    assert!(s.contains("\x1b[1;34m"), "got: {s:?}");
    assert!(s.contains("\x1b[0m"));
}

#[test]
fn symlink_painted_cyan() {
    let c = Colorizer::new(ColorMode::Always, true);
    let s = c.paint("link", &meta(false, true, None));
    assert!(s.contains("\x1b[36m"), "got: {s:?}");
}

#[test]
fn executable_painted_bold_green() {
    let c = Colorizer::new(ColorMode::Always, true);
    let s = c.paint("script.sh", &meta(false, false, Some(0o755)));
    assert!(s.contains("\x1b[1;32m"), "got: {s:?}");
}

#[test]
fn rust_file_painted_yellow() {
    let c = Colorizer::new(ColorMode::Always, true);
    let s = c.paint("main.rs", &meta(false, false, Some(0o644)));
    assert!(s.contains("\x1b[33m"), "got: {s:?}");
}

#[test]
fn config_file_painted_bold_yellow() {
    let c = Colorizer::new(ColorMode::Always, true);
    let s = c.paint("Cargo.toml", &meta(false, false, Some(0o644)));
    assert!(s.contains("\x1b[1;33m"), "got: {s:?}");
}

#[test]
fn archive_painted_red() {
    let c = Colorizer::new(ColorMode::Always, true);
    let s = c.paint("data.tar.gz", &meta(false, false, Some(0o644)));
    assert!(s.contains("\x1b[31m"), "got: {s:?}");
}

#[test]
fn image_painted_magenta() {
    let c = Colorizer::new(ColorMode::Always, true);
    let s = c.paint("photo.jpg", &meta(false, false, Some(0o644)));
    assert!(s.contains("\x1b[35m"), "got: {s:?}");
}

#[test]
fn unknown_extension_unpainted() {
    let c = Colorizer::new(ColorMode::Always, true);
    let s = c.paint("data.unknown_ext", &meta(false, false, Some(0o644)));
    assert!(!s.contains("\x1b["), "got: {s:?}");
}

#[test]
fn paint_uses_borrowed_when_no_color() {
    let c = Colorizer::new(ColorMode::Never, true);
    let s = c.paint("foo", &NodeMeta::default());
    assert!(matches!(s, Cow::Borrowed(_)));
}

#[test]
fn paint_uses_owned_when_colored() {
    let c = Colorizer::new(ColorMode::Always, true);
    let s = c.paint("dir", &meta(true, false, None));
    assert!(matches!(s, Cow::Owned(_)));
}

#[test]
fn case_insensitive_extension_matching() {
    let c = Colorizer::new(ColorMode::Always, true);
    let s1 = c.paint("PHOTO.JPG", &meta(false, false, Some(0o644)));
    let s2 = c.paint("photo.jpg", &meta(false, false, Some(0o644)));
    assert!(s1.contains("\x1b[35m"));
    assert!(s2.contains("\x1b[35m"));
}

#[test]
fn no_extension_no_color() {
    let c = Colorizer::new(ColorMode::Always, true);
    let s = c.paint("README", &meta(false, false, Some(0o644)));
    assert!(!s.contains("\x1b["), "got: {s:?}");
}

// ----- further cases -----

#[test]
fn painted_name_is_wrapped_exactly() {
    let c = Colorizer::new(ColorMode::Always, false);
    let s = c.paint("src", &meta(true, false, None));
    assert_eq!(s, "\x1b[1;34msrc\x1b[0m");
}

#[test]
fn symlink_wins_over_directory_and_extension() {
    let c = Colorizer::new(ColorMode::Always, false);
    let s = c.paint("a.rs", &meta(true, true, Some(0o755)));
    assert_eq!(s, "\x1b[36ma.rs\x1b[0m");
}

#[test]
fn executable_wins_over_extension() {
    let c = Colorizer::new(ColorMode::Always, false);
    let s = c.paint("notes.json", &meta(false, false, Some(0o100)));
    assert_eq!(s, "\x1b[1;32mnotes.json\x1b[0m");
}

#[test]
fn audio_video_and_dotfile_extensions() {
    let c = Colorizer::new(ColorMode::Always, false);
    assert_eq!(c.paint("song.FLAC", &meta(false, false, None)), "\x1b[36msong.FLAC\x1b[0m");
    assert_eq!(c.paint("clip.webm", &meta(false, false, None)), "\x1b[35mclip.webm\x1b[0m");
    // the text after the last dot of `.env` is `env`, a config extension
    assert_eq!(c.paint(".env", &meta(false, false, None)), "\x1b[1;33m.env\x1b[0m");
    // a trailing dot leaves an empty extension
    assert_eq!(c.paint("file.", &meta(false, false, None)), "file.");
}

#[test]
fn never_mode_keeps_every_name() {
    let c = Colorizer::new(ColorMode::Never, true);
    for name in ["a.rs", "x.zip", "dir", "plain"] {
        assert!(matches!(c.paint(name, &meta(true, true, Some(0o777))), Cow::Borrowed(n) if n == name));
    }
}
