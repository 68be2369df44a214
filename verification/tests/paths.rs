use musee::path::{FilePath, PathPart};
use musee::pathset::PathSet;

fn path(text: &str) -> FilePath {
    FilePath::from_text(text)
}

#[test]
fn paths_are_split_into_components() {
    assert!(path("a//b/./c/").is_same(&path("a/b/c")));
    assert!(!path("./a").is_same(&path("a")));
    assert!(!path("/a").is_same(&path("a")));
    assert!(path("a/../b").parts.len() == 3);
    assert!(path("").parts.is_empty());
    assert!(matches!(path("/").parts[0], PathPart::Root));
}

#[test]
fn names_have_stems_and_extensions() {
    let file = path("/d/a.b.flac");
    assert_eq!(file.file_name_text().as_deref(), Some("a.b.flac"));
    assert_eq!(file.file_stem_text().as_deref(), Some("a.b"));
    assert_eq!(file.extension_text().as_deref(), Some("flac"));
    assert_eq!(path(".hidden").extension_text(), None);
    assert_eq!(path(".hidden").file_stem_text().as_deref(), Some(".hidden"));
    assert_eq!(path("a.").extension_text().as_deref(), Some(""));
    assert_eq!(path("a/..").file_name_text(), None);
    assert_eq!(path("/").file_stem_text(), None);
}

#[test]
fn names_that_are_no_text_have_no_text() {
    let odd = FilePath { parts: vec![PathPart::Name(vec![0xff, b'.', b'x'])] };
    assert_eq!(odd.file_name_text(), None);
    assert_eq!(odd.file_stem_text(), None);
    assert_eq!(odd.extension_text().as_deref(), Some("x"));
    let text = FilePath { parts: vec![PathPart::Name("\u{e9}.x".as_bytes().to_vec())] };
    assert_eq!(text.file_stem_text().as_deref(), Some("\u{e9}"));
}

#[test]
fn extensions_are_replaced() {
    assert!(path("/d/a.b.flac").with_extension(b"lrc").is_same(&path("/d/a.b.lrc")));
    assert!(path("/d/a").with_extension(b"lrc").is_same(&path("/d/a.lrc")));
    assert!(path("/d/a.x").with_extension(b"").is_same(&path("/d/a")));
    assert!(path("/").with_extension(b"lrc").is_same(&path("/")));
    assert!(path("d/..x").with_extension(b"").is_same(&path("d")));
    assert!(path("..x").with_extension(b"").is_same(&path(".")));
    assert!(path("d/...x").with_extension(b"").is_same(&path("d/..")));
    assert!(path("d/..x").with_extension(b"y").is_same(&path("d/..y")));
}

#[test]
fn parents_and_joins_undo_each_other() {
    assert!(path("/d").join("a").parent().expect("a parent").is_same(&path("/d")));
    assert!(path("/d").join("/x").is_same(&path("/x")));
    assert!(path("").join("x").is_same(&path("x")));
    assert!(path("/").parent().is_none());
    assert!(path("a").parent().expect("a parent").is_same(&path("")));
}

#[test]
fn paths_are_ordered_by_component() {
    assert!(path("a/z").is_before(&path("a b")));
    assert!(path("a").is_before(&path("a/b")));
    assert!(path("/z").is_before(&path("a")));
    assert!(path("..").is_before(&path("a")));
    assert!(!path("a").is_before(&path("a")));
}

#[test]
fn sets_hold_each_path_once() {
    let mut set = PathSet::from_paths(&vec![path("b"), path("a"), path("b")]);
    assert!(set.contains(&path("a")));
    assert!(set.contains(&path("b")));
    assert!(!set.contains(&path("c")));
    set.insert(path("c"));
    assert!(set.contains(&path("c")));
    let mut other = PathSet::new();
    other.insert(path("d"));
    other.absorb(set);
    assert!(other.contains(&path("d")));
    assert!(other.contains(&path("a")));
}
