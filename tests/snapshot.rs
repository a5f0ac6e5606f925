use std::collections::BTreeMap;
use std::io::{Error, ErrorKind};

use dir_compare::{Content, Entry, EntryError, Probe, Walk};

/// An in-memory filesystem: what lies at each path.
enum Node {
    File(&'static [u8]),
    Dir(Vec<&'static str>),
    Denied,
}

struct Fixture {
    nodes: BTreeMap<String, Node>,
}

impl Fixture {
    fn new() -> Fixture {
        Fixture { nodes: BTreeMap::new() }
    }

    fn file(mut self, path: &str, bytes: &'static [u8]) -> Fixture {
        self.nodes.insert(path.to_string(), Node::File(bytes));
        self
    }

    fn dir(mut self, path: &str, children: Vec<&'static str>) -> Fixture {
        self.nodes.insert(path.to_string(), Node::Dir(children));
        self
    }

    fn denied(mut self, path: &str) -> Fixture {
        self.nodes.insert(path.to_string(), Node::Denied);
        self
    }

    fn probe(&self, path: &str) -> Probe {
        match self.nodes.get(path) {
            Some(Node::File(bytes)) => Probe::File(bytes.to_vec()),
            Some(Node::Dir(children)) => {
                Probe::Directory(children.iter().map(|c| format!("{path}/{c}")).collect())
            }
            Some(Node::Denied) => Probe::Failed(Error::new(ErrorKind::PermissionDenied, "denied")),
            None => Probe::Failed(Error::new(ErrorKind::NotFound, "not found")),
        }
    }

    /// Runs a walk to its end, returning the paths it asked for.
    fn drive(&self, walk: &mut Walk) -> Vec<String> {
        let mut asked = Vec::new();
        while let Some(path) = walk.next_path() {
            walk.feed(self.probe(&path));
            asked.push(path);
        }
        asked
    }

    fn content_of(&self, path: &str) -> Result<Content, EntryError> {
        let mut walk = Content::of(path);
        self.drive(&mut walk);
        walk.into_content().unwrap()
    }

    fn entry_at(&self, path: &str) -> Result<Entry, EntryError> {
        let mut walk = Entry::at(path)?;
        self.drive(&mut walk);
        walk.into_entry().unwrap()
    }
}

fn fixtures() -> Fixture {
    Fixture::new()
        .dir("fixtures/equivalent/dir-a", vec!["x.txt", "sub"])
        .file("fixtures/equivalent/dir-a/x.txt", b"hello")
        .dir("fixtures/equivalent/dir-a/sub", vec!["y.bin"])
        .file("fixtures/equivalent/dir-a/sub/y.bin", &[0, 1, 2, 255])
        .dir("fixtures/equivalent/dir-b", vec!["x.txt", "sub"])
        .file("fixtures/equivalent/dir-b/x.txt", b"hello")
        .dir("fixtures/equivalent/dir-b/sub", vec!["y.bin"])
        .file("fixtures/equivalent/dir-b/sub/y.bin", &[0, 1, 2, 255])
        .dir("fixtures/not-equivalent/dir-a", vec!["x.txt", "sub"])
        .file("fixtures/not-equivalent/dir-a/x.txt", b"hello")
        .dir("fixtures/not-equivalent/dir-a/sub", vec!["y.bin"])
        .file("fixtures/not-equivalent/dir-a/sub/y.bin", &[0, 1, 2, 255])
        .dir("fixtures/not-equivalent/dir-b", vec!["x.txt", "sub"])
        .file("fixtures/not-equivalent/dir-b/x.txt", b"hello")
        .dir("fixtures/not-equivalent/dir-b/sub", vec!["y.bin"])
        .file("fixtures/not-equivalent/dir-b/sub/y.bin", &[0, 1, 3, 255])
}

#[test]
fn entries_should_eq() {
    let fx = fixtures();
    let a = fx.entry_at("fixtures/equivalent/dir-a").unwrap();
    let b = fx.entry_at("fixtures/equivalent/dir-a").unwrap();

    assert_eq!(a, b);
}

#[test]
fn entries_should_not_eq() {
    let fx = fixtures();
    let a = fx.entry_at("fixtures/equivalent/dir-a").unwrap();
    let b = fx.entry_at("fixtures/equivalent/dir-b").unwrap();

    assert_ne!(a, b);
}

#[test]
fn contents_should_eq() {
    let fx = fixtures();
    let a = fx.content_of("fixtures/equivalent/dir-a").unwrap();
    let b = fx.content_of("fixtures/equivalent/dir-b").unwrap();

    assert_eq!(a, b);
}

#[test]
fn contents_should_not_eq() {
    let fx = fixtures();
    let a = fx.content_of("fixtures/not-equivalent/dir-a").unwrap();
    let b = fx.content_of("fixtures/not-equivalent/dir-b").unwrap();

    assert_ne!(a, b);
}

#[test]
fn file_content_is_its_bytes() {
    let fx = Fixture::new().file("notes.txt", b"hello");
    let c = fx.content_of("notes.txt").unwrap();
    assert_eq!(c, Content::File(b"hello".to_vec()));
    assert_ne!(c, Content::File(b"hellp".to_vec()));
    assert_ne!(c, Content::Entries(Vec::new()));
}

#[test]
fn empty_directory_has_no_entries() {
    let fx = Fixture::new().dir("empty", vec![]);
    let c = fx.content_of("empty").unwrap();
    assert_eq!(c, Content::Entries(Vec::new()));
    assert_ne!(c, Content::File(Vec::new()));
}

#[test]
fn entry_is_named_by_final_component() {
    let fx = fixtures();
    let e = fx.entry_at("fixtures/equivalent/dir-a").unwrap();
    assert_eq!(e.name(), "dir-a");
    match e.content() {
        Content::Entries(children) => {
            assert_eq!(children.len(), 2);
            assert_eq!(children[0].name(), "x.txt");
            assert_eq!(children[0].content(), &Content::File(b"hello".to_vec()));
            assert_eq!(children[1].name(), "sub");
        }
        Content::File(_) => panic!("a directory was read as a file"),
    }
}

#[test]
fn entry_name_ignores_trailing_separator_and_dot() {
    let fx = Fixture::new().file("a/b.txt/", b"z").file("a/b.txt/.", b"z");
    assert_eq!(fx.entry_at("a/b.txt/").unwrap().name(), "b.txt");
    assert_eq!(fx.entry_at("a/b.txt/.").unwrap().name(), "b.txt");
}

#[test]
fn same_location_read_twice_is_equal() {
    let fx = fixtures();
    let a = fx.content_of("fixtures/equivalent/dir-a").unwrap();
    let b = fx.content_of("fixtures/equivalent/dir-a").unwrap();
    assert_eq!(a, b);
    let a = fx.entry_at("fixtures/equivalent/dir-a/x.txt").unwrap();
    let b = fx.entry_at("fixtures/equivalent/dir-a/x.txt").unwrap();
    assert_eq!(a, b);
}

#[test]
fn names_matter_only_below_the_top() {
    let fx = Fixture::new()
        .dir("dir-a", vec!["x.txt"])
        .file("dir-a/x.txt", b"hello")
        .dir("dir-b", vec!["x.txt"])
        .file("dir-b/x.txt", b"hello")
        .dir("dir-c", vec!["y.txt"])
        .file("dir-c/y.txt", b"hello");
    assert_eq!(fx.content_of("dir-a").unwrap(), fx.content_of("dir-b").unwrap());
    assert_ne!(fx.entry_at("dir-a").unwrap(), fx.entry_at("dir-b").unwrap());
    assert_ne!(fx.content_of("dir-a").unwrap(), fx.content_of("dir-c").unwrap());
}

#[test]
fn one_changed_byte_deep_down_makes_trees_unequal() {
    let fx = fixtures();
    let a = fx.entry_at("fixtures/not-equivalent/dir-a/sub").unwrap();
    let b = fx.entry_at("fixtures/not-equivalent/dir-b/sub").unwrap();
    assert_ne!(a.content(), b.content());
    let fx = Fixture::new()
        .dir("p/top", vec!["sub"])
        .dir("p/top/sub", vec!["f"])
        .file("p/top/sub/f", b"abc")
        .dir("q/top", vec!["sub"])
        .dir("q/top/sub", vec!["f"])
        .file("q/top/sub/f", b"abd");
    assert_ne!(fx.content_of("p/top").unwrap(), fx.content_of("q/top").unwrap());
    assert_ne!(fx.entry_at("p/top").unwrap(), fx.entry_at("q/top").unwrap());
}

#[test]
fn listing_order_matters() {
    let fx = Fixture::new()
        .dir("p/d", vec!["a", "b"])
        .file("p/d/a", b"1")
        .file("p/d/b", b"2")
        .dir("q/d", vec!["b", "a"])
        .file("q/d/a", b"1")
        .file("q/d/b", b"2");
    assert_ne!(fx.content_of("p/d").unwrap(), fx.content_of("q/d").unwrap());
    assert_ne!(fx.entry_at("p/d").unwrap(), fx.entry_at("q/d").unwrap());
}

#[test]
fn parent_marker_is_an_invalid_path() {
    for path in ["..", "a/..", "/.."] {
        match Entry::at(path) {
            Err(EntryError::InvalidPath(p)) => assert_eq!(p, path),
            Err(other) => panic!("expected an invalid path for {path}, got {other:?}"),
            Ok(_) => panic!("expected an invalid path for {path}, got a walk"),
        }
    }
}

#[test]
fn failed_read_ends_the_walk_with_that_error() {
    let fx = Fixture::new()
        .dir("three", vec!["one", "two", "three"])
        .file("three/one", b"1")
        .denied("three/two")
        .file("three/three", b"3");
    let mut walk = Content::of("three");
    let asked = fx.drive(&mut walk);
    assert_eq!(asked, vec!["three".to_string(), "three/one".to_string(), "three/two".to_string()]);
    match walk.into_content() {
        Some(Err(EntryError::IoError(e))) => assert_eq!(e.kind(), ErrorKind::PermissionDenied),
        other => panic!("expected the permission error, got {other:?}"),
    }
    match fx.entry_at("three") {
        Err(EntryError::IoError(e)) => assert_eq!(e.kind(), ErrorKind::PermissionDenied),
        other => panic!("expected the permission error, got {other:?}"),
    }
}

#[test]
fn missing_path_is_an_io_error() {
    let fx = Fixture::new();
    match fx.content_of("nowhere") {
        Err(EntryError::IoError(e)) => assert_eq!(e.kind(), ErrorKind::NotFound),
        other => panic!("expected not found, got {other:?}"),
    }
}

#[test]
fn walk_goes_depth_first_in_listing_order() {
    let fx = fixtures();
    let mut walk = Content::of("fixtures/equivalent/dir-a");
    let asked = fx.drive(&mut walk);
    assert_eq!(
        asked,
        vec![
            "fixtures/equivalent/dir-a".to_string(),
            "fixtures/equivalent/dir-a/x.txt".to_string(),
            "fixtures/equivalent/dir-a/sub".to_string(),
            "fixtures/equivalent/dir-a/sub/y.bin".to_string(),
        ]
    );
    assert!(walk.next_path().is_none());
}

#[test]
fn child_listed_as_parent_marker_is_an_invalid_path() {
    let mut walk = Content::of("d");
    walk.feed(Probe::Directory(vec!["d/..".to_string()]));
    assert!(walk.next_path().is_none());
    match walk.into_content() {
        Some(Err(EntryError::InvalidPath(p))) => assert_eq!(p, "d/.."),
        other => panic!("expected an invalid path, got {other:?}"),
    }
}

#[test]
fn content_walk_gives_no_entry() {
    let fx = Fixture::new().file("f", b"x");
    let mut walk = Content::of("f");
    fx.drive(&mut walk);
    assert!(walk.into_entry().is_none());
}

#[test]
fn unfinished_walk_gives_nothing() {
    let walk = Content::of("f");
    assert!(walk.into_content().is_none());
    let walk = Entry::at("d/f").unwrap();
    assert!(walk.into_entry().is_none());
}

#[test]
fn invalid_path_message_names_the_path() {
    let error = match Entry::at("a/..") {
        Err(error) => error,
        Ok(_) => panic!("expected an invalid path"),
    };
    assert_eq!(
        error.message(),
        "\"a/..\" is not a valid path. Cannot create an entry for the directory, `..`."
    );
}

#[test]
fn io_error_message_is_its_own() {
    let error = EntryError::IoError(Error::new(ErrorKind::PermissionDenied, "no access here"));
    assert_eq!(error.message(), "no access here");
}
