use mbx_cache::order::{place_bytes, Placement};
use mbx_cache::path::{normalize_components, FilePath, PathComponent};
use mbx_cache::path_map::{PathMap, PathSet};
use std::path::{Component, Path};

fn path(text: &str) -> FilePath {
    FilePath::from_text(text)
}

const SPELLINGS: &[&str] = &[
    "", "/", "//", ".", "..", "./", "./.", "a", "a/", "a//b", "a/./b", "./a", "/a", "/./a", "/..",
    "../a", "a/..", "a/../b", "/a/b/../../c", "...", "a/.b", "a.b", "A", "a/b", "a/B", "\u{e9}",
];

fn std_components(text: &str) -> Vec<PathComponent> {
    Path::new(text)
        .components()
        .map(|component| match component {
            Component::RootDir => PathComponent::RootDir,
            Component::CurDir => PathComponent::CurDir,
            Component::ParentDir => PathComponent::ParentDir,
            Component::Normal(name) => {
                PathComponent::Normal(name.to_str().unwrap().as_bytes().to_vec())
            }
            Component::Prefix(_) => unreachable!("no prefixes here"),
        })
        .collect()
}

#[test]
fn components_agree_with_the_standard_library() {
    for text in SPELLINGS {
        assert_eq!(path(text).components(), std_components(text), "{text:?}");
    }
}

#[test]
fn paths_compare_as_the_standard_library_compares_them() {
    for left in SPELLINGS {
        for right in SPELLINGS {
            let expected = if Path::new(left) == Path::new(right) {
                Placement::Same
            } else if Path::new(left) < Path::new(right) {
                Placement::Before
            } else {
                Placement::After
            };
            assert_eq!(path(left).place(&path(right)), expected, "{left:?} {right:?}");
            assert_eq!(path(left) == path(right), expected == Placement::Same);
            assert_eq!(path(left).same_as(&path(right)), expected == Placement::Same);
        }
        assert_eq!(path(left).is_absolute(), Path::new(left).is_absolute());
    }
}

#[test]
fn names_are_joined_as_the_standard_library_joins_them() {
    for base in ["", "/", "a", "a/", "/a/b", "a/."] {
        assert_eq!(
            path(base).join(b"name").as_bytes(),
            Path::new(base).join("name").to_str().unwrap().as_bytes()
        );
    }
}

#[test]
fn dots_are_resolved_without_looking_at_the_disk() {
    let cases = [
        ("/a/./b/../c", "/a/c"),
        ("/..", "/"),
        ("/../a", "/a"),
        ("a/../..", ".."),
        ("../../a", "../../a"),
        ("./a", "a"),
        (".", ""),
        ("a//b/", "a/b"),
    ];
    for (spelled, plain) in cases {
        assert_eq!(normalize_components(&path(spelled)).as_bytes(), plain.as_bytes(), "{spelled}");
    }
}

#[test]
fn byte_strings_are_placed_bytewise() {
    assert_eq!(place_bytes(b"a", b"b"), Placement::Before);
    assert_eq!(place_bytes(b"b", b"a"), Placement::After);
    assert_eq!(place_bytes(b"a", b"ab"), Placement::Before);
    assert_eq!(place_bytes(b"ab", b"ab"), Placement::Same);
    assert_eq!(place_bytes(b"\xff", b"a"), Placement::After);
}

#[test]
fn text_is_given_where_a_path_is_text() {
    assert_eq!(path("caf\u{e9}").to_text(), Some("caf\u{e9}".to_string()));
    let bytes = FilePath::from_bytes(vec![b'a', 0xc3]);
    assert_eq!(bytes.to_text(), None);
    assert_eq!(bytes.to_text_lossy(), "a\u{fffd}");
}

#[test]
fn a_set_keeps_the_first_spelling_and_the_order_of_places() {
    let mut set = PathSet::new();
    for text in ["b", "a/c", "a", "a//c", "B"] {
        set = set.insert(path(text));
    }
    assert_eq!(set.len(), 4);
    let spelled: Vec<&[u8]> = (0..set.len()).map(|at| set.path(at).as_bytes()).collect();
    assert_eq!(spelled, vec![b"B".as_slice(), b"a", b"a/c", b"b"]);
    assert!(set.contains(&path("a/./c")));
    assert!(!set.contains(&path("c")));
}

#[test]
fn a_map_replaces_the_value_of_a_place() {
    let map = PathMap::new()
        .insert(path("x/y"), 1)
        .insert(path("a"), 2)
        .insert(path("x//y"), 3);
    assert_eq!(map.len(), 2);
    assert_eq!(map.get(&path("x/y/")), Some(&3));
    assert_eq!(map.get(&path("a")), Some(&2));
    assert_eq!(map.get(&path("b")), None);
    assert_eq!(map.entry(1).0.as_bytes(), b"x/y");
}
