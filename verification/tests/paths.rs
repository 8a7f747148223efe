use std::path::Path;
use worktree::events::sort_paths;
use worktree::path::UnixPath;

const SAMPLES: [&str; 34] = [
    "",
    "/",
    "//",
    "///",
    ".",
    "..",
    "./",
    "./.",
    "/.",
    "/..",
    "a",
    "a/",
    "a//",
    "a/.",
    "a/./",
    "./a",
    ".//a",
    "a/b",
    "a//b",
    "a/./b",
    "a/../b",
    "/a",
    "//a",
    "/a/",
    "/a/b",
    "/a//b/",
    "/a/./b/.",
    "/a/b/c",
    "/a/bc",
    "/a.b",
    "/a-b",
    "/a/b/../c",
    "...",
    "a/.git",
];

fn path(text: &str) -> UnixPath {
    UnixPath::new(text.as_bytes().to_vec())
}

fn std_bytes(path: &Path) -> Vec<u8> {
    path.as_os_str().as_encoded_bytes().to_vec()
}

#[test]
fn components_agree_with_std() {
    for text in SAMPLES {
        let expected: Vec<Vec<u8>> = Path::new(text)
            .iter()
            .map(|c| c.as_encoded_bytes().to_vec())
            .collect();
        assert_eq!(path(text).components(), expected, "{:?}", text);
    }
}

#[test]
fn components_of_given_paths() {
    assert_eq!(
        path("/usr//lib/./x/").components(),
        vec![
            b"/".to_vec(),
            b"usr".to_vec(),
            b"lib".to_vec(),
            b"x".to_vec()
        ]
    );
    assert_eq!(path("./a").components(), vec![b".".to_vec(), b"a".to_vec()]);
    assert!(path("").components().is_empty());
}

#[test]
fn containment_agrees_with_std() {
    for a in SAMPLES {
        for b in SAMPLES {
            assert_eq!(
                path(a).starts_with(&path(b)),
                Path::new(a).starts_with(Path::new(b)),
                "{:?} {:?}",
                a,
                b
            );
        }
    }
}

#[test]
fn sameness_agrees_with_std() {
    for a in SAMPLES {
        for b in SAMPLES {
            assert_eq!(
                path(a).same_as(&path(b)),
                Path::new(a) == Path::new(b),
                "{:?} {:?}",
                a,
                b
            );
        }
    }
}

#[test]
fn strip_prefix_agrees_with_std() {
    for a in SAMPLES {
        for b in SAMPLES {
            let expected = Path::new(a).strip_prefix(Path::new(b)).ok().map(std_bytes);
            let found = path(a).strip_prefix(&path(b)).map(|p| p.bytes);
            assert_eq!(found, expected, "{:?} {:?}", a, b);
        }
    }
}

#[test]
fn join_agrees_with_std() {
    for a in SAMPLES {
        for b in SAMPLES {
            let expected = std_bytes(&Path::new(a).join(b));
            assert_eq!(
                path(a).join(&b.as_bytes().to_vec()).bytes,
                expected,
                "{:?} {:?}",
                a,
                b
            );
        }
    }
}

#[test]
fn push_onto_a_directory() {
    let mut p = path("/work");
    p.push(&b"src".to_vec());
    assert_eq!(p.bytes, b"/work/src".to_vec());
    p.push(&b"/etc".to_vec());
    assert_eq!(p.bytes, b"/etc".to_vec());
    p.push(&Vec::new());
    assert_eq!(p.bytes, b"/etc/".to_vec());
}

#[test]
fn file_name_agrees_with_std() {
    for text in SAMPLES {
        let expected = Path::new(text)
            .file_name()
            .map(|name| name.as_encoded_bytes().to_vec());
        assert_eq!(path(text).file_name(), expected, "{:?}", text);
    }
}

#[test]
fn order_agrees_with_std() {
    for a in SAMPLES {
        for b in SAMPLES {
            assert_eq!(
                path(a).ordered_before(&path(b)),
                Path::new(a) <= Path::new(b),
                "{:?} {:?}",
                a,
                b
            );
        }
    }
}

#[test]
fn sorting_agrees_with_std() {
    let sorted = sort_paths(SAMPLES.iter().rev().map(|text| path(text)).collect());
    let mut expected: Vec<&Path> = SAMPLES.iter().map(Path::new).collect();
    expected.sort();
    assert_eq!(sorted.len(), expected.len());
    for (found, expected) in sorted.iter().zip(expected) {
        assert!(found.same_as(&UnixPath::new(std_bytes(expected))));
    }
}

#[test]
fn paths_below_a_directory_stand_together_when_sorted() {
    let sorted = sort_paths(vec![
        path("/a/b/c"),
        path("/a-b"),
        path("/a"),
        path("/a.b"),
        path("/a/b"),
        path("/ab"),
    ]);
    let below: Vec<bool> = sorted.iter().map(|p| p.starts_with(&path("/a"))).collect();
    assert_eq!(below, vec![true, true, true, false, false, false]);
}

#[test]
fn stripped_prefix_is_undone_by_push() {
    let p = path("/a//b/./c/");
    let rest = p.strip_prefix(&path("/a/")).unwrap();
    assert_eq!(rest.bytes, b"b/./c".to_vec());
    assert!(path("/a/").join(&rest.bytes).same_as(&p));
}

#[test]
fn names_need_not_be_text() {
    let p = UnixPath::new(vec![47, 255, 47, 254, 128]);
    assert_eq!(p.components(), vec![vec![47], vec![255], vec![254, 128]]);
    assert_eq!(p.file_name(), Some(vec![254, 128]));
}
