use std::path::Path;
use vecls::order::{compare_paths, Order};
use vecls::path::{
    extension, file_name, file_stem, join, parent, same_path, starts_with, strip_prefix,
};

const SAMPLES: [&str; 40] = [
    "", "/", ".", "..", "a", "/a", "a/", "a/b", "/a/b", "a//b", "a/./b", "./a", "a/.", "/.", "/./a",
    "//", "//a", "a/..", "../a", "a/../b", ".a", "a.b", ".a.b", "a.b.c", "a.", "a/b.c/", "/mnt",
    "/mnt/nested", "/mnt/nested/tree", "mnt", "...", "a/...", "./", "./.", "././a", "/..", "/../a",
    "a b/c d", "/a//b///c", "a/b/c.tar.gz",
];

fn bytes(p: &Path) -> &[u8] {
    p.as_os_str().as_encoded_bytes()
}

#[test]
fn parents_are_those_of_std() {
    for s in SAMPLES {
        assert_eq!(parent(s.as_bytes()), Path::new(s).parent().map(bytes), "{s:?}");
    }
}

#[test]
fn file_names_are_those_of_std() {
    for s in SAMPLES {
        let p = Path::new(s);
        assert_eq!(file_name(s.as_bytes()), p.file_name().map(|n| n.as_encoded_bytes()), "{s:?}");
        assert_eq!(extension(s.as_bytes()), p.extension().map(|n| n.as_encoded_bytes()), "{s:?}");
        assert_eq!(file_stem(s.as_bytes()), p.file_stem().map(|n| n.as_encoded_bytes()), "{s:?}");
    }
}

#[test]
fn joins_are_those_of_std() {
    for a in SAMPLES {
        for b in SAMPLES {
            let expected = Path::new(a).join(b);
            assert_eq!(join(a.as_bytes(), b.as_bytes()), bytes(&expected), "{a:?} {b:?}");
        }
    }
}

#[test]
fn prefixes_are_those_of_std() {
    for a in SAMPLES {
        for b in SAMPLES {
            let (x, y) = (Path::new(a), Path::new(b));
            assert_eq!(starts_with(a.as_bytes(), b.as_bytes()), x.starts_with(y), "{a:?} {b:?}");
            assert_eq!(
                strip_prefix(a.as_bytes(), b.as_bytes()),
                x.strip_prefix(y).ok().map(bytes),
                "{a:?} {b:?}"
            );
        }
    }
}

#[test]
fn order_and_equality_are_those_of_std() {
    for a in SAMPLES {
        for b in SAMPLES {
            let (x, y) = (Path::new(a), Path::new(b));
            let expected = if x < y {
                Order::Less
            } else if x == y {
                Order::Equal
            } else {
                Order::Greater
            };
            assert_eq!(compare_paths(a.as_bytes(), b.as_bytes()), expected, "{a:?} {b:?}");
            assert_eq!(same_path(a.as_bytes(), b.as_bytes()), x == y, "{a:?} {b:?}");
        }
    }
}

#[test]
fn join_undoes_strip_prefix() {
    let rest = strip_prefix(b"/mnt/nested/tree", b"/mnt").unwrap();
    assert_eq!(rest, b"nested/tree");
    assert!(same_path(&join(b"/mnt", rest), b"/mnt/nested/tree"));
    assert_eq!(strip_prefix(&join(b"/mnt", b"x/y"), b"/mnt"), Some(&b"x/y"[..]));
}
