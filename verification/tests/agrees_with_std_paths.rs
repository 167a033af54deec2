use std::path::Path;

use rip::path::{
    entry_destination, join_absolute, path_eq, path_join, path_starts_with, strip_path_prefix,
    strip_root,
};

const SAMPLES: [&str; 24] = [
    "", "/", "//", "a", "/a", "a/", "/a/", "./a", ".", "./", "..", "../a", "/./a", "/a/.",
    "/a/./b/.", "a//b", "/a/../b", "//./a/./", "/tmp/g", "/tmp/g/", "/tmp//g/./", ".a", "a/.b",
    "/tmp/g/x/..",
];

fn std_join_absolute(left: &str, right: &str) -> String {
    let right = Path::new(right);
    Path::new(left)
        .join(right.strip_prefix("/").map_or(right, |stripped| stripped))
        .to_string_lossy()
        .into_owned()
}

#[test]
fn join_absolute_agrees_with_std() {
    for l in SAMPLES {
        for r in SAMPLES {
            assert_eq!(join_absolute(l, r), std_join_absolute(l, r), "left {l:?} right {r:?}");
        }
    }
}

#[test]
fn path_join_agrees_with_std() {
    for l in SAMPLES {
        for r in SAMPLES {
            let expected = Path::new(l).join(r).to_string_lossy().into_owned();
            assert_eq!(path_join(l, r), expected, "base {l:?} more {r:?}");
        }
    }
}

#[test]
fn strip_root_agrees_with_std() {
    for p in SAMPLES {
        let expected = Path::new(p)
            .strip_prefix("/")
            .ok()
            .map(|q| q.to_string_lossy().into_owned());
        assert_eq!(strip_root(p), expected, "path {p:?}");
    }
}

#[test]
fn path_comparisons_agree_with_std() {
    for a in SAMPLES {
        for b in SAMPLES {
            assert_eq!(path_eq(a, b), Path::new(a) == Path::new(b), "{a:?} == {b:?}");
            assert_eq!(
                path_starts_with(a, b),
                Path::new(a).starts_with(b),
                "{a:?} starts with {b:?}"
            );
        }
    }
}

#[test]
fn strip_path_prefix_agrees_with_std() {
    for p in SAMPLES {
        for b in SAMPLES {
            let expected = Path::new(p)
                .strip_prefix(b)
                .ok()
                .map(|q| q.to_string_lossy().into_owned());
            assert_eq!(strip_path_prefix(p, b), expected, "{p:?} without {b:?}");
        }
    }
}

#[test]
fn entry_destination_agrees_with_std() {
    let entries = ["/src", "/src/a", "/src/a/b", "/src/./a//b/", "/srcx/a", "/other", "src/a"];
    for entry in entries {
        for source in ["/src", "/src/", "src"] {
            let expected = Path::new(entry)
                .strip_prefix(source)
                .ok()
                .map(|orphan| Path::new("/g/src").join(orphan).to_string_lossy().into_owned());
            assert_eq!(entry_destination("/g/src", source, entry), expected, "{entry:?} from {source:?}");
        }
    }
}
