use caseproxy::resolve_parents;
use caseproxy::Component;
use caseproxy::InsensitivePath;

/// Builds a component list from a textual path, the way an OS path
/// parser would: a leading slash is the root marker, a leading bare dot
/// the current-directory marker, `..` a parent-directory marker, empty
/// and interior bare-dot segments are dropped.
fn comps(s: &str) -> Vec<Component> {
    let mut v: Vec<Component> = Vec::new();
    if s.starts_with('/') {
        v.push(Component::RootDir);
    }
    for seg in s.split('/') {
        if seg.is_empty() {
            continue;
        }
        if seg == "." {
            if v.is_empty() {
                v.push(Component::CurDir);
            }
            continue;
        }
        if seg == ".." {
            v.push(Component::ParentDir);
            continue;
        }
        v.push(Component::Normal(seg.as_bytes().to_vec()));
    }
    v
}

#[test]
fn test_insensitive_path() {
    let a = InsensitivePath(comps("foo"));
    let b = InsensitivePath(comps("Foo"));
    assert_eq!(a, b);

    let a_hash = a.insensitive_hash();
    let b_hash = b.insensitive_hash();
    assert_eq!(a_hash, b_hash);

    let a = InsensitivePath(comps("abc"));
    let b = InsensitivePath(comps("def"));
    assert_ne!(a, b);
    assert!(a < b);
    assert!(b > a);

    let a_hash = a.insensitive_hash();
    let b_hash = b.insensitive_hash();
    assert_ne!(a_hash, b_hash);
}

#[test]
fn test_resolve_parents() {
    assert_eq!(resolve_parents(&comps("foo")), comps("foo"));
    assert_eq!(resolve_parents(&comps("./foo")), comps("./foo"));
    assert_eq!(resolve_parents(&comps("/foo")), comps("/foo"));
    assert_eq!(resolve_parents(&comps("foo/")), comps("foo/"));
    assert_eq!(resolve_parents(&comps("./foo/")), comps("./foo/"));
    assert_eq!(resolve_parents(&comps("/foo/")), comps("/foo/"));

    assert_eq!(resolve_parents(&comps("foo/bar")), comps("foo/bar"));
    assert_eq!(resolve_parents(&comps("./foo/bar")), comps("./foo/bar"));
    assert_eq!(resolve_parents(&comps("/foo/bar")), comps("/foo/bar"));
    assert_eq!(resolve_parents(&comps("foo/bar/")), comps("foo/bar/"));
    assert_eq!(resolve_parents(&comps("./foo/bar/")), comps("./foo/bar/"));
    assert_eq!(resolve_parents(&comps("/foo/bar/")), comps("/foo/bar/"));

    assert_eq!(resolve_parents(&comps("foo/bar/..")), comps("foo"));
    assert_eq!(resolve_parents(&comps("./foo/bar/..")), comps("./foo"));
    assert_eq!(resolve_parents(&comps("/foo/bar/..")), comps("/foo"));
    assert_eq!(resolve_parents(&comps("foo/bar/../")), comps("foo"));
    assert_eq!(resolve_parents(&comps("./foo/bar/../")), comps("./foo"));
    assert_eq!(resolve_parents(&comps("/foo/bar/../")), comps("/foo"));

    assert_eq!(resolve_parents(&comps("foo/../bar")), comps("bar"));
    assert_eq!(resolve_parents(&comps("./foo/../bar")), comps("./bar"));
    assert_eq!(resolve_parents(&comps("/foo/../bar")), comps("/bar"));
    assert_eq!(resolve_parents(&comps("foo/../bar/")), comps("bar"));
    assert_eq!(resolve_parents(&comps("./foo/../bar/")), comps("./bar"));
    assert_eq!(resolve_parents(&comps("/foo/../bar/")), comps("/bar"));

    assert_eq!(resolve_parents(&comps("foo/bar/../..")), comps(""));
    assert_eq!(resolve_parents(&comps("./foo/bar/../..")), comps("."));
    assert_eq!(resolve_parents(&comps("/foo/bar/../..")), comps("/"));
    assert_eq!(resolve_parents(&comps("foo/bar/../../..")), comps(""));
    assert_eq!(resolve_parents(&comps("./foo/bar/../../..")), comps("."));
    assert_eq!(resolve_parents(&comps("/foo/bar/../../..")), comps("/"));
}

#[test]
fn resolve_parents_never_climbs_above_leading_marker() {
    assert_eq!(resolve_parents(&comps("/a/../..")), comps("/"));
    assert_eq!(resolve_parents(&comps("./a/../..")), comps("."));
    assert_eq!(resolve_parents(&comps("a/../..")), comps(""));
}

#[test]
fn resolve_parents_is_idempotent_on_samples() {
    let samples = [
        "foo/bar/../../..",
        "./foo/bar/../..",
        "/foo/../bar/baz/..",
        "../../a",
        "",
        "/",
        ".",
    ];
    for s in samples {
        let once = resolve_parents(&comps(s));
        let twice = resolve_parents(&once);
        assert_eq!(twice, once);
    }
}

#[test]
fn identity_ignores_case_for_ascii_and_multibyte() {
    for (x, y) in [("foo", "FOO"), ("foo", "Foo"), ("\u{c9}", "\u{e9}"), ("stra\u{df}e", "STRA\u{df}E")] {
        let a = InsensitivePath(comps(x));
        let b = InsensitivePath(comps(y));
        assert_eq!(a, b);
        assert_eq!(a.insensitive_hash(), b.insensitive_hash());
    }
}

#[test]
fn ordering_is_consistent_and_transitive_on_samples() {
    let a = InsensitivePath(comps("abc"));
    let b = InsensitivePath(comps("DEF"));
    let c = InsensitivePath(comps("ghi"));
    assert!(a < b);
    assert!(b < c);
    assert!(a < c);
    assert!(c > a);
    let equal_pairs = InsensitivePath(comps("x/y"));
    let longer = InsensitivePath(comps("x/y/z"));
    assert!(equal_pairs < longer);
    let marker = InsensitivePath(comps("/x"));
    let named = InsensitivePath(comps("x/x"));
    assert!(marker < named);
}

#[test]
fn hash_follows_identity_not_spelling() {
    let a = InsensitivePath(comps("Mixed/CASE/path"));
    let b = InsensitivePath(comps("mixed/case/PATH"));
    assert_eq!(a, b);
    assert_eq!(a.insensitive_hash(), b.insensitive_hash());
    let c = InsensitivePath(comps("mixed/case/paths"));
    assert_ne!(b, c);
}
