use caseproxy::resolve::DirEntry;
use caseproxy::resolve::DirListing;
use caseproxy::resolve::ResolveError;
use caseproxy::Component;
use caseproxy::InsensitivePath;

fn comps(s: &str) -> Vec<Component> {
    let mut v: Vec<Component> = Vec::new();
    if s.starts_with('/') {
        v.push(Component::RootDir);
    }
    for seg in s.split('/') {
        if seg.is_empty() {
            continue;
        }
        if seg == "." {
            if v.is_empty() {
                v.push(Component::CurDir);
            }
            continue;
        }
        if seg == ".." {
            v.push(Component::ParentDir);
            continue;
        }
        v.push(Component::Normal(seg.as_bytes().to_vec()));
    }
    v
}

fn listing(path: &[&str], entries: &[(&str, bool)]) -> DirListing {
    DirListing {
        path: path.iter().map(|n| n.as_bytes().to_vec()).collect(),
        entries: entries
            .iter()
            .map(|(n, d)| DirEntry { name: n.as_bytes().to_vec(), is_dir: *d })
            .collect(),
    }
}

/// The tree the searching tests run against, as the resolver would see
/// it while walking from the root.
fn sample_tree() -> Vec<DirListing> {
    vec![
        listing(
            &[],
            &[
                ("normal.txt", false),
                ("abc.txt", false),
                ("Abc.txt", false),
                ("nested", true),
                ("deeply", true),
            ],
        ),
        listing(
            &["nested"],
            &[("normal.txt", false), ("abc.txt", false), ("Abc.txt", false)],
        ),
        listing(&["deeply"], &[("nested", true), ("Nested", true)]),
        listing(&["deeply", "nested"], &[("abc.txt", false), ("Abc.txt", false)]),
        listing(&["deeply", "Nested"], &[("abc.txt", false), ("Abc.txt", false)]),
    ]
}

fn find(path: &str, tree: &Vec<DirListing>) -> Result<Vec<Vec<Component>>, ResolveError> {
    let root = comps("/srv/files");
    let mut full = root.clone();
    full.extend(comps(path));
    InsensitivePath(full).find_matching_files(Some(&root), tree)
}

#[test]
fn resolving_a_unique_name_finds_exactly_it() {
    let tree = sample_tree();
    assert_eq!(
        find("normal.txt", &tree),
        Ok(vec![comps("/srv/files/normal.txt")])
    );
}

#[test]
fn sibling_case_collisions_are_all_found() {
    let tree = sample_tree();
    assert_eq!(
        find("abc.txt", &tree),
        Ok(vec![comps("/srv/files/abc.txt"), comps("/srv/files/Abc.txt")])
    );
    assert_eq!(
        find("nested/normal.txt", &tree),
        Ok(vec![comps("/srv/files/nested/normal.txt")])
    );
    assert_eq!(
        find("nested/abc.txt", &tree),
        Ok(vec![
            comps("/srv/files/nested/abc.txt"),
            comps("/srv/files/nested/Abc.txt"),
        ])
    );
}

#[test]
fn collisions_at_two_depths_give_the_full_cross_product() {
    let tree = sample_tree();
    assert_eq!(
        find("Deeply/Nested/abc.txt", &tree),
        Ok(vec![
            comps("/srv/files/deeply/nested/abc.txt"),
            comps("/srv/files/deeply/nested/Abc.txt"),
            comps("/srv/files/deeply/Nested/abc.txt"),
            comps("/srv/files/deeply/Nested/Abc.txt"),
        ])
    );
}

#[test]
fn resolving_without_matches_returns_the_empty_set() {
    let tree = sample_tree();
    assert_eq!(find("missing.txt", &tree), Ok(vec![]));
    assert_eq!(find("nested/missing.txt", &tree), Ok(vec![]));
}

#[test]
fn a_target_outside_the_root_is_rejected() {
    let tree = sample_tree();
    let root = comps("/srv/files");
    let target = InsensitivePath(comps("/other/abc.txt"));
    assert_eq!(
        target.find_matching_files(Some(&root), &tree),
        Err(ResolveError::NotUnderRoot)
    );
    // The check is case-sensitive: a root spelled differently does not
    // count as a prefix.
    let target = InsensitivePath(comps("/SRV/files/abc.txt"));
    assert_eq!(
        target.find_matching_files(Some(&root), &tree),
        Err(ResolveError::NotUnderRoot)
    );
}

#[test]
fn a_target_equal_to_the_root_or_with_markers_is_invalid() {
    let tree = sample_tree();
    let root = comps("/srv/files");
    let target = InsensitivePath(comps("/srv/files"));
    assert_eq!(
        target.find_matching_files(Some(&root), &tree),
        Err(ResolveError::InvalidTarget)
    );
    let target = InsensitivePath(comps("/srv/files/a/../b.txt"));
    assert_eq!(
        target.find_matching_files(Some(&root), &tree),
        Err(ResolveError::InvalidTarget)
    );
}

#[test]
fn a_missing_listing_aborts_with_an_error() {
    // The root listing shows a matching directory, but the directory
    // itself was never listed.
    let tree = vec![listing(&[], &[("sub", true)])];
    let root = comps("/srv/files");
    let target = InsensitivePath(comps("/srv/files/Sub/file.txt"));
    assert_eq!(
        target.find_matching_files(Some(&root), &tree),
        Err(ResolveError::Io)
    );
}

#[test]
fn the_default_root_is_the_current_directory() {
    let tree = vec![listing(&[], &[("abc.txt", false), ("Abc.txt", false)])];
    let target = InsensitivePath(comps("abc.txt"));
    assert_eq!(
        target.find_matching_files(None, &tree),
        Ok(vec![comps("./abc.txt"), comps("./Abc.txt")])
    );
}

#[test]
fn matching_is_case_insensitive_beyond_ascii() {
    let tree = vec![listing(&[], &[("caf\u{c9}.txt", false)])];
    let root = comps("/srv");
    let target = InsensitivePath(comps("/srv/caf\u{e9}.txt"));
    assert_eq!(
        target.find_matching_files(Some(&root), &tree),
        Ok(vec![comps("/srv/caf\u{c9}.txt")])
    );
}

#[test]
fn only_directories_fan_out_at_intermediate_levels() {
    // A plain file whose name matches an intermediate component is not
    // descended into.
    let tree = vec![
        listing(&[], &[("sub", false), ("Sub", true)]),
        listing(&["Sub"], &[("x.txt", false)]),
    ];
    let root = comps("/r");
    let target = InsensitivePath(comps("/r/sub/x.txt"));
    assert_eq!(
        target.find_matching_files(Some(&root), &tree),
        Ok(vec![comps("/r/Sub/x.txt")])
    );
}
