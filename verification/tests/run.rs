use git_subset::commit::{found_parents, ids_of, is_empty_commit, remap_parents, Parent};
use git_subset::map::OidMap;
use git_subset::oid::Oid;
use git_subset::run::{outcome, progress_due, revisions, Args, Revisions, SubsetError};

fn id(text: &str) -> Oid {
    Oid::from_hex(text).unwrap()
}

fn args(paths: Vec<&str>) -> Args {
    Args {
        quiet: false,
        force: false,
        nomap: false,
        repo: ".".to_string(),
        branch: "subset".to_string(),
        filter_file: None,
        paths: paths.into_iter().map(|p| p.to_string()).collect(),
        revspec: "HEAD".to_string(),
    }
}

#[test]
fn a_filter_needs_a_path() {
    assert_eq!(args(vec![]).filter(None).err(), Some(SubsetError::NoPaths));
    assert_eq!(args(vec![]).filter(Some(b"# nothing\n\n")).err(), Some(SubsetError::NoPaths));
    assert_eq!(args(vec!["/", "."]).filter(None).err(), Some(SubsetError::NoPaths));
    assert!(args(vec!["a"]).filter(None).is_ok());
    assert!(args(vec![]).filter(Some(b"a\n")).is_ok());
}

#[test]
fn paths_are_included_after_the_filter_file() {
    let filter = args(vec!["x/y", "a/b/c"]).filter(Some(b"a/b\n# !EXCLUDES!\na/b/c\n")).unwrap();
    assert_eq!(filter.len(), 2);
    assert_eq!(filter.child_name(0), &b"a".to_vec());
    assert_eq!(filter.child_name(1), &b"x".to_vec());
    // `a/b/c` was excluded before, so including it changes nothing.
    let b = filter.child(0).child(0);
    assert_eq!(filter.child(0).child_name(0), &b"b".to_vec());
    assert!(b.excludes());
    let c = b.child(0);
    assert!(c.excludes() && c.is_empty());
    assert!(filter.child(1).child(0).is_empty());
    assert!(!filter.child(1).child(0).excludes());
}

#[test]
fn revisions_have_one_end_or_two() {
    let (a, b) = (id("0a"), id("0b"));
    assert_eq!(revisions(Some(a), Some(b)), Ok(Revisions::Between { from: a, to: b }));
    assert_eq!(revisions(Some(a), None), Ok(Revisions::ReachableFrom(a)));
    assert_eq!(revisions(None, Some(b)), Err(SubsetError::InvalidRevisions));
    assert_eq!(revisions(None, None), Err(SubsetError::InvalidRevisions));
}

#[test]
fn a_run_without_a_tip_is_an_error() {
    let a = id("0a");
    assert_eq!(outcome(Some(a)), Ok(a));
    assert_eq!(outcome(None), Err(SubsetError::NothingLeft));
}

#[test]
fn errors_have_their_lines() {
    assert_eq!(
        SubsetError::NoPaths.message(),
        "Error: Please specify paths to include with either `--filter-file` or `--path`."
    );
    assert_eq!(SubsetError::InvalidRevisions.message(), "Error: Invalid revspec.");
    assert_eq!(
        SubsetError::NothingLeft.message(),
        "Error: Filtering only produced empty commits. No branch created."
    );
}

#[test]
fn progress_is_due_at_every_hundredth() {
    // Up to 199 commits every one is reported.
    assert!(progress_due(0, 0));
    assert!(progress_due(0, 1));
    assert!(progress_due(57, 199));
    // From 200 on only every hundredth part.
    assert!(progress_due(0, 200));
    assert!(!progress_due(1, 200));
    assert!(progress_due(2, 200));
    assert!(progress_due(1230, 12345));
    assert!(!progress_due(1231, 12345));
    assert_eq!((0..1000).filter(|i| progress_due(*i, 1000)).count(), 100);
    assert_eq!((0..12345).filter(|i| progress_due(*i, 12345)).count(), 101);
}

#[test]
fn a_commit_is_empty_if_it_changes_nothing() {
    let (t, u) = (id("01"), id("02"));
    let p = |tree: Oid| Parent { id: id("0f"), tree };
    assert!(is_empty_commit(&t, &vec![p(t)]));
    assert!(is_empty_commit(&t, &vec![p(t), p(t)]));
    assert!(!is_empty_commit(&t, &vec![p(u)]));
    assert!(!is_empty_commit(&t, &vec![p(t), p(u)]));
    assert!(!is_empty_commit(&t, &vec![p(u), p(t)]));
    // Without parents the tree decides.
    assert!(!is_empty_commit(&t, &vec![]));
    assert!(is_empty_commit(&Oid::empty_tree(), &vec![]));
    // With parents the empty tree is a tree like any other.
    assert!(!is_empty_commit(&Oid::empty_tree(), &vec![p(t)]));
    assert!(is_empty_commit(&Oid::empty_tree(), &vec![p(Oid::empty_tree())]));
}

#[test]
fn parents_are_resolved_or_left_out() {
    let (a, b, c, d, e) = (id("0a"), id("0b"), id("0c"), id("0d"), id("0e"));
    let mut map = OidMap::new();
    map.insert(a, Some(b));
    map.insert(b, Some(c));
    map.insert(d, None);
    // `a` resolves through `b`, `d` was discarded, `e` is not known.
    assert_eq!(remap_parents(&map, &vec![a, d, e, b, a]), vec![c, c, c]);
    assert_eq!(remap_parents(&map, &vec![]), Vec::<Oid>::new());
    assert_eq!(remap_parents(&map, &vec![e, d]), Vec::<Oid>::new());
}

#[test]
fn parents_that_are_not_found_are_left_out() {
    let (a, b, c, t, u) = (id("0a"), id("0b"), id("0c"), id("01"), id("02"));
    let found = found_parents(&vec![a, b, c], &vec![Some(t), None, Some(u)]);
    assert_eq!(found, vec![Parent { id: a, tree: t }, Parent { id: c, tree: u }]);
    assert_eq!(ids_of(&found), vec![a, c]);
    // An answer that is too short leaves the rest out.
    assert_eq!(found_parents(&vec![a, b, c], &vec![Some(t)]), vec![Parent { id: a, tree: t }]);
    assert_eq!(found_parents(&vec![], &vec![Some(t)]), vec![]);
}
