use git_subset::filter::Filter;
use git_subset::map::OidMap;
use git_subset::oid::Oid;
use git_subset::tree::{decide, filter_tree, Decision, TreeEntry, TreeReply, TreeRequest};

fn id(text: &str) -> Oid {
    Oid::from_hex(text).unwrap()
}

fn file(name: &str, text: &str) -> TreeEntry {
    TreeEntry { name: name.as_bytes().to_vec(), id: id(text), mode: 0o100644, is_tree: false }
}

fn dir(name: &str, text: &str) -> TreeEntry {
    TreeEntry { name: name.as_bytes().to_vec(), id: id(text), mode: 0o040000, is_tree: true }
}

fn kind(d: Decision<'_>) -> &'static str {
    match d {
        Decision::Keep => "keep",
        Decision::Drop => "drop",
        Decision::Descend(_) => "descend",
    }
}

#[test]
fn every_case_of_the_decision() {
    let mut filter = Filter::new(false);
    filter.insert_include("kept");
    filter.insert_include("part/inner");
    filter.insert_include("most");
    filter.insert_exclude("most/gone");

    // A terminal child that includes keeps, one that excludes drops.
    assert_eq!(kind(decide(&filter, &file("kept", "01"))), "keep");
    assert_eq!(kind(decide(&filter, &dir("kept", "01"))), "keep");
    let most = filter.match_entry(b"most").unwrap();
    assert_eq!(kind(decide(most, &file("gone", "01"))), "drop");
    assert_eq!(kind(decide(most, &dir("gone", "01"))), "drop");
    assert_eq!(kind(decide(most, &file("rest", "01"))), "keep");
    // A child with children sends a tree on and drops anything else.
    assert_eq!(kind(decide(&filter, &dir("part", "01"))), "descend");
    assert_eq!(kind(decide(&filter, &file("part", "01"))), "drop");
    // Without a match a node that includes drops.
    assert_eq!(kind(decide(&filter, &file("other", "01"))), "drop");

    // Without a match a node that excludes keeps.
    let mut excluding = Filter::new(false);
    excluding.insert_exclude("secret/inner");
    assert_eq!(kind(decide(&excluding, &file("other", "01"))), "keep");
    assert_eq!(kind(decide(&excluding, &dir("secret", "01"))), "descend");
    let secret = excluding.match_entry(b"secret").unwrap();
    assert_eq!(kind(decide(secret, &file("inner", "01"))), "drop");
    assert_eq!(kind(decide(secret, &file("public", "01"))), "keep");

    if let Decision::Descend(node) = decide(&filter, &dir("part", "01")) {
        assert_eq!(node.child_name(0), &b"inner".to_vec());
    } else {
        panic!("a tree under a child with children is rewritten");
    }
}

#[test]
fn a_tree_that_the_map_knows_is_not_read() {
    let mut filter = Filter::new(false);
    filter.insert_include("a");
    let mut map = OidMap::new();
    map.insert(id("01"), Some(id("02")));
    map.insert(id("03"), None);

    let (walk, request) = filter_tree(&map, &filter, id("01"));
    assert_eq!(request, TreeRequest::Done(id("02")));
    assert!(walk.is_done());

    // Of a tree that was discarded only the tree without entries is left.
    let (mut walk, request) = filter_tree(&map, &filter, id("03"));
    assert_eq!(request, TreeRequest::WriteTree(vec![]));
    assert!(!walk.is_done());
    let request = walk.resume(&mut map, TreeReply::Written(Oid::empty_tree()));
    assert_eq!(request, TreeRequest::Done(Oid::empty_tree()));
    assert_eq!(map.len(), 2);
}

#[test]
fn trees_are_written_from_the_bottom_up() {
    let mut filter = Filter::new(false);
    filter.insert_include("a/b/keep");
    filter.insert_include("top");
    let mut map = OidMap::new();

    let (mut walk, request) = filter_tree(&map, &filter, id("10"));
    assert_eq!(request, TreeRequest::ReadTree(id("10")));
    assert_eq!(walk.depth(), 0);

    let root = vec![dir("a", "11"), file("other", "f1"), file("top", "f2")];
    let request = walk.resume(&mut map, TreeReply::Tree(root));
    assert_eq!(request, TreeRequest::ReadTree(id("11")));
    assert_eq!(walk.depth(), 1);

    let a = vec![dir("b", "12"), dir("c", "13")];
    let request = walk.resume(&mut map, TreeReply::Tree(a));
    assert_eq!(request, TreeRequest::ReadTree(id("12")));
    assert_eq!(walk.depth(), 2);

    let b = vec![file("drop", "f3"), file("keep", "f4")];
    let request = walk.resume(&mut map, TreeReply::Tree(b));
    assert_eq!(request, TreeRequest::WriteTree(vec![file("keep", "f4")]));

    // A reply that answers nothing is refused.
    assert_eq!(walk.resume(&mut map, TreeReply::Tree(vec![])), TreeRequest::Refused);

    let request = walk.resume(&mut map, TreeReply::Written(id("22")));
    assert_eq!(request, TreeRequest::WriteTree(vec![dir("b", "22")]));
    assert_eq!(map.get(&id("12")), Some(Some(id("22"))));

    let request = walk.resume(&mut map, TreeReply::Written(id("21")));
    assert_eq!(request, TreeRequest::WriteTree(vec![dir("a", "21"), file("top", "f2")]));

    let request = walk.resume(&mut map, TreeReply::Written(id("20")));
    assert_eq!(request, TreeRequest::Done(id("20")));
    assert!(walk.is_done());
    assert_eq!(map.get(&id("10")), Some(Some(id("20"))));
    assert_eq!(map.get(&id("11")), Some(Some(id("21"))));
    assert_eq!(map.len(), 3);

    assert_eq!(walk.resume(&mut map, TreeReply::Written(id("20"))), TreeRequest::Refused);
}

#[test]
fn a_subtree_of_which_nothing_is_left_is_left_out() {
    let mut filter = Filter::new(false);
    filter.insert_include("a/keep");
    filter.insert_include("b/keep");
    let mut map = OidMap::new();

    let (mut walk, _) = filter_tree(&map, &filter, id("10"));
    let root = vec![dir("a", "11"), dir("b", "12")];
    assert_eq!(walk.resume(&mut map, TreeReply::Tree(root)), TreeRequest::ReadTree(id("11")));
    let a = vec![file("drop", "f1")];
    // Nothing of `a` is kept: it is not written, and `b` is read next.
    assert_eq!(walk.resume(&mut map, TreeReply::Tree(a)), TreeRequest::ReadTree(id("12")));
    // Nothing of `b` either, so nothing of the root: the tree without
    // entries takes its place.
    assert_eq!(walk.resume(&mut map, TreeReply::Tree(vec![])), TreeRequest::WriteTree(vec![]));
    let request = walk.resume(&mut map, TreeReply::Written(Oid::empty_tree()));
    assert_eq!(request, TreeRequest::Done(Oid::empty_tree()));
    assert_eq!(map.len(), 0);
}

#[test]
fn a_subtree_that_the_map_knows_is_taken_from_it() {
    let mut filter = Filter::new(false);
    filter.insert_include("a/keep");
    filter.insert_include("b/keep");
    filter.insert_include("c/keep");
    let mut map = OidMap::new();
    map.insert(id("11"), Some(id("21")));
    map.insert(id("12"), None);

    let (mut walk, _) = filter_tree(&map, &filter, id("10"));
    let root = vec![dir("a", "11"), dir("b", "12"), dir("c", "11")];
    let request = walk.resume(&mut map, TreeReply::Tree(root));
    assert_eq!(request, TreeRequest::WriteTree(vec![dir("a", "21"), dir("c", "21")]));
}

#[test]
fn entries_can_be_copied() {
    let entry = dir("name", "0a");
    assert_eq!(entry.copy(), entry);
    let other = entry.replaced(id("0b"));
    assert_eq!(other, dir("name", "0b"));
}
