use std::collections::HashMap;

use git_subset::commit::{Commit, Signature};
use git_subset::filter::Filter;
use git_subset::map::OidMap;
use git_subset::oid::Oid;
use git_subset::rewrite::{Reply, Request, Rewriter};
use git_subset::tree::TreeEntry;

/// A store held in memory, with identifiers computed from the content.
struct Store {
    trees: HashMap<Oid, Vec<TreeEntry>>,
    commits: HashMap<Oid, Commit>,
    tree_writes: usize,
    commit_writes: usize,
}

fn digest(kind: git2::ObjectType, bytes: &[u8]) -> Oid {
    let raw = git2::Oid::hash_object(kind, bytes).unwrap();
    let mut out = [0u8; 20];
    out.copy_from_slice(raw.as_bytes());
    Oid { bytes: out }
}

fn blob(content: &str) -> Oid {
    digest(git2::ObjectType::Blob, content.as_bytes())
}

fn file(name: &str, content: &str) -> TreeEntry {
    TreeEntry { name: name.as_bytes().to_vec(), id: blob(content), mode: 0o100644, is_tree: false }
}

fn dir(name: &str, id: Oid) -> TreeEntry {
    TreeEntry { name: name.as_bytes().to_vec(), id, mode: 0o040000, is_tree: true }
}

fn person(name: &str, seconds: i64) -> Signature {
    Signature {
        name: name.as_bytes().to_vec(),
        email: format!("{}@example.org", name).into_bytes(),
        seconds,
        offset_minutes: 60,
    }
}

fn copy_entries(entries: &[TreeEntry]) -> Vec<TreeEntry> {
    entries.iter().map(|e| e.copy()).collect()
}

fn copy_person(s: &Signature) -> Signature {
    Signature {
        name: s.name.clone(),
        email: s.email.clone(),
        seconds: s.seconds,
        offset_minutes: s.offset_minutes,
    }
}

fn copy_commit(c: &Commit) -> Commit {
    Commit {
        tree: c.tree,
        parents: c.parents.clone(),
        author: copy_person(&c.author),
        committer: copy_person(&c.committer),
        message: c.message.clone(),
    }
}

impl Store {
    fn new() -> Store {
        Store { trees: HashMap::new(), commits: HashMap::new(), tree_writes: 0, commit_writes: 0 }
    }

    fn write_tree(&mut self, entries: Vec<TreeEntry>) -> Oid {
        let mut bytes: Vec<u8> = Vec::new();
        for e in &entries {
            bytes.extend_from_slice(format!("{:o} ", e.mode).as_bytes());
            bytes.extend_from_slice(&e.name);
            bytes.push(0);
            bytes.extend_from_slice(&e.id.bytes);
        }
        let id = digest(git2::ObjectType::Tree, &bytes);
        self.trees.insert(id, entries);
        self.tree_writes += 1;
        id
    }

    fn write_commit(&mut self, commit: Commit) -> Oid {
        let mut bytes: Vec<u8> = Vec::new();
        bytes.extend_from_slice(&commit.tree.bytes);
        for p in &commit.parents {
            bytes.extend_from_slice(&p.bytes);
        }
        for who in [&commit.author, &commit.committer] {
            bytes.extend_from_slice(&who.name);
            bytes.push(0);
            bytes.extend_from_slice(&who.email);
            bytes.push(0);
            bytes.extend_from_slice(format!("{} {}", who.seconds, who.offset_minutes).as_bytes());
        }
        bytes.extend_from_slice(&commit.message);
        let id = digest(git2::ObjectType::Commit, &bytes);
        self.commits.insert(id, commit);
        self.commit_writes += 1;
        id
    }

    fn commit(&mut self, tree: Oid, parents: &[Oid], message: &str, seconds: i64) -> Oid {
        self.write_commit(Commit {
            tree,
            parents: parents.to_vec(),
            author: person("author", seconds),
            committer: person("committer", seconds + 1),
            message: message.as_bytes().to_vec(),
        })
    }

    /// Answers the requests of a rewriter until it finishes.
    fn run(&mut self, filter: &Filter, map: OidMap, commits: Vec<Oid>) -> (Option<Oid>, OidMap) {
        let (mut rewriter, mut request) = Rewriter::new(filter, map, commits);
        loop {
            let reply = match request {
                Request::ReadCommit(id) => Reply::Commit(copy_commit(&self.commits[&id])),
                Request::ReadParents(ids) => Reply::Parents(
                    ids.iter().map(|id| self.commits.get(id).map(|c| c.tree)).collect(),
                ),
                Request::ReadTree(id) => Reply::Tree(copy_entries(&self.trees[&id])),
                Request::WriteTree(entries) => Reply::Written(self.write_tree(entries)),
                Request::WriteCommit(commit) => Reply::Written(self.write_commit(commit)),
                Request::Finish(tip) => {
                    assert!(rewriter.is_finished());
                    assert_eq!(rewriter.tip(), tip);
                    return (tip, rewriter.into_map());
                }
                Request::Refused => panic!("a reply was refused"),
            };
            request = rewriter.step(reply);
        }
    }
}

fn sorted_entries(map: &OidMap) -> Vec<(Oid, Option<Oid>)> {
    let mut all: Vec<(Oid, Option<Oid>)> = Vec::new();
    for i in 0..map.len() {
        let e = map.entry(i);
        all.push((e.key, e.value));
    }
    all.sort_by(|a, b| a.0.bytes.cmp(&b.0.bytes));
    all
}

/// Three commits in a line: the first adds `a.txt`, the second adds
/// `b.txt`, the third changes `a.txt`.
fn linear_history(store: &mut Store) -> Vec<Oid> {
    let t1 = store.write_tree(vec![file("a.txt", "one")]);
    let t2 = store.write_tree(vec![file("a.txt", "one"), file("b.txt", "other")]);
    let t3 = store.write_tree(vec![file("a.txt", "two"), file("b.txt", "other")]);
    let c1 = store.commit(t1, &[], "add a", 100);
    let c2 = store.commit(t2, &[c1], "add b", 200);
    let c3 = store.commit(t3, &[c2], "change a", 300);
    vec![c1, c2, c3]
}

fn only_a() -> Filter {
    let mut filter = Filter::new(false);
    filter.insert_include("a.txt");
    filter
}

#[test]
fn linear_history_keeps_two_commits() {
    let mut store = Store::new();
    let commits = linear_history(&mut store);
    let filter = only_a();

    let (tip, map) = store.run(&filter, OidMap::new(), commits.clone());

    let n3 = tip.unwrap();
    let third = copy_commit(&store.commits[&n3]);
    assert_eq!(third.parents.len(), 1);
    let n1 = third.parents[0];
    let first = copy_commit(&store.commits[&n1]);
    assert_eq!(first.parents.len(), 0);

    // The second commit was discarded: whoever asks for it gets the first.
    assert_eq!(map.resolve(&commits[0]), Some(Some(n1)));
    assert_eq!(map.resolve(&commits[1]), Some(Some(n1)));
    assert_eq!(map.resolve(&commits[2]), Some(Some(n3)));
    assert_ne!(n1, n3);

    // Each tree holds `a.txt` alone, with the content it had.
    assert_eq!(store.trees[&first.tree], vec![file("a.txt", "one")]);
    assert_eq!(store.trees[&third.tree], vec![file("a.txt", "two")]);

    // What is not filtered is handed on as it was.
    let original = &store.commits[&commits[2]];
    assert_eq!(third.author, original.author);
    assert_eq!(third.committer, original.committer);
    assert_eq!(third.message, b"change a".to_vec());
}

#[test]
fn second_run_gives_the_same_tip_and_map() {
    let mut store = Store::new();
    let commits = linear_history(&mut store);
    let filter = only_a();

    let (tip, map) = store.run(&filter, OidMap::new(), commits.clone());
    let first = sorted_entries(&map);
    let text = map.write();

    let reloaded = OidMap::from_reader(&text);
    assert_eq!(sorted_entries(&reloaded), first);

    let trees = store.tree_writes;
    let written = store.commit_writes;
    let (again, map) = store.run(&filter, reloaded, commits);
    assert_eq!(again, tip);
    assert_eq!(sorted_entries(&map), first);
    // Nothing had to be written the second time.
    assert_eq!(store.tree_writes, trees);
    assert_eq!(store.commit_writes, written);
}

#[test]
fn pruned_root_leaves_a_new_root() {
    let mut store = Store::new();
    let t1 = store.write_tree(vec![file("b.txt", "other")]);
    let t2 = store.write_tree(vec![file("a.txt", "one"), file("b.txt", "other")]);
    let c1 = store.commit(t1, &[], "add b", 100);
    let c2 = store.commit(t2, &[c1], "add a", 200);
    let filter = only_a();

    let (tip, map) = store.run(&filter, OidMap::new(), vec![c1, c2]);

    assert_eq!(map.get(&c1), Some(None));
    assert_eq!(map.resolve(&c1), Some(None));
    let n2 = tip.unwrap();
    assert_eq!(map.resolve(&c2), Some(Some(n2)));
    assert_eq!(store.commits[&n2].parents, Vec::<Oid>::new());
    assert_eq!(store.trees[&store.commits[&n2].tree], vec![file("a.txt", "one")]);
}

#[test]
fn nothing_left_gives_no_tip() {
    let mut store = Store::new();
    let t1 = store.write_tree(vec![file("b.txt", "other")]);
    let c1 = store.commit(t1, &[], "add b", 100);
    let c2 = store.commit(t1, &[c1], "again", 200);
    let filter = only_a();

    let (tip, map) = store.run(&filter, OidMap::new(), vec![c1, c2]);

    assert_eq!(tip, None);
    assert_eq!(map.resolve(&c1), Some(None));
    assert_eq!(map.resolve(&c2), Some(None));
}

#[test]
fn no_commits_gives_no_tip() {
    let mut store = Store::new();
    let filter = only_a();
    let (tip, map) = store.run(&filter, OidMap::new(), vec![]);
    assert_eq!(tip, None);
    assert_eq!(map.len(), 0);
}

#[test]
fn subtrees_are_rewritten_bottom_up() {
    let mut store = Store::new();
    let inner = store.write_tree(vec![file("keep.txt", "k"), file("drop.txt", "d")]);
    let other = store.write_tree(vec![file("x.txt", "x")]);
    let root = store.write_tree(vec![
        dir("docs", other),
        file("src", "a file called src"),
        dir("src2", inner),
        dir("lib", inner),
    ]);
    let c1 = store.commit(root, &[], "all", 100);
    let mut filter = Filter::new(false);
    filter.insert_include("lib/keep.txt");
    filter.insert_include("docs");
    filter.insert_include("src/keep.txt");

    let (tip, map) = store.run(&filter, OidMap::new(), vec![c1]);

    let new_inner = store.write_tree(vec![file("keep.txt", "k")]);
    let n1 = tip.unwrap();
    // `docs` is kept whole, `src` is a file where a tree is asked for, and
    // `src2` matches nothing.
    assert_eq!(
        store.trees[&store.commits[&n1].tree],
        vec![dir("docs", other), dir("lib", new_inner)]
    );
    assert_eq!(map.get(&inner), Some(Some(new_inner)));
    assert_eq!(map.get(&root), Some(Some(store.commits[&n1].tree)));
    assert_eq!(map.get(&other), None);
}

#[test]
fn filtering_a_filtered_tree_changes_nothing() {
    let mut store = Store::new();
    let inner = store.write_tree(vec![file("keep.txt", "k"), file("drop.txt", "d")]);
    let root = store.write_tree(vec![dir("lib", inner), file("top.txt", "t")]);
    let c1 = store.commit(root, &[], "all", 100);
    let mut filter = Filter::new(false);
    filter.insert_include("lib/keep.txt");

    let (tip, _) = store.run(&filter, OidMap::new(), vec![c1]);
    let n1 = tip.unwrap();
    let filtered = store.commits[&n1].tree;
    assert_ne!(filtered, root);

    let c2 = store.commit(filtered, &[], "filtered", 200);
    let (tip, map) = store.run(&filter, OidMap::new(), vec![c2]);
    assert_eq!(store.commits[&tip.unwrap()].tree, filtered);
    assert_eq!(map.get(&filtered), Some(Some(filtered)));
}

#[test]
fn excluded_paths_are_dropped_and_the_rest_is_kept() {
    let mut store = Store::new();
    let inner = store.write_tree(vec![file("keep.txt", "k"), file("secret.txt", "s")]);
    let root = store.write_tree(vec![dir("lib", inner), file("top.txt", "t")]);
    let c1 = store.commit(root, &[], "all", 100);
    let mut filter = Filter::new(false);
    filter.insert_exclude("lib/secret.txt");

    let (tip, _) = store.run(&filter, OidMap::new(), vec![c1]);

    let new_inner = store.write_tree(vec![file("keep.txt", "k")]);
    assert_eq!(
        store.trees[&store.commits[&tip.unwrap()].tree],
        vec![dir("lib", new_inner), file("top.txt", "t")]
    );
}

#[test]
fn empty_root_tree_is_the_tree_without_entries() {
    let mut store = Store::new();
    let t1 = store.write_tree(vec![file("b.txt", "other")]);
    let t2 = store.write_tree(vec![file("a.txt", "one")]);
    let c1 = store.commit(t2, &[], "add a", 100);
    let c2 = store.commit(t1, &[c1], "replace by b", 200);
    let filter = only_a();

    let (tip, map) = store.run(&filter, OidMap::new(), vec![c1, c2]);

    // The second commit differs from its parent: it is kept, with no entries.
    let n2 = tip.unwrap();
    assert_eq!(map.resolve(&c2), Some(Some(n2)));
    assert_eq!(store.trees[&store.commits[&n2].tree], Vec::<TreeEntry>::new());
    // A tree of which nothing is kept is not remembered.
    assert_eq!(map.get(&t1), None);
}

#[test]
fn a_reply_that_answers_nothing_is_refused() {
    let filter = only_a();
    let c1 = blob("not a commit");
    let (mut rewriter, request) = Rewriter::new(&filter, OidMap::new(), vec![c1]);
    assert_eq!(request, Request::ReadCommit(c1));
    assert_eq!(rewriter.step(Reply::Written(c1)), Request::Refused);
    assert_eq!(rewriter.step(Reply::Tree(vec![])), Request::Refused);
    assert_eq!(rewriter.position(), 0);
    assert_eq!(rewriter.total(), 1);
    assert_eq!(rewriter.current(), Some(c1));
    assert_eq!(rewriter.tip(), None);
    assert_eq!(rewriter.map().len(), 0);
    assert!(!rewriter.is_finished());
}

#[test]
fn the_map_can_be_had_at_any_time() {
    let mut store = Store::new();
    let commits = linear_history(&mut store);
    let filter = only_a();
    let (mut rewriter, request) = Rewriter::new(&filter, OidMap::new(), commits.clone());
    assert_eq!(request, Request::ReadCommit(commits[0]));
    let request = rewriter.step(Reply::Commit(copy_commit(&store.commits[&commits[0]])));
    let tree = store.commits[&commits[0]].tree;
    assert_eq!(request, Request::ReadTree(tree));
    let request = rewriter.step(Reply::Tree(copy_entries(&store.trees[&tree])));
    assert_eq!(request, Request::WriteTree(vec![file("a.txt", "one")]));
    let request = rewriter.step(Reply::Written(tree));
    // The tree is remembered as soon as it is written, and the commit has
    // no parents to look up.
    assert_eq!(request, Request::ReadParents(vec![]));
    assert_eq!(rewriter.map().get(&tree), Some(Some(tree)));
    let request = rewriter.step(Reply::Parents(vec![]));
    let original = copy_commit(&store.commits[&commits[0]]);
    assert_eq!(request, Request::WriteCommit(original));
    // A rewritten commit that is the commit itself is held for itself.
    let request = rewriter.step(Reply::Written(commits[0]));
    assert_eq!(request, Request::ReadCommit(commits[1]));
    assert_eq!(rewriter.position(), 1);
    assert_eq!(rewriter.current(), Some(commits[1]));
    assert_eq!(rewriter.tip(), Some(commits[0]));
    let map = rewriter.into_map();
    assert_eq!(map.resolve(&commits[0]), Some(Some(commits[0])));
    assert_eq!(map.len(), 2);
}

/// A history with two branches that come to the same, and their merge.
fn merged_history(store: &mut Store) -> Vec<Oid> {
    let ta = store.write_tree(vec![file("keep", "k"), file("x", "0")]);
    let tb = store.write_tree(vec![file("keep", "k2"), file("x", "1")]);
    let tc = store.write_tree(vec![file("keep", "k2"), file("x", "3")]);
    let tm = store.write_tree(vec![file("keep", "k2"), file("x", "4")]);
    let a = store.commit(ta, &[], "base", 100);
    let b = store.commit(tb, &[a], "left", 200);
    let c = store.commit(tc, &[a], "right", 300);
    let m = store.commit(tm, &[b, c], "merge", 400);
    vec![a, b, c, m]
}

#[test]
fn a_discarded_merge_at_the_end_does_not_move_the_tip() {
    let mut store = Store::new();
    let commits = merged_history(&mut store);
    let mut filter = Filter::new(false);
    filter.insert_include("keep");

    let (tip, map) = store.run(&filter, OidMap::new(), commits.clone());
    let b2 = map.get(&commits[1]).unwrap().unwrap();
    let c2 = map.get(&commits[2]).unwrap().unwrap();
    assert_ne!(b2, c2);
    // The merge has the tree of both its parents: it is discarded for the
    // first of them, and the commit kept last is the tip.
    assert_eq!(map.get(&commits[3]), Some(Some(b2)));
    assert_eq!(tip, Some(c2));
    let first = sorted_entries(&map);

    // A second and a third run end as the first.
    let written = (store.tree_writes, store.commit_writes);
    let (again, map) = store.run(&filter, OidMap::from_reader(&map.write()), commits.clone());
    assert_eq!(again, Some(c2));
    assert_eq!(sorted_entries(&map), first);
    let (third, map) = store.run(&filter, map, commits);
    assert_eq!(third, Some(c2));
    assert_eq!(sorted_entries(&map), first);
    assert_eq!((store.tree_writes, store.commit_writes), written);
}

#[test]
fn a_second_run_passes_over_what_was_discarded() {
    let mut store = Store::new();
    let t1 = store.write_tree(vec![file("b.txt", "other")]);
    let t2 = store.write_tree(vec![file("a.txt", "one"), file("b.txt", "other")]);
    let t3 = store.write_tree(vec![file("a.txt", "one"), file("b.txt", "more")]);
    let c1 = store.commit(t1, &[], "add b", 100);
    let c2 = store.commit(t2, &[c1], "add a", 200);
    let c3 = store.commit(t3, &[c2], "change b", 300);
    let filter = only_a();

    let (tip, map) = store.run(&filter, OidMap::new(), vec![c1, c2, c3]);
    let n2 = tip.unwrap();
    assert_eq!(map.get(&c1), Some(None));
    assert_eq!(map.get(&c2), Some(Some(n2)));
    assert_eq!(map.get(&c3), Some(Some(n2)));
    let first = sorted_entries(&map);

    let (mut rewriter, request) = Rewriter::new(&filter, map, vec![c1, c2, c3]);
    // The root was discarded: nothing is asked for it.
    assert_eq!(rewriter.position(), 1);
    assert_eq!(request, Request::ReadCommit(n2));
    let request = rewriter.step(Reply::Commit(copy_commit(&store.commits[&n2])));
    assert_eq!(request, Request::ReadCommit(c2));
    let request = rewriter.step(Reply::Commit(copy_commit(&store.commits[&c2])));
    // The parent of the second commit was discarded: it has none now.
    assert_eq!(request, Request::ReadParents(vec![]));
    let request = rewriter.step(Reply::Parents(vec![]));
    assert_eq!(rewriter.tip(), Some(n2));
    // The third commit was discarded for the second.
    assert_eq!(request, Request::ReadCommit(n2));
    let request = rewriter.step(Reply::Commit(copy_commit(&store.commits[&n2])));
    assert_eq!(request, Request::ReadCommit(c3));
    let request = rewriter.step(Reply::Commit(copy_commit(&store.commits[&c3])));
    assert_eq!(request, Request::ReadParents(vec![n2]));
    let tree = store.commits[&n2].tree;
    let request = rewriter.step(Reply::Parents(vec![Some(tree)]));
    assert_eq!(request, Request::Finish(Some(n2)));
    assert_eq!(sorted_entries(&rewriter.into_map()), first);
}

#[test]
fn a_later_run_over_more_commits_goes_on_from_the_map() {
    let mut store = Store::new();
    let commits = linear_history(&mut store);
    let t4 = store.write_tree(vec![file("a.txt", "two"), file("b.txt", "more")]);
    let c4 = store.commit(t4, &[commits[2]], "change b", 400);
    let filter = only_a();

    let (tip, map) = store.run(&filter, OidMap::new(), commits.clone());
    let n3 = tip.unwrap();
    // The fourth commit alone: it changes nothing that is kept.
    let (tip, map) = store.run(&filter, map, vec![c4]);
    assert_eq!(tip, None);
    assert_eq!(map.get(&c4), Some(Some(n3)));
    let (tip, map) = store.run(&filter, map, vec![c4]);
    assert_eq!(tip, None);
    // All four: the tip is the third, as if they had been rewritten at once.
    let mut all = commits.clone();
    all.push(c4);
    let (tip, _) = store.run(&filter, map, all.clone());
    assert_eq!(tip, Some(n3));
    let (fresh, _) = store.run(&filter, OidMap::new(), all);
    assert_eq!(fresh, Some(n3));
}
