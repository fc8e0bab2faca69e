use git_subset::commit::{Commit, Signature};
use git_subset::filter::Filter;
use git_subset::map::OidMap;
use git_subset::oid::Oid;
use git_subset::rewrite::{Reply, Request, Rewriter};
use git_subset::tree::TreeEntry;

/// A repository whose objects are held in memory.
fn repository() -> git2::Repository {
    let odb = git2::Odb::new().unwrap();
    odb.add_new_mempack_backend(1000).unwrap();
    git2::Repository::from_odb(odb).unwrap()
}

fn from_git(id: git2::Oid) -> Oid {
    let mut bytes = [0u8; 20];
    bytes.copy_from_slice(id.as_bytes());
    Oid { bytes }
}

fn to_git(id: &Oid) -> git2::Oid {
    git2::Oid::from_bytes(&id.bytes).unwrap()
}

fn read_commit(repo: &git2::Repository, id: &Oid) -> Commit {
    let commit = repo.find_commit(to_git(id)).unwrap();
    let person = |who: git2::Signature<'_>| Signature {
        name: who.name_bytes().to_vec(),
        email: who.email_bytes().to_vec(),
        seconds: who.when().seconds(),
        offset_minutes: who.when().offset_minutes(),
    };
    let author = person(commit.author());
    let committer = person(commit.committer());
    let parents: Vec<Oid> = commit.parent_ids().map(from_git).collect();
    let message = commit.message_bytes().to_vec();
    Commit { tree: from_git(commit.tree_id()), parents, author, committer, message }
}

fn read_tree(repo: &git2::Repository, id: &Oid) -> Vec<TreeEntry> {
    let tree = repo.find_tree(to_git(id)).unwrap();
    let mut entries = Vec::new();
    for index in 0..tree.len() {
        let entry = tree.get(index).unwrap();
        entries.push(TreeEntry {
            name: entry.name_bytes().to_vec(),
            id: from_git(entry.id()),
            mode: entry.filemode(),
            is_tree: entry.kind() == Some(git2::ObjectType::Tree),
        });
    }
    entries
}

fn write_tree(repo: &git2::Repository, entries: &[TreeEntry]) -> Oid {
    let mut builder = repo.treebuilder(None).unwrap();
    for entry in entries {
        builder.insert(entry.name.as_slice(), to_git(&entry.id), entry.mode).unwrap();
    }
    from_git(builder.write().unwrap())
}

fn write_commit(repo: &git2::Repository, commit: &Commit) -> Oid {
    let person = |who: &Signature| {
        git2::Signature::new(
            std::str::from_utf8(&who.name).unwrap(),
            std::str::from_utf8(&who.email).unwrap(),
            &git2::Time::new(who.seconds, who.offset_minutes),
        )
        .unwrap()
    };
    let tree = repo.find_tree(to_git(&commit.tree)).unwrap();
    let parents: Vec<git2::Commit<'_>> =
        commit.parents.iter().map(|p| repo.find_commit(to_git(p)).unwrap()).collect();
    let parents: Vec<&git2::Commit<'_>> = parents.iter().collect();
    let id = repo
        .commit(
            None,
            &person(&commit.author),
            &person(&commit.committer),
            std::str::from_utf8(&commit.message).unwrap(),
            &tree,
            &parents,
        )
        .unwrap();
    from_git(id)
}

/// Answers the requests of a rewriter from the repository.
fn rewrite(
    repo: &git2::Repository,
    filter: &Filter,
    map: OidMap,
    commits: Vec<Oid>,
) -> (Option<Oid>, OidMap) {
    let (mut rewriter, mut request) = Rewriter::new(filter, map, commits);
    loop {
        let reply = match request {
            Request::ReadCommit(id) => Reply::Commit(read_commit(repo, &id)),
            Request::ReadParents(ids) => Reply::Parents(
                ids.iter()
                    .map(|id| repo.find_commit(to_git(id)).ok().map(|c| from_git(c.tree_id())))
                    .collect(),
            ),
            Request::ReadTree(id) => Reply::Tree(read_tree(repo, &id)),
            Request::WriteTree(entries) => Reply::Written(write_tree(repo, &entries)),
            Request::WriteCommit(commit) => Reply::Written(write_commit(repo, &commit)),
            Request::Finish(tip) => return (tip, rewriter.into_map()),
            Request::Refused => panic!("a reply was refused"),
        };
        request = rewriter.step(reply);
    }
}

/// Makes a tree from paths and contents.
fn tree_of(repo: &git2::Repository, files: &[(&str, &str)]) -> git2::Oid {
    let mut entries: Vec<(String, git2::Oid, i32)> = Vec::new();
    let mut dirs: Vec<(String, Vec<(String, String)>)> = Vec::new();
    for (path, content) in files {
        match path.split_once('/') {
            None => entries.push((path.to_string(), repo.blob(content.as_bytes()).unwrap(), 0o100644)),
            Some((dir, rest)) => match dirs.iter_mut().find(|(name, _)| name == dir) {
                Some((_, inner)) => inner.push((rest.to_string(), content.to_string())),
                None => dirs.push((dir.to_string(), vec![(rest.to_string(), content.to_string())])),
            },
        }
    }
    for (dir, inner) in dirs {
        let inner: Vec<(&str, &str)> = inner.iter().map(|(p, c)| (p.as_str(), c.as_str())).collect();
        entries.push((dir, tree_of(repo, &inner), 0o040000));
    }
    let mut builder = repo.treebuilder(None).unwrap();
    for (name, id, mode) in entries {
        builder.insert(name.as_str(), id, mode).unwrap();
    }
    builder.write().unwrap()
}

fn commit(
    repo: &git2::Repository,
    files: &[(&str, &str)],
    parents: &[git2::Oid],
    message: &str,
    seconds: i64,
) -> git2::Oid {
    let tree = repo.find_tree(tree_of(repo, files)).unwrap();
    let author = git2::Signature::new("A. Author", "a@example.org", &git2::Time::new(seconds, 120))
        .unwrap();
    let committer =
        git2::Signature::new("C. Committer", "c@example.org", &git2::Time::new(seconds + 5, -60))
            .unwrap();
    let parents: Vec<git2::Commit<'_>> =
        parents.iter().map(|p| repo.find_commit(*p).unwrap()).collect();
    let parents: Vec<&git2::Commit<'_>> = parents.iter().collect();
    repo.commit(None, &author, &committer, message, &tree, &parents).unwrap()
}

/// The commits that can be reached from `tip`, parents first.
fn history(repo: &git2::Repository, tip: git2::Oid) -> Vec<Oid> {
    let mut walk = repo.revwalk().unwrap();
    walk.set_sorting(git2::Sort::TOPOLOGICAL | git2::Sort::REVERSE).unwrap();
    walk.push(tip).unwrap();
    walk.map(|id| from_git(id.unwrap())).collect()
}

fn files_of(repo: &git2::Repository, tree: git2::Oid, prefix: &str, out: &mut Vec<(String, String)>) {
    let tree = repo.find_tree(tree).unwrap();
    for entry in tree.iter() {
        let path = format!("{}{}", prefix, entry.name().unwrap());
        if entry.kind() == Some(git2::ObjectType::Tree) {
            files_of(repo, entry.id(), &format!("{}/", path), out);
        } else {
            let blob = repo.find_blob(entry.id()).unwrap();
            out.push((path, String::from_utf8(blob.content().to_vec()).unwrap()));
        }
    }
}

fn files(repo: &git2::Repository, commit: &Oid) -> Vec<(String, String)> {
    let mut out = Vec::new();
    files_of(repo, repo.find_commit(to_git(commit)).unwrap().tree_id(), "", &mut out);
    out
}

fn pairs(list: &[(&str, &str)]) -> Vec<(String, String)> {
    list.iter().map(|(p, c)| (p.to_string(), c.to_string())).collect()
}

#[test]
fn the_tree_without_entries_is_the_one_of_the_store() {
    let repo = repository();
    let empty = repo.treebuilder(None).unwrap().write().unwrap();
    assert_eq!(from_git(empty), Oid::empty_tree());
    assert_eq!(Oid::empty_tree().to_hex(), empty.to_string().into_bytes());
}

#[test]
fn three_commits_in_a_line() {
    let repo = repository();
    let c1 = commit(&repo, &[("a.txt", "one")], &[], "add a", 1000);
    let c2 = commit(&repo, &[("a.txt", "one"), ("b.txt", "other")], &[c1], "add b", 2000);
    let c3 = commit(&repo, &[("a.txt", "two"), ("b.txt", "other")], &[c2], "change a", 3000);
    let commits = history(&repo, c3);
    assert_eq!(commits, vec![from_git(c1), from_git(c2), from_git(c3)]);

    let mut filter = Filter::new(false);
    filter.insert_include("a.txt");
    let (tip, map) = rewrite(&repo, &filter, OidMap::new(), commits.clone());

    // The branch has two commits: the second one is gone.
    let tip = tip.unwrap();
    let line = history(&repo, to_git(&tip));
    assert_eq!(line.len(), 2);
    assert_eq!(line[1], tip);
    assert_eq!(files(&repo, &line[0]), pairs(&[("a.txt", "one")]));
    assert_eq!(files(&repo, &line[1]), pairs(&[("a.txt", "two")]));
    assert_eq!(map.resolve(&from_git(c1)), Some(Some(line[0])));
    assert_eq!(map.resolve(&from_git(c2)), Some(Some(line[0])));
    assert_eq!(map.resolve(&from_git(c3)), Some(Some(tip)));

    // Who wrote it, when, and the message are as they were.
    let old = repo.find_commit(c3).unwrap();
    let new = repo.find_commit(to_git(&tip)).unwrap();
    assert_eq!(new.message_bytes(), old.message_bytes());
    assert_eq!(new.author().name_bytes(), old.author().name_bytes());
    assert_eq!(new.author().email_bytes(), old.author().email_bytes());
    assert_eq!(new.author().when().seconds(), 3000);
    assert_eq!(new.author().when().offset_minutes(), 120);
    assert_eq!(new.committer().name_bytes(), old.committer().name_bytes());
    assert_eq!(new.committer().when().seconds(), 3005);
    assert_eq!(new.committer().when().offset_minutes(), -60);

    // A second run with the map of the first gives the same branch.
    let saved = map.write();
    let (again, second) = rewrite(&repo, &filter, OidMap::from_reader(&saved), commits);
    assert_eq!(again, Some(tip));
    assert_eq!(second.len(), map.len());
    for i in 0..map.len() {
        let e = map.entry(i);
        assert_eq!(second.get(&e.key), Some(e.value));
    }
}

#[test]
fn directories_and_a_merge() {
    let repo = repository();
    let base = [("docs/readme", "r"), ("src/lib/a", "a"), ("src/bin/b", "b"), ("top", "t")];
    let c1 = commit(&repo, &base, &[], "base", 1000);
    let left = [("docs/readme", "r2"), ("src/lib/a", "a"), ("src/bin/b", "b"), ("top", "t")];
    let c2 = commit(&repo, &left, &[c1], "docs only", 2000);
    let right = [("docs/readme", "r"), ("src/lib/a", "a2"), ("src/bin/b", "b"), ("top", "t")];
    let c3 = commit(&repo, &right, &[c1], "lib", 3000);
    let both = [("docs/readme", "r2"), ("src/lib/a", "a2"), ("src/bin/b", "b"), ("top", "t")];
    let c4 = commit(&repo, &both, &[c3, c2], "merge", 4000);
    let commits = history(&repo, c4);
    assert_eq!(commits.len(), 4);

    let mut filter = Filter::new(false);
    filter.insert_include("src");
    filter.insert_exclude("src/bin");
    let (tip, map) = rewrite(&repo, &filter, OidMap::new(), commits);

    // `docs only` changes nothing that is kept, so it is gone. The merge
    // differs from one of its parents, so it stays, with that parent twice
    // removed in place of `docs only`.
    let n1 = map.resolve(&from_git(c1)).unwrap().unwrap();
    let n3 = map.resolve(&from_git(c3)).unwrap().unwrap();
    let n4 = map.resolve(&from_git(c4)).unwrap().unwrap();
    assert_eq!(map.resolve(&from_git(c2)), Some(Some(n1)));
    assert_ne!(n1, n3);
    assert_ne!(n3, n4);
    assert_eq!(tip, Some(n4));
    assert_eq!(files(&repo, &n1), pairs(&[("src/lib/a", "a")]));
    assert_eq!(files(&repo, &n3), pairs(&[("src/lib/a", "a2")]));
    assert_eq!(files(&repo, &n4), pairs(&[("src/lib/a", "a2")]));
    let merge = repo.find_commit(to_git(&n4)).unwrap();
    let parents: Vec<Oid> = merge.parent_ids().map(from_git).collect();
    assert_eq!(parents, vec![n3, n1]);
    assert_eq!(merge.tree_id(), repo.find_commit(to_git(&n3)).unwrap().tree_id());
}

#[test]
fn a_merge_that_adds_nothing_is_gone() {
    let repo = repository();
    let c1 = commit(&repo, &[("keep", "k"), ("x", "1")], &[], "base", 1000);
    let c2 = commit(&repo, &[("keep", "k"), ("x", "2")], &[c1], "left", 2000);
    let c3 = commit(&repo, &[("keep", "k"), ("x", "3")], &[c1], "right", 3000);
    let c4 = commit(&repo, &[("keep", "k"), ("x", "4")], &[c2, c3], "merge", 4000);
    let c5 = commit(&repo, &[("keep", "k2"), ("x", "4")], &[c4], "change", 5000);

    let mut filter = Filter::new(false);
    filter.insert_include("keep");
    let (tip, map) = rewrite(&repo, &filter, OidMap::new(), history(&repo, c5));

    let n1 = map.resolve(&from_git(c1)).unwrap().unwrap();
    let n5 = tip.unwrap();
    for gone in [c2, c3, c4] {
        assert_eq!(map.resolve(&from_git(gone)), Some(Some(n1)));
    }
    assert_eq!(history(&repo, to_git(&n5)), vec![n1, n5]);
    assert_eq!(files(&repo, &n5), pairs(&[("keep", "k2")]));
}

#[test]
fn a_second_run_after_a_discarded_merge() {
    let repo = repository();
    let a = commit(&repo, &[("keep", "k"), ("x", "0")], &[], "base", 1000);
    let b = commit(&repo, &[("keep", "k2"), ("x", "1")], &[a], "left", 2000);
    let c = commit(&repo, &[("keep", "k2"), ("x", "3")], &[a], "right", 3000);
    let m = commit(&repo, &[("keep", "k2"), ("x", "4")], &[b, c], "merge", 4000);
    let commits = history(&repo, m);
    assert_eq!(commits.len(), 4);
    assert_eq!(commits[3], from_git(m));

    let mut filter = Filter::new(false);
    filter.insert_include("keep");
    let (tip, map) = rewrite(&repo, &filter, OidMap::new(), commits.clone());
    let last = map.get(&commits[2]).unwrap().unwrap();
    assert_eq!(tip, Some(last));
    assert_ne!(map.get(&commits[3]), Some(Some(from_git(m))));

    let (again, second) = rewrite(&repo, &filter, OidMap::from_reader(&map.write()), commits);
    assert_eq!(again, tip);
    assert_eq!(second.write(), map.write());
}
