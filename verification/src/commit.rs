//! Commits as the rewriting reads and makes them, and the rules by which a
//! rewritten commit gets its parents and counts as empty.

use crate::map::{lemma_chase_ends, resolved, OidMap};
use crate::oid::{empty_tree_bytes, Oid};
use vstd::prelude::*;

verus! {

/// Who made a change and when, as a mathematical value.
pub ghost struct SignatureModel {
    pub name: Seq<u8>,
    pub email: Seq<u8>,
    pub seconds: i64,
    pub offset_minutes: i32,
}

/// Who made a change and when: name and address as the store holds them,
/// the time in seconds since the epoch and the offset of the time zone in
/// minutes.
#[derive(Debug, PartialEq, Eq)]
pub struct Signature {
    pub name: Vec<u8>,
    pub email: Vec<u8>,
    pub seconds: i64,
    pub offset_minutes: i32,
}

impl View for Signature {
    type V = SignatureModel;

    open spec fn view(&self) -> SignatureModel {
        SignatureModel {
            name: self.name@,
            email: self.email@,
            seconds: self.seconds,
            offset_minutes: self.offset_minutes,
        }
    }
}

/// A commit as a mathematical value.
pub ghost struct CommitModel {
    pub tree: Oid,
    pub parents: Seq<Oid>,
    pub author: SignatureModel,
    pub committer: SignatureModel,
    pub message: Seq<u8>,
}

/// A commit: its tree, its parents in order, who wrote and who committed it,
/// and the bytes of its message.
#[derive(Debug, PartialEq, Eq)]
pub struct Commit {
    pub tree: Oid,
    pub parents: Vec<Oid>,
    pub author: Signature,
    pub committer: Signature,
    pub message: Vec<u8>,
}

impl View for Commit {
    type V = CommitModel;

    open spec fn view(&self) -> CommitModel {
        CommitModel {
            tree: self.tree,
            parents: self.parents@,
            author: self.author@,
            committer: self.committer@,
            message: self.message@,
        }
    }
}

impl CommitModel {
    /// The commit with another tree and other parents; nothing else changes.
    pub open spec fn rewritten(self, tree: Oid, parents: Seq<Oid>) -> CommitModel {
        CommitModel { tree, parents, ..self }
    }
}

/// A parent of a rewritten commit: its identifier and the tree it holds.
#[derive(Clone, Copy, Debug, PartialEq, Eq)]
pub struct Parent {
    pub id: Oid,
    pub tree: Oid,
}

/// The parents that a rewritten commit may have, given the parents of the
/// original: each one that resolves to a commit, replaced by that commit,
/// in order. A parent that was discarded, and one that the map does not
/// know, is left out.
pub open spec fn remap(map: Map<Oid, Option<Oid>>, parents: Seq<Oid>) -> Seq<Oid>
    decreases parents.len(),
{
    if parents.len() == 0 {
        Seq::empty()
    } else {
        let before = remap(map, parents.drop_last());
        match resolved(map, parents.last()) {
            Some(Some(id)) => before.push(id),
            _ => before,
        }
    }
}

/// The candidates that were found in the store, each with its tree:
/// `trees[i]` is the tree of `candidates[i]`, or `None` where the store has
/// no such commit. A candidate without an answer counts as not found.
pub open spec fn found(candidates: Seq<Oid>, trees: Seq<Option<Oid>>) -> Seq<Parent>
    decreases candidates.len(),
{
    if candidates.len() == 0 {
        Seq::empty()
    } else {
        let i = candidates.len() - 1;
        let before = found(candidates.drop_last(), trees);
        if i < trees.len() && trees[i] is Some {
            before.push(Parent { id: candidates[i], tree: trees[i]->Some_0 })
        } else {
            before
        }
    }
}

/// The identifiers of parents.
pub open spec fn parent_ids(parents: Seq<Parent>) -> Seq<Oid> {
    Seq::new(parents.len(), |i: int| parents[i].id)
}

/// Whether a commit is empty: it has parents and its tree is the tree of
/// every one of them, or it has none and its tree is the tree without entries.
pub open spec fn commit_is_empty(tree: Oid, parents: Seq<Parent>) -> bool {
    if parents.len() > 0 {
        forall|i: int| 0 <= i < parents.len() ==> (#[trigger] parents[i]).tree == tree
    } else {
        tree@ == empty_tree_bytes()
    }
}

/// What an empty commit is replaced by: its first parent, or nothing.
pub open spec fn stand_in(parents: Seq<Parent>) -> Option<Oid> {
    if parents.len() > 0 {
        Some(parents[0].id)
    } else {
        None
    }
}

/// Each parent that resolving gives is where a chain ends: it is no key of
/// the map, or the map holds it for itself.
pub proof fn lemma_remap_ends(map: Map<Oid, Option<Oid>>, parents: Seq<Oid>)
    ensures
        forall|j: int|
            0 <= j < remap(map, parents).len() ==> {
                let id = #[trigger] remap(map, parents)[j];
                !map.contains_key(id) || map[id] == Some(id)
            },
    decreases parents.len(),
{
    if parents.len() > 0 {
        lemma_remap_ends(map, parents.drop_last());
        let before = remap(map, parents.drop_last());
        match resolved(map, parents.last()) {
            Some(Some(id)) => {
                lemma_chase_ends(map, parents.last(), map.dom().len());
                assert forall|j: int| 0 <= j < remap(map, parents).len() implies {
                    let id = #[trigger] remap(map, parents)[j];
                    !map.contains_key(id) || map[id] == Some(id)
                } by {
                    if j < before.len() {
                        assert(remap(map, parents)[j] == before[j]);
                    }
                }
            },
            _ => {},
        }
    }
}

/// The parents that were found are among the candidates, in their order.
pub proof fn lemma_found_among(candidates: Seq<Oid>, trees: Seq<Option<Oid>>)
    ensures
        forall|j: int|
            0 <= j < found(candidates, trees).len() ==> candidates.contains(
                (#[trigger] found(candidates, trees)[j]).id,
            ),
    decreases candidates.len(),
{
    if candidates.len() > 0 {
        let front = candidates.drop_last();
        lemma_found_among(front, trees);
        let before = found(front, trees);
        assert forall|j: int| 0 <= j < found(candidates, trees).len() implies candidates.contains(
            (#[trigger] found(candidates, trees)[j]).id,
        ) by {
            if j < before.len() {
                assert(found(candidates, trees)[j] == before[j]);
                let i = choose|i: int| 0 <= i < front.len() && front[i] == before[j].id;
                assert(candidates[i] == before[j].id);
            } else {
                assert(candidates[candidates.len() - 1] == found(candidates, trees)[j].id);
            }
        }
    }
}

/// Resolves the parents of an original commit; see [`remap`].
pub fn remap_parents(map: &OidMap, parents: &Vec<Oid>) -> (r: Vec<Oid>)
    requires
        map.wf(),
    ensures
        r@ == remap(map@, parents@),
{
    let mut out: Vec<Oid> = Vec::new();
    let mut i: usize = 0;
    assert(parents@.take(0) =~= Seq::<Oid>::empty());
    while i < parents.len()
        invariant
            map.wf(),
            i <= parents@.len(),
            out@ == remap(map@, parents@.take(i as int)),
        decreases parents@.len() - i,
    {
        assert(parents@.take(i + 1).drop_last() =~= parents@.take(i as int));
        match map.resolve(&parents[i]) {
            Some(Some(id)) => {
                out.push(id);
            },
            _ => {},
        }
        i += 1;
    }
    assert(parents@.take(i as int) =~= parents@);
    out
}

/// Pairs the candidates with their trees; see [`found`].
pub fn found_parents(candidates: &Vec<Oid>, trees: &Vec<Option<Oid>>) -> (r: Vec<Parent>)
    ensures
        r@ == found(candidates@, trees@),
{
    let mut out: Vec<Parent> = Vec::new();
    let mut i: usize = 0;
    assert(candidates@.take(0) =~= Seq::<Oid>::empty());
    while i < candidates.len()
        invariant
            i <= candidates@.len(),
            out@ == found(candidates@.take(i as int), trees@),
        decreases candidates@.len() - i,
    {
        assert(candidates@.take(i + 1).drop_last() =~= candidates@.take(i as int));
        if i < trees.len() {
            match trees[i] {
                Some(tree) => {
                    out.push(Parent { id: candidates[i], tree });
                },
                None => {},
            }
        }
        i += 1;
    }
    assert(candidates@.take(i as int) =~= candidates@);
    out
}

/// The identifiers of parents, in order.
pub fn ids_of(parents: &Vec<Parent>) -> (r: Vec<Oid>)
    ensures
        r@ == parent_ids(parents@),
{
    let mut out: Vec<Oid> = Vec::new();
    let mut i: usize = 0;
    while i < parents.len()
        invariant
            i <= parents@.len(),
            out@.len() == i,
            forall|j: int| 0 <= j < i ==> out@[j] == parents@[j].id,
        decreases parents@.len() - i,
    {
        out.push(parents[i].id);
        i += 1;
    }
    assert(out@ =~= parent_ids(parents@));
    out
}

/// Whether a commit with the tree `tree` and the parents `parents` is empty:
/// its tree is the same as the tree of each of its parents or, if it has no
/// parents, the tree itself is empty.
pub fn is_empty_commit(tree: &Oid, parents: &Vec<Parent>) -> (r: bool)
    ensures
        r == commit_is_empty(*tree, parents@),
{
    if parents.len() > 0 {
        let mut i: usize = 0;
        while i < parents.len()
            invariant
                i <= parents@.len(),
                forall|j: int| 0 <= j < i ==> (#[trigger] parents@[j]).tree == *tree,
            decreases parents@.len() - i,
        {
            if !parents[i].tree.same(tree) {
                return false;
            }
            i += 1;
        }
        true
    } else {
        tree.same(&Oid::empty_tree())
    }
}

} // verus!
