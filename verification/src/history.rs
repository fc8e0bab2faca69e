//! Whole runs: what a rewriter comes to when a repository answers its
//! requests, one after the other.
//!
//! The repository is a mathematical value here, and [`run`] is the run of a
//! rewriter against it.
//!
//! - A commit that the map does not know: [`lemma_commit_rounds`] shows
//!   that the run rewrites its tree, asks for the commit [`commit_made`] to
//!   be written and records it, which [`made`] says in a few lines. What
//!   follows for a root of which nothing is kept, for a commit that changes
//!   nothing that is kept and for the commits after them is shown by
//!   [`lemma_root_discarded`], [`lemma_child_of_discarded_root`],
//!   [`lemma_same_as_parent_discarded`] and [`lemma_child_of_discarded`];
//!   [`lemma_three_commits`] follows a run over three commits to its end.
//! - A commit that the map knows: [`taken`] says what a run comes to that
//!   finds every commit in the map, and [`lemma_run_takes`] shows that such
//!   a run ends with just that.
//! - A second run: [`lemma_second_run`] shows that a run which starts with
//!   the map of an earlier run over the same commits ends as the earlier
//!   run did, with the same tip and the same map, and [`lemma_run_tip`]
//!   that this tip belongs to the last commit that was kept.

use crate::commit::{commit_is_empty, found, parent_ids, remap, stand_in, CommitModel, Parent};
use crate::map::{chase, is_end, resolved};
use crate::oid::Oid;
use crate::rewrite::{ReplyModel, RequestModel, RewriterModel, StageModel};
use crate::store::{ended, extends, lemma_rewritten_extends, lemma_run_stays, lemma_walk_computes, rewritten,
    running, Running, StoreModel};
use crate::tree::begin;
use vstd::prelude::*;

verus! {

/// A repository: its trees, its commits, and the identifier under which a
/// commit is stored.
pub ghost struct RepoModel {
    pub trees: StoreModel,
    pub commits: Map<Oid, CommitModel>,
    pub commit_ids: spec_fn(CommitModel) -> Oid,
}

impl RepoModel {
    /// For each of `ids` the tree of the commit, or `None` where the
    /// repository has no such commit.
    pub open spec fn probes(self, ids: Seq<Oid>) -> Seq<Option<Oid>> {
        Seq::new(
            ids.len(),
            |i: int|
                if self.commits.contains_key(ids[i]) {
                    Some(self.commits[ids[i]].tree)
                } else {
                    None
                },
        )
    }

    /// What the repository answers to a request; nothing where the request
    /// asks for nothing.
    pub open spec fn reply(self, request: RequestModel) -> Option<ReplyModel> {
        match request {
            RequestModel::ReadCommit(id) => Some(ReplyModel::Commit(self.commits[id])),
            RequestModel::ReadParents(ids) => Some(ReplyModel::Parents(self.probes(ids))),
            RequestModel::ReadTree(id) => Some(ReplyModel::Tree(self.trees.read(id))),
            RequestModel::WriteTree(entries) => Some(
                ReplyModel::Written(self.trees.write(entries)),
            ),
            RequestModel::WriteCommit(commit) => Some(
                ReplyModel::Written((self.commit_ids)(commit)),
            ),
            RequestModel::Finish(_) => None,
            RequestModel::Refused => None,
        }
    }

    /// The parents that the rewritten commit `id` has according to `map`:
    /// what its own parents resolve to, as far as the repository has them,
    /// each with its tree.
    pub open spec fn parents_of(self, map: Map<Oid, Option<Oid>>, id: Oid) -> Seq<
        crate::commit::Parent,
    > {
        let candidates = remap(map, self.commits[id].parents);
        found(candidates, self.probes(candidates))
    }
}

/// The rewriter and its request after the repository has answered.
pub open spec fn answered(repo: RepoModel, s: (RewriterModel, RequestModel)) -> (
    RewriterModel,
    RequestModel,
) {
    match repo.reply(s.1) {
        Some(reply) => s.0.stepped(reply),
        None => s,
    }
}

/// The rewriter and its request after the repository has answered `rounds`
/// requests. Once the run is finished nothing changes any more.
pub open spec fn run(repo: RepoModel, s: (RewriterModel, RequestModel), rounds: nat) -> (
    RewriterModel,
    RequestModel,
)
    decreases rounds,
{
    if rounds == 0 {
        s
    } else {
        run(repo, answered(repo, s), (rounds - 1) as nat)
    }
}

/// Rounds add up.
pub proof fn lemma_rounds_add(repo: RepoModel, s: (RewriterModel, RequestModel), a: nat, b: nat)
    ensures
        run(repo, s, a + b) == run(repo, run(repo, s, a), b),
    decreases a,
{
    if a > 0 {
        lemma_rounds_add(repo, answered(repo, s), (a - 1) as nat, b);
        assert(run(repo, s, a + b) == run(repo, answered(repo, s), (a + b - 1) as nat));
    }
}

/// Whether the map knows every commit from the current one on.
pub open spec fn all_known(m: RewriterModel) -> bool {
    forall|j: int| m.pos <= j < m.commits.len() ==> m.map.contains_key(#[trigger] m.commits[j])
}

/// What a run comes to that takes every commit from the map.
///
/// A commit that the map holds the mark of a discarded object for is passed
/// over. For any other the map holds a commit; what the commit was
/// rewritten to is put together from the tree of that commit and from what
/// the parents of the commit itself resolve to, and is recorded. Nothing is
/// written.
pub open spec fn taken(repo: RepoModel, m: RewriterModel) -> RewriterModel
    decreases m.commits.len() - m.pos,
{
    if m.pos >= m.commits.len() {
        RewriterModel { stage: StageModel::Finished, ..m }
    } else if !m.map.contains_key(m.current()) {
        m
    } else {
        match m.map[m.current()] {
            None => taken(repo, RewriterModel { pos: m.pos + 1, ..m }),
            Some(known) => taken(
                repo,
                m.record(
                    known,
                    repo.commits[known].tree,
                    repo.parents_of(m.map, m.current()),
                ),
            ),
        }
    }
}

/// A run that finds every commit in the map ends, after three rounds for
/// each commit that is not passed over, with what `taken` says: the same
/// map, and the same tip.
pub proof fn lemma_run_takes(repo: RepoModel, m: RewriterModel) -> (rounds: nat)
    requires
        all_known(m),
        m.stage == StageModel::Original,
    ensures
        run(repo, m.advance(), rounds) == (
            taken(repo, m),
            RequestModel::Finish(taken(repo, m).tip),
        ),
    decreases m.commits.len() - m.pos,
{
    let start = m.advance();
    if m.pos >= m.commits.len() {
        assert(run(repo, start, 0) == start);
        0
    } else {
        assert(m.map.contains_key(m.commits[m.pos as int]));
        match m.map[m.current()] {
            None => lemma_run_takes(repo, RewriterModel { pos: m.pos + 1, ..m }),
            Some(known) => {
                let tree = repo.commits[known].tree;
                let candidates = remap(m.map, repo.commits[m.current()].parents);
                let parents = repo.parents_of(m.map, m.current());
                let s1 = answered(repo, start);
                assert(s1 == (
                    RewriterModel { stage: StageModel::ReusedOriginal(known, tree), ..m },
                    RequestModel::ReadCommit(m.current()),
                ));
                let s2 = answered(repo, s1);
                assert(s2 == (
                    RewriterModel {
                        stage: StageModel::ReusedParents(known, tree, candidates),
                        ..m
                    },
                    RequestModel::ReadParents(candidates),
                ));
                let then = m.record(known, tree, parents);
                assert(s2.0.record(known, tree, parents) == then);
                let s3 = answered(repo, s2);
                assert(s3 == then.advance());
                assert(run(repo, start, 3) == s3) by {
                    assert(run(repo, s3, 0) == s3);
                    assert(run(repo, s2, 1) == s3);
                    assert(run(repo, s1, 2) == s3);
                }
                assert forall|j: int| then.pos <= j < then.commits.len() implies then.map.contains_key(
                    #[trigger] then.commits[j],
                ) by {
                    assert(m.map.contains_key(m.commits[j]));
                }
                let rest = lemma_run_takes(repo, then);
                lemma_rounds_add(repo, start, 3, rest);
                3 + rest
            },
        }
    }
}

/// Whether taking the commits from the map leaves the map as it is: for
/// each commit that the map holds a commit for, what is put together from
/// the repository is recorded as the map has it.
pub open spec fn steady(repo: RepoModel, m: RewriterModel) -> bool
    decreases m.commits.len() - m.pos,
{
    if m.pos >= m.commits.len() {
        true
    } else if !m.map.contains_key(m.current()) {
        false
    } else {
        match m.map[m.current()] {
            None => steady(repo, RewriterModel { pos: m.pos + 1, ..m }),
            Some(known) => {
                let then = m.record(
                    known,
                    repo.commits[known].tree,
                    repo.parents_of(m.map, m.current()),
                );
                then.map == m.map && steady(repo, then)
            },
        }
    }
}

/// A run over a steady map leaves the map as it is, and the map stays
/// steady: every later run over the same commits ends with the same map
/// and the same tip.
pub proof fn lemma_steady_stays(repo: RepoModel, m: RewriterModel)
    requires
        steady(repo, m),
    ensures
        taken(repo, m).map == m.map,
        taken(repo, RewriterModel { map: taken(repo, m).map, ..m }) == taken(repo, m),
    decreases m.commits.len() - m.pos,
{
    if m.pos < m.commits.len() {
        match m.map[m.current()] {
            None => {
                lemma_steady_stays(repo, RewriterModel { pos: m.pos + 1, ..m });
            },
            Some(known) => {
                lemma_steady_stays(
                    repo,
                    m.record(
                        known,
                        repo.commits[known].tree,
                        repo.parents_of(m.map, m.current()),
                    ),
                );
            },
        }
    }
}

/// Whether a later run finds that the commit `c`, for which the map holds a
/// commit, was kept: what is put together for it from the repository is
/// not empty.
pub open spec fn kept_again(repo: RepoModel, map: Map<Oid, Option<Oid>>, c: Oid) -> bool {
    !commit_is_empty(repo.commits[map[c]->Some_0].tree, repo.parents_of(map, c))
}

/// Whether a later run leaves the entry of the commit `c` as it is.
pub open spec fn steady_at(repo: RepoModel, map: Map<Oid, Option<Oid>>, c: Oid) -> bool {
    &&& map.contains_key(c)
    &&& map[c] is Some && !kept_again(repo, map, c) ==> stand_in(repo.parents_of(map, c)) == map[c]
}

/// The tip that a later run has after the first `n` commits: what the map
/// holds for the last of them that it finds kept.
pub open spec fn tip_upto(
    repo: RepoModel,
    map: Map<Oid, Option<Oid>>,
    commits: Seq<Oid>,
    n: nat,
) -> Option<Oid>
    decreases n,
{
    if n == 0 {
        None
    } else {
        let c = commits[n - 1];
        if map[c] is Some && kept_again(repo, map, c) {
            map[c]
        } else {
            tip_upto(repo, map, commits, (n - 1) as nat)
        }
    }
}

/// Whether a rewriter stands where a later run over the same commits comes
/// to the same: the entries of the commits that are handled are steady, the
/// tip is the one that a later run has, and what the rewriter waits for is
/// what the repository was asked.
pub open spec fn repeatable(repo: RepoModel, s: (RewriterModel, RequestModel)) -> bool {
    let m = s.0;
    let c = m.current();
    &&& m.pos <= m.commits.len()
    &&& forall|j: int| 0 <= j < m.pos ==> steady_at(repo, m.map, #[trigger] m.commits[j])
    &&& m.tip == tip_upto(repo, m.map, m.commits, m.pos)
    &&& !(m.stage is Finished) ==> m.pos < m.commits.len()
    &&& s.1 is Finish ==> m.stage is Finished
    &&& match m.stage {
        StageModel::Original => s.1 == RequestModel::ReadCommit(c),
        StageModel::Filtering(commit, _) => commit == repo.commits[c],
        StageModel::Parents(commit, _, candidates) => {
            &&& commit == repo.commits[c]
            &&& candidates == remap(m.map, commit.parents)
            &&& s.1 == RequestModel::ReadParents(candidates)
        },
        StageModel::Creating(tree, parents) => {
            &&& parents == repo.parents_of(m.map, c)
            &&& s.1 matches RequestModel::WriteCommit(commit) && commit.tree == tree
        },
        StageModel::Reused(known) => {
            &&& m.map.contains_key(c)
            &&& m.map[c] == Some(known)
            &&& s.1 == RequestModel::ReadCommit(known)
        },
        StageModel::ReusedOriginal(known, tree) => {
            &&& m.map.contains_key(c)
            &&& m.map[c] == Some(known)
            &&& tree == repo.commits[known].tree
            &&& s.1 == RequestModel::ReadCommit(c)
        },
        StageModel::ReusedParents(known, tree, candidates) => {
            &&& m.map.contains_key(c)
            &&& m.map[c] == Some(known)
            &&& tree == repo.commits[known].tree
            &&& candidates == remap(m.map, repo.commits[c].parents)
            &&& s.1 == RequestModel::ReadParents(candidates)
        },
        StageModel::Finished => m.pos == m.commits.len() && s.1 == RequestModel::Finish(m.tip),
    }
}

/// Whether the repository stores each commit that is written with the tree
/// that it was written with.
pub open spec fn stores_trees(repo: RepoModel) -> bool {
    forall|commit: CommitModel| #[trigger]
        repo.commits[(repo.commit_ids)(commit)].tree == commit.tree
}

/// Whether the step that the answer of the repository brings about leaves
/// alone what went before: the entries of the commits that are handled
/// stay, and the parents of these commits and of the current one resolve
/// as before. This holds unless an identifier that the step enters into the
/// map is by chance one of those commits, one of their parents, or what one
/// of these resolves to.
pub open spec fn calm(repo: RepoModel, s: (RewriterModel, RequestModel)) -> bool {
    let m = s.0;
    let after = answered(repo, s).0.map;
    &&& forall|j: int|
        0 <= j < m.pos && j < m.commits.len() ==> after[#[trigger] m.commits[j]] == m.map[m.commits[j]]
    &&& forall|j: int|
        0 <= j <= m.pos && j < m.commits.len() ==> remap(
            after,
            repo.commits[#[trigger] m.commits[j]].parents,
        ) == remap(m.map, repo.commits[m.commits[j]].parents)
}

/// Whether each of the first `rounds` steps of a run is calm.
pub open spec fn calm_run(repo: RepoModel, s: (RewriterModel, RequestModel), rounds: nat) -> bool
    decreases rounds,
{
    rounds == 0 || (calm(repo, s) && calm_run(repo, answered(repo, s), (rounds - 1) as nat))
}

/// Each parent that is found has the tree that the repository holds for it.
pub proof fn lemma_found_trees(repo: RepoModel, candidates: Seq<Oid>, upto: int)
    requires
        0 <= upto <= candidates.len(),
    ensures
        forall|j: int|
            0 <= j < found(candidates.take(upto), repo.probes(candidates)).len() ==> (
            #[trigger] found(candidates.take(upto), repo.probes(candidates))[j]).tree
                == repo.commits[found(candidates.take(upto), repo.probes(candidates))[j].id].tree,
    decreases upto,
{
    if upto > 0 {
        let front = candidates.take(upto);
        assert(front.drop_last() =~= candidates.take(upto - 1));
        lemma_found_trees(repo, candidates, upto - 1);
        let before = found(candidates.take(upto - 1), repo.probes(candidates));
        let all = found(front, repo.probes(candidates));
        assert forall|j: int| 0 <= j < all.len() implies (#[trigger] all[j]).tree
            == repo.commits[all[j].id].tree by {
            if j < before.len() {
                assert(all[j] == before[j]);
            }
        }
    }
}

/// The tip of a later run depends on the map only through the entries of
/// the commits and what their parents resolve to.
pub proof fn lemma_tip_upto_same(
    repo: RepoModel,
    a: Map<Oid, Option<Oid>>,
    b: Map<Oid, Option<Oid>>,
    commits: Seq<Oid>,
    n: nat,
)
    requires
        n <= commits.len(),
        forall|j: int| 0 <= j < n ==> a[#[trigger] commits[j]] == b[commits[j]],
        forall|j: int|
            0 <= j < n ==> remap(a, repo.commits[#[trigger] commits[j]].parents) == remap(
                b,
                repo.commits[commits[j]].parents,
            ),
    ensures
        tip_upto(repo, a, commits, n) == tip_upto(repo, b, commits, n),
    decreases n,
{
    if n > 0 {
        lemma_tip_upto_same(repo, a, b, commits, (n - 1) as nat);
        let c = commits[n - 1];
        assert(repo.parents_of(a, c) == repo.parents_of(b, c));
    }
}

/// Turning to the next commit keeps a rewriter repeatable.
pub proof fn lemma_advance_repeatable(repo: RepoModel, m: RewriterModel)
    requires
        m.pos <= m.commits.len(),
        forall|j: int| 0 <= j < m.pos ==> steady_at(repo, m.map, #[trigger] m.commits[j]),
        m.tip == tip_upto(repo, m.map, m.commits, m.pos),
    ensures
        repeatable(repo, m.advance()),
        m.advance().0.map == m.map,
    decreases m.commits.len() - m.pos,
{
    if m.pos < m.commits.len() && m.map.contains_key(m.current()) && m.map[m.current()] is None {
        let then = RewriterModel { pos: m.pos + 1, ..m };
        assert forall|j: int| 0 <= j < then.pos implies steady_at(
            repo,
            then.map,
            #[trigger] then.commits[j],
        ) by {}
        lemma_advance_repeatable(repo, then);
    }
}

/// Recording what a commit was rewritten to keeps a rewriter repeatable,
/// where the step is calm and the tree that is recorded is the tree of the
/// commit that the map then holds, if the commit is kept.
proof fn lemma_record_repeatable(
    repo: RepoModel,
    s: (RewriterModel, RequestModel),
    new: Oid,
    tree: Oid,
)
    requires
        repeatable(repo, s),
        s.0.pos < s.0.commits.len(),
        calm(repo, s),
        answered(repo, s) == s.0.record(new, tree, repo.parents_of(s.0.map, s.0.current())).advance(),
        !commit_is_empty(tree, repo.parents_of(s.0.map, s.0.current())) ==> repo.commits[new].tree
            == tree,
    ensures
        repeatable(repo, answered(repo, s)),
{
    let m = s.0;
    let c = m.current();
    let parents = repo.parents_of(m.map, c);
    let then = m.record(new, tree, parents);
    let after = then.map;
    let candidates = remap(m.map, repo.commits[c].parents);
    lemma_found_trees(repo, candidates, candidates.len() as int);
    assert(candidates.take(candidates.len() as int) =~= candidates);
    assert(after.contains_key(c));
    assert forall|j: int| 0 <= j < then.pos implies steady_at(
        repo,
        after,
        #[trigger] then.commits[j],
    ) && after[then.commits[j]] == (if j < m.pos {
        m.map[m.commits[j]]
    } else {
        after[c]
    }) && repo.parents_of(after, then.commits[j]) == repo.parents_of(m.map, m.commits[j]) by {
        let before = lemma_advance_map(repo, then);
        assert(answered(repo, s).0.map == after);
        assert(remap(after, repo.commits[m.commits[j]].parents) == remap(
            m.map,
            repo.commits[m.commits[j]].parents,
        ));
        if j < m.pos {
            assert(steady_at(repo, m.map, m.commits[j]));
            assert(after[m.commits[j]] == m.map[m.commits[j]]);
        } else {
            if commit_is_empty(tree, parents) && parents.len() > 0 {
                assert(parents[0].tree == tree);
                assert(parents[0].tree == repo.commits[parents[0].id].tree);
            }
        }
    }
    assert(then.tip == tip_upto(repo, after, then.commits, then.pos)) by {
        let before = lemma_advance_map(repo, then);
        assert(answered(repo, s).0.map == after);
        assert forall|j: int| 0 <= j < m.pos implies remap(
            after,
            repo.commits[#[trigger] m.commits[j]].parents,
        ) == remap(m.map, repo.commits[m.commits[j]].parents) && after[m.commits[j]]
            == m.map[m.commits[j]] by {}
        lemma_tip_upto_same(repo, after, m.map, m.commits, m.pos);
        assert(repo.parents_of(after, c) == repo.parents_of(m.map, c)) by {
            assert(remap(after, repo.commits[m.commits[m.pos as int]].parents) == remap(
                m.map,
                repo.commits[m.commits[m.pos as int]].parents,
            ));
        }
        if commit_is_empty(tree, parents) && parents.len() > 0 {
            assert(parents[0].tree == tree);
            assert(parents[0].tree == repo.commits[parents[0].id].tree);
        }
    }
    lemma_advance_repeatable(repo, then);
}

/// Turning to the next commit does not change the map.
proof fn lemma_advance_map(repo: RepoModel, m: RewriterModel) -> (r: int)
    ensures
        m.advance().0.map == m.map,
    decreases m.commits.len() - m.pos,
{
    if m.pos < m.commits.len() && m.map.contains_key(m.current()) && m.map[m.current()] is None {
        lemma_advance_map(repo, RewriterModel { pos: m.pos + 1, ..m });
    }
    0
}

/// A calm step keeps a rewriter repeatable.
pub proof fn lemma_step_repeatable(repo: RepoModel, s: (RewriterModel, RequestModel))
    requires
        repeatable(repo, s),
        stores_trees(repo),
        calm(repo, s),
    ensures
        repeatable(repo, answered(repo, s)),
{
    let m = s.0;
    let c = m.current();
    let next = answered(repo, s);
    match m.stage {
        StageModel::Creating(tree, parents) => {
            let commit = s.1->WriteCommit_0;
            let new = (repo.commit_ids)(commit);
            assert(repo.commits[new].tree == commit.tree);
            lemma_record_repeatable(repo, s, new, tree);
        },
        StageModel::ReusedParents(known, tree, candidates) => {
            lemma_record_repeatable(repo, s, known, tree);
        },
        StageModel::Finished => {},
        _ => {
            if repo.reply(s.1) is Some {
                assert(next.0.pos == m.pos);
                assert(next.0.commits == m.commits);
                assert(next.0.tip == m.tip);
                assert forall|j: int| 0 <= j < m.pos implies steady_at(
                    repo,
                    next.0.map,
                    #[trigger] m.commits[j],
                ) by {
                    assert(steady_at(repo, m.map, m.commits[j]));
                    assert(next.0.map[m.commits[j]] == m.map[m.commits[j]]);
                    assert(remap(next.0.map, repo.commits[m.commits[j]].parents) == remap(
                        m.map,
                        repo.commits[m.commits[j]].parents,
                    ));
                    lemma_step_keeps_keys(m, repo.reply(s.1)->Some_0, m.commits[j]);
                }
                lemma_tip_upto_same(repo, next.0.map, m.map, m.commits, m.pos);
                assert(remap(next.0.map, repo.commits[c].parents) == remap(
                    m.map,
                    repo.commits[c].parents,
                ));
                if m.map.contains_key(c) {
                    lemma_step_keeps_keys(m, repo.reply(s.1)->Some_0, c);
                }
            }
        },
    }
}

/// A step that does not record a commit takes no key out of the map.
proof fn lemma_step_keeps_keys(m: RewriterModel, reply: ReplyModel, k: Oid)
    requires
        m.map.contains_key(k),
        !(m.stage is Creating),
        !(m.stage is ReusedParents),
    ensures
        m.stepped(reply).0.map.contains_key(k),
{
}

/// A run of calm steps keeps a rewriter repeatable.
pub proof fn lemma_run_repeatable(repo: RepoModel, s: (RewriterModel, RequestModel), rounds: nat)
    requires
        repeatable(repo, s),
        stores_trees(repo),
        calm_run(repo, s, rounds),
    ensures
        repeatable(repo, run(repo, s, rounds)),
    decreases rounds,
{
    if rounds > 0 {
        lemma_step_repeatable(repo, s);
        lemma_run_repeatable(repo, answered(repo, s), (rounds - 1) as nat);
    }
}

/// Taking steady commits from the map leaves the map as it is and ends
/// with the tip that `tip_upto` gives.
pub proof fn lemma_taken_steady(repo: RepoModel, m: RewriterModel)
    requires
        m.pos <= m.commits.len(),
        forall|j: int| 0 <= j < m.commits.len() ==> steady_at(repo, m.map, #[trigger] m.commits[j]),
        m.tip == tip_upto(repo, m.map, m.commits, m.pos),
    ensures
        taken(repo, m).map == m.map,
        taken(repo, m).tip == tip_upto(repo, m.map, m.commits, m.commits.len()),
        taken(repo, m).stage is Finished,
    decreases m.commits.len() - m.pos,
{
    if m.pos < m.commits.len() {
        let c = m.current();
        assert(steady_at(repo, m.map, m.commits[m.pos as int]));
        match m.map[c] {
            None => {
                lemma_taken_steady(repo, RewriterModel { pos: m.pos + 1, ..m });
            },
            Some(known) => {
                let then = m.record(known, repo.commits[known].tree, repo.parents_of(m.map, c));
                assert(then.map =~= m.map);
                lemma_taken_steady(repo, then);
            },
        }
    }
}

/// A run that starts with the map of an earlier run over the same commits
/// ends as the earlier run did: with the same tip, and with the map as the
/// earlier run left it. This holds of every repository that stores a
/// commit with the tree it was written with, and of every earlier run
/// whose steps were calm.
pub proof fn lemma_second_run(
    repo: RepoModel,
    filter: crate::filter::FilterModel,
    map: Map<Oid, Option<Oid>>,
    commits: Seq<Oid>,
    rounds: nat,
) -> (again: nat)
    requires
        stores_trees(repo),
        calm_run(repo, RewriterModel::start(filter, map, commits), rounds),
        run(repo, RewriterModel::start(filter, map, commits), rounds).1 is Finish,
    ensures
        run(
            repo,
            RewriterModel::start(
                filter,
                run(repo, RewriterModel::start(filter, map, commits), rounds).0.map,
                commits,
            ),
            again,
        ).1 == run(repo, RewriterModel::start(filter, map, commits), rounds).1,
        run(
            repo,
            RewriterModel::start(
                filter,
                run(repo, RewriterModel::start(filter, map, commits), rounds).0.map,
                commits,
            ),
            again,
        ).0.map == run(repo, RewriterModel::start(filter, map, commits), rounds).0.map,
{
    let first = RewriterModel {
        filter,
        map,
        commits,
        pos: 0,
        tip: None,
        stage: StageModel::Original,
    };
    lemma_advance_repeatable(repo, first);
    lemma_run_repeatable(repo, first.advance(), rounds);
    let end = run(repo, first.advance(), rounds);
    assert(end.0.commits == commits) by {
        lemma_advance_commits(first);
        lemma_run_commits(repo, first.advance(), rounds);
    }
    let second = RewriterModel {
        filter,
        map: end.0.map,
        commits,
        pos: 0,
        tip: None,
        stage: StageModel::Original,
    };
    assert forall|j: int| 0 <= j < commits.len() implies steady_at(
        repo,
        second.map,
        #[trigger] second.commits[j],
    ) by {
        assert(steady_at(repo, end.0.map, end.0.commits[j]));
    }
    lemma_taken_steady(repo, second);
    lemma_run_takes(repo, second)
}

/// A run goes over the same commits from its first step to its last.
proof fn lemma_run_commits(repo: RepoModel, s: (RewriterModel, RequestModel), rounds: nat)
    ensures
        run(repo, s, rounds).0.commits == s.0.commits,
    decreases rounds,
{
    if rounds > 0 {
        lemma_step_commits(repo, s);
        lemma_run_commits(repo, answered(repo, s), (rounds - 1) as nat);
    }
}

proof fn lemma_step_commits(repo: RepoModel, s: (RewriterModel, RequestModel))
    ensures
        answered(repo, s).0.commits == s.0.commits,
{
    let m = s.0;
    match m.stage {
        StageModel::Creating(tree, parents) => {
            if let Some(ReplyModel::Written(new)) = repo.reply(s.1) {
                lemma_advance_commits(m.record(new, tree, parents));
            }
        },
        StageModel::ReusedParents(known, tree, candidates) => {
            if let Some(ReplyModel::Parents(trees)) = repo.reply(s.1) {
                lemma_advance_commits(m.record(known, tree, found(candidates, trees)));
            }
        },
        _ => {},
    }
}

proof fn lemma_advance_commits(m: RewriterModel)
    ensures
        m.advance().0.commits == m.commits,
    decreases m.commits.len() - m.pos,
{
    if m.pos < m.commits.len() && m.map.contains_key(m.current()) && m.map[m.current()] is None {
        lemma_advance_commits(RewriterModel { pos: m.pos + 1, ..m });
    }
}

/// A run that ends does so with the tip that a later run finds: the commit
/// that the map holds for the last commit that was kept.
pub proof fn lemma_run_tip(
    repo: RepoModel,
    filter: crate::filter::FilterModel,
    map: Map<Oid, Option<Oid>>,
    commits: Seq<Oid>,
    rounds: nat,
)
    requires
        stores_trees(repo),
        calm_run(repo, RewriterModel::start(filter, map, commits), rounds),
        run(repo, RewriterModel::start(filter, map, commits), rounds).1 is Finish,
    ensures
        ({
            let end = run(repo, RewriterModel::start(filter, map, commits), rounds);
            end.1 == RequestModel::Finish(
                tip_upto(repo, end.0.map, commits, commits.len()),
            )
        }),
{
    let first = RewriterModel {
        filter,
        map,
        commits,
        pos: 0,
        tip: None,
        stage: StageModel::Original,
    };
    lemma_advance_repeatable(repo, first);
    lemma_run_repeatable(repo, first.advance(), rounds);
    lemma_advance_commits(first);
    lemma_run_commits(repo, first.advance(), rounds);
}

/// A step that leaves the map as it is is calm.
pub proof fn lemma_calm_unchanged(repo: RepoModel, s: (RewriterModel, RequestModel))
    requires
        answered(repo, s).0.map == s.0.map,
    ensures
        calm(repo, s),
{
}

/// Parents resolve alike in two maps in which each of them resolves alike.
pub proof fn lemma_remap_alike(
    a: Map<Oid, Option<Oid>>,
    b: Map<Oid, Option<Oid>>,
    parents: Seq<Oid>,
)
    requires
        forall|i: int| 0 <= i < parents.len() ==> resolved(a, #[trigger] parents[i]) == resolved(
            b,
            parents[i],
        ),
    ensures
        remap(a, parents) == remap(b, parents),
    decreases parents.len(),
{
    if parents.len() > 0 {
        let front = parents.drop_last();
        assert forall|i: int| 0 <= i < front.len() implies resolved(a, #[trigger] front[i])
            == resolved(b, front[i]) by {
            assert(front[i] == parents[i]);
        }
        lemma_remap_alike(a, b, front);
        assert(parents.last() == parents[parents.len() - 1]);
    }
}

/// Whether the identifier `k` stands apart from the parent `p`: it is not
/// the parent, and where the map knows the parent, the parent ends its
/// chain and is not held for `k`.
pub open spec fn apart_from(map: Map<Oid, Option<Oid>>, p: Oid, k: Oid) -> bool {
    &&& k != p
    &&& map.contains_key(p) ==> is_end(map, p) && map[p] != Some(k)
}

/// Whether the identifier `k` stands apart from what went before: it is
/// none of the commits that are handled, and it stands apart from each
/// parent of these commits and of the current one.
pub open spec fn apart(repo: RepoModel, m: RewriterModel, k: Oid) -> bool {
    &&& forall|j: int| 0 <= j < m.pos && j < m.commits.len() ==> #[trigger] m.commits[j] != k
    &&& forall|j: int, i: int|
        0 <= j <= m.pos && j < m.commits.len() && 0 <= i < repo.commits[m.commits[j]].parents.len()
            ==> apart_from(m.map, #[trigger] repo.commits[m.commits[j]].parents[i], k)
}

/// A parent resolves as before when an identifier that stands apart from
/// it is entered into the map.
pub proof fn lemma_resolved_apart(map: Map<Oid, Option<Oid>>, p: Oid, k: Oid, v: Option<Oid>)
    requires
        apart_from(map, p, k),
    ensures
        resolved(map.insert(k, v), p) == resolved(map, p),
{
    let more = map.insert(k, v);
    if map.contains_key(p) {
        assert(more[p] == map[p]);
        assert(chase(map, p, map.dom().len()) == chase(more, p, more.dom().len()));
    }
}

/// A step that enters one identifier into the map, which stands apart
/// from what went before, is calm.
pub proof fn lemma_calm_apart(
    repo: RepoModel,
    s: (RewriterModel, RequestModel),
    k: Oid,
    v: Option<Oid>,
)
    requires
        answered(repo, s).0.map == s.0.map.insert(k, v),
        apart(repo, s.0, k),
    ensures
        calm(repo, s),
{
    let m = s.0;
    let after = m.map.insert(k, v);
    assert forall|j: int| 0 <= j <= m.pos && j < m.commits.len() implies remap(
        after,
        repo.commits[#[trigger] m.commits[j]].parents,
    ) == remap(m.map, repo.commits[m.commits[j]].parents) by {
        let parents = repo.commits[m.commits[j]].parents;
        assert forall|i: int| 0 <= i < parents.len() implies resolved(after, #[trigger] parents[i])
            == resolved(m.map, parents[i]) by {
            assert(apart_from(m.map, repo.commits[m.commits[j]].parents[i], k));
            lemma_resolved_apart(m.map, parents[i], k, v);
        }
        lemma_remap_alike(after, m.map, parents);
    }
}

/// The rewriter that rewrites the tree of `commit`, where the walk stands
/// as `walk` says.
pub open spec fn filtering(m: RewriterModel, commit: CommitModel, walk: Running) -> (
    RewriterModel,
    RequestModel,
) {
    RewriterModel { map: walk.map, ..m }.after_walk(commit, (walk.walk, walk.request))
}

/// While the tree of a commit is rewritten, the rewriter goes as the walk
/// goes: what the repository answers to the one it answers to the other.
pub proof fn lemma_filtering_goes_as_walk(
    repo: RepoModel,
    m: RewriterModel,
    commit: CommitModel,
    walk: Running,
    rounds: nat,
) -> (steps: nat)
    requires
        run_of_walk(repo, walk, rounds).request is Done,
    ensures
        run(repo, filtering(m, commit, walk), steps) == filtering(
            m,
            commit,
            run_of_walk(repo, walk, rounds),
        ),
    decreases rounds,
{
    let start = filtering(m, commit, walk);
    if walk.request is Done || walk.request is Refused {
        lemma_run_stays(repo.trees, walk, rounds);
        assert(run(repo, start, 0) == start);
        0
    } else {
        let then = crate::store::answered(repo.trees, walk);
        assert(answered(repo, start) == filtering(m, commit, then));
        let rest = lemma_filtering_goes_as_walk(repo, m, commit, then, (rounds - 1) as nat);
        assert(run(repo, start, rest + 1) == run(repo, answered(repo, start), rest));
        rest + 1
    }
}

/// The walk after the trees of the repository have answered `rounds`
/// requests.
pub open spec fn run_of_walk(repo: RepoModel, walk: Running, rounds: nat) -> Running {
    crate::store::run(repo.trees, walk, rounds)
}

/// What rewriting the tree of the current commit leaves of the map.
pub open spec fn map_made(repo: RepoModel, m: RewriterModel, depth: nat) -> Map<
    Oid,
    Option<Oid>,
> {
    rewritten(
        repo.trees,
        m.map,
        m.filter,
        repo.commits[m.current()].tree,
        depth,
    )->Some_0.0
}

/// The tree that the current commit is rewritten with: what rewriting its
/// tree gives, or the tree without entries if nothing is kept.
pub open spec fn tree_made(repo: RepoModel, m: RewriterModel, depth: nat) -> Oid {
    match rewritten(repo.trees, m.map, m.filter, repo.commits[m.current()].tree, depth)->Some_0.1 {
        Some(tree) => tree,
        None => repo.trees.write(Seq::empty()),
    }
}

/// The parents that the current commit is rewritten with.
pub open spec fn parents_made(repo: RepoModel, m: RewriterModel, depth: nat) -> Seq<Parent> {
    repo.parents_of(map_made(repo, m, depth), m.current())
}

/// The commit that is written for the current commit: the commit itself
/// with the rewritten tree and the rewritten parents.
pub open spec fn commit_made(repo: RepoModel, m: RewriterModel, depth: nat) -> CommitModel {
    repo.commits[m.current()].rewritten(
        tree_made(repo, m, depth),
        parent_ids(parents_made(repo, m, depth)),
    )
}

/// The rewriter once the current commit, which the map does not know, has
/// been rewritten and recorded.
pub open spec fn made(repo: RepoModel, m: RewriterModel, depth: nat) -> RewriterModel {
    RewriterModel { map: map_made(repo, m, depth), ..m }.record(
        (repo.commit_ids)(commit_made(repo, m, depth)),
        tree_made(repo, m, depth),
        parents_made(repo, m, depth),
    )
}

/// Whether the rewriter has turned to a commit that it rewrites, whose
/// tree is nested no more than `depth` deep.
pub open spec fn rewrites(repo: RepoModel, m: RewriterModel, depth: nat) -> bool {
    &&& m.pos < m.commits.len()
    &&& m.stage == StageModel::Original
    &&& rewritten(repo.trees, m.map, m.filter, repo.commits[m.current()].tree, depth) is Some
}

/// A commit that the map does not know is rewritten in some rounds: its
/// tree is rewritten, its parents are resolved and looked up, the commit
/// `commit_made` is asked to be written, and what was made is recorded.
pub proof fn lemma_commit_rounds(repo: RepoModel, m: RewriterModel, depth: nat) -> (rounds: nat)
    requires
        rewrites(repo, m, depth),
    ensures
        rounds >= 1,
        run(repo, (m, RequestModel::ReadCommit(m.current())), (rounds - 1) as nat).1
            == RequestModel::WriteCommit(commit_made(repo, m, depth)),
        run(repo, (m, RequestModel::ReadCommit(m.current())), rounds) == made(
            repo,
            m,
            depth,
        ).advance(),
{
    let c = m.current();
    let commit = repo.commits[c];
    let start = (m, RequestModel::ReadCommit(c));
    let walk = running(m.map, begin(m.map, m.filter, commit.tree));
    assert(answered(repo, start) == filtering(m, commit, walk));
    let n = lemma_walk_computes(repo.trees, m.map, m.filter, commit.tree, depth);
    let (after, result) = rewritten(repo.trees, m.map, m.filter, commit.tree, depth)->Some_0;
    let done = ended(repo.trees, after, result);
    assert(run_of_walk(repo, walk, n) == done);
    let k = lemma_filtering_goes_as_walk(repo, m, commit, walk, n);
    let asking = filtering(m, commit, done);
    let tree = tree_made(repo, m, depth);
    let candidates = remap(after, commit.parents);
    assert(asking == (
        RewriterModel { map: after, stage: StageModel::Parents(commit, tree, candidates), ..m },
        RequestModel::ReadParents(candidates),
    ));
    let parents = parents_made(repo, m, depth);
    let writing = answered(repo, asking);
    assert(writing == (
        RewriterModel { map: after, stage: StageModel::Creating(tree, parents), ..m },
        RequestModel::WriteCommit(commit_made(repo, m, depth)),
    ));
    let recorded = answered(repo, writing);
    assert(writing.0.record((repo.commit_ids)(commit_made(repo, m, depth)), tree, parents)
        == made(repo, m, depth));
    assert(recorded == made(repo, m, depth).advance());
    // The rounds: one to read the commit, `k` for the tree, one for the
    // parents, one to write.
    assert(run(repo, start, 1 + k) == asking) by {
        assert(run(repo, start, 1 + k) == run(repo, answered(repo, start), k));
    }
    lemma_rounds_add(repo, start, 1 + k, 1);
    assert(run(repo, asking, 1) == writing) by {
        assert(run(repo, writing, 0) == writing);
    }
    lemma_rounds_add(repo, start, 1 + k, 2);
    assert(run(repo, asking, 2) == recorded) by {
        assert(run(repo, recorded, 0) == recorded);
        assert(run(repo, writing, 1) == recorded);
    }
    k + 3
}

/// A commit without parents of whose tree nothing is kept is discarded:
/// once it has been rewritten, the map holds the mark of a discarded object
/// for it, it resolves to that mark, and the tip is as it was.
pub proof fn lemma_root_discarded(repo: RepoModel, m: RewriterModel, depth: nat) -> (rounds: nat)
    requires
        rewrites(repo, m, depth),
        repo.commits[m.current()].parents.len() == 0,
        tree_made(repo, m, depth)@ == crate::oid::empty_tree_bytes(),
    ensures
        run(repo, (m, RequestModel::ReadCommit(m.current())), rounds) == made(
            repo,
            m,
            depth,
        ).advance(),
        made(repo, m, depth).map.contains_key(m.current()),
        made(repo, m, depth).map[m.current()] == None::<Oid>,
        resolved(made(repo, m, depth).map, m.current()) == Some(None::<Oid>),
        made(repo, m, depth).tip == m.tip,
        made(repo, m, depth).pos == m.pos + 1,
{
    let commit = repo.commits[m.current()];
    assert(remap(map_made(repo, m, depth), commit.parents) =~= Seq::<Oid>::empty());
    assert(parents_made(repo, m, depth) =~= Seq::<Parent>::empty());
    lemma_commit_rounds(repo, m, depth)
}

/// A commit whose only parent was discarded without a stand-in is written
/// without parents, with its rewritten tree: it is a root now.
pub proof fn lemma_child_of_discarded_root(
    repo: RepoModel,
    m: RewriterModel,
    depth: nat,
    root: Oid,
) -> (rounds: nat)
    requires
        rewrites(repo, m, depth),
        repo.commits[m.current()].parents == seq![root],
        m.map.contains_key(root),
        m.map[root] == None::<Oid>,
    ensures
        rounds >= 1,
        run(repo, (m, RequestModel::ReadCommit(m.current())), (rounds - 1) as nat).1
            == RequestModel::WriteCommit(commit_made(repo, m, depth)),
        commit_made(repo, m, depth).parents == Seq::<Oid>::empty(),
        commit_made(repo, m, depth).tree == tree_made(repo, m, depth),
        commit_made(repo, m, depth).author == repo.commits[m.current()].author,
        commit_made(repo, m, depth).committer == repo.commits[m.current()].committer,
        commit_made(repo, m, depth).message == repo.commits[m.current()].message,
{
    let commit = repo.commits[m.current()];
    let after = map_made(repo, m, depth);
    lemma_rewritten_extends(repo.trees, m.map, m.filter, commit.tree, depth);
    assert(after.contains_key(root) && after[root] == None::<Oid>);
    assert(resolved(after, root) == Some(None::<Oid>));
    let alone = seq![root];
    assert(alone.drop_last() =~= Seq::<Oid>::empty());
    assert(alone.last() == root);
    assert(remap(after, alone.drop_last()) =~= Seq::<Oid>::empty());
    assert(remap(after, alone) =~= Seq::<Oid>::empty());
    assert(parents_made(repo, m, depth) =~= Seq::<Parent>::empty());
    assert(parent_ids(parents_made(repo, m, depth)) =~= Seq::<Oid>::empty());
    lemma_commit_rounds(repo, m, depth)
}

/// Whether the map holds `kept` for `parent` and `kept` ends the chain in
/// the map `after`: it is no key of `after`, or `after` holds it for
/// itself.
pub open spec fn held_for(
    map: Map<Oid, Option<Oid>>,
    after: Map<Oid, Option<Oid>>,
    parent: Oid,
    kept: Oid,
) -> bool {
    &&& map.contains_key(parent)
    &&& map[parent] == Some(kept)
    &&& !after.contains_key(kept) || after[kept] == Some(kept)
}

/// A commit whose only parent resolves to `kept` has `kept` as its only
/// parent when it is rewritten, with the tree that the repository holds
/// for `kept`.
pub proof fn lemma_parent_made(
    repo: RepoModel,
    m: RewriterModel,
    depth: nat,
    parent: Oid,
    kept: Oid,
)
    requires
        rewrites(repo, m, depth),
        m.map.dom().finite(),
        repo.commits[m.current()].parents == seq![parent],
        held_for(m.map, map_made(repo, m, depth), parent, kept),
        repo.commits.contains_key(kept),
    ensures
        extends(m.map, map_made(repo, m, depth)),
        resolved(map_made(repo, m, depth), parent) == Some(Some(kept)),
        parents_made(repo, m, depth) == seq![Parent { id: kept, tree: repo.commits[kept].tree }],
        commit_made(repo, m, depth).parents == seq![kept],
{
    let commit = repo.commits[m.current()];
    let after = map_made(repo, m, depth);
    lemma_rewritten_extends(repo.trees, m.map, m.filter, commit.tree, depth);
    assert(after.contains_key(parent) && after[parent] == Some(kept));
    assert(after.dom().len() >= 1) by {
        assert(after.dom().contains(parent));
        if after.dom().len() == 0 {
            assert(after.dom() =~= Set::empty());
        }
    }
    if after.contains_key(kept) {
        assert(chase(after, kept, (after.dom().len() - 1) as nat) == Some(kept));
    }
    assert(chase(after, parent, after.dom().len()) == Some(kept));
    assert(resolved(after, parent) == Some(Some(kept)));
    let alone = seq![parent];
    assert(alone.drop_last() =~= Seq::<Oid>::empty());
    assert(alone.last() == parent);
    assert(remap(after, alone.drop_last()) =~= Seq::<Oid>::empty());
    let candidates = remap(after, alone);
    assert(candidates =~= seq![kept]);
    let trees = repo.probes(candidates);
    assert(trees[0] == Some(repo.commits[kept].tree));
    assert(candidates.drop_last() =~= Seq::<Oid>::empty());
    assert(found(candidates.drop_last(), trees) =~= Seq::<Parent>::empty());
    let parents = found(candidates, trees);
    assert(parents =~= seq![Parent { id: kept, tree: repo.commits[kept].tree }]);
    assert(parent_ids(parents) =~= seq![kept]);
}

/// A commit whose rewritten tree is the tree of what its only parent was
/// rewritten to is discarded. Once it has been rewritten, the map holds
/// what the parent was rewritten to for it; the commit and its parent both
/// resolve to that; and the tip is as it was, so the commit that was
/// written for it is not the tip unless it was before.
pub proof fn lemma_same_as_parent_discarded(
    repo: RepoModel,
    m: RewriterModel,
    depth: nat,
    parent: Oid,
    kept: Oid,
) -> (rounds: nat)
    requires
        rewrites(repo, m, depth),
        m.map.dom().finite(),
        repo.commits[m.current()].parents == seq![parent],
        parent != m.current(),
        held_for(m.map, map_made(repo, m, depth), parent, kept),
        repo.commits.contains_key(kept),
        repo.commits[kept].tree == tree_made(repo, m, depth),
    ensures
        run(repo, (m, RequestModel::ReadCommit(m.current())), rounds) == made(
            repo,
            m,
            depth,
        ).advance(),
        made(repo, m, depth).map[m.current()] == Some(kept),
        resolved(made(repo, m, depth).map, m.current()) == Some(Some(kept)),
        resolved(made(repo, m, depth).map, parent) == Some(Some(kept)),
        made(repo, m, depth).tip == m.tip,
        made(repo, m, depth).pos == m.pos + 1,
{
    let c = m.current();
    let after = map_made(repo, m, depth);
    lemma_parent_made(repo, m, depth, parent, kept);
    let parents = parents_made(repo, m, depth);
    let tree = tree_made(repo, m, depth);
    assert(commit_is_empty(tree, parents));
    assert(stand_in(parents) == Some(kept));
    let last = made(repo, m, depth).map;
    assert(last.dom() =~= after.dom().insert(c));
    assert(last.dom().finite());
    assert(last.dom().len() >= 1) by {
        assert(last.dom().contains(c));
        if last.dom().len() == 0 {
            assert(last.dom() =~= Set::empty());
        }
    }
    let fuel = last.dom().len();
    assert(last[c] == Some(kept));
    assert(last[parent] == Some(kept));
    if last.contains_key(kept) {
        assert(last[kept] == Some(kept));
        assert(chase(last, kept, (fuel - 1) as nat) == Some(kept));
    }
    assert(chase(last, c, fuel) == Some(kept));
    assert(chase(last, parent, fuel) == Some(kept));
    lemma_commit_rounds(repo, m, depth)
}

/// A commit whose only parent was discarded for `kept` is written with
/// `kept` as its only parent: the parent that was discarded is passed over.
pub proof fn lemma_child_of_discarded(
    repo: RepoModel,
    m: RewriterModel,
    depth: nat,
    parent: Oid,
    kept: Oid,
) -> (rounds: nat)
    requires
        rewrites(repo, m, depth),
        m.map.dom().finite(),
        repo.commits[m.current()].parents == seq![parent],
        held_for(m.map, map_made(repo, m, depth), parent, kept),
        repo.commits.contains_key(kept),
    ensures
        rounds >= 1,
        run(repo, (m, RequestModel::ReadCommit(m.current())), (rounds - 1) as nat).1
            == RequestModel::WriteCommit(commit_made(repo, m, depth)),
        commit_made(repo, m, depth).parents == seq![kept],
        commit_made(repo, m, depth).tree == tree_made(repo, m, depth),
{
    lemma_parent_made(repo, m, depth, parent, kept);
    lemma_commit_rounds(repo, m, depth)
}

/// A commit that is rewritten to a commit that is not empty is kept: the
/// map holds the commit that was written for it, and that commit is the
/// tip.
pub proof fn lemma_kept(repo: RepoModel, m: RewriterModel, depth: nat) -> (rounds: nat)
    requires
        rewrites(repo, m, depth),
        !commit_is_empty(tree_made(repo, m, depth), parents_made(repo, m, depth)),
    ensures
        run(repo, (m, RequestModel::ReadCommit(m.current())), rounds) == made(
            repo,
            m,
            depth,
        ).advance(),
        made(repo, m, depth).map == map_made(repo, m, depth).insert(
            m.current(),
            Some((repo.commit_ids)(commit_made(repo, m, depth))),
        ),
        made(repo, m, depth).tip == Some((repo.commit_ids)(commit_made(repo, m, depth))),
        made(repo, m, depth).pos == m.pos + 1,
{
    lemma_commit_rounds(repo, m, depth)
}

/// The rewriter before the first of `commits`, with nothing in the map.
pub open spec fn first_of(filter: crate::filter::FilterModel, commits: Seq<Oid>) -> RewriterModel {
    RewriterModel {
        filter,
        map: Map::empty(),
        commits,
        pos: 0,
        tip: None,
        stage: StageModel::Original,
    }
}

/// Whether the repository has the commit that is written for the current
/// commit, with the tree that it is written with.
pub open spec fn stored(repo: RepoModel, m: RewriterModel, depth: nat) -> bool {
    let id = (repo.commit_ids)(commit_made(repo, m, depth));
    repo.commits.contains_key(id) && repo.commits[id].tree == tree_made(repo, m, depth)
}

/// Whether `c1`, `c2` and `c3` are three commits in a line of which the
/// second changes nothing that is kept: the first is a root, and something
/// is kept of its tree; the second has the first as its parent and is
/// rewritten with the same tree; the third has the second as its parent
/// and is rewritten with another tree. The repository has the commit that
/// is written for the first, none of the three is by chance a tree that is
/// rewritten, and what the first is rewritten to ends its chain.
pub open spec fn line_of_three(
    repo: RepoModel,
    filter: crate::filter::FilterModel,
    c1: Oid,
    c2: Oid,
    c3: Oid,
    depth: nat,
) -> bool {
    let m0 = first_of(filter, seq![c1, c2, c3]);
    let n1 = (repo.commit_ids)(commit_made(repo, m0, depth));
    let m1 = made(repo, m0, depth);
    let m2 = made(repo, m1, depth);
    &&& c1 != c2 && c2 != c3 && c1 != c3
    &&& repo.commits[c1].parents == Seq::<Oid>::empty()
    &&& repo.commits[c2].parents == seq![c1]
    &&& repo.commits[c3].parents == seq![c2]
    &&& rewrites(repo, m0, depth)
    &&& tree_made(repo, m0, depth)@ != crate::oid::empty_tree_bytes()
    &&& stored(repo, m0, depth)
    &&& !m1.map.contains_key(c2)
    &&& rewrites(repo, m1, depth)
    &&& tree_made(repo, m1, depth) == tree_made(repo, m0, depth)
    &&& held_for(m1.map, map_made(repo, m1, depth), c1, n1)
    &&& !m2.map.contains_key(c3)
    &&& rewrites(repo, m2, depth)
    &&& tree_made(repo, m2, depth) != tree_made(repo, m0, depth)
    &&& held_for(m2.map, map_made(repo, m2, depth), c2, n1)
}

/// Three commits in a line, of which the second changes nothing that is
/// kept: what the run over them comes to, from an empty map.
///
/// The first commit is a root and something is kept of its tree; the
/// second has the first as its parent and is rewritten with the same tree;
/// the third has the second as its parent and is rewritten with another
/// tree. Then the run ends with the commit that was written for the third
/// as the tip. That commit has one parent, the commit that was written for
/// the first, which has none; the second commit was discarded, and resolves
/// to what the first resolves to.
pub proof fn lemma_three_commits(
    repo: RepoModel,
    filter: crate::filter::FilterModel,
    c1: Oid,
    c2: Oid,
    c3: Oid,
    depth: nat,
) -> (rounds: nat)
    requires
        line_of_three(repo, filter, c1, c2, c3, depth),
    ensures
        ({
            let m0 = first_of(filter, seq![c1, c2, c3]);
            let m1 = made(repo, m0, depth);
            let m2 = made(repo, m1, depth);
            let n1 = (repo.commit_ids)(commit_made(repo, m0, depth));
            let n3 = (repo.commit_ids)(commit_made(repo, m2, depth));
            let end = run(repo, RewriterModel::start(filter, Map::empty(), seq![c1, c2, c3]), rounds);
            &&& end.1 == RequestModel::Finish(Some(n3))
            &&& end.0.map == made(repo, m2, depth).map
            &&& end.0.map.contains_key(c1) && end.0.map.contains_key(c2) && end.0.map.contains_key(c3)
            &&& end.0.map.dom().finite()
            &&& end.0.map[c1] == Some(n1)
            &&& end.0.map[c2] == Some(n1)
            &&& end.0.map[c3] == Some(n3)
            &&& resolved(m2.map, c2) == Some(Some(n1))
            &&& resolved(m2.map, c1) == Some(Some(n1))
            &&& commit_made(repo, m0, depth).parents == Seq::<Oid>::empty()
            &&& commit_made(repo, m0, depth).tree == tree_made(repo, m0, depth)
            &&& commit_made(repo, m2, depth).parents == seq![n1]
            &&& commit_made(repo, m2, depth).tree == tree_made(repo, m2, depth)
        }),
{
    let commits = seq![c1, c2, c3];
    let m0 = first_of(filter, commits);
    let n1 = (repo.commit_ids)(commit_made(repo, m0, depth));
    let start = RewriterModel::start(filter, Map::empty(), commits);
    assert(m0.current() == c1);
    assert(start == (m0, RequestModel::ReadCommit(c1)));

    // The first commit is kept.
    assert(remap(map_made(repo, m0, depth), repo.commits[c1].parents) =~= Seq::<Oid>::empty());
    assert(parents_made(repo, m0, depth) =~= Seq::<Parent>::empty());
    assert(parent_ids(parents_made(repo, m0, depth)) =~= Seq::<Oid>::empty());
    let r1 = lemma_kept(repo, m0, depth);
    let m1 = made(repo, m0, depth);
    lemma_rewritten_extends(repo.trees, m0.map, filter, repo.commits[c1].tree, depth);
    assert(m1.map.dom().finite());
    assert(m1.current() == c2);
    assert(m1.advance() == (m1, RequestModel::ReadCommit(c2)));

    // The second is discarded for what the first was rewritten to.
    assert(m1.map[c1] == Some(n1));
    let r2 = lemma_same_as_parent_discarded(repo, m1, depth, c1, n1);
    let m2 = made(repo, m1, depth);
    assert(m2.current() == c3);
    assert(m2.advance() == (m2, RequestModel::ReadCommit(c3)));
    assert(m2.tip == Some(n1));
    lemma_rewritten_extends(repo.trees, m1.map, filter, repo.commits[c2].tree, depth);
    assert(m2.map.dom() =~= map_made(repo, m1, depth).dom().insert(c2));

    // The third is kept, with what the second resolves to as its parent.
    lemma_parent_made(repo, m2, depth, c2, n1);
    let parents = parents_made(repo, m2, depth);
    assert(parents[0].tree == tree_made(repo, m0, depth));
    assert(!commit_is_empty(tree_made(repo, m2, depth), parents));
    let r3 = lemma_kept(repo, m2, depth);
    let m3 = made(repo, m2, depth);
    let n3 = (repo.commit_ids)(commit_made(repo, m2, depth));
    assert(m3.advance() == (
        RewriterModel { stage: StageModel::Finished, ..m3 },
        RequestModel::Finish(Some(n3)),
    ));
    lemma_rounds_add(repo, start, r1, r2);
    lemma_rounds_add(repo, start, r1 + r2, r3);

    // What the map holds in the end.
    lemma_rewritten_extends(repo.trees, m1.map, filter, repo.commits[c2].tree, depth);
    lemma_rewritten_extends(repo.trees, m2.map, filter, repo.commits[c3].tree, depth);
    assert(m2.map[c1] == Some(n1));
    assert(map_made(repo, m2, depth).contains_key(c1));
    assert(map_made(repo, m2, depth).contains_key(c2));
    r1 + r2 + r3
}

/// A second run over three commits in a line, started with the map that
/// the first run left, ends as the first did: with the commit that was
/// written for the third as the tip, and with the same map. Nothing is
/// written.
pub proof fn lemma_three_commits_again(
    repo: RepoModel,
    filter: crate::filter::FilterModel,
    c1: Oid,
    c2: Oid,
    c3: Oid,
    depth: nat,
) -> (rounds: nat)
    requires
        line_of_three(repo, filter, c1, c2, c3, depth),
        ({
            let m0 = first_of(filter, seq![c1, c2, c3]);
            let m2 = made(repo, made(repo, m0, depth), depth);
            let n1 = (repo.commit_ids)(commit_made(repo, m0, depth));
            let last = made(repo, m2, depth).map;
            &&& stored(repo, m2, depth)
            &&& !last.contains_key(n1) || last[n1] == Some(n1)
        }),
    ensures
        ({
            let m0 = first_of(filter, seq![c1, c2, c3]);
            let m2 = made(repo, made(repo, m0, depth), depth);
            let n3 = (repo.commit_ids)(commit_made(repo, m2, depth));
            let last = made(repo, m2, depth).map;
            let end = run(repo, RewriterModel::start(filter, last, seq![c1, c2, c3]), rounds);
            &&& end.1 == RequestModel::Finish(Some(n3))
            &&& end.0.map == last
        }),
{
    let commits = seq![c1, c2, c3];
    let m0 = first_of(filter, commits);
    let m1 = made(repo, m0, depth);
    let m2 = made(repo, m1, depth);
    let n1 = (repo.commit_ids)(commit_made(repo, m0, depth));
    let n3 = (repo.commit_ids)(commit_made(repo, m2, depth));
    let t1 = tree_made(repo, m0, depth);
    let last = made(repo, m2, depth).map;
    let first = lemma_three_commits(repo, filter, c1, c2, c3, depth);
    let second = RewriterModel { map: last, ..m0 };

    // What the parents resolve to in the map of the first run.
    assert(last.dom().len() >= 1) by {
        assert(last.dom().contains(c1));
        if last.dom().len() == 0 {
            assert(last.dom() =~= Set::empty());
        }
    }
    if last.contains_key(n1) {
        assert(chase(last, n1, (last.dom().len() - 1) as nat) == Some(n1));
    }
    assert(resolved(last, c1) == Some(Some(n1)));
    assert(resolved(last, c2) == Some(Some(n1)));
    let none = Seq::<Oid>::empty();
    assert(remap(last, none) =~= none);
    assert(seq![c1].drop_last() =~= none && seq![c1].last() == c1);
    assert(seq![c2].drop_last() =~= none && seq![c2].last() == c2);
    assert(remap(last, seq![c1]) =~= seq![n1]);
    assert(remap(last, seq![c2]) =~= seq![n1]);
    let one = seq![n1];
    let trees = repo.probes(one);
    assert(trees[0] == Some(t1));
    assert(one.drop_last() =~= none);
    assert(found(one.drop_last(), trees) =~= Seq::<Parent>::empty());
    let parent = seq![Parent { id: n1, tree: t1 }];
    assert(found(one, trees) =~= parent);
    assert(repo.parents_of(last, c1) =~= Seq::<Parent>::empty()) by {
        assert(found(none, repo.probes(none)) =~= Seq::<Parent>::empty());
    }
    assert(repo.parents_of(last, c2) == parent);
    assert(repo.parents_of(last, c3) == parent);
    assert(parent[0].tree == t1);

    // Each entry is steady, and only the third commit moves the tip last.
    assert(kept_again(repo, last, c1));
    assert(!kept_again(repo, last, c2));
    assert(kept_again(repo, last, c3));
    assert forall|j: int| 0 <= j < second.commits.len() implies steady_at(
        repo,
        second.map,
        #[trigger] second.commits[j],
    ) by {
        assert(j == 0 || j == 1 || j == 2);
    }
    lemma_taken_steady(repo, second);
    assert(tip_upto(repo, last, commits, 3) == Some(n3));
    assert forall|j: int| second.pos <= j < second.commits.len() implies second.map.contains_key(
        #[trigger] second.commits[j],
    ) by {
        assert(j == 0 || j == 1 || j == 2);
    }
    lemma_run_takes(repo, second)
}

} // verus!
