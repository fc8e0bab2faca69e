//! Rewriting the commits of a history, one after the other.
//!
//! The commits come in topological order, parents before children. Each one
//! has its tree rewritten and its parents replaced by what they were
//! rewritten to; a commit that is then empty is discarded, and the commits
//! after it see its first parent in its place.
//!
//! A commit that the map knows is not rewritten again. Whether it was kept
//! is found out from what is stored, so that it becomes the tip only if it
//! did when the map got its entry.
//!
//! The store is the caller's part. A [`Rewriter`] says what to read or write
//! next, the caller does it and hands the result to [`Rewriter::step`].

use crate::commit::{commit_is_empty, found, found_parents, ids_of, is_empty_commit, parent_ids,
    remap, remap_parents, stand_in, Commit, CommitModel, Parent};
use crate::filter::{Filter, FilterModel};
use crate::map::{resolved, OidMap};
use crate::oid::Oid;
use crate::tree::{after_read, after_write, begin, entry_views, filter_tree, map_after_write,
    EntryModel, TreeEntry, TreeReply, TreeRequest, TreeRequestModel, TreeWalk, WalkModel};
use vstd::prelude::*;

verus! {

/// What a rewriter waits for.
pub ghost enum StageModel {
    /// The commit that is next in order.
    Original,
    /// What the rewriting of that commit's tree asked for.
    Filtering(CommitModel, WalkModel),
    /// The trees of the commits that its parents resolve to; the rewritten
    /// tree is at hand.
    Parents(CommitModel, Oid, Seq<Oid>),
    /// The identifier of the new commit, which has this tree and these parents.
    Creating(Oid, Seq<Parent>),
    /// The commit that the map already holds for the one that is next.
    Reused(Oid),
    /// The commit that is next itself, for its parents; the commit that the
    /// map holds for it and the tree of that commit are at hand.
    ReusedOriginal(Oid, Oid),
    /// The trees of the commits that its parents resolve to.
    ReusedParents(Oid, Oid, Seq<Oid>),
    /// Nothing: every commit has been handled.
    Finished,
}

/// A rewriter as a mathematical value.
pub ghost struct RewriterModel {
    pub filter: FilterModel,
    pub map: Map<Oid, Option<Oid>>,
    pub commits: Seq<Oid>,
    pub pos: nat,
    pub tip: Option<Oid>,
    pub stage: StageModel,
}

/// What the caller is asked to do.
pub ghost enum RequestModel {
    ReadCommit(Oid),
    ReadParents(Seq<Oid>),
    ReadTree(Oid),
    WriteTree(Seq<EntryModel>),
    WriteCommit(CommitModel),
    Finish(Option<Oid>),
    Refused,
}

/// What the caller hands back.
pub ghost enum ReplyModel {
    Commit(CommitModel),
    Parents(Seq<Option<Oid>>),
    Tree(Seq<EntryModel>),
    Written(Oid),
}

impl RewriterModel {
    /// The commit that is being handled.
    pub open spec fn current(self) -> Oid {
        self.commits[self.pos as int]
    }

    /// Turns to the commit at `pos`. After the last one the run ends with
    /// the tip: the last commit that was not discarded, if there is one. A
    /// commit that the map knows is not rewritten again. If the map holds
    /// the mark of a discarded object for it, it is passed over; if the map
    /// holds a commit for it, that commit is read instead.
    pub open spec fn advance(self) -> (RewriterModel, RequestModel)
        decreases self.commits.len() - self.pos,
    {
        if self.pos >= self.commits.len() {
            (RewriterModel { stage: StageModel::Finished, ..self }, RequestModel::Finish(self.tip))
        } else if self.map.contains_key(self.current()) && self.map[self.current()] is None {
            RewriterModel { pos: self.pos + 1, ..self }.advance()
        } else if self.map.contains_key(self.current()) {
            let known = self.map[self.current()]->Some_0;
            (
                RewriterModel { stage: StageModel::Reused(known), ..self },
                RequestModel::ReadCommit(known),
            )
        } else {
            (
                RewriterModel { stage: StageModel::Original, ..self },
                RequestModel::ReadCommit(self.current()),
            )
        }
    }

    /// Goes on where the rewriting of the tree of `commit` has stopped. What
    /// the walk asks for is passed on; when the walk is done, the parents of
    /// the commit are resolved and their trees are asked for.
    pub open spec fn after_walk(
        self,
        commit: CommitModel,
        walk: (WalkModel, TreeRequestModel),
    ) -> (RewriterModel, RequestModel) {
        let waiting = RewriterModel { stage: StageModel::Filtering(commit, walk.0), ..self };
        match walk.1 {
            TreeRequestModel::ReadTree(tree) => (waiting, RequestModel::ReadTree(tree)),
            TreeRequestModel::WriteTree(entries) => (waiting, RequestModel::WriteTree(entries)),
            TreeRequestModel::Refused => (waiting, RequestModel::Refused),
            TreeRequestModel::Done(tree) => {
                let candidates = remap(self.map, commit.parents);
                (
                    RewriterModel {
                        stage: StageModel::Parents(commit, tree, candidates),
                        ..self
                    },
                    RequestModel::ReadParents(candidates),
                )
            },
        }
    }

    /// Records what the current commit was rewritten to: the commit `new`
    /// with the tree `tree` and the parents `parents`. The map holds `new`
    /// for it. If `new` is empty, the map is overwritten at once: it holds
    /// the first parent of `new` instead, or the mark of a discarded object
    /// if `new` has no parent; the tip stays. Otherwise `new` is the tip.
    pub open spec fn record(self, new: Oid, tree: Oid, parents: Seq<Parent>) -> RewriterModel {
        let map = self.map.insert(self.current(), Some(new));
        if commit_is_empty(tree, parents) {
            RewriterModel {
                map: map.insert(self.current(), stand_in(parents)),
                pos: self.pos + 1,
                stage: StageModel::Original,
                ..self
            }
        } else {
            RewriterModel {
                map,
                pos: self.pos + 1,
                tip: Some(new),
                stage: StageModel::Original,
                ..self
            }
        }
    }

    /// The rewriter and its request after a reply. A reply that does not
    /// answer what the rewriter waits for is refused, and nothing changes.
    ///
    /// A commit that the map holds a commit for is not made again. What it
    /// was rewritten to is put together from what is stored: the tree of the
    /// commit that the map holds, and the parents that the parents of the
    /// commit itself resolve to. If that is empty, the commit was discarded
    /// for the commit that the map holds; it is recorded as it was, and the
    /// tip stays. If it is not, the commit that the map holds is the tip.
    pub open spec fn stepped(self, reply: ReplyModel) -> (RewriterModel, RequestModel) {
        match (self.stage, reply) {
            (StageModel::Original, ReplyModel::Commit(commit)) => self.after_walk(
                commit,
                begin(self.map, self.filter, commit.tree),
            ),
            (StageModel::Filtering(commit, walk), ReplyModel::Tree(entries)) => self.after_walk(
                commit,
                after_read(self.map, walk, entries),
            ),
            (StageModel::Filtering(commit, walk), ReplyModel::Written(id)) => RewriterModel {
                map: map_after_write(self.map, walk, id),
                ..self
            }.after_walk(commit, after_write(self.map, walk, id)),
            (StageModel::Parents(commit, tree, candidates), ReplyModel::Parents(trees)) => {
                let parents = found(candidates, trees);
                (
                    RewriterModel { stage: StageModel::Creating(tree, parents), ..self },
                    RequestModel::WriteCommit(commit.rewritten(tree, parent_ids(parents))),
                )
            },
            (StageModel::Creating(tree, parents), ReplyModel::Written(new)) => self.record(
                new,
                tree,
                parents,
            ).advance(),
            (StageModel::Reused(known), ReplyModel::Commit(commit)) => (
                RewriterModel { stage: StageModel::ReusedOriginal(known, commit.tree), ..self },
                RequestModel::ReadCommit(self.current()),
            ),
            (StageModel::ReusedOriginal(known, tree), ReplyModel::Commit(commit)) => {
                let candidates = remap(self.map, commit.parents);
                (
                    RewriterModel {
                        stage: StageModel::ReusedParents(known, tree, candidates),
                        ..self
                    },
                    RequestModel::ReadParents(candidates),
                )
            },
            (StageModel::ReusedParents(known, tree, candidates), ReplyModel::Parents(trees)) => {
                self.record(known, tree, found(candidates, trees)).advance()
            },
            _ => (self, RequestModel::Refused),
        }
    }

    /// The rewriter at the start of a run.
    pub open spec fn start(
        filter: FilterModel,
        map: Map<Oid, Option<Oid>>,
        commits: Seq<Oid>,
    ) -> (RewriterModel, RequestModel) {
        RewriterModel {
            filter,
            map,
            commits,
            pos: 0,
            tip: None,
            stage: StageModel::Original,
        }.advance()
    }
}

/// Whether every commit that has been handled is a key of the map.
pub open spec fn handled(m: RewriterModel) -> bool {
    forall|i: int| 0 <= i < m.pos && i < m.commits.len() ==> m.map.contains_key(
        #[trigger] m.commits[i],
    )
}

/// Whether a rewriter is where a run can bring it: it is finished, or
/// there is a commit that it is handling.
pub open spec fn in_order(m: RewriterModel) -> bool {
    m.stage is Finished || m.pos < m.commits.len()
}

/// Turning to the next commit passes over handled commits only.
pub proof fn lemma_advance_in_order(m: RewriterModel)
    requires
        handled(m),
        m.pos <= m.commits.len(),
    ensures
        handled(m.advance().0),
        in_order(m.advance().0),
        m.advance().0.pos >= m.pos,
        m.advance().0.pos <= m.commits.len(),
        m.advance().0.commits == m.commits,
        m.advance().0.map == m.map,
        m.advance().0.tip == m.tip,
    decreases m.commits.len() - m.pos,
{
    if m.pos < m.commits.len() && m.map.contains_key(m.current()) && m.map[m.current()] is None {
        let then = RewriterModel { pos: m.pos + 1, ..m };
        assert forall|i: int| 0 <= i < then.pos && i < then.commits.len() implies then.map.contains_key(
            #[trigger] then.commits[i],
        ) by {
            if i < m.pos {
                assert(m.map.contains_key(m.commits[i]));
            }
        }
        lemma_advance_in_order(then);
    }
}

/// A run starts with no commit handled but those that it passes over.
pub proof fn lemma_start_in_order(
    filter: FilterModel,
    map: Map<Oid, Option<Oid>>,
    commits: Seq<Oid>,
)
    ensures
        handled(RewriterModel::start(filter, map, commits).0),
        in_order(RewriterModel::start(filter, map, commits).0),
{
    lemma_advance_in_order(
        RewriterModel { filter, map, commits, pos: 0, tip: None, stage: StageModel::Original },
    );
}

/// No step takes a key out of the map, and after every step each commit
/// that has been handled is a key of the map. Commits come parents first,
/// so when the parents of a commit are resolved, each of them that belongs
/// to the run is a key: it resolves to a commit or to the mark of a
/// discarded object, and is never unknown.
pub proof fn lemma_step_keeps_handled(m: RewriterModel, reply: ReplyModel)
    requires
        handled(m),
        in_order(m),
        m.pos <= m.commits.len(),
    ensures
        handled(m.stepped(reply).0),
        in_order(m.stepped(reply).0),
        m.stepped(reply).0.pos >= m.pos,
        m.stepped(reply).0.pos <= m.commits.len(),
        m.stepped(reply).0.commits == m.commits,
        forall|k: Oid| m.map.contains_key(k) ==> #[trigger] m.stepped(reply).0.map.contains_key(k),
        forall|i: int|
            0 <= i < m.stepped(reply).0.pos && i < m.commits.len() ==> resolved(
                m.stepped(reply).0.map,
                #[trigger] m.commits[i],
            ) is Some,
{
    let after = m.stepped(reply).0;
    match (m.stage, reply) {
        (StageModel::Creating(tree, parents), ReplyModel::Written(new)) => {
            let then = m.record(new, tree, parents);
            assert forall|i: int| 0 <= i < then.pos && i < then.commits.len() implies then.map.contains_key(
                #[trigger] then.commits[i],
            ) by {
                if i < m.pos {
                    assert(m.map.contains_key(m.commits[i]));
                }
            }
            lemma_advance_in_order(then);
        },
        (StageModel::ReusedParents(known, tree, candidates), ReplyModel::Parents(trees)) => {
            let then = m.record(known, tree, found(candidates, trees));
            assert forall|i: int| 0 <= i < then.pos && i < then.commits.len() implies then.map.contains_key(
                #[trigger] then.commits[i],
            ) by {
                if i < m.pos {
                    assert(m.map.contains_key(m.commits[i]));
                }
            }
            lemma_advance_in_order(then);
        },
        _ => {},
    }
    assert forall|i: int| 0 <= i < after.pos && i < after.commits.len() implies after.map.contains_key(
        #[trigger] after.commits[i],
    ) by {}
}

/// A commit that has one parent and the same tree as that parent is
/// discarded: it does not become the tip, and it resolves to the parent,
/// never to the commit that was made for it. So a commit that comes later
/// and has it as a parent gets the parent in its place.
pub proof fn lemma_same_tree_as_parent(m: RewriterModel, new: Oid, parent: Parent)
    requires
        m.map.dom().finite(),
        parent.id != m.current(),
        parent.id != new,
        !m.map.contains_key(parent.id) || m.map[parent.id] == Some(parent.id),
    ensures
        m.record(new, parent.tree, seq![parent]).tip == m.tip,
        m.record(new, parent.tree, seq![parent]).pos == m.pos + 1,
        resolved(m.record(new, parent.tree, seq![parent]).map, m.current()) == Some(
            Some(parent.id),
        ),
        resolved(m.record(new, parent.tree, seq![parent]).map, m.current()) != Some(Some(new)),
        remap(m.record(new, parent.tree, seq![parent]).map, seq![m.current()]) == seq![parent.id],
{
    let parents = seq![parent];
    assert(commit_is_empty(parent.tree, parents));
    let after = m.record(new, parent.tree, parents).map;
    assert(after.dom() =~= m.map.dom().insert(m.current()));
    assert(after.dom().finite());
    assert(after.dom().len() >= 1) by {
        assert(after.dom().contains(m.current()));
        if after.dom().len() == 0 {
            assert(after.dom() =~= Set::empty());
        }
    }
    assert(after[m.current()] == Some(parent.id));
    if after.contains_key(parent.id) {
        assert(after[parent.id] == Some(parent.id));
        assert(crate::map::chase(after, parent.id, (after.dom().len() - 1) as nat) == Some(
            parent.id,
        ));
    }
    assert(crate::map::chase(after, m.current(), after.dom().len()) == Some(parent.id));
    assert(resolved(after, m.current()) == Some(Some(parent.id)));
    let alone = seq![m.current()];
    assert(alone.drop_last() =~= Seq::<Oid>::empty());
    assert(remap(after, alone.drop_last()) =~= Seq::<Oid>::empty());
    assert(alone.last() == m.current());
    assert(remap(after, alone) =~= seq![parent.id]);
}

/// A commit without parents of which nothing is left is discarded: it does
/// not become the tip, the map holds the mark of a discarded object for it,
/// and a commit that comes later and has it as its only parent has no
/// parent at all.
pub proof fn lemma_empty_root(m: RewriterModel, new: Oid, tree: Oid)
    requires
        m.map.dom().finite(),
        tree@ == crate::oid::empty_tree_bytes(),
    ensures
        m.record(new, tree, Seq::empty()).tip == m.tip,
        m.record(new, tree, Seq::empty()).map[m.current()] == None::<Oid>,
        resolved(m.record(new, tree, Seq::empty()).map, m.current()) == Some(None::<Oid>),
        remap(m.record(new, tree, Seq::empty()).map, seq![m.current()]) == Seq::<Oid>::empty(),
{
    let after = m.record(new, tree, Seq::empty()).map;
    let alone = seq![m.current()];
    assert(alone.drop_last() =~= Seq::<Oid>::empty());
    assert(remap(after, alone.drop_last()) =~= Seq::<Oid>::empty());
}

/// A commit that is not empty becomes the tip, and resolves to the commit
/// that was made for it unless that commit is itself a key of the map.
pub proof fn lemma_kept_commit(m: RewriterModel, new: Oid, tree: Oid, parents: Seq<Parent>)
    requires
        m.map.dom().finite(),
        !commit_is_empty(tree, parents),
        new == m.current() || !m.map.contains_key(new),
    ensures
        m.record(new, tree, parents).tip == Some(new),
        m.record(new, tree, parents).map == m.map.insert(m.current(), Some(new)),
        resolved(m.record(new, tree, parents).map, m.current()) == Some(Some(new)),
{
}

/// What was recorded for a commit is found again. Where a later run puts
/// together the same tree and the same parents for the commit, it leaves
/// the entry of the commit as it is, and the commit becomes the tip in the
/// later run if and only if it did in the run that made the entry. This
/// holds whether the commit was kept, discarded for its first parent, or
/// discarded without one.
pub proof fn lemma_recorded_again(
    m: RewriterModel,
    again: RewriterModel,
    new: Oid,
    tree: Oid,
    parents: Seq<Parent>,
)
    requires
        m.pos < m.commits.len(),
        again.commits == m.commits,
        again.pos == m.pos,
        again.map == m.record(new, tree, parents).map,
    ensures
        commit_is_empty(tree, parents) ==> m.record(new, tree, parents).tip == m.tip,
        !commit_is_empty(tree, parents) ==> m.record(new, tree, parents).tip == Some(new),
        again.map[again.current()] matches Some(known) ==> {
            &&& again.record(known, tree, parents).map == again.map
            &&& commit_is_empty(tree, parents) ==> again.record(known, tree, parents).tip
                == again.tip
            &&& !commit_is_empty(tree, parents) ==> again.record(known, tree, parents).tip
                == Some(new)
        },
        again.map[again.current()] is None ==> {
            &&& commit_is_empty(tree, parents)
            &&& again.advance() == RewriterModel { pos: again.pos + 1, ..again }.advance()
        },
{
    let c = m.current();
    if let Some(known) = again.map[c] {
        assert(again.map.insert(c, Some(known)) =~= again.map);
        if commit_is_empty(tree, parents) {
            assert(again.map.insert(c, Some(known)).insert(c, stand_in(parents)) =~= again.map);
        }
    }
}

/// What a rewriter waits for.
pub enum Stage<'a> {
    Original,
    Filtering(Commit, TreeWalk<'a>),
    Parents(Commit, Oid, Vec<Oid>),
    Creating(Oid, Vec<Parent>),
    Reused(Oid),
    ReusedOriginal(Oid, Oid),
    ReusedParents(Oid, Oid, Vec<Oid>),
    Finished,
}

/// The rewriting of a list of commits.
pub struct Rewriter<'a> {
    filter: &'a Filter,
    map: OidMap,
    commits: Vec<Oid>,
    pos: usize,
    tip: Option<Oid>,
    stage: Stage<'a>,
}

/// What the caller of a rewriter is asked to do next.
#[derive(Debug, PartialEq, Eq)]
pub enum Request {
    /// Read the commit with this identifier; answer with [`Reply::Commit`].
    ReadCommit(Oid),
    /// Look up the commits with these identifiers; answer with
    /// [`Reply::Parents`], which holds for each of them, in order, its tree,
    /// or `None` if the store has no such commit.
    ReadParents(Vec<Oid>),
    /// Read the tree with this identifier; answer with [`Reply::Tree`].
    ReadTree(Oid),
    /// Write a tree with these entries; answer with [`Reply::Written`].
    WriteTree(Vec<TreeEntry>),
    /// Write this commit; answer with [`Reply::Written`].
    WriteCommit(Commit),
    /// Nothing more. If a commit is given, the branch belongs on it; if
    /// none is, every commit was discarded and there is no branch to make.
    Finish(Option<Oid>),
    /// The reply answered no request; the rewriter is as it was.
    Refused,
}

/// What the caller of a rewriter hands back.
#[derive(Debug)]
pub enum Reply {
    Commit(Commit),
    Parents(Vec<Option<Oid>>),
    Tree(Vec<TreeEntry>),
    Written(Oid),
}

impl<'a> View for Stage<'a> {
    type V = StageModel;

    open spec fn view(&self) -> StageModel {
        match self {
            Stage::Original => StageModel::Original,
            Stage::Filtering(commit, walk) => StageModel::Filtering(commit@, walk@),
            Stage::Parents(commit, tree, candidates) => StageModel::Parents(
                commit@,
                *tree,
                candidates@,
            ),
            Stage::Creating(tree, parents) => StageModel::Creating(*tree, parents@),
            Stage::Reused(known) => StageModel::Reused(*known),
            Stage::ReusedOriginal(known, tree) => StageModel::ReusedOriginal(*known, *tree),
            Stage::ReusedParents(known, tree, candidates) => StageModel::ReusedParents(
                *known,
                *tree,
                candidates@,
            ),
            Stage::Finished => StageModel::Finished,
        }
    }
}

impl View for Request {
    type V = RequestModel;

    open spec fn view(&self) -> RequestModel {
        match self {
            Request::ReadCommit(id) => RequestModel::ReadCommit(*id),
            Request::ReadParents(ids) => RequestModel::ReadParents(ids@),
            Request::ReadTree(id) => RequestModel::ReadTree(*id),
            Request::WriteTree(entries) => RequestModel::WriteTree(entry_views(entries@)),
            Request::WriteCommit(commit) => RequestModel::WriteCommit(commit@),
            Request::Finish(tip) => RequestModel::Finish(*tip),
            Request::Refused => RequestModel::Refused,
        }
    }
}

impl View for Reply {
    type V = ReplyModel;

    open spec fn view(&self) -> ReplyModel {
        match self {
            Reply::Commit(commit) => ReplyModel::Commit(commit@),
            Reply::Parents(trees) => ReplyModel::Parents(trees@),
            Reply::Tree(entries) => ReplyModel::Tree(entry_views(entries@)),
            Reply::Written(id) => ReplyModel::Written(*id),
        }
    }
}

impl<'a> View for Rewriter<'a> {
    type V = RewriterModel;

    closed spec fn view(&self) -> RewriterModel {
        RewriterModel {
            filter: self.filter@,
            map: self.map@,
            commits: self.commits@,
            pos: self.pos as nat,
            tip: self.tip,
            stage: self.stage@,
        }
    }
}

impl<'a> Rewriter<'a> {
    /// The invariant of a rewriter: its map is in order, and unless it is
    /// finished there is a commit that it is handling.
    pub closed spec fn wf(&self) -> bool {
        &&& self.map.wf()
        &&& self.pos <= self.commits@.len()
        &&& !(self.stage is Finished) ==> self.pos < self.commits@.len()
    }

    /// Starts to rewrite `commits`, which come parents first, with `filter`
    /// and with what `map` holds of earlier runs.
    pub fn new(filter: &'a Filter, map: OidMap, commits: Vec<Oid>) -> (r: (Rewriter<'a>, Request))
        requires
            map.wf(),
        ensures
            r.0.wf(),
            (r.0@, r.1@) == RewriterModel::start(filter@, map@, commits@),
    {
        let mut rewriter = Rewriter {
            filter,
            map,
            commits,
            pos: 0,
            tip: None,
            stage: Stage::Original,
        };
        let request = rewriter.advance();
        (rewriter, request)
    }

    /// The map as it stands.
    pub fn map(&self) -> (r: &OidMap)
        requires
            self.wf(),
        ensures
            r.wf(),
            r@ == self@.map,
    {
        &self.map
    }

    /// Gives up the rewriter for its map.
    pub fn into_map(self) -> (r: OidMap)
        requires
            self.wf(),
        ensures
            r.wf(),
            r@ == self@.map,
    {
        self.map
    }

    /// The last commit that was not discarded, so far.
    pub fn tip(&self) -> (r: Option<Oid>)
        ensures
            r == self@.tip,
    {
        self.tip
    }

    /// The commit that is being handled, if the run is not finished.
    pub fn current(&self) -> (r: Option<Oid>)
        ensures
            r == (if self@.pos < self@.commits.len() {
                Some(self@.current())
            } else {
                None
            }),
    {
        if self.pos < self.commits.len() {
            Some(self.commits[self.pos])
        } else {
            None
        }
    }

    /// How many commits have been handled.
    pub fn position(&self) -> (r: usize)
        ensures
            r == self@.pos,
    {
        self.pos
    }

    /// How many commits there are.
    pub fn total(&self) -> (r: usize)
        ensures
            r == self@.commits.len(),
    {
        self.commits.len()
    }

    /// Whether every commit has been handled.
    pub fn is_finished(&self) -> (r: bool)
        ensures
            r == (self@.stage is Finished),
    {
        match self.stage {
            Stage::Finished => true,
            _ => false,
        }
    }

    fn advance(&mut self) -> (r: Request)
        requires
            old(self).map.wf(),
            old(self).pos <= old(self).commits@.len(),
        ensures
            final(self).wf(),
            (final(self)@, r@) == old(self)@.advance(),
    {
        while self.pos < self.commits.len()
            invariant
                self.map.wf(),
                self.pos <= self.commits@.len(),
                self@.advance() == old(self)@.advance(),
            decreases self.commits@.len() - self.pos,
        {
            match self.map.get(&self.commits[self.pos]) {
                Some(None) => {
                    self.pos = self.pos + 1;
                },
                Some(Some(known)) => {
                    self.stage = Stage::Reused(known);
                    return Request::ReadCommit(known);
                },
                None => {
                    self.stage = Stage::Original;
                    return Request::ReadCommit(self.commits[self.pos]);
                },
            }
        }
        self.stage = Stage::Finished;
        Request::Finish(self.tip)
    }

    fn after_walk(&mut self, commit: Commit, walk: TreeWalk<'a>, request: TreeRequest) -> (r:
        Request)
        requires
            old(self).map.wf(),
            old(self).pos < old(self).commits@.len(),
        ensures
            final(self).wf(),
            (final(self)@, r@) == old(self)@.after_walk(commit@, (walk@, request@)),
    {
        match request {
            TreeRequest::ReadTree(tree) => {
                self.stage = Stage::Filtering(commit, walk);
                Request::ReadTree(tree)
            },
            TreeRequest::WriteTree(entries) => {
                self.stage = Stage::Filtering(commit, walk);
                Request::WriteTree(entries)
            },
            TreeRequest::Refused => {
                self.stage = Stage::Filtering(commit, walk);
                Request::Refused
            },
            TreeRequest::Done(tree) => {
                let candidates = remap_parents(&self.map, &commit.parents);
                let asked = vstd::slice::slice_to_vec(candidates.as_slice());
                self.stage = Stage::Parents(commit, tree, candidates);
                Request::ReadParents(asked)
            },
        }
    }

    fn record(&mut self, new: Oid, tree: Oid, parents: &Vec<Parent>)
        requires
            old(self).map.wf(),
            old(self).pos < old(self).commits@.len(),
        ensures
            final(self).map.wf(),
            final(self).pos <= final(self).commits@.len(),
            final(self)@ == old(self)@.record(new, tree, parents@),
    {
        assert(self.pos < self.commits.len());
        let current = self.commits[self.pos];
        self.map.insert(current, Some(new));
        if is_empty_commit(&tree, parents) {
            let instead = if parents.len() > 0 {
                Some(parents[0].id)
            } else {
                None
            };
            self.map.insert(current, instead);
        } else {
            self.tip = Some(new);
        }
        self.pos = self.pos + 1;
        self.stage = Stage::Original;
    }

    /// Takes what the caller has read or written and says what to do next.
    pub fn step(&mut self, reply: Reply) -> (r: Request)
        requires
            old(self).wf(),
        ensures
            final(self).wf(),
            (final(self)@, r@) == old(self)@.stepped(reply@),
    {
        let mut stage = Stage::Finished;
        std::mem::swap(&mut self.stage, &mut stage);
        match (stage, reply) {
            (Stage::Original, Reply::Commit(commit)) => {
                let (walk, request) = filter_tree(&self.map, self.filter, commit.tree);
                self.after_walk(commit, walk, request)
            },
            (Stage::Filtering(commit, walk), Reply::Tree(entries)) => {
                let mut walk = walk;
                let request = walk.resume(&mut self.map, TreeReply::Tree(entries));
                self.after_walk(commit, walk, request)
            },
            (Stage::Filtering(commit, walk), Reply::Written(id)) => {
                let mut walk = walk;
                let request = walk.resume(&mut self.map, TreeReply::Written(id));
                self.after_walk(commit, walk, request)
            },
            (Stage::Parents(commit, tree, candidates), Reply::Parents(trees)) => {
                let parents = found_parents(&candidates, &trees);
                let new = Commit {
                    tree,
                    parents: ids_of(&parents),
                    author: commit.author,
                    committer: commit.committer,
                    message: commit.message,
                };
                self.stage = Stage::Creating(tree, parents);
                Request::WriteCommit(new)
            },
            (Stage::Creating(tree, parents), Reply::Written(new)) => {
                self.record(new, tree, &parents);
                self.advance()
            },
            (Stage::Reused(known), Reply::Commit(commit)) => {
                self.stage = Stage::ReusedOriginal(known, commit.tree);
                Request::ReadCommit(self.commits[self.pos])
            },
            (Stage::ReusedOriginal(known, tree), Reply::Commit(commit)) => {
                let candidates = remap_parents(&self.map, &commit.parents);
                let asked = vstd::slice::slice_to_vec(candidates.as_slice());
                self.stage = Stage::ReusedParents(known, tree, candidates);
                Request::ReadParents(asked)
            },
            (Stage::ReusedParents(known, tree, candidates), Reply::Parents(trees)) => {
                let parents = found_parents(&candidates, &trees);
                self.record(known, tree, &parents);
                self.advance()
            },
            (stage, _) => {
                self.stage = stage;
                Request::Refused
            },
        }
    }
}

} // verus!
