//! Rewriting a tree so that it holds only what the filter keeps.
//!
//! Reading and writing trees is the caller's part. [`filter_tree`] and
//! [`TreeWalk::resume`] say what to read or write next, and take what came
//! of it; in between they decide, entry by entry, what stays. Trees are
//! written bottom-up: a tree is asked to be written only when all the trees
//! beneath it have been.

use crate::filter::{first_match_from, leaf, lemma_exclude_beneath_two, lemma_exclude_second,
    lemma_include_two, lemma_place, names, only_child, place, with_child, Filter, FilterModel};
use crate::map::OidMap;
use crate::oid::Oid;
use vstd::prelude::*;

verus! {

/// An entry of a tree as a mathematical value.
pub ghost struct EntryModel {
    pub name: Seq<u8>,
    pub id: Oid,
    pub mode: i32,
    pub is_tree: bool,
}

/// An entry of a tree: a name, the object it names, the file mode, and
/// whether the object is a tree.
#[derive(Debug, PartialEq, Eq)]
pub struct TreeEntry {
    pub name: Vec<u8>,
    pub id: Oid,
    pub mode: i32,
    pub is_tree: bool,
}

impl View for TreeEntry {
    type V = EntryModel;

    open spec fn view(&self) -> EntryModel {
        EntryModel { name: self.name@, id: self.id, mode: self.mode, is_tree: self.is_tree }
    }
}

/// The entries of a list, each as a mathematical value.
pub open spec fn entry_views(es: Seq<TreeEntry>) -> Seq<EntryModel> {
    Seq::new(es.len(), |i: int| es[i]@)
}

impl EntryModel {
    /// The entry with another object under the same name and mode.
    pub open spec fn with_id(self, id: Oid) -> EntryModel {
        EntryModel { name: self.name, id, mode: self.mode, is_tree: self.is_tree }
    }
}

/// What becomes of an entry.
pub ghost enum DecisionModel {
    /// It is kept as it is.
    Keep,
    /// It is left out.
    Drop,
    /// It is a tree that is rewritten with the given node of the filter.
    Descend(FilterModel),
}

/// What becomes of an entry under a node of the filter.
///
/// The child that matches the entry's name decides: a terminal child keeps
/// the entry or drops it, as it includes or excludes; a child with children
/// of its own sends a tree to be rewritten and drops anything else. Where no
/// child matches, the entry is kept if the node excludes, and dropped if it
/// includes.
pub open spec fn decision(node: FilterModel, entry: EntryModel) -> DecisionModel {
    match first_match_from(node.children, entry.name, 0) {
        Some(i) => {
            let child = node.children[i].1;
            if child.is_terminal() {
                if child.exclude {
                    DecisionModel::Drop
                } else {
                    DecisionModel::Keep
                }
            } else if entry.is_tree {
                DecisionModel::Descend(child)
            } else {
                DecisionModel::Drop
            }
        },
        None => if node.exclude {
            DecisionModel::Keep
        } else {
            DecisionModel::Drop
        },
    }
}

/// After a path has been included and two names beneath it have been
/// excluded, everything beneath the path is kept but the two names.
pub proof fn lemma_include_then_exclude_two(
    a: Seq<u8>,
    b: Seq<u8>,
    c: Seq<u8>,
    d: Seq<u8>,
    entry: EntryModel,
)
    requires
        c != d,
        c.len() > 0,
        d.len() > 0,
        c != seq![0x2au8, 0x2au8],
        d != seq![0x2au8, 0x2au8],
    ensures
        ({
            let beneath = FilterModel {
                exclude: true,
                children: with_child(seq![(c, leaf(true))], d, leaf(true)),
            };
            &&& leaf(false).with_include(seq![a, b]).with_exclude(seq![a, b, c]).with_exclude(
                seq![a, b, d],
            ) == only_child(false, a, only_child(false, b, beneath))
            &&& decision(beneath, entry) == (if entry.name == c || entry.name == d {
                DecisionModel::Drop
            } else {
                DecisionModel::Keep
            })
        }),
{
    lemma_include_two(a, b);
    lemma_exclude_beneath_two(a, b, c);
    lemma_exclude_second(a, b, c, d);
    let one = seq![(c, leaf(true))];
    let two = with_child(one, d, leaf(true));
    let i = place(names(one), d);
    lemma_place(names(one), d);
    assert(two == one.insert(i, (d, leaf(true))));
    assert(two.len() == 2);
    if i == 0 {
        assert(two[0] == (d, leaf(true)) && two[1] == (c, leaf(true)));
    } else {
        assert(two[0] == (c, leaf(true)) && two[1] == (d, leaf(true)));
    }
    reveal_with_fuel(first_match_from, 3);
}

/// What becomes of an entry, with the node to go on with.
pub enum Decision<'a> {
    Keep,
    Drop,
    Descend(&'a Filter),
}

impl<'a> View for Decision<'a> {
    type V = DecisionModel;

    open spec fn view(&self) -> DecisionModel {
        match self {
            Decision::Keep => DecisionModel::Keep,
            Decision::Drop => DecisionModel::Drop,
            Decision::Descend(node) => DecisionModel::Descend(node@),
        }
    }
}

/// Decides what becomes of an entry under a node of the filter.
pub fn decide<'a>(node: &'a Filter, entry: &TreeEntry) -> (r: Decision<'a>)
    ensures
        r@ == decision(node@, entry@),
{
    match node.match_entry(entry.name.as_slice()) {
        Some(child) => {
            if child.is_empty() {
                if child.excludes() {
                    Decision::Drop
                } else {
                    Decision::Keep
                }
            } else if entry.is_tree {
                Decision::Descend(child)
            } else {
                Decision::Drop
            }
        },
        None => {
            if node.excludes() {
                Decision::Keep
            } else {
                Decision::Drop
            }
        },
    }
}

impl TreeEntry {
    /// A copy of the entry.
    pub fn copy(&self) -> (r: TreeEntry)
        ensures
            r@ == self@,
    {
        TreeEntry {
            name: vstd::slice::slice_to_vec(self.name.as_slice()),
            id: self.id,
            mode: self.mode,
            is_tree: self.is_tree,
        }
    }

    /// A copy of the entry that names another object.
    pub fn replaced(&self, id: Oid) -> (r: TreeEntry)
        ensures
            r@ == self@.with_id(id),
    {
        TreeEntry {
            name: vstd::slice::slice_to_vec(self.name.as_slice()),
            id,
            mode: self.mode,
            is_tree: self.is_tree,
        }
    }
}

/// A tree that is being rewritten: its entries, how many of them have been
/// decided, and what has been kept of those.
pub ghost struct FrameModel {
    pub node: FilterModel,
    pub tree: Oid,
    pub entries: Seq<EntryModel>,
    pub next: nat,
    pub kept: Seq<EntryModel>,
}

/// What a walk waits for.
pub ghost enum PhaseModel {
    /// The tree with this identifier, to be rewritten with this node.
    Reading(FilterModel, Oid),
    /// The identifier of the tree that was written in place of this one.
    Writing(Oid),
    /// The identifier of the tree without entries.
    WritingEmpty,
    /// Nothing: the root has been rewritten to this tree.
    Done(Oid),
}

/// A walk: the trees that are being rewritten, the root first, and what the
/// walk waits for.
pub ghost struct WalkModel {
    pub frames: Seq<FrameModel>,
    pub phase: PhaseModel,
}

/// What the caller is asked to do.
pub ghost enum TreeRequestModel {
    ReadTree(Oid),
    WriteTree(Seq<EntryModel>),
    Done(Oid),
    Refused,
}

impl FrameModel {
    /// How many entries are still to be decided.
    pub open spec fn remaining(self) -> nat {
        if self.next < self.entries.len() {
            (self.entries.len() - self.next) as nat
        } else {
            0
        }
    }

    /// The frame after its next entry has been kept as it is.
    pub open spec fn keep(self) -> FrameModel {
        FrameModel { next: self.next + 1, kept: self.kept.push(self.entries[self.next as int]), ..self }
    }

    /// The frame after its next entry has been dropped.
    pub open spec fn skip(self) -> FrameModel {
        FrameModel { next: self.next + 1, ..self }
    }

    /// The frame after its next entry, a tree, has been rewritten: the entry
    /// is kept under the new identifier, or dropped if nothing was left.
    pub open spec fn absorb(self, result: Option<Oid>) -> FrameModel {
        if self.next >= self.entries.len() {
            self
        } else {
            match result {
                Some(id) => FrameModel {
                    next: self.next + 1,
                    kept: self.kept.push(self.entries[self.next as int].with_id(id)),
                    ..self
                },
                None => self.skip(),
            }
        }
    }
}

/// The frames with the last one replaced.
pub open spec fn with_top(frames: Seq<FrameModel>, top: FrameModel) -> Seq<FrameModel> {
    frames.drop_last().push(top)
}

/// Where a walk stops once the tree of the last frame (or the root, if there
/// is no frame) has been rewritten to `result`.
pub open spec fn deliver(
    map: Map<Oid, Option<Oid>>,
    frames: Seq<FrameModel>,
    result: Option<Oid>,
) -> (WalkModel, TreeRequestModel)
    decreases frames.len(), (if frames.len() > 0 { frames.last().remaining() } else { 0 }), 1nat,
{
    if frames.len() == 0 {
        match result {
            Some(id) => (
                WalkModel { frames, phase: PhaseModel::Done(id) },
                TreeRequestModel::Done(id),
            ),
            None => (
                WalkModel { frames, phase: PhaseModel::WritingEmpty },
                TreeRequestModel::WriteTree(Seq::empty()),
            ),
        }
    } else {
        settle(map, with_top(frames, frames.last().absorb(result)))
    }
}

/// Where a walk stops that goes on deciding the entries of its last frame.
///
/// Entries are decided in order. A tree that is to be rewritten and that the
/// map already knows takes what the map says; one that the map does not know
/// has to be read, and the walk stops there. When all entries are decided, a
/// frame that kept nothing is given up without a tree being written, and any
/// other is to be written, and the walk stops there.
pub open spec fn settle(map: Map<Oid, Option<Oid>>, frames: Seq<FrameModel>) -> (
    WalkModel,
    TreeRequestModel,
)
    decreases frames.len(), (if frames.len() > 0 { frames.last().remaining() } else { 0 }), 0nat,
{
    if frames.len() == 0 {
        (
            WalkModel { frames, phase: PhaseModel::WritingEmpty },
            TreeRequestModel::WriteTree(Seq::empty()),
        )
    } else {
        let top = frames.last();
        if top.next >= top.entries.len() {
            if top.kept.len() == 0 {
                deliver(map, frames.drop_last(), None)
            } else {
                (
                    WalkModel { frames: frames.drop_last(), phase: PhaseModel::Writing(top.tree) },
                    TreeRequestModel::WriteTree(top.kept),
                )
            }
        } else {
            let entry = top.entries[top.next as int];
            match decision(top.node, entry) {
                DecisionModel::Keep => settle(map, with_top(frames, top.keep())),
                DecisionModel::Drop => settle(map, with_top(frames, top.skip())),
                DecisionModel::Descend(child) => if map.contains_key(entry.id) {
                    settle(map, with_top(frames, top.absorb(map[entry.id])))
                } else {
                    (
                        WalkModel { frames, phase: PhaseModel::Reading(child, entry.id) },
                        TreeRequestModel::ReadTree(entry.id),
                    )
                },
            }
        }
    }
}

/// Where a walk stops that starts at the tree `tree` with the node `node`:
/// at once if the map knows the tree, else with the request to read it.
pub open spec fn begin(map: Map<Oid, Option<Oid>>, node: FilterModel, tree: Oid) -> (
    WalkModel,
    TreeRequestModel,
) {
    if map.contains_key(tree) {
        deliver(map, Seq::empty(), map[tree])
    } else {
        (
            WalkModel { frames: Seq::empty(), phase: PhaseModel::Reading(node, tree) },
            TreeRequestModel::ReadTree(tree),
        )
    }
}

/// Where a walk that waits for a tree stops once it has the tree's entries.
/// A walk that waits for something else refuses them and stays as it is.
pub open spec fn after_read(
    map: Map<Oid, Option<Oid>>,
    walk: WalkModel,
    entries: Seq<EntryModel>,
) -> (WalkModel, TreeRequestModel) {
    match walk.phase {
        PhaseModel::Reading(node, tree) => settle(
            map,
            walk.frames.push(FrameModel { node, tree, entries, next: 0, kept: Seq::empty() }),
        ),
        _ => (walk, TreeRequestModel::Refused),
    }
}

/// The map once a walk that waits for a written tree has its identifier: the
/// tree that the written one replaces is remembered with it.
pub open spec fn map_after_write(
    map: Map<Oid, Option<Oid>>,
    walk: WalkModel,
    id: Oid,
) -> Map<Oid, Option<Oid>> {
    match walk.phase {
        PhaseModel::Writing(tree) => map.insert(tree, Some(id)),
        _ => map,
    }
}

/// Where a walk that waits for a written tree stops once it has the tree's
/// identifier. A walk that waits for something else refuses it and stays as
/// it is.
pub open spec fn after_write(map: Map<Oid, Option<Oid>>, walk: WalkModel, id: Oid) -> (
    WalkModel,
    TreeRequestModel,
) {
    match walk.phase {
        PhaseModel::Writing(tree) => deliver(
            map_after_write(map, walk, id),
            walk.frames,
            Some(id),
        ),
        PhaseModel::WritingEmpty => (
            WalkModel { frames: walk.frames, phase: PhaseModel::Done(id) },
            TreeRequestModel::Done(id),
        ),
        _ => (walk, TreeRequestModel::Refused),
    }
}

/// A tree without entries is asked to be written only in place of the tree
/// that the walk started at: of any other tree of which nothing is kept,
/// nothing is written.
pub proof fn lemma_empty_only_for_root(
    map: Map<Oid, Option<Oid>>,
    frames: Seq<FrameModel>,
    result: Option<Oid>,
)
    ensures
        settle(map, frames).1 matches TreeRequestModel::WriteTree(entries) ==> (entries.len() == 0
            <==> settle(map, frames).0.phase is WritingEmpty),
        deliver(map, frames, result).1 matches TreeRequestModel::WriteTree(entries) ==> (
        entries.len() == 0 <==> deliver(map, frames, result).0.phase is WritingEmpty),
    decreases frames.len(), (if frames.len() > 0 {
            frames.last().remaining()
        } else {
            0
        }), 2nat,
{
    if frames.len() > 0 {
        let top = frames.last();
        lemma_empty_only_for_root_settle(map, with_top(frames, top.absorb(result)));
        lemma_empty_only_for_root_settle(map, frames);
    }
}

proof fn lemma_empty_only_for_root_settle(map: Map<Oid, Option<Oid>>, frames: Seq<FrameModel>)
    ensures
        settle(map, frames).1 matches TreeRequestModel::WriteTree(entries) ==> (entries.len() == 0
            <==> settle(map, frames).0.phase is WritingEmpty),
    decreases frames.len(), (if frames.len() > 0 {
            frames.last().remaining()
        } else {
            0
        }), 0nat,
{
    if frames.len() > 0 {
        let top = frames.last();
        if top.next >= top.entries.len() {
            if top.kept.len() == 0 {
                lemma_empty_only_for_root_deliver(map, frames.drop_last(), None);
            }
        } else {
            let entry = top.entries[top.next as int];
            match decision(top.node, entry) {
                DecisionModel::Keep => {
                    lemma_empty_only_for_root_settle(map, with_top(frames, top.keep()));
                },
                DecisionModel::Drop => {
                    lemma_empty_only_for_root_settle(map, with_top(frames, top.skip()));
                },
                DecisionModel::Descend(child) => {
                    if map.contains_key(entry.id) {
                        lemma_empty_only_for_root_settle(
                            map,
                            with_top(frames, top.absorb(map[entry.id])),
                        );
                    }
                },
            }
        }
    }
}

proof fn lemma_empty_only_for_root_deliver(
    map: Map<Oid, Option<Oid>>,
    frames: Seq<FrameModel>,
    result: Option<Oid>,
)
    ensures
        deliver(map, frames, result).1 matches TreeRequestModel::WriteTree(entries) ==> (
        entries.len() == 0 <==> deliver(map, frames, result).0.phase is WritingEmpty),
    decreases frames.len(), (if frames.len() > 0 {
            frames.last().remaining()
        } else {
            0
        }), 1nat,
{
    if frames.len() > 0 {
        lemma_empty_only_for_root_settle(map, with_top(frames, frames.last().absorb(result)));
    }
}

/// A tree that is being rewritten.
pub struct Frame<'a> {
    node: &'a Filter,
    tree: Oid,
    entries: Vec<TreeEntry>,
    next: usize,
    kept: Vec<TreeEntry>,
}

/// What a walk waits for.
pub enum Phase<'a> {
    Reading(&'a Filter, Oid),
    Writing(Oid),
    WritingEmpty,
    Done(Oid),
}

/// The rewriting of one tree, from the request to read it to its new
/// identifier.
pub struct TreeWalk<'a> {
    frames: Vec<Frame<'a>>,
    phase: Phase<'a>,
}

/// What the caller of a walk is asked to do next.
#[derive(Debug, PartialEq, Eq)]
pub enum TreeRequest {
    /// Read the tree with this identifier and hand its entries to
    /// [`TreeWalk::resume`].
    ReadTree(Oid),
    /// Write a tree with these entries and hand its identifier to
    /// [`TreeWalk::resume`].
    WriteTree(Vec<TreeEntry>),
    /// Nothing more: this is the rewritten tree.
    Done(Oid),
    /// What was handed in answers no request; the walk is as it was.
    Refused,
}

/// What the caller of a walk hands back.
#[derive(Debug)]
pub enum TreeReply {
    /// The entries of the tree that was to be read, in the order of the store.
    Tree(Vec<TreeEntry>),
    /// The identifier of the tree that was to be written.
    Written(Oid),
}

impl<'a> View for Frame<'a> {
    type V = FrameModel;

    closed spec fn view(&self) -> FrameModel {
        FrameModel {
            node: self.node@,
            tree: self.tree,
            entries: entry_views(self.entries@),
            next: self.next as nat,
            kept: entry_views(self.kept@),
        }
    }
}

impl<'a> View for Phase<'a> {
    type V = PhaseModel;

    open spec fn view(&self) -> PhaseModel {
        match self {
            Phase::Reading(node, tree) => PhaseModel::Reading(node@, *tree),
            Phase::Writing(tree) => PhaseModel::Writing(*tree),
            Phase::WritingEmpty => PhaseModel::WritingEmpty,
            Phase::Done(id) => PhaseModel::Done(*id),
        }
    }
}

/// The frames of a list, each as a mathematical value.
pub open spec fn frame_views<'a>(fs: Seq<Frame<'a>>) -> Seq<FrameModel> {
    Seq::new(fs.len(), |i: int| fs[i]@)
}

impl<'a> View for TreeWalk<'a> {
    type V = WalkModel;

    closed spec fn view(&self) -> WalkModel {
        WalkModel { frames: frame_views(self.frames@), phase: self.phase@ }
    }
}

impl View for TreeRequest {
    type V = TreeRequestModel;

    open spec fn view(&self) -> TreeRequestModel {
        match self {
            TreeRequest::ReadTree(id) => TreeRequestModel::ReadTree(*id),
            TreeRequest::WriteTree(entries) => TreeRequestModel::WriteTree(entry_views(entries@)),
            TreeRequest::Done(id) => TreeRequestModel::Done(*id),
            TreeRequest::Refused => TreeRequestModel::Refused,
        }
    }
}

/// Starts to rewrite the tree `tree` so that it holds only what `filter`
/// keeps. The result is remembered in `map` under the tree's identifier;
/// a tree that `map` knows already is not rewritten again.
///
/// A tree of which nothing is kept is not written; only for the tree that
/// the walk starts at the tree without entries is written in its place.
pub fn filter_tree<'a>(map: &OidMap, filter: &'a Filter, tree: Oid) -> (r: (
    TreeWalk<'a>,
    TreeRequest,
))
    requires
        map.wf(),
    ensures
        (r.0@, r.1@) == begin(map@, filter@, tree),
{
    let mut walk = TreeWalk { frames: Vec::new(), phase: Phase::Reading(filter, tree) };
    assert(walk@.frames =~= Seq::empty());
    match map.get(&tree) {
        Some(result) => {
            let request = walk.go_on(map, Some(result));
            (walk, request)
        },
        None => (walk, TreeRequest::ReadTree(tree)),
    }
}

impl<'a> TreeWalk<'a> {
    /// Whether the walk has come to its end.
    pub fn is_done(&self) -> (r: bool)
        ensures
            r == (self@.phase is Done),
    {
        match self.phase {
            Phase::Done(_) => true,
            _ => false,
        }
    }

    /// How many trees are being rewritten: the depth of the walk.
    pub fn depth(&self) -> (r: usize)
        ensures
            r == self@.frames.len(),
    {
        self.frames.len()
    }

    /// Goes on until something has to be read or written, or the walk is
    /// done: first hands `incoming`, if there is one, to the last frame as
    /// what its next entry was rewritten to.
    fn go_on(&mut self, map: &OidMap, incoming: Option<Option<Oid>>) -> (r: TreeRequest)
        requires
            map.wf(),
        ensures
            (final(self)@, r@) == (match incoming {
                Some(result) => deliver(map@, old(self)@.frames, result),
                None => settle(map@, old(self)@.frames),
            }),
    {
        let ghost goal = match incoming {
            Some(result) => deliver(map@, self@.frames, result),
            None => settle(map@, self@.frames),
        };
        let mut pending = incoming;
        loop
            invariant
                map.wf(),
                goal == (match incoming {
                    Some(result) => deliver(map@, old(self)@.frames, result),
                    None => settle(map@, old(self)@.frames),
                }),
                goal == (match pending {
                    Some(result) => deliver(map@, self@.frames, result),
                    None => settle(map@, self@.frames),
                }),
            decreases
                    self.frames@.len(),
                    (if self.frames@.len() > 0 {
                        self.frames@.last()@.remaining()
                    } else {
                        0
                    }),
                    (if pending is Some {
                        1nat
                    } else {
                        0nat
                    }),
        {
            let n = self.frames.len();
            if n == 0 {
                assert(self@.frames =~= Seq::empty());
                return match pending {
                    Some(Some(id)) => {
                        self.phase = Phase::Done(id);
                        assert(self@.frames =~= Seq::empty());
                        TreeRequest::Done(id)
                    },
                    _ => {
                        self.phase = Phase::WritingEmpty;
                        assert(self@.frames =~= Seq::empty());
                        let entries: Vec<TreeEntry> = Vec::new();
                        assert(entry_views(entries@) =~= Seq::empty());
                        TreeRequest::WriteTree(entries)
                    },
                };
            }
            let ghost frames = self@.frames;
            let ghost top = frames.last();
            assert(top == self.frames@[n - 1]@);
            match pending {
                Some(result) => {
                    let k = self.frames[n - 1].next;
                    if k < self.frames[n - 1].entries.len() {
                        if let Some(id) = result {
                            let entry = self.frames[n - 1].entries[k].replaced(id);
                            let ghost before = self.frames@[n - 1].kept@;
                            self.frames[n - 1].kept.push(entry);
                            assert(entry_views(self.frames@[n - 1].kept@) =~= entry_views(
                                before,
                            ).push(top.entries[k as int].with_id(id)));
                        }
                        self.frames[n - 1].next = k + 1;
                        assert(self.frames@[n - 1]@ == top.absorb(result));
                    }
                    assert(self@.frames =~= with_top(frames, top.absorb(result)));
                    pending = None;
                },
                None => {
                    let k = self.frames[n - 1].next;
                    if k >= self.frames[n - 1].entries.len() {
                        let frame = self.frames.pop().unwrap();
                        assert(frame@ == top);
                        assert(self@.frames =~= frames.drop_last());
                        if frame.kept.len() == 0 {
                            pending = Some(None);
                        } else {
                            self.phase = Phase::Writing(frame.tree);
                            assert(self@.frames =~= frames.drop_last());
                            return TreeRequest::WriteTree(frame.kept);
                        }
                    } else {
                        let node: &'a Filter = self.frames[n - 1].node;
                        match decide(node, &self.frames[n - 1].entries[k]) {
                            Decision::Keep => {
                                let entry = self.frames[n - 1].entries[k].copy();
                                let ghost before = self.frames@[n - 1].kept@;
                                self.frames[n - 1].kept.push(entry);
                                self.frames[n - 1].next = k + 1;
                                assert(entry_views(self.frames@[n - 1].kept@) =~= entry_views(
                                    before,
                                ).push(top.entries[k as int]));
                                assert(self.frames@[n - 1]@ == top.keep());
                                assert(self@.frames =~= with_top(frames, top.keep()));
                            },
                            Decision::Drop => {
                                self.frames[n - 1].next = k + 1;
                                assert(self.frames@[n - 1]@ == top.skip());
                                assert(self@.frames =~= with_top(frames, top.skip()));
                            },
                            Decision::Descend(child) => {
                                let id = self.frames[n - 1].entries[k].id;
                                match map.get(&id) {
                                    Some(result) => {
                                        if let Some(new) = result {
                                            let entry = self.frames[n - 1].entries[k].replaced(
                                                new,
                                            );
                                            let ghost before = self.frames@[n - 1].kept@;
                                            self.frames[n - 1].kept.push(entry);
                                            assert(entry_views(self.frames@[n - 1].kept@)
                                                =~= entry_views(before).push(
                                                top.entries[k as int].with_id(new),
                                            ));
                                        }
                                        self.frames[n - 1].next = k + 1;
                                        assert(self.frames@[n - 1]@ == top.absorb(result));
                                        assert(self@.frames =~= with_top(
                                            frames,
                                            top.absorb(result),
                                        ));
                                    },
                                    None => {
                                        self.phase = Phase::Reading(child, id);
                                        assert(self@.frames =~= frames);
                                        return TreeRequest::ReadTree(id);
                                    },
                                }
                            },
                        }
                    }
                },
            }
        }
    }

    /// Takes what the caller has read or written and goes on. The walk tells
    /// what to do next; when a tree has been written, `map` remembers it
    /// under the identifier of the tree that it replaces.
    pub fn resume(&mut self, map: &mut OidMap, reply: TreeReply) -> (r: TreeRequest)
        requires
            old(map).wf(),
        ensures
            final(map).wf(),
            match reply {
                TreeReply::Tree(entries) => {
                    &&& final(map)@ == old(map)@
                    &&& (final(self)@, r@) == after_read(
                        old(map)@,
                        old(self)@,
                        entry_views(entries@),
                    )
                },
                TreeReply::Written(id) => {
                    &&& final(map)@ == map_after_write(old(map)@, old(self)@, id)
                    &&& (final(self)@, r@) == after_write(old(map)@, old(self)@, id)
                },
            },
    {
        match reply {
            TreeReply::Tree(entries) => {
                match self.phase {
                    Phase::Reading(node, tree) => {
                        let ghost frames = self@.frames;
                        let frame = Frame { node, tree, entries, next: 0, kept: Vec::new() };
                        assert(frame@.kept =~= Seq::empty());
                        self.frames.push(frame);
                        assert(self@.frames =~= frames.push(frame@));
                        self.go_on(map, None)
                    },
                    _ => TreeRequest::Refused,
                }
            },
            TreeReply::Written(id) => {
                match self.phase {
                    Phase::Writing(tree) => {
                        map.insert(tree, Some(id));
                        self.go_on(map, Some(Some(id)))
                    },
                    Phase::WritingEmpty => {
                        self.phase = Phase::Done(id);
                        TreeRequest::Done(id)
                    },
                    _ => TreeRequest::Refused,
                }
            },
        }
    }
}

} // verus!
