//! What a walk comes to when a store answers its requests.
//!
//! The store is a mathematical value here: what reading a tree gives, and
//! the identifier that writing a list of entries gives. [`rewritten`] says
//! in a few lines what rewriting a tree means; [`lemma_walk_computes`] shows
//! that a walk, answered by the store request after request, ends with just
//! that. [`lemma_settled_is_fixed`] shows that a tree of which the filter
//! drops nothing is rewritten to itself, and [`lemma_filtered_twice`] that
//! the tree a walk ends with is rewritten to itself, where store and map are
//! faithful to the walk.

use crate::filter::FilterModel;
use crate::oid::Oid;
use crate::tree::{after_read, after_write, begin, decision, deliver, map_after_write, settle,
    with_top, DecisionModel, EntryModel, FrameModel, PhaseModel, TreeRequestModel, WalkModel};
use vstd::prelude::*;

verus! {

/// A store of trees.
pub ghost struct StoreModel {
    /// The entries of each tree, in the order of the store.
    pub trees: Map<Oid, Seq<EntryModel>>,
    /// The identifier under which a list of entries is stored as a tree.
    pub ids: spec_fn(Seq<EntryModel>) -> Oid,
}

impl StoreModel {
    /// What reading the tree `id` gives.
    pub open spec fn read(self, id: Oid) -> Seq<EntryModel> {
        self.trees[id]
    }

    /// The identifier that writing a tree with these entries gives.
    pub open spec fn write(self, entries: Seq<EntryModel>) -> Oid {
        (self.ids)(entries)
    }
}

/// The frame of a tree of which no entry has been decided.
pub open spec fn fresh(node: FilterModel, tree: Oid, entries: Seq<EntryModel>) -> FrameModel {
    FrameModel { node, tree, entries, next: 0, kept: Seq::empty() }
}

/// What rewriting the tree `tree` with the node `node` gives: the map
/// afterwards and the new tree, or `None` for the tree if nothing is kept.
///
/// A tree that the map knows is what the map says. Any other tree is read,
/// and its entries are decided in order; if any are kept, they are written
/// as a tree, and the map remembers that tree under `tree`. The result is
/// `None` where the trees are nested more than `depth` deep.
pub open spec fn rewritten(
    store: StoreModel,
    map: Map<Oid, Option<Oid>>,
    node: FilterModel,
    tree: Oid,
    depth: nat,
) -> Option<(Map<Oid, Option<Oid>>, Option<Oid>)>
    decreases depth, 0nat, 0nat,
{
    if map.contains_key(tree) {
        Some((map, map[tree]))
    } else if depth == 0 {
        None
    } else {
        match kept_of(store, map, fresh(node, tree, store.read(tree)), (depth - 1) as nat) {
            None => None,
            Some((after, kept)) => if kept.len() == 0 {
                Some((after, None))
            } else {
                Some((after.insert(tree, Some(store.write(kept))), Some(store.write(kept))))
            },
        }
    }
}

/// What is kept of the tree of a frame once the rest of its entries have
/// been decided, and the map afterwards. An entry that is a tree to be
/// rewritten is kept under the identifier of the rewritten tree, and left
/// out if nothing of that tree is kept.
pub open spec fn kept_of(
    store: StoreModel,
    map: Map<Oid, Option<Oid>>,
    frame: FrameModel,
    depth: nat,
) -> Option<(Map<Oid, Option<Oid>>, Seq<EntryModel>)>
    decreases depth, 1nat, frame.remaining(),
{
    if frame.next >= frame.entries.len() {
        Some((map, frame.kept))
    } else {
        let entry = frame.entries[frame.next as int];
        match decision(frame.node, entry) {
            DecisionModel::Keep => kept_of(store, map, frame.keep(), depth),
            DecisionModel::Drop => kept_of(store, map, frame.skip(), depth),
            DecisionModel::Descend(child) => match rewritten(store, map, child, entry.id, depth) {
                None => None,
                Some((after, result)) => kept_of(store, after, frame.absorb(result), depth),
            },
        }
    }
}

/// A walk under way: the map, the walk, and what the walk has asked for.
pub ghost struct Running {
    pub map: Map<Oid, Option<Oid>>,
    pub walk: WalkModel,
    pub request: TreeRequestModel,
}

/// A walk and its request as a walk under way.
pub open spec fn running(map: Map<Oid, Option<Oid>>, at: (WalkModel, TreeRequestModel)) -> Running {
    Running { map, walk: at.0, request: at.1 }
}

/// The walk after the store has answered its request.
pub open spec fn answered(store: StoreModel, s: Running) -> Running {
    match s.request {
        TreeRequestModel::ReadTree(id) => running(s.map, after_read(s.map, s.walk, store.read(id))),
        TreeRequestModel::WriteTree(entries) => running(
            map_after_write(s.map, s.walk, store.write(entries)),
            after_write(s.map, s.walk, store.write(entries)),
        ),
        TreeRequestModel::Done(_) => s,
        TreeRequestModel::Refused => s,
    }
}

/// The walk after the store has answered `rounds` requests.
pub open spec fn run(store: StoreModel, s: Running, rounds: nat) -> Running
    decreases rounds,
{
    if rounds == 0 {
        s
    } else {
        run(store, answered(store, s), (rounds - 1) as nat)
    }
}

/// Where a walk stands once the tree of a frame that lay on `frames` has
/// been dealt with: nothing was kept and the frame is given up, or `kept`
/// was written and the map remembers it.
pub open spec fn closed(
    store: StoreModel,
    map: Map<Oid, Option<Oid>>,
    frames: Seq<FrameModel>,
    tree: Oid,
    kept: Seq<EntryModel>,
) -> Running {
    if kept.len() == 0 {
        running(map, deliver(map, frames, None))
    } else {
        let id = store.write(kept);
        running(map.insert(tree, Some(id)), deliver(map.insert(tree, Some(id)), frames, Some(id)))
    }
}

/// Where a walk ends that has rewritten its tree to `result`: with that
/// tree, or with the tree without entries if nothing was kept.
pub open spec fn ended(store: StoreModel, map: Map<Oid, Option<Oid>>, result: Option<Oid>) -> Running {
    let id = match result {
        Some(id) => id,
        None => store.write(Seq::empty()),
    };
    Running {
        map,
        walk: WalkModel { frames: Seq::empty(), phase: PhaseModel::Done(id) },
        request: TreeRequestModel::Done(id),
    }
}

/// Rounds add up.
pub proof fn lemma_run_add(store: StoreModel, s: Running, a: nat, b: nat)
    ensures
        run(store, s, a + b) == run(store, run(store, s, a), b),
    decreases a,
{
    if a > 0 {
        lemma_run_add(store, answered(store, s), (a - 1) as nat, b);
        assert(run(store, s, a + b) == run(store, answered(store, s), (a + b - 1) as nat));
    }
}

/// A walk that goes on with a frame comes, after some rounds, to where the
/// frame is dealt with, having kept what `kept_of` says.
pub proof fn lemma_frame(
    store: StoreModel,
    map: Map<Oid, Option<Oid>>,
    frames: Seq<FrameModel>,
    frame: FrameModel,
    depth: nat,
) -> (rounds: nat)
    requires
        kept_of(store, map, frame, depth) is Some,
    ensures
        run(store, running(map, settle(map, frames.push(frame))), rounds) == closed(
            store,
            kept_of(store, map, frame, depth)->Some_0.0,
            frames,
            frame.tree,
            kept_of(store, map, frame, depth)->Some_0.1,
        ),
    decreases depth, 1nat, frame.remaining(),
{
    let stack = frames.push(frame);
    assert(stack.drop_last() =~= frames);
    assert(stack.last() == frame);
    let start = running(map, settle(map, stack));
    if frame.next >= frame.entries.len() {
        if frame.kept.len() == 0 {
            assert(run(store, start, 0) == start);
            0
        } else {
            assert(run(store, start, 1) == run(store, answered(store, start), 0));
            1
        }
    } else {
        let entry = frame.entries[frame.next as int];
        match decision(frame.node, entry) {
            DecisionModel::Keep => {
                assert(with_top(stack, frame.keep()) =~= frames.push(frame.keep()));
                lemma_frame(store, map, frames, frame.keep(), depth)
            },
            DecisionModel::Drop => {
                assert(with_top(stack, frame.skip()) =~= frames.push(frame.skip()));
                lemma_frame(store, map, frames, frame.skip(), depth)
            },
            DecisionModel::Descend(child) => {
                let (after, result) = rewritten(store, map, child, entry.id, depth)->Some_0;
                let then = frame.absorb(result);
                assert(with_top(stack, then) =~= frames.push(then));
                if map.contains_key(entry.id) {
                    lemma_frame(store, map, frames, then, depth)
                } else {
                    let first = lemma_subtree(store, map, stack, child, entry.id, depth);
                    let second = lemma_frame(store, after, frames, then, depth);
                    lemma_run_add(store, start, first, second);
                    first + second
                }
            },
        }
    }
}

/// A walk that waits for a tree comes, after some rounds, to where the tree
/// has been rewritten to what `rewritten` says.
pub proof fn lemma_subtree(
    store: StoreModel,
    map: Map<Oid, Option<Oid>>,
    frames: Seq<FrameModel>,
    node: FilterModel,
    tree: Oid,
    depth: nat,
) -> (rounds: nat)
    requires
        !map.contains_key(tree),
        rewritten(store, map, node, tree, depth) is Some,
    ensures
        run(
            store,
            Running {
                map,
                walk: WalkModel { frames, phase: PhaseModel::Reading(node, tree) },
                request: TreeRequestModel::ReadTree(tree),
            },
            rounds,
        ) == running(
            rewritten(store, map, node, tree, depth)->Some_0.0,
            deliver(
                rewritten(store, map, node, tree, depth)->Some_0.0,
                frames,
                rewritten(store, map, node, tree, depth)->Some_0.1,
            ),
        ),
    decreases depth, 0nat, 0nat,
{
    let start = Running {
        map,
        walk: WalkModel { frames, phase: PhaseModel::Reading(node, tree) },
        request: TreeRequestModel::ReadTree(tree),
    };
    let frame = fresh(node, tree, store.read(tree));
    let inner = lemma_frame(store, map, frames, frame, (depth - 1) as nat);
    assert(answered(store, start) == running(map, settle(map, frames.push(frame))));
    assert(run(store, start, inner + 1) == run(store, answered(store, start), inner));
    inner + 1
}

/// A walk that a store answers, request after request, ends with what
/// rewriting the tree gives: the same tree, and the same map. If nothing is
/// kept of the tree, the walk ends with the tree without entries.
pub proof fn lemma_walk_computes(
    store: StoreModel,
    map: Map<Oid, Option<Oid>>,
    node: FilterModel,
    tree: Oid,
    depth: nat,
) -> (rounds: nat)
    requires
        rewritten(store, map, node, tree, depth) is Some,
    ensures
        run(store, running(map, begin(map, node, tree)), rounds) == ended(
            store,
            rewritten(store, map, node, tree, depth)->Some_0.0,
            rewritten(store, map, node, tree, depth)->Some_0.1,
        ),
{
    let none = Seq::<FrameModel>::empty();
    let start = running(map, begin(map, node, tree));
    let (after, result) = rewritten(store, map, node, tree, depth)->Some_0;
    let first = if map.contains_key(tree) {
        assert(run(store, start, 0) == start);
        0
    } else {
        lemma_subtree(store, map, none, node, tree, depth)
    };
    let delivered = running(after, deliver(after, none, result));
    assert(run(store, start, first) == delivered);
    match result {
        Some(id) => first,
        None => {
            assert(run(store, delivered, 1) == run(store, answered(store, delivered), 0));
            lemma_run_add(store, start, first, 1);
            first + 1
        },
    }
}

/// Whether `b` holds what `a` holds and, beyond that, only keys that map to
/// themselves.
pub open spec fn grown(a: Map<Oid, Option<Oid>>, b: Map<Oid, Option<Oid>>) -> bool {
    &&& forall|k: Oid| #[trigger] a.contains_key(k) ==> b.contains_key(k) && b[k] == a[k]
    &&& forall|k: Oid| #[trigger] b.contains_key(k) && !a.contains_key(k) ==> b[k] == Some(k)
}

/// Growing twice is growing.
pub proof fn lemma_grown_twice(
    a: Map<Oid, Option<Oid>>,
    b: Map<Oid, Option<Oid>>,
    c: Map<Oid, Option<Oid>>,
)
    requires
        grown(a, b),
        grown(b, c),
    ensures
        grown(a, c),
{
    assert forall|k: Oid| a.contains_key(k) implies c.contains_key(k) && c[k] == a[k] by {
        assert(b.contains_key(k));
    }
    assert forall|k: Oid| c.contains_key(k) && !a.contains_key(k) implies c[k] == Some(k) by {
        if b.contains_key(k) {
            assert(b[k] == Some(k));
        }
    }
}

/// Whether the tree `tree` is settled under the node `node`: the filter
/// drops nothing of it, at any depth, and each tree in it that is rewritten
/// has the identifier of its own content. A tree that the map knows is
/// settled if the map holds the tree itself for it.
pub open spec fn settled(
    store: StoreModel,
    map: Map<Oid, Option<Oid>>,
    node: FilterModel,
    tree: Oid,
    depth: nat,
) -> bool
    decreases depth, 0nat, 0nat,
{
    if map.contains_key(tree) {
        map[tree] == Some(tree)
    } else {
        &&& depth > 0
        &&& store.read(tree).len() > 0
        &&& store.write(store.read(tree)) == tree
        &&& settled_from(store, map, node, store.read(tree), 0, (depth - 1) as nat)
    }
}

/// Whether the entries from position `from` on are settled under `node`.
pub open spec fn settled_from(
    store: StoreModel,
    map: Map<Oid, Option<Oid>>,
    node: FilterModel,
    entries: Seq<EntryModel>,
    from: nat,
    depth: nat,
) -> bool
    decreases depth, 1nat, entries.len() - from,
{
    if from >= entries.len() {
        true
    } else {
        &&& match decision(node, entries[from as int]) {
            DecisionModel::Keep => true,
            DecisionModel::Drop => false,
            DecisionModel::Descend(child) => settled(
                store,
                map,
                child,
                entries[from as int].id,
                depth,
            ),
        }
        &&& settled_from(store, map, node, entries, from + 1, depth)
    }
}

/// A tree that is settled stays settled when the map grows.
pub proof fn lemma_settled_grown(
    store: StoreModel,
    map: Map<Oid, Option<Oid>>,
    more: Map<Oid, Option<Oid>>,
    node: FilterModel,
    tree: Oid,
    depth: nat,
)
    requires
        settled(store, map, node, tree, depth),
        grown(map, more),
    ensures
        settled(store, more, node, tree, depth),
    decreases depth, 0nat, 0nat,
{
    if !map.contains_key(tree) && !more.contains_key(tree) {
        lemma_settled_from_grown(store, map, more, node, store.read(tree), 0, (depth - 1) as nat);
    }
}

/// Entries that are settled stay settled when the map grows.
pub proof fn lemma_settled_from_grown(
    store: StoreModel,
    map: Map<Oid, Option<Oid>>,
    more: Map<Oid, Option<Oid>>,
    node: FilterModel,
    entries: Seq<EntryModel>,
    from: nat,
    depth: nat,
)
    requires
        settled_from(store, map, node, entries, from, depth),
        grown(map, more),
    ensures
        settled_from(store, more, node, entries, from, depth),
    decreases depth, 1nat, entries.len() - from,
{
    if from < entries.len() {
        match decision(node, entries[from as int]) {
            DecisionModel::Descend(child) => {
                lemma_settled_grown(store, map, more, child, entries[from as int].id, depth);
            },
            _ => {},
        }
        lemma_settled_from_grown(store, map, more, node, entries, from + 1, depth);
    }
}

/// Rewriting a settled tree gives the tree itself, and a map that has
/// grown by no more than keys that map to themselves.
pub proof fn lemma_settled_is_fixed(
    store: StoreModel,
    map: Map<Oid, Option<Oid>>,
    node: FilterModel,
    tree: Oid,
    depth: nat,
)
    requires
        settled(store, map, node, tree, depth),
    ensures
        rewritten(store, map, node, tree, depth) is Some,
        rewritten(store, map, node, tree, depth)->Some_0.1 == Some(tree),
        grown(map, rewritten(store, map, node, tree, depth)->Some_0.0),
    decreases depth, 0nat, 0nat,
{
    if !map.contains_key(tree) {
        let entries = store.read(tree);
        let frame = fresh(node, tree, entries);
        assert(frame.kept =~= entries.take(0));
        lemma_settled_entries(store, map, frame, (depth - 1) as nat);
        let (after, kept) = kept_of(store, map, frame, (depth - 1) as nat)->Some_0;
        assert(kept == entries);
        let last = after.insert(tree, Some(tree));
        assert(rewritten(store, map, node, tree, depth) == Some((last, Some(tree))));
        assert(grown(after, last)) by {
            assert forall|k: Oid| after.contains_key(k) implies last.contains_key(k) && last[k]
                == after[k] by {
                if k == tree {
                    assert(!map.contains_key(k));
                    assert(after[k] == Some(k));
                }
            }
        }
        lemma_grown_twice(map, after, last);
    }
}

/// Of a frame whose entries are settled, all entries are kept as they are.
pub proof fn lemma_settled_entries(
    store: StoreModel,
    map: Map<Oid, Option<Oid>>,
    frame: FrameModel,
    depth: nat,
)
    requires
        frame.next <= frame.entries.len(),
        frame.kept == frame.entries.take(frame.next as int),
        settled_from(store, map, frame.node, frame.entries, frame.next, depth),
    ensures
        kept_of(store, map, frame, depth) is Some,
        kept_of(store, map, frame, depth)->Some_0.1 == frame.entries,
        grown(map, kept_of(store, map, frame, depth)->Some_0.0),
    decreases depth, 1nat, frame.remaining(),
{
    let entries = frame.entries;
    if frame.next >= entries.len() {
        assert(entries.take(frame.next as int) =~= entries);
    } else {
        let entry = entries[frame.next as int];
        assert(entries.take(frame.next as int + 1) =~= entries.take(frame.next as int).push(entry));
        match decision(frame.node, entry) {
            DecisionModel::Keep => {
                lemma_settled_entries(store, map, frame.keep(), depth);
            },
            DecisionModel::Drop => {},
            DecisionModel::Descend(child) => {
                lemma_settled_is_fixed(store, map, child, entry.id, depth);
                let (after, result) = rewritten(store, map, child, entry.id, depth)->Some_0;
                assert(entry.with_id(entry.id) == entry);
                let then = frame.absorb(result);
                lemma_settled_from_grown(
                    store,
                    map,
                    after,
                    frame.node,
                    entries,
                    frame.next + 1,
                    depth,
                );
                lemma_settled_entries(store, after, then, depth);
                lemma_grown_twice(map, after, kept_of(store, after, then, depth)->Some_0.0);
            },
        }
    }
}

/// What becomes of an entry does not depend on the object that it names.
pub proof fn lemma_decision_by_name(node: FilterModel, entry: EntryModel, id: Oid)
    ensures
        decision(node, entry.with_id(id)) == decision(node, entry),
{
}

/// Entries of which none is dropped, and of which each tree that is
/// rewritten is settled, are settled.
pub proof fn lemma_settled_from_each(
    store: StoreModel,
    map: Map<Oid, Option<Oid>>,
    node: FilterModel,
    entries: Seq<EntryModel>,
    from: nat,
    depth: nat,
)
    requires
        forall|j: int|
            from <= j < entries.len() ==> match decision(node, #[trigger] entries[j]) {
                DecisionModel::Keep => true,
                DecisionModel::Drop => false,
                DecisionModel::Descend(child) => settled(store, map, child, entries[j].id, depth),
            },
    ensures
        settled_from(store, map, node, entries, from, depth),
    decreases entries.len() - from,
{
    if from < entries.len() {
        assert(decision(node, entries[from as int]) == decision(node, entries[from as int]));
        lemma_settled_from_each(store, map, node, entries, from + 1, depth);
    }
}

/// Whether a kept entry is settled with respect to `last`: it is not
/// dropped, and if it is a tree that is rewritten, that tree is settled.
pub open spec fn stays(
    store: StoreModel,
    last: Map<Oid, Option<Oid>>,
    node: FilterModel,
    entry: EntryModel,
    depth: nat,
) -> bool {
    match decision(node, entry) {
        DecisionModel::Keep => true,
        DecisionModel::Drop => false,
        DecisionModel::Descend(child) => settled(store, last, child, entry.id, depth),
    }
}

/// Whether the store and the map `last` are faithful to the rewriting of
/// `tree`: each tree that is written on the way reads back as it was
/// written, and is no key of `last` unless it is held for itself; and each
/// tree that the map held before is settled with respect to `last`.
pub open spec fn faithful(
    store: StoreModel,
    map: Map<Oid, Option<Oid>>,
    node: FilterModel,
    tree: Oid,
    depth: nat,
    last: Map<Oid, Option<Oid>>,
) -> bool
    decreases depth, 0nat, 0nat,
{
    if map.contains_key(tree) {
        match map[tree] {
            Some(known) => settled(store, last, node, known, depth),
            None => true,
        }
    } else if depth == 0 {
        true
    } else {
        let frame = fresh(node, tree, store.read(tree));
        &&& faithful_from(store, map, frame, (depth - 1) as nat, last)
        &&& match kept_of(store, map, frame, (depth - 1) as nat) {
            None => true,
            Some((_, kept)) => kept.len() > 0 ==> {
                let written = store.write(kept);
                &&& store.read(written) == kept
                &&& last.contains_key(written) ==> last[written] == Some(written)
            },
        }
    }
}

/// Whether the store and the map `last` are faithful to the rewriting of
/// the trees among the entries of `frame` that are still to be decided.
pub open spec fn faithful_from(
    store: StoreModel,
    map: Map<Oid, Option<Oid>>,
    frame: FrameModel,
    depth: nat,
    last: Map<Oid, Option<Oid>>,
) -> bool
    decreases depth, 1nat, frame.remaining(),
{
    if frame.next >= frame.entries.len() {
        true
    } else {
        let entry = frame.entries[frame.next as int];
        match decision(frame.node, entry) {
            DecisionModel::Keep => faithful_from(store, map, frame.keep(), depth, last),
            DecisionModel::Drop => faithful_from(store, map, frame.skip(), depth, last),
            DecisionModel::Descend(child) => {
                &&& faithful(store, map, child, entry.id, depth, last)
                &&& match rewritten(store, map, child, entry.id, depth) {
                    None => true,
                    Some((after, result)) => faithful_from(
                        store,
                        after,
                        frame.absorb(result),
                        depth,
                        last,
                    ),
                }
            },
        }
    }
}

/// What rewriting gives is settled, where store and map are faithful.
pub proof fn lemma_rewritten_is_settled(
    store: StoreModel,
    map: Map<Oid, Option<Oid>>,
    node: FilterModel,
    tree: Oid,
    depth: nat,
    last: Map<Oid, Option<Oid>>,
)
    requires
        rewritten(store, map, node, tree, depth) is Some,
        rewritten(store, map, node, tree, depth)->Some_0.1 is Some,
        faithful(store, map, node, tree, depth, last),
    ensures
        settled(
            store,
            last,
            node,
            rewritten(store, map, node, tree, depth)->Some_0.1->Some_0,
            depth,
        ),
    decreases depth, 0nat, 0nat,
{
    if !map.contains_key(tree) {
        let frame = fresh(node, tree, store.read(tree));
        let kept = kept_of(store, map, frame, (depth - 1) as nat)->Some_0.1;
        lemma_kept_is_settled(store, map, frame, (depth - 1) as nat, last);
        if !last.contains_key(store.write(kept)) {
            assert forall|j: int| 0 <= j < kept.len() implies match decision(
                node,
                #[trigger] kept[j],
            ) {
                DecisionModel::Keep => true,
                DecisionModel::Drop => false,
                DecisionModel::Descend(child) => settled(
                    store,
                    last,
                    child,
                    kept[j].id,
                    (depth - 1) as nat,
                ),
            } by {
                assert(stays(store, last, node, kept[j], (depth - 1) as nat));
            }
            lemma_settled_from_each(store, last, node, kept, 0, (depth - 1) as nat);
        }
    }
}

/// What is kept of a frame is settled, where store and map are faithful.
pub proof fn lemma_kept_is_settled(
    store: StoreModel,
    map: Map<Oid, Option<Oid>>,
    frame: FrameModel,
    depth: nat,
    last: Map<Oid, Option<Oid>>,
)
    requires
        kept_of(store, map, frame, depth) is Some,
        faithful_from(store, map, frame, depth, last),
        forall|j: int|
            0 <= j < frame.kept.len() ==> stays(
                store,
                last,
                frame.node,
                #[trigger] frame.kept[j],
                depth,
            ),
    ensures
        forall|j: int|
            0 <= j < kept_of(store, map, frame, depth)->Some_0.1.len() ==> stays(
                store,
                last,
                frame.node,
                #[trigger] kept_of(store, map, frame, depth)->Some_0.1[j],
                depth,
            ),
    decreases depth, 1nat, frame.remaining(),
{
    if frame.next < frame.entries.len() {
        let entry = frame.entries[frame.next as int];
        match decision(frame.node, entry) {
            DecisionModel::Keep => {
                lemma_kept_is_settled(store, map, frame.keep(), depth, last);
            },
            DecisionModel::Drop => {
                lemma_kept_is_settled(store, map, frame.skip(), depth, last);
            },
            DecisionModel::Descend(child) => {
                let (after, result) = rewritten(store, map, child, entry.id, depth)->Some_0;
                if let Some(id) = result {
                    lemma_rewritten_is_settled(store, map, child, entry.id, depth, last);
                    lemma_decision_by_name(frame.node, entry, id);
                    assert(stays(store, last, frame.node, entry.with_id(id), depth));
                }
                lemma_kept_is_settled(store, after, frame.absorb(result), depth, last);
            },
        }
    }
}

/// Rewriting a tree that was rewritten changes nothing: the same tree is
/// the result. This holds where the store and the map are faithful to the
/// first rewriting; a store that does not give back what was written, and a
/// map that holds another tree for a tree that was written, are left out.
pub proof fn lemma_rewritten_twice(
    store: StoreModel,
    map: Map<Oid, Option<Oid>>,
    node: FilterModel,
    tree: Oid,
    depth: nat,
    last: Map<Oid, Option<Oid>>,
)
    requires
        rewritten(store, map, node, tree, depth) is Some,
        rewritten(store, map, node, tree, depth)->Some_0.1 is Some,
        faithful(store, map, node, tree, depth, last),
    ensures
        rewritten(
            store,
            last,
            node,
            rewritten(store, map, node, tree, depth)->Some_0.1->Some_0,
            depth,
        ) is Some,
        rewritten(
            store,
            last,
            node,
            rewritten(store, map, node, tree, depth)->Some_0.1->Some_0,
            depth,
        )->Some_0.1 == rewritten(store, map, node, tree, depth)->Some_0.1,
{
    lemma_rewritten_is_settled(store, map, node, tree, depth, last);
    lemma_settled_is_fixed(
        store,
        last,
        node,
        rewritten(store, map, node, tree, depth)->Some_0.1->Some_0,
        depth,
    );
}

/// The tree that a walk ends with when it rewrites `tree`: what rewriting
/// gives, or the tree without entries if nothing is kept.
pub open spec fn filtered(
    store: StoreModel,
    map: Map<Oid, Option<Oid>>,
    node: FilterModel,
    tree: Oid,
    depth: nat,
) -> Oid {
    match rewritten(store, map, node, tree, depth)->Some_0.1 {
        Some(id) => id,
        None => store.write(Seq::empty()),
    }
}

/// Rewriting the tree that a walk has ended with gives that tree again,
/// also where nothing was kept and the walk ended with the tree without
/// entries. This holds where the store and the second map are faithful to
/// the first rewriting, and where the tree without entries reads back
/// without entries and the second map holds no other tree for it.
pub proof fn lemma_filtered_twice(
    store: StoreModel,
    map: Map<Oid, Option<Oid>>,
    node: FilterModel,
    tree: Oid,
    depth: nat,
    last: Map<Oid, Option<Oid>>,
)
    requires
        depth > 0,
        rewritten(store, map, node, tree, depth) is Some,
        faithful(store, map, node, tree, depth, last),
        rewritten(store, map, node, tree, depth)->Some_0.1 is None ==> {
            let none = store.write(Seq::empty());
            &&& store.read(none) == Seq::<EntryModel>::empty()
            &&& last.contains_key(none) ==> last[none] is None || last[none] == Some(none)
        },
    ensures
        rewritten(store, last, node, filtered(store, map, node, tree, depth), depth) is Some,
        filtered(store, last, node, filtered(store, map, node, tree, depth), depth) == filtered(
            store,
            map,
            node,
            tree,
            depth,
        ),
{
    if rewritten(store, map, node, tree, depth)->Some_0.1 is Some {
        lemma_rewritten_twice(store, map, node, tree, depth, last);
    } else {
        let none = store.write(Seq::empty());
        if !last.contains_key(none) {
            let frame = fresh(node, none, store.read(none));
            assert(kept_of(store, last, frame, (depth - 1) as nat) == Some((last, frame.kept)));
        }
    }
}

/// Whether `b` holds everything that `a` holds.
pub open spec fn extends(a: Map<Oid, Option<Oid>>, b: Map<Oid, Option<Oid>>) -> bool {
    &&& forall|k: Oid| #[trigger] a.contains_key(k) ==> b.contains_key(k) && b[k] == a[k]
    &&& a.dom().finite() ==> b.dom().finite()
}

/// Rewriting a tree takes nothing out of the map and changes no entry that
/// was there.
pub proof fn lemma_rewritten_extends(
    store: StoreModel,
    map: Map<Oid, Option<Oid>>,
    node: FilterModel,
    tree: Oid,
    depth: nat,
)
    requires
        rewritten(store, map, node, tree, depth) is Some,
    ensures
        extends(map, rewritten(store, map, node, tree, depth)->Some_0.0),
    decreases depth, 0nat, 0nat,
{
    if !map.contains_key(tree) {
        lemma_kept_extends(store, map, fresh(node, tree, store.read(tree)), (depth - 1) as nat);
    }
}

/// Deciding the entries of a frame takes nothing out of the map and
/// changes no entry that was there.
pub proof fn lemma_kept_extends(
    store: StoreModel,
    map: Map<Oid, Option<Oid>>,
    frame: FrameModel,
    depth: nat,
)
    requires
        kept_of(store, map, frame, depth) is Some,
    ensures
        extends(map, kept_of(store, map, frame, depth)->Some_0.0),
    decreases depth, 1nat, frame.remaining(),
{
    if frame.next < frame.entries.len() {
        let entry = frame.entries[frame.next as int];
        match decision(frame.node, entry) {
            DecisionModel::Keep => {
                lemma_kept_extends(store, map, frame.keep(), depth);
            },
            DecisionModel::Drop => {
                lemma_kept_extends(store, map, frame.skip(), depth);
            },
            DecisionModel::Descend(child) => {
                lemma_rewritten_extends(store, map, child, entry.id, depth);
                let (after, result) = rewritten(store, map, child, entry.id, depth)->Some_0;
                lemma_kept_extends(store, after, frame.absorb(result), depth);
                let last = kept_of(store, after, frame.absorb(result), depth)->Some_0.0;
                assert forall|k: Oid| #[trigger] map.contains_key(k) implies last.contains_key(k)
                    && last[k] == map[k] by {
                    assert(after.contains_key(k));
                }
            },
        }
    }
}

/// A walk that is done, or that has refused, stays as it is.
pub proof fn lemma_run_stays(store: StoreModel, s: Running, rounds: nat)
    requires
        s.request is Done || s.request is Refused,
    ensures
        run(store, s, rounds) == s,
    decreases rounds,
{
    if rounds > 0 {
        lemma_run_stays(store, s, (rounds - 1) as nat);
    }
}

} // verus!
