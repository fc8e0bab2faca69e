//! The filter: a tree of path components that says which paths are kept.
//!
//! A node without children is terminal. If it includes, everything beneath its
//! path is kept; if it excludes, everything beneath is dropped. A node with
//! children decides entry by entry: an entry that matches a child is handled
//! by the child, and an entry that matches none is kept only where the node
//! itself excludes.

use crate::bytes::{bytes_eq, bytes_lt, lemma_lex_irreflexive, lemma_lex_total,
    lemma_lex_transitive, lex_lt, views};
use crate::path::{components, path_components};
use vstd::prelude::*;
use vstd::string::StringSliceAdditionalSpecFns;

verus! {

/// A filter as a mathematical value: whether the node excludes, and its
/// children by name, in lexicographic order of the names.
pub ghost struct FilterModel {
    pub exclude: bool,
    pub children: Seq<(Seq<u8>, FilterModel)>,
}

/// A child of a filter node: the component it stands for and its own node.
pub struct Child {
    name: Vec<u8>,
    node: Filter,
}

/// A node of the filter tree; the root stands for the whole filter.
pub struct Filter {
    exclude: bool,
    children: Vec<Child>,
}

/// The terminal node.
pub open spec fn leaf(exclude: bool) -> FilterModel {
    FilterModel { exclude, children: Seq::empty() }
}

/// The names of a list of children.
pub open spec fn names(cs: Seq<(Seq<u8>, FilterModel)>) -> Seq<Seq<u8>> {
    Seq::new(cs.len(), |i: int| cs[i].0)
}

/// Whether names stand in strictly ascending lexicographic order.
pub open spec fn ascending(ns: Seq<Seq<u8>>) -> bool {
    forall|i: int, j: int| 0 <= i < j < ns.len() ==> lex_lt(#[trigger] ns[i], #[trigger] ns[j])
}

/// Whether `i` is where `name` stands, or would stand, among ascending names:
/// every name before `i` is smaller and the name at `i` is not.
pub open spec fn is_place(ns: Seq<Seq<u8>>, name: Seq<u8>, i: int) -> bool {
    &&& 0 <= i <= ns.len()
    &&& forall|j: int| 0 <= j < i ==> lex_lt(#[trigger] ns[j], name)
    &&& i < ns.len() ==> !lex_lt(ns[i], name)
}

/// The place of `name` among `ns`: the number of leading names smaller than it.
pub open spec fn place(ns: Seq<Seq<u8>>, name: Seq<u8>) -> int
    decreases ns.len(),
{
    if ns.len() == 0 || !lex_lt(ns[0], name) {
        0
    } else {
        1 + place(ns.drop_first(), name)
    }
}

/// `place` is a place.
pub proof fn lemma_place(ns: Seq<Seq<u8>>, name: Seq<u8>)
    ensures
        is_place(ns, name, place(ns, name)),
    decreases ns.len(),
{
    if ns.len() > 0 && lex_lt(ns[0], name) {
        let rest = ns.drop_first();
        lemma_place(rest, name);
        let p = place(rest, name);
        assert forall|j: int| 0 <= j < p + 1 implies lex_lt(#[trigger] ns[j], name) by {
            if j > 0 {
                assert(ns[j] == rest[j - 1]);
            }
        }
        if p + 1 < ns.len() {
            assert(ns[p + 1] == rest[p]);
        }
    }
}

/// There is only one place.
pub proof fn lemma_place_unique(ns: Seq<Seq<u8>>, name: Seq<u8>, i: int)
    requires
        is_place(ns, name, i),
    ensures
        i == place(ns, name),
{
    lemma_place(ns, name);
    let p = place(ns, name);
    if i < p {
        assert(lex_lt(ns[i], name));
    } else if p < i {
        assert(lex_lt(ns[p], name));
    }
}

/// Whether `name` is among the children, which is the case exactly when it
/// stands at its place.
pub open spec fn has_child(cs: Seq<(Seq<u8>, FilterModel)>, name: Seq<u8>) -> bool {
    let i = place(names(cs), name);
    i < cs.len() && cs[i].0 == name
}

/// The children with the node under `name` set to `node`: replaced where the
/// name is present, put in at its place where it is not.
pub open spec fn with_child(
    cs: Seq<(Seq<u8>, FilterModel)>,
    name: Seq<u8>,
    node: FilterModel,
) -> Seq<(Seq<u8>, FilterModel)> {
    let i = place(names(cs), name);
    if has_child(cs, name) {
        cs.update(i, (name, node))
    } else {
        cs.insert(i, (name, node))
    }
}

/// The node under `name`, or a new terminal node where there is none.
pub open spec fn child_or(cs: Seq<(Seq<u8>, FilterModel)>, name: Seq<u8>, exclude: bool) -> FilterModel {
    if has_child(cs, name) {
        cs[place(names(cs), name)].1
    } else {
        leaf(exclude)
    }
}

impl FilterModel {
    /// The invariant of a filter: at every node the children stand in
    /// strictly ascending order of their names.
    pub open spec fn wf(self) -> bool
        decreases self,
    {
        &&& ascending(names(self.children))
        &&& forall|i: int|
            0 <= i < self.children.len() ==> (#[trigger] self.children[i]).1.wf()
    }

    /// Whether the node is terminal.
    pub open spec fn is_terminal(self) -> bool {
        self.children.len() == 0
    }

    /// The node without its children.
    pub open spec fn cleared(self) -> FilterModel {
        FilterModel { exclude: self.exclude, children: Seq::empty() }
    }

    /// The filter after a path of components has been included.
    ///
    /// The walk goes down the components from child to child. Beneath a node
    /// that includes it makes the nodes that are not there; beneath a node
    /// that excludes it makes none. It ends with the last component, or at a
    /// node that excludes and has no child for the next component, and the
    /// node where it ends becomes terminal, whichever of the two it is.
    ///
    /// So a path that ends at a node that includes keeps everything beneath
    /// it, and one that ends at or beneath a node that excludes leaves
    /// everything beneath that node dropped. A terminal node that excludes
    /// stays as it is, and nothing is added at or beneath it.
    pub open spec fn with_include(self, path: Seq<Seq<u8>>) -> FilterModel
        decreases path.len(),
    {
        if path.len() == 0 || (self.exclude && !has_child(self.children, path[0])) {
            self.cleared()
        } else {
            let node = child_or(self.children, path[0], false).with_include(path.drop_first());
            FilterModel {
                exclude: self.exclude,
                children: with_child(self.children, path[0], node),
            }
        }
    }

    /// The filter after a non-empty path has been excluded beneath a node
    /// that excludes. Missing nodes are made, as excluding ones. The walk ends
    /// at a terminal node that was there before, or with the last component,
    /// and the node where it ends becomes terminal.
    pub open spec fn with_excluded_path(self, path: Seq<Seq<u8>>) -> FilterModel
        decreases path.len(),
    {
        if path.len() == 0 {
            self
        } else {
            let child = child_or(self.children, path[0], true);
            let node = if has_child(self.children, path[0]) && child.is_terminal() {
                child
            } else if path.len() == 1 {
                child.cleared()
            } else {
                child.with_excluded_path(path.drop_first())
            };
            FilterModel {
                exclude: self.exclude,
                children: with_child(self.children, path[0], node),
            }
        }
    }

    /// The filter after a path of components has been excluded. The walk goes
    /// down the nodes that are there. At a terminal node, which then becomes
    /// an excluding one, or at a node that excludes, the rest of the path is
    /// put beneath it. Where a component has no node under a node that
    /// includes, nothing changes: the path was not included in the first
    /// place.
    pub open spec fn with_exclude(self, path: Seq<Seq<u8>>) -> FilterModel
        decreases path.len(),
    {
        if path.len() == 0 {
            self
        } else if self.is_terminal() {
            leaf(true).with_excluded_path(path)
        } else if self.exclude {
            self.with_excluded_path(path)
        } else if has_child(self.children, path[0]) {
            let node = child_or(self.children, path[0], false).with_exclude(path.drop_first());
            FilterModel {
                exclude: self.exclude,
                children: with_child(self.children, path[0], node),
            }
        } else {
            self
        }
    }
}

/// Putting a well-formed node under a name keeps the children in order.
pub proof fn lemma_with_child(cs: Seq<(Seq<u8>, FilterModel)>, name: Seq<u8>, node: FilterModel)
    requires
        ascending(names(cs)),
    ensures
        ascending(names(with_child(cs, name, node))),
        has_child(with_child(cs, name, node), name),
        child_or(with_child(cs, name, node), name, false) == node,
        place(names(with_child(cs, name, node)), name) == place(names(cs), name),
{
    let ns = names(cs);
    let i = place(ns, name);
    lemma_place(ns, name);
    let after = with_child(cs, name, node);
    let ms = names(after);
    if has_child(cs, name) {
        assert(ms =~= ns);
    } else {
        assert(ms =~= ns.insert(i, name));
        assert forall|a: int, b: int| 0 <= a < b < ms.len() implies lex_lt(
            #[trigger] ms[a],
            #[trigger] ms[b],
        ) by {
            if b == i {
                assert(ms[a] == ns[a]);
            } else if a == i {
                assert(ms[b] == ns[b - 1]);
                lemma_lex_total(ns[i], name);
                if b - 1 > i {
                    assert(lex_lt(ns[i], ns[b - 1]));
                    lemma_lex_transitive(name, ns[i], ns[b - 1]);
                }
            } else {
                let a0 = if a < i { a } else { a - 1 };
                let b0 = if b < i { b } else { b - 1 };
                assert(ms[a] == ns[a0] && ms[b] == ns[b0]);
                assert(lex_lt(ns[a0], ns[b0]));
            }
        }
    }
    lemma_lex_irreflexive(name);
    assert(is_place(ms, name, i)) by {
        assert forall|j: int| 0 <= j < i implies lex_lt(#[trigger] ms[j], name) by {
            assert(ms[j] == ns[j]);
        }
    }
    lemma_place_unique(ms, name, i);
}

/// Whether the pattern of a child matches the name of an entry: the empty
/// pattern and `**` match every name, any other pattern matches itself only.
pub open spec fn pattern_matches(pattern: Seq<u8>, name: Seq<u8>) -> bool {
    pattern.len() == 0 || pattern == seq![0x2au8, 0x2au8] || pattern == name
}

/// The position of the first child from `from` on whose pattern matches.
pub open spec fn first_match_from(
    cs: Seq<(Seq<u8>, FilterModel)>,
    name: Seq<u8>,
    from: int,
) -> Option<int>
    decreases cs.len() - from,
{
    if from < 0 || from >= cs.len() {
        None
    } else if pattern_matches(cs[from].0, name) {
        Some(from)
    } else {
        first_match_from(cs, name, from + 1)
    }
}

/// The line of a filter text after which paths are excluded: `# !EXCLUDES!`.
pub open spec fn sentinel() -> Seq<u8> {
    seq![
        0x23u8, 0x20u8, 0x21u8, 0x45u8, 0x58u8, 0x43u8, 0x4cu8, 0x55u8, 0x44u8, 0x45u8,
        0x53u8, 0x21u8,
    ]
}

/// What one line of a filter text does to the filter read so far and to the
/// mode, which is true once paths are excluded. The line counts without the
/// blanks at its ends. The sentinel switches the mode; an empty line and one
/// that starts with `#` do nothing; any other line is a path.
pub open spec fn read_line(state: (FilterModel, bool), line: Seq<u8>) -> (FilterModel, bool) {
    let t = crate::bytes::trim(line);
    if t == sentinel() {
        (state.0, true)
    } else if t.len() == 0 || t[0] == 0x23 {
        state
    } else if state.1 {
        (state.0.with_exclude(components(t)), true)
    } else {
        (state.0.with_include(components(t)), false)
    }
}

/// What the lines of a filter text give, read in order from the filter that
/// includes everything.
pub open spec fn read_lines(lines: Seq<Seq<u8>>) -> (FilterModel, bool)
    decreases lines.len(),
{
    if lines.len() == 0 {
        (leaf(false), false)
    } else {
        read_line(read_lines(lines.drop_last()), lines.last())
    }
}

/// The filter that a text describes.
pub open spec fn read_filter(text: Seq<u8>) -> FilterModel {
    read_lines(crate::bytes::split(text, 0x0a)).0
}

/// The bytes that stand for a filter when it is hashed: the flag of the
/// node, then for each child its name, a `/` and the child's own bytes, then
/// a `/` that ends the children.
pub open spec fn encoding(m: FilterModel) -> Seq<u8>
    decreases m, 1nat, 0nat,
{
    seq![if m.exclude { 1u8 } else { 0u8 }] + encoding_children(m, 0) + seq![0x2fu8]
}

/// The bytes of the children of `m` from position `from` on.
pub open spec fn encoding_children(m: FilterModel, from: int) -> Seq<u8>
    decreases m, 0nat, m.children.len() - from,
{
    if from < 0 || from >= m.children.len() {
        Seq::empty()
    } else {
        m.children[from].0 + seq![0x2fu8] + encoding(m.children[from].1) + encoding_children(
            m,
            from + 1,
        )
    }
}

/// One step of the hash: the byte is mixed in, then the state is multiplied.
pub open spec fn mix(h: u64, b: u8) -> u64 {
    (h ^ (b as u64)).wrapping_mul(0x0000_0100_0000_01b3u64)
}

/// The hash state after `bytes` have been mixed into `h` one by one.
pub open spec fn mixed(h: u64, bytes: Seq<u8>) -> u64
    decreases bytes.len(),
{
    if bytes.len() == 0 {
        h
    } else {
        mix(mixed(h, bytes.drop_last()), bytes.last())
    }
}

/// The structural hash of a filter: the 64-bit FNV-1a hash of its encoding.
pub open spec fn structural_hash(m: FilterModel) -> u64 {
    mixed(0xcbf2_9ce4_8422_2325u64, encoding(m))
}

/// The last `width` hexadecimal digits of a number, in lower case.
pub open spec fn hex_of(h: int, width: nat) -> Seq<u8>
    decreases width,
{
    if width == 0 {
        Seq::empty()
    } else {
        hex_of(h / 16, (width - 1) as nat).push(crate::oid::hex_digit(h % 16))
    }
}

/// The text under which the object map of a filter is kept: the structural
/// hash of the filter as sixteen hexadecimal digits.
pub open spec fn cache_key(m: FilterModel) -> Seq<u8> {
    hex_of(structural_hash(m) as int, 16)
}

/// Mixing in two byte strings one after the other is mixing in both at once.
pub proof fn lemma_mixed_concat(h: u64, a: Seq<u8>, b: Seq<u8>)
    ensures
        mixed(h, a + b) == mixed(mixed(h, a), b),
    decreases b.len(),
{
    if b.len() == 0 {
        assert(a + b =~= a);
    } else {
        lemma_mixed_concat(h, a, b.drop_last());
        assert((a + b).drop_last() =~= a + b.drop_last());
        assert((a + b).last() == b.last());
    }
}

/// Whether `path` leads from the node `m`, from child to child, to a
/// terminal node that excludes.
pub open spec fn leads_to_excluded(m: FilterModel, path: Seq<Seq<u8>>) -> bool
    decreases path.len(),
{
    if path.len() == 0 {
        m.exclude && m.is_terminal()
    } else {
        &&& has_child(m.children, path[0])
        &&& leads_to_excluded(child_or(m.children, path[0], false), path.drop_first())
    }
}

/// Including a path that passes through a terminal node that excludes
/// changes nothing: the node stays terminal, and no node is added.
pub proof fn lemma_include_beneath_excluded(
    m: FilterModel,
    path: Seq<Seq<u8>>,
    rest: Seq<Seq<u8>>,
)
    requires
        leads_to_excluded(m, path),
    ensures
        m.with_include(path + rest) == m,
    decreases path.len(),
{
    if path.len() == 0 {
        assert(m.cleared().children =~= m.children);
        assert(!has_child(m.children, (path + rest)[0]));
    } else {
        let whole = path + rest;
        assert(whole[0] == path[0]);
        assert(whole.drop_first() =~= path.drop_first() + rest);
        let child = child_or(m.children, path[0], false);
        lemma_include_beneath_excluded(child, path.drop_first(), rest);
        let i = place(names(m.children), path[0]);
        lemma_place(names(m.children), path[0]);
        assert(m.children.update(i, (path[0], child)) =~= m.children);
    }
}

/// A node keeps its flag, whatever is included.
pub proof fn lemma_include_keeps_flag(m: FilterModel, path: Seq<Seq<u8>>)
    ensures
        m.with_include(path).exclude == m.exclude,
{
}

/// The node that `path` leads to from the node `m`, from child to child.
pub open spec fn node_at(m: FilterModel, path: Seq<Seq<u8>>) -> Option<FilterModel>
    decreases path.len(),
{
    if path.len() == 0 {
        Some(m)
    } else if has_child(m.children, path[0]) {
        node_at(child_or(m.children, path[0], false), path.drop_first())
    } else {
        None
    }
}

/// Whether the node `m` and every node that there is on `path` above its
/// last component include.
pub open spec fn includes_above(m: FilterModel, path: Seq<Seq<u8>>) -> bool
    decreases path.len(),
{
    if path.len() == 0 {
        true
    } else {
        &&& !m.exclude
        &&& has_child(m.children, path[0]) ==> includes_above(
            child_or(m.children, path[0], false),
            path.drop_first(),
        )
    }
}

/// Where the nodes above the last component of a path include, the node at
/// the path is there once the path has been included, and is terminal. It
/// has the flag that it had, or includes if it was not there.
pub proof fn lemma_include_ends_terminal(m: FilterModel, path: Seq<Seq<u8>>)
    requires
        m.wf(),
        includes_above(m, path),
    ensures
        node_at(m.with_include(path), path) is Some,
        node_at(m.with_include(path), path)->Some_0.is_terminal(),
        node_at(m.with_include(path), path)->Some_0.exclude == (match node_at(m, path) {
            Some(node) => node.exclude,
            None => false,
        }),
    decreases path.len(),
{
    if path.len() > 0 {
        let rest = path.drop_first();
        let child = child_or(m.children, path[0], false);
        if has_child(m.children, path[0]) {
            let i = place(names(m.children), path[0]);
            lemma_place(names(m.children), path[0]);
            assert(m.children[i].1.wf());
        } else {
            lemma_fresh_path(rest);
        }
        lemma_include_ends_terminal(child, rest);
        lemma_with_child(m.children, path[0], child.with_include(rest));
    }
}

/// Every path lies beneath the node that includes everything, and leads to
/// no node of it but by the empty path.
proof fn lemma_fresh_path(path: Seq<Seq<u8>>)
    ensures
        leaf(false).wf(),
        includes_above(leaf(false), path),
        path.len() > 0 ==> node_at(leaf(false), path) is None,
{
    if path.len() > 0 {
        assert(!has_child(leaf(false).children, path[0]));
    }
}

/// A node with one child.
pub open spec fn only_child(exclude: bool, name: Seq<u8>, node: FilterModel) -> FilterModel {
    FilterModel { exclude, children: seq![(name, node)] }
}

/// Of a node with one child: the child is found under its name, and
/// putting a node under that name replaces it.
pub proof fn lemma_only_child(name: Seq<u8>, node: FilterModel, other: FilterModel)
    ensures
        place(names(seq![(name, node)]), name) == 0,
        has_child(seq![(name, node)], name),
        child_or(seq![(name, node)], name, false) == node,
        child_or(seq![(name, node)], name, true) == node,
        with_child(seq![(name, node)], name, other) == seq![(name, other)],
        with_child(Seq::empty(), name, node) == seq![(name, node)],
{
    let cs = seq![(name, node)];
    lemma_lex_irreflexive(name);
    assert(names(cs)[0] == name);
    assert(place(names(cs), name) == 0);
    assert(cs.update(0, (name, other)) =~= seq![(name, other)]);
    let none = Seq::<(Seq<u8>, FilterModel)>::empty();
    assert(place(names(none), name) == 0);
    assert(none.insert(0, (name, node)) =~= seq![(name, node)]);
}

/// Including a path of two components in the filter that includes
/// everything gives a node for each component.
pub proof fn lemma_include_two(a: Seq<u8>, b: Seq<u8>)
    ensures
        leaf(false).with_include(seq![a, b]) == only_child(
            false,
            a,
            only_child(false, b, leaf(false)),
        ),
{
    let ab = seq![a, b];
    let rest = seq![b];
    let none = Seq::<Seq<u8>>::empty();
    assert(ab.drop_first() =~= rest);
    assert(rest.drop_first() =~= none);
    assert(leaf(false).with_include(none) == leaf(false));
    lemma_only_child(b, leaf(false), leaf(false));
    assert(leaf(false).with_include(rest) == only_child(false, b, leaf(false)));
    lemma_only_child(a, only_child(false, b, leaf(false)), leaf(false));
}

/// Excluding a name beneath a path of two components that was included
/// makes the node of the path one that excludes, with the name as its only
/// child.
pub proof fn lemma_exclude_beneath_two(a: Seq<u8>, b: Seq<u8>, c: Seq<u8>)
    ensures
        only_child(false, a, only_child(false, b, leaf(false))).with_exclude(seq![a, b, c])
            == only_child(false, a, only_child(false, b, only_child(true, c, leaf(true)))),
{
    let abc = seq![a, b, c];
    let bc = seq![b, c];
    let only_c = seq![c];
    assert(abc.drop_first() =~= bc);
    assert(bc.drop_first() =~= only_c);
    let at_b = leaf(false);
    let at_a = only_child(false, b, at_b);
    let root = only_child(false, a, at_a);
    lemma_only_child(c, leaf(true), leaf(true));
    assert(leaf(true).cleared() == leaf(true));
    assert(leaf(true).with_excluded_path(only_c) == only_child(true, c, leaf(true)));
    assert(at_b.with_exclude(only_c) == only_child(true, c, leaf(true)));
    lemma_only_child(b, at_b, only_child(true, c, leaf(true)));
    assert(at_a.with_exclude(bc) == only_child(false, b, only_child(true, c, leaf(true))));
    lemma_only_child(a, at_a, only_child(false, b, only_child(true, c, leaf(true))));
}

/// Excluding a second name beneath the path puts it beside the first.
pub proof fn lemma_exclude_second(a: Seq<u8>, b: Seq<u8>, c: Seq<u8>, d: Seq<u8>)
    requires
        c != d,
    ensures
        only_child(false, a, only_child(false, b, only_child(true, c, leaf(true)))).with_exclude(
            seq![a, b, d],
        ) == only_child(
            false,
            a,
            only_child(
                false,
                b,
                FilterModel {
                    exclude: true,
                    children: with_child(seq![(c, leaf(true))], d, leaf(true)),
                },
            ),
        ),
        !has_child(seq![(c, leaf(true))], d),
{
    let abd = seq![a, b, d];
    let bd = seq![b, d];
    let only_d = seq![d];
    assert(abd.drop_first() =~= bd);
    assert(bd.drop_first() =~= only_d);
    let cs = seq![(c, leaf(true))];
    let at_b = only_child(true, c, leaf(true));
    let at_a = only_child(false, b, at_b);
    let then = FilterModel { exclude: true, children: with_child(cs, d, leaf(true)) };
    lemma_place(names(cs), d);
    assert(!has_child(cs, d)) by {
        if place(names(cs), d) == 0 {
            assert(cs[0].0 == c);
        }
    }
    assert(leaf(true).cleared() == leaf(true));
    assert(at_b.with_excluded_path(only_d) == then);
    assert(at_b.with_exclude(only_d) == then);
    lemma_only_child(b, at_b, then);
    assert(at_a.with_exclude(bd) == only_child(false, b, then));
    lemma_only_child(a, at_a, only_child(false, b, then));
}

/// The case in point: after `a/b` has been included and `a/b/c` excluded,
/// including `a/b/c` or anything beneath it changes nothing.
pub proof fn lemma_include_beneath_excluded_name(
    a: Seq<u8>,
    b: Seq<u8>,
    c: Seq<u8>,
    rest: Seq<Seq<u8>>,
)
    ensures
        ({
            let filter = leaf(false).with_include(seq![a, b]).with_exclude(seq![a, b, c]);
            &&& filter == only_child(false, a, only_child(false, b, only_child(true, c, leaf(true))))
            &&& filter.with_include(seq![a, b, c] + rest) == filter
        }),
{
    lemma_include_two(a, b);
    lemma_exclude_beneath_two(a, b, c);
    let at_c = leaf(true);
    let at_b = only_child(true, c, at_c);
    let at_a = only_child(false, b, at_b);
    let filter = only_child(false, a, at_a);
    let path = seq![a, b, c];
    assert(path.drop_first() =~= seq![b, c]);
    assert(seq![b, c].drop_first() =~= seq![c]);
    assert(seq![c].drop_first() =~= Seq::<Seq<u8>>::empty());
    lemma_only_child(c, at_c, at_c);
    lemma_only_child(b, at_b, at_b);
    lemma_only_child(a, at_a, at_a);
    assert(leads_to_excluded(at_c, Seq::<Seq<u8>>::empty()));
    assert(leads_to_excluded(at_b, seq![c]));
    assert(leads_to_excluded(at_a, seq![b, c]));
    assert(leads_to_excluded(filter, path));
    lemma_include_beneath_excluded(filter, path, rest);
}

impl View for Filter {
    type V = FilterModel;

    closed spec fn view(&self) -> FilterModel {
        self.model()
    }
}

impl Filter {
    spec fn model(&self) -> FilterModel
        decreases self,
    {
        FilterModel {
            exclude: self.exclude,
            children: Seq::new(
                self.children@.len(),
                |i: int|
                    if 0 <= i < self.children@.len() {
                        (self.children@[i].name@, self.children@[i].node.model())
                    } else {
                        (Seq::empty(), leaf(false))
                    },
            ),
        }
    }

    /// The invariant of the filter; see [`FilterModel::wf`].
    pub open spec fn wf(&self) -> bool {
        self@.wf()
    }

    /// A terminal node that includes everything beneath it, or excludes it.
    pub fn new(exclude: bool) -> (r: Filter)
        ensures
            r@ == leaf(exclude),
            r.wf(),
    {
        let r = Filter { exclude, children: Vec::new() };
        assert(r@.children =~= Seq::empty());
        r
    }

    /// Whether the node is terminal: it has no children.
    pub fn is_empty(&self) -> (r: bool)
        ensures
            r == self@.is_terminal(),
    {
        self.children.len() == 0
    }

    /// Whether the node excludes.
    pub fn excludes(&self) -> (r: bool)
        ensures
            r == self@.exclude,
    {
        self.exclude
    }

    /// The number of children.
    pub fn len(&self) -> (r: usize)
        ensures
            r == self@.children.len(),
    {
        self.children.len()
    }

    /// The name of the child at position `i`, in ascending order of names.
    pub fn child_name(&self, i: usize) -> (r: &Vec<u8>)
        requires
            i < self@.children.len(),
        ensures
            r@ == self@.children[i as int].0,
    {
        &self.children[i].name
    }

    /// The node of the child at position `i`.
    pub fn child(&self, i: usize) -> (r: &Filter)
        requires
            i < self@.children.len(),
        ensures
            r@ == self@.children[i as int].1,
    {
        &self.children[i].node
    }

    /// Where `name` stands among the children, and whether it is there.
    fn locate(&self, name: &[u8]) -> (r: (usize, bool))
        ensures
            r.0 <= self@.children.len(),
            r.0 == place(names(self@.children), name@),
            r.1 == has_child(self@.children, name@),
    {
        let ghost ns = names(self@.children);
        let mut i: usize = 0;
        while i < self.children.len() && bytes_lt(self.children[i].name.as_slice(), name)
            invariant
                i <= self.children@.len(),
                ns == names(self@.children),
                forall|j: int| 0 <= j < i ==> lex_lt(#[trigger] ns[j], name@),
            decreases self.children@.len() - i,
        {
            i += 1;
        }
        proof {
            assert(i < ns.len() ==> ns[i as int] == self.children@[i as int].name@);
            lemma_place_unique(ns, name@, i as int);
        }
        let found = i < self.children.len() && bytes_eq(self.children[i].name.as_slice(), name);
        (i, found)
    }

    proof fn lemma_model(&self)
        ensures
            self@.exclude == self.exclude,
            self@.children.len() == self.children@.len(),
            forall|i: int|
                0 <= i < self.children@.len() ==> #[trigger] self@.children[i] == (
                    self.children@[i].name@,
                    self.children@[i].node@,
                ),
    {
    }

    /// Makes sure that there is a child under `name`, a new terminal one
    /// where there was none, and tells its position and whether it was there.
    fn ensure_child(&mut self, name: &[u8], exclude: bool) -> (r: (usize, bool))
        requires
            old(self).wf(),
        ensures
            final(self).wf(),
            final(self)@.exclude == old(self)@.exclude,
            final(self)@.children == with_child(
                old(self)@.children,
                name@,
                child_or(old(self)@.children, name@, exclude),
            ),
            r.0 == place(names(old(self)@.children), name@),
            r.0 < final(self)@.children.len(),
            r.1 == has_child(old(self)@.children, name@),
            final(self)@.children[r.0 as int] == (
                name@,
                child_or(old(self)@.children, name@, exclude),
            ),
    {
        let ghost before = self@;
        proof {
            self.lemma_model();
        }
        let (i, found) = self.locate(name);
        if !found {
            let name = vstd::slice::slice_to_vec(name);
            self.children.insert(i, Child { name, node: Filter::new(exclude) });
        }
        proof {
            self.lemma_model();
            let node = child_or(before.children, name@, exclude);
            if found {
                assert(before.children[i as int] == (name@, node));
                assert(self@.children =~= before.children);
                assert(self@.children =~= before.children.update(i as int, (name@, node)));
            } else {
                assert forall|j: int| 0 <= j < self@.children.len() implies self@.children[j]
                    == before.children.insert(i as int, (name@, node))[j] by {
                    if j < i {
                        assert(self.children@[j] == old(self).children@[j]);
                    } else if j > i {
                        assert(self.children@[j] == old(self).children@[j - 1]);
                    }
                }
                assert(self@.children =~= before.children.insert(i as int, (name@, node)));
            }
            lemma_with_child(before.children, name@, node);
            assert forall|j: int| 0 <= j < self@.children.len() implies (
            #[trigger] self@.children[j]).1.wf() by {
                if found {
                } else if j < i {
                    assert(self@.children[j] == before.children[j]);
                } else if j > i {
                    assert(self@.children[j] == before.children[j - 1]);
                }
            }
        }
        (i, found)
    }

    /// What holds once the child at `i` has been replaced by `node`.
    proof fn lemma_child_replaced(
        before: FilterModel,
        middle: FilterModel,
        after: FilterModel,
        name: Seq<u8>,
        first: FilterModel,
        node: FilterModel,
        i: int,
    )
        requires
            before.wf(),
            middle.wf(),
            node.wf(),
            middle.children == with_child(before.children, name, first),
            i == place(names(before.children), name),
            0 <= i < middle.children.len(),
            after.exclude == middle.exclude,
            after.children == middle.children.update(i, (name, node)),
        ensures
            after.wf(),
            after.children == with_child(before.children, name, node),
    {
        lemma_with_child(before.children, name, node);
        lemma_place(names(before.children), name);
        if has_child(before.children, name) {
            assert(after.children =~= before.children.update(i, (name, node)));
        } else {
            assert(after.children =~= before.children.insert(i, (name, node)));
        }
        assert(after.children =~= with_child(before.children, name, node));
        assert forall|j: int| 0 <= j < after.children.len() implies (
        #[trigger] after.children[j]).1.wf() by {
            if j != i {
                assert(after.children[j] == middle.children[j]);
            }
        }
    }

    /// Includes the components of `path` from position `k` on.
    fn include_from(&mut self, path: &Vec<Vec<u8>>, k: usize)
        requires
            old(self).wf(),
            k <= path@.len(),
        ensures
            final(self)@ == old(self)@.with_include(views(path@).skip(k as int)),
            final(self).wf(),
        decreases path@.len() - k,
    {
        let ghost rest = views(path@).skip(k as int);
        let ghost before = self@;
        proof {
            self.lemma_model();
        }
        if k == path.len() {
            self.children = Vec::new();
            assert(self@.children =~= Seq::empty());
            return ;
        }
        proof {
            assert(rest[0] == path@[k as int]@);
        }
        if self.exclude {
            let (_, found) = self.locate(path[k].as_slice());
            if !found {
                self.children = Vec::new();
                assert(self@.children =~= Seq::empty());
                return ;
            }
        }
        let (i, _) = self.ensure_child(path[k].as_slice(), false);
        let ghost middle = self@;
        proof {
            self.lemma_model();
            assert(rest[0] == path@[k as int]@);
            assert(rest.drop_first() =~= views(path@).skip(k + 1));
            assert(middle.children[i as int].1.wf());
        }
        self.children[i].node.include_from(path, k + 1);
        proof {
            self.lemma_model();
            let first = child_or(before.children, rest[0], false);
            let node = first.with_include(rest.drop_first());
            assert(self@.children =~= middle.children.update(i as int, (rest[0], node)));
            Self::lemma_child_replaced(before, middle, self@, rest[0], first, node, i as int);
        }
    }

    /// Puts the components of `path` from position `k` on beneath a node
    /// that excludes.
    fn insert_excluded_components(&mut self, path: &Vec<Vec<u8>>, k: usize)
        requires
            old(self).wf(),
            k < path@.len(),
        ensures
            final(self)@ == old(self)@.with_excluded_path(views(path@).skip(k as int)),
            final(self).wf(),
        decreases path@.len() - k,
    {
        let ghost rest = views(path@).skip(k as int);
        let ghost before = self@;
        proof {
            self.lemma_model();
        }
        let (i, found) = self.ensure_child(path[k].as_slice(), true);
        let ghost middle = self@;
        proof {
            self.lemma_model();
            assert(rest[0] == path@[k as int]@);
            assert(rest.drop_first() =~= views(path@).skip(k + 1));
            assert(middle.children[i as int].1.wf());
        }
        let ghost first = child_or(before.children, rest[0], true);
        if found && self.children[i].node.is_empty() {
            proof {
                assert(self@.children =~= middle.children.update(i as int, (rest[0], first)));
                Self::lemma_child_replaced(before, middle, self@, rest[0], first, first, i as int);
            }
        } else if k == path.len() - 1 {
            self.children[i].node.children = Vec::new();
            proof {
                self.lemma_model();
                self.children@[i as int].node.lemma_model();
                assert(self.children@[i as int].node@.children =~= Seq::empty());
                assert(self.children@[i as int].node@ == first.cleared());
                assert(self@.children =~= middle.children.update(
                    i as int,
                    (rest[0], first.cleared()),
                ));
                Self::lemma_child_replaced(
                    before,
                    middle,
                    self@,
                    rest[0],
                    first,
                    first.cleared(),
                    i as int,
                );
            }
        } else {
            self.children[i].node.insert_excluded_components(path, k + 1);
            proof {
                self.lemma_model();
                let node = first.with_excluded_path(rest.drop_first());
                assert(self@.children =~= middle.children.update(i as int, (rest[0], node)));
                Self::lemma_child_replaced(before, middle, self@, rest[0], first, node, i as int);
            }
        }
    }

    /// Excludes the components of `path` from position `k` on.
    fn exclude_from(&mut self, path: &Vec<Vec<u8>>, k: usize)
        requires
            old(self).wf(),
            k <= path@.len(),
        ensures
            final(self)@ == old(self)@.with_exclude(views(path@).skip(k as int)),
            final(self).wf(),
        decreases path@.len() - k,
    {
        let ghost rest = views(path@).skip(k as int);
        let ghost before = self@;
        proof {
            self.lemma_model();
        }
        if k == path.len() {
            return ;
        }
        if self.children.len() == 0 {
            self.exclude = true;
            proof {
                self.lemma_model();
                assert(self@.children =~= Seq::empty());
                assert(self@ == leaf(true));
            }
            self.insert_excluded_components(path, k);
        } else if self.exclude {
            self.insert_excluded_components(path, k);
        } else {
            let (i, found) = self.locate(path[k].as_slice());
            proof {
                assert(rest[0] == path@[k as int]@);
                assert(rest.drop_first() =~= views(path@).skip(k + 1));
            }
            if found {
                let ghost first = before.children[i as int].1;
                proof {
                    assert(before.children[i as int] == (rest[0], first));
                    assert(before.children =~= before.children.update(i as int, (rest[0], first)));
                }
                self.children[i].node.exclude_from(path, k + 1);
                proof {
                    self.lemma_model();
                    let node = first.with_exclude(rest.drop_first());
                    assert(self@.children =~= before.children.update(i as int, (rest[0], node)));
                    Self::lemma_child_replaced(
                        before,
                        before,
                        self@,
                        rest[0],
                        first,
                        node,
                        i as int,
                    );
                }
            }
        }
    }

    /// Inserts a path into the filter as one to keep. The path is split at
    /// each `/`, and its named components are put into the tree.
    pub fn insert_include(&mut self, path: &str)
        requires
            old(self).wf(),
        ensures
            final(self).wf(),
            final(self)@ == old(self)@.with_include(components(path.spec_bytes())),
    {
        self.insert_include_bytes(path.as_bytes());
    }

    /// Inserts a path into the filter as one to drop. The path is split at
    /// each `/`, and its named components are put into the tree.
    pub fn insert_exclude(&mut self, path: &str)
        requires
            old(self).wf(),
        ensures
            final(self).wf(),
            final(self)@ == old(self)@.with_exclude(components(path.spec_bytes())),
    {
        self.insert_exclude_bytes(path.as_bytes());
    }

    /// As [`Filter::insert_exclude`], for a path given as bytes.
    pub fn insert_exclude_bytes(&mut self, path: &[u8])
        requires
            old(self).wf(),
        ensures
            final(self).wf(),
            final(self)@ == old(self)@.with_exclude(components(path@)),
    {
        let parts = path_components(path);
        assert(views(parts@).skip(0) =~= views(parts@));
        self.exclude_from(&parts, 0);
    }

    /// As [`Filter::insert_include`], for a path given as bytes.
    pub fn insert_include_bytes(&mut self, path: &[u8])
        requires
            old(self).wf(),
        ensures
            final(self).wf(),
            final(self)@ == old(self)@.with_include(components(path@)),
    {
        let parts = path_components(path);
        assert(views(parts@).skip(0) =~= views(parts@));
        self.include_from(&parts, 0);
    }

    /// Whether a pattern matches a name: the empty pattern and `**` match
    /// every name, any other pattern matches the name equal to it.
    pub fn match_name(pattern: &str, name: &str) -> (r: bool)
        ensures
            r == pattern_matches(pattern.spec_bytes(), name.spec_bytes()),
    {
        Self::matches(pattern.as_bytes(), name.as_bytes())
    }

    /// As [`Filter::match_name`], on bytes.
    pub fn matches(pattern: &[u8], name: &[u8]) -> (r: bool)
        ensures
            r == pattern_matches(pattern@, name@),
    {
        let stars: [u8; 2] = [0x2a, 0x2a];
        assert(stars@ =~= seq![0x2au8, 0x2au8]);
        pattern.len() == 0 || bytes_eq(pattern, stars.as_slice()) || bytes_eq(pattern, name)
    }

    /// The child that handles the entry called `name`: the first one, in
    /// ascending order of the children's names, whose pattern matches.
    pub fn match_entry(&self, name: &[u8]) -> (r: Option<&Filter>)
        ensures
            match first_match_from(self@.children, name@, 0) {
                Some(i) => r is Some && r->Some_0@ == self@.children[i].1,
                None => r is None,
            },
    {
        proof {
            self.lemma_model();
        }
        let mut i: usize = 0;
        while i < self.children.len()
            invariant
                i <= self.children@.len(),
                self@.children.len() == self.children@.len(),
                forall|j: int|
                    0 <= j < self.children@.len() ==> #[trigger] self@.children[j] == (
                        self.children@[j].name@,
                        self.children@[j].node@,
                    ),
                first_match_from(self@.children, name@, 0) == first_match_from(
                    self@.children,
                    name@,
                    i as int,
                ),
            decreases self.children@.len() - i,
        {
            if Self::matches(self.children[i].name.as_slice(), name) {
                return Some(&self.children[i].node);
            }
            i += 1;
        }
        None
    }

    /// Reads a filter from its text: one path on each line. Blank lines and
    /// lines that start with `#` are passed over. Paths are included until
    /// the line `# !EXCLUDES!`, and excluded after it.
    pub fn from_reader(text: &[u8]) -> (r: Filter)
        ensures
            r.wf(),
            r@ == read_filter(text@),
    {
        let lines = crate::bytes::split_bytes(text, 0x0a);
        let ghost all = views(lines@);
        let mut filter = Filter::new(false);
        let mut excluding = false;
        let mark: [u8; 12] = [
            0x23, 0x20, 0x21, 0x45, 0x58, 0x43, 0x4c, 0x55, 0x44, 0x45, 0x53, 0x21,
        ];
        assert(mark@ =~= sentinel());
        let mut i: usize = 0;
        assert(all.take(0) =~= Seq::<Seq<u8>>::empty());
        while i < lines.len()
            invariant
                i <= lines@.len(),
                all == views(lines@),
                mark@ == sentinel(),
                filter.wf(),
                (filter@, excluding) == read_lines(all.take(i as int)),
            decreases lines@.len() - i,
        {
            proof {
                assert(all.take(i + 1).drop_last() =~= all.take(i as int));
                assert(all.take(i + 1).last() == lines@[i as int]@);
            }
            let line = crate::bytes::trim_bytes(lines[i].as_slice());
            if bytes_eq(line.as_slice(), mark.as_slice()) {
                excluding = true;
            } else if line.len() == 0 || line[0] == 0x23 {
            } else if excluding {
                filter.insert_exclude_bytes(line.as_slice());
            } else {
                filter.insert_include_bytes(line.as_slice());
            }
            i += 1;
        }
        assert(all.take(i as int) =~= all);
        filter
    }

    /// Mixes the bytes of `bytes` into the hash state `h`.
    fn mix_bytes(h: u64, bytes: &[u8]) -> (r: u64)
        ensures
            r == mixed(h, bytes@),
    {
        let mut r = h;
        let mut i: usize = 0;
        assert(bytes@.take(0) =~= Seq::<u8>::empty());
        while i < bytes.len()
            invariant
                i <= bytes@.len(),
                r == mixed(h, bytes@.take(i as int)),
            decreases bytes@.len() - i,
        {
            assert(bytes@.take(i + 1).drop_last() =~= bytes@.take(i as int));
            r = (r ^ (bytes[i] as u64)).wrapping_mul(0x0000_0100_0000_01b3u64);
            i += 1;
        }
        assert(bytes@.take(i as int) =~= bytes@);
        r
    }

    /// Mixes the encoding of this node into the hash state `h`.
    fn mix_node(&self, h: u64) -> (r: u64)
        ensures
            r == mixed(h, encoding(self@)),
        decreases self,
    {
        proof {
            self.lemma_model();
        }
        let flag: [u8; 1] = [if self.exclude { 1 } else { 0 }];
        let slash: [u8; 1] = [0x2f];
        assert(flag@ =~= seq![if self@.exclude { 1u8 } else { 0u8 }]);
        assert(slash@ =~= seq![0x2fu8]);
        let mut r = Self::mix_bytes(h, flag.as_slice());
        let ghost done = flag@;
        let n = self.children.len();
        let mut i: usize = 0;
        while i < n
            invariant
                n == self.children@.len(),
                i <= n,
                slash@ == seq![0x2fu8],
                self@.children.len() == self.children@.len(),
                forall|j: int|
                    0 <= j < self.children@.len() ==> #[trigger] self@.children[j] == (
                        self.children@[j].name@,
                        self.children@[j].node@,
                    ),
                r == mixed(h, done),
                done + encoding_children(self@, i as int) == flag@ + encoding_children(self@, 0),
            decreases n - i,
        {
            let ghost name = self.children@[i as int].name@;
            let ghost node = self.children@[i as int].node@;
            proof {
                assert(self@.children[i as int] == (name, node));
                assert(encoding_children(self@, i as int) == name + seq![0x2fu8] + encoding(node)
                    + encoding_children(self@, i + 1));
                lemma_mixed_concat(h, done, name);
                lemma_mixed_concat(h, done + name, seq![0x2fu8]);
                lemma_mixed_concat(h, done + name + seq![0x2fu8], encoding(node));
                assert(done + (name + seq![0x2fu8] + encoding(node) + encoding_children(
                    self@,
                    i + 1,
                )) =~= (done + name + seq![0x2fu8] + encoding(node)) + encoding_children(
                    self@,
                    i + 1,
                ));
            }
            r = Self::mix_bytes(r, self.children[i].name.as_slice());
            r = Self::mix_bytes(r, slash.as_slice());
            r = self.children[i].node.mix_node(r);
            proof {
                done = done + name + seq![0x2fu8] + encoding(node);
            }
            i += 1;
        }
        proof {
            assert(encoding_children(self@, n as int) =~= Seq::<u8>::empty());
            assert(done =~= flag@ + encoding_children(self@, 0));
            lemma_mixed_concat(h, done, seq![0x2fu8]);
            assert(encoding(self@) =~= done + seq![0x2fu8]);
        }
        Self::mix_bytes(r, slash.as_slice())
    }

    /// The structural hash of the filter. Filters with the same nodes have
    /// the same hash, whatever the order in which their paths were inserted.
    pub fn structural_hash(&self) -> (r: u64)
        ensures
            r == structural_hash(self@),
    {
        self.mix_node(0xcbf2_9ce4_8422_2325u64)
    }
}

impl Filter {
    /// The name of the object map that belongs to this filter: its
    /// structural hash in sixteen hexadecimal digits. A changed filter has
    /// another name, an unchanged one the same.
    pub fn cache_key(&self) -> (r: Vec<u8>)
        ensures
            r@ == cache_key(self@),
            r@.len() == 16,
    {
        let h = self.structural_hash();
        let mut digits: Vec<u8> = Vec::new();
        let mut n: u64 = h;
        let mut j: usize = 0;
        while j < 16
            invariant
                j <= 16,
                digits@.len() == j,
                forall|w: nat|
                    w >= j ==> #[trigger] hex_of(h as int, w) == hex_of(n as int, (w - j) as nat)
                        + digits@,
            decreases 16 - j,
        {
            let v = (n % 16) as u8;
            let d: u8 = if v < 10 {
                0x30 + v
            } else {
                0x61 + v - 10
            };
            let ghost before = digits@;
            let ghost m = n;
            digits.insert(0, d);
            n = n / 16;
            proof {
                assert(d == crate::oid::hex_digit(m as int % 16));
                assert(digits@ =~= seq![d] + before);
                assert forall|w: nat| w >= j + 1 implies #[trigger] hex_of(h as int, w) == hex_of(
                    n as int,
                    (w - (j + 1)) as nat,
                ) + digits@ by {
                    assert(hex_of(h as int, w) == hex_of(m as int, (w - j) as nat) + before);
                    assert(hex_of(m as int, (w - j) as nat) == hex_of(
                        n as int,
                        (w - j - 1) as nat,
                    ).push(d));
                    assert(hex_of(n as int, (w - j - 1) as nat).push(d) + before =~= hex_of(
                        n as int,
                        (w - j - 1) as nat,
                    ) + (seq![d] + before));
                }
            }
            j += 1;
        }
        assert(hex_of(h as int, 16) == hex_of(n as int, 0) + digits@);
        assert(hex_of(n as int, 0) + digits@ =~= digits@);
        digits
    }
}

impl Default for Filter {
    /// The filter that includes everything.
    fn default() -> (r: Filter)
        ensures
            r@ == leaf(false),
            r.wf(),
    {
        Filter::new(false)
    }
}

} // verus!
