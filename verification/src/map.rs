//! The object map: for each original identifier the identifier that replaced
//! it, or the mark that nothing did.
//!
//! Keys and values may overlap, so entries can form chains such as
//! `A -> B -> C`. [`OidMap::resolve`] follows a chain to its end.

use crate::bytes::{blank_end, blank_start, lemma_split_append, lemma_split_nonempty, lemma_split_push_sep,
    lemma_split_whole, lemma_trim_nothing, occurs, split, split_bytes, trim, trim_bytes, views};
use crate::oid::{hex_text, lemma_hex_round_trip, lemma_oid_of, slot_of, spelled, Oid};
use std::collections::HashMap;
use vstd::prelude::*;

verus! {

broadcast use vstd::std_specs::hash::group_hash_axioms;

/// One entry of the map, in the order of first insertion.
#[derive(Clone, Copy, Debug)]
pub struct Entry {
    pub key: Oid,
    pub value: Option<Oid>,
}

/// A mapping between original object identifiers and rewritten ones. A key
/// that maps to `None` stands for an object that was discarded.
pub struct OidMap {
    entries: Vec<Entry>,
    index: HashMap<u64, Vec<usize>>,
}

/// Whether `k` ends a chain in `m`: it is a key, and its value is the mark of
/// a discarded object, `k` itself, or an identifier that is no key.
pub open spec fn is_end(m: Map<Oid, Option<Oid>>, k: Oid) -> bool {
    m.contains_key(k) && match m[k] {
        None => true,
        Some(v) => v == k || !m.contains_key(v),
    }
}

/// The value at the end of the chain that starts at the key `k`, following at
/// most `hops` entries. A chain that has not ended by then counts as
/// discarded.
pub open spec fn chase(m: Map<Oid, Option<Oid>>, k: Oid, hops: nat) -> Option<Oid>
    decreases hops,
{
    match m[k] {
        None => None,
        Some(v) => if v == k || !m.contains_key(v) {
            Some(v)
        } else if hops == 0 {
            None
        } else {
            chase(m, v, (hops - 1) as nat)
        },
    }
}

/// What `k` resolves to in `m`: nothing if it is no key, else the value at
/// the end of its chain. A chain cannot pass through more entries than the
/// map has without going round in a circle; such a chain resolves to the
/// mark of a discarded object.
pub open spec fn resolved(m: Map<Oid, Option<Oid>>, k: Oid) -> Option<Option<Oid>> {
    if m.contains_key(k) {
        Some(chase(m, k, m.dom().len()))
    } else {
        None
    }
}

/// The key that stands `i` entries after `k` on the chain that starts at `k`.
pub open spec fn hop(m: Map<Oid, Option<Oid>>, k: Oid, i: nat) -> Oid
    decreases i,
{
    if i == 0 {
        k
    } else {
        m[hop(m, k, (i - 1) as nat)]->Some_0
    }
}

/// Whether the chain that starts at `k` is still under way after `n`
/// entries: each of its first `n + 1` keys is a key that does not end it.
pub open spec fn under_way(m: Map<Oid, Option<Oid>>, k: Oid, n: nat) -> bool {
    forall|i: nat| i <= n ==> m.contains_key(#[trigger] hop(m, k, i)) && !is_end(m, hop(m, k, i))
}

proof fn lemma_hop_shift(m: Map<Oid, Option<Oid>>, k: Oid, i: nat)
    ensures
        hop(m, k, i + 1) == hop(m, m[k]->Some_0, i),
    decreases i,
{
    assert(hop(m, k, 0) == k);
    assert(hop(m, k, i + 1) == m[hop(m, k, i)]->Some_0);
    if i > 0 {
        lemma_hop_shift(m, k, (i - 1) as nat);
        assert(hop(m, m[k]->Some_0, i) == m[hop(m, m[k]->Some_0, (i - 1) as nat)]->Some_0);
    }
}

proof fn lemma_under_way_shift(m: Map<Oid, Option<Oid>>, k: Oid, n: nat)
    requires
        m.contains_key(k),
        !is_end(m, k),
    ensures
        under_way(m, k, n + 1) == under_way(m, m[k]->Some_0, n),
{
    let v = m[k]->Some_0;
    if under_way(m, k, n + 1) {
        assert forall|i: nat| i <= n implies m.contains_key(#[trigger] hop(m, v, i)) && !is_end(
            m,
            hop(m, v, i),
        ) by {
            lemma_hop_shift(m, k, i);
            assert(m.contains_key(hop(m, k, i + 1)));
        }
    }
    if under_way(m, v, n) {
        assert forall|i: nat| i <= n + 1 implies m.contains_key(#[trigger] hop(m, k, i))
            && !is_end(m, hop(m, k, i)) by {
            if i > 0 {
                lemma_hop_shift(m, k, (i - 1) as nat);
                assert(m.contains_key(hop(m, v, (i - 1) as nat)));
            }
        }
    }
}

/// A chain that is under way after `n` entries has given no value by then.
proof fn lemma_chase_under_way(m: Map<Oid, Option<Oid>>, k: Oid, n: nat)
    requires
        under_way(m, k, n),
    ensures
        chase(m, k, n) == None::<Oid>,
    decreases n,
{
    assert(m.contains_key(hop(m, k, 0)));
    if n > 0 {
        lemma_under_way_shift(m, k, (n - 1) as nat);
        lemma_chase_under_way(m, m[k]->Some_0, (n - 1) as nat);
    }
}

/// A chain that has ended within `n` entries gives the same value however
/// many more entries may be followed.
proof fn lemma_chase_ended(m: Map<Oid, Option<Oid>>, k: Oid, n: nat, more: nat)
    requires
        m.contains_key(k),
        !under_way(m, k, n),
        more >= n,
    ensures
        chase(m, k, more) == chase(m, k, n),
    decreases n,
{
    if !is_end(m, k) {
        if n == 0 {
            assert forall|i: nat| i <= n implies m.contains_key(#[trigger] hop(m, k, i))
                && !is_end(m, hop(m, k, i)) by {}
        } else {
            lemma_under_way_shift(m, k, (n - 1) as nat);
            lemma_chase_ended(m, m[k]->Some_0, (n - 1) as nat, (more - 1) as nat);
        }
    }
}

proof fn lemma_hop_periodic(m: Map<Oid, Option<Oid>>, k: Oid, i: nat, j: nat, t: nat)
    requires
        hop(m, k, i) == hop(m, k, j),
    ensures
        hop(m, k, i + t) == hop(m, k, j + t),
    decreases t,
{
    if t > 0 {
        lemma_hop_periodic(m, k, i, j, (t - 1) as nat);
    }
}

/// A chain that comes back to a key it has passed is under way for ever.
proof fn lemma_circle(m: Map<Oid, Option<Oid>>, k: Oid, n: nat, i: nat, j: nat, e: nat)
    requires
        under_way(m, k, n),
        i < j <= n,
        hop(m, k, i) == hop(m, k, j),
    ensures
        m.contains_key(hop(m, k, e)) && !is_end(m, hop(m, k, e)),
    decreases e,
{
    if e > n {
        let back = (e - (j - i)) as nat;
        lemma_circle(m, k, n, i, j, back);
        lemma_hop_periodic(m, k, i, j, (e - j) as nat);
        assert(i + (e - j) as nat == back);
        assert(j + (e - j) as nat == e);
    } else {
        assert(m.contains_key(hop(m, k, e)));
    }
}

/// A chain that is under way after as many entries as the map has keys has
/// come back to a key it has passed.
proof fn lemma_pigeonhole(m: Map<Oid, Option<Oid>>, k: Oid, n: nat) -> (r: (nat, nat))
    requires
        m.dom().finite(),
        under_way(m, k, n),
        n >= m.dom().len(),
    ensures
        r.0 < r.1 <= n,
        hop(m, k, r.0) == hop(m, k, r.1),
{
    let keys = Seq::new(n + 1, |i: int| hop(m, k, i as nat));
    if keys.no_duplicates() {
        keys.unique_seq_to_set();
        assert(keys.to_set().subset_of(m.dom())) by {
            assert forall|x: Oid| keys.to_set().contains(x) implies m.dom().contains(x) by {
                let i = choose|i: int| 0 <= i < keys.len() && keys[i] == x;
                assert(m.contains_key(hop(m, k, i as nat)));
            }
        }
        vstd::set_lib::lemma_len_subset(keys.to_set(), m.dom());
        assert(false);
    }
    let (a, b) = choose|a: int, b: int|
        0 <= a < keys.len() && 0 <= b < keys.len() && a != b && keys[a] == keys[b];
    if a < b {
        (a as nat, b as nat)
    } else {
        (b as nat, a as nat)
    }
}

/// A key whose value is a key of its own resolves to what that key resolves
/// to; a key whose value ends the chain resolves to its value.
pub proof fn lemma_resolve_follows(m: Map<Oid, Option<Oid>>, k: Oid)
    requires
        m.dom().finite(),
        m.contains_key(k),
    ensures
        is_end(m, k) ==> resolved(m, k) == Some(m[k]),
        !is_end(m, k) ==> resolved(m, k) == resolved(m, m[k]->Some_0),
{
    if !is_end(m, k) {
        let v = m[k]->Some_0;
        let n = m.dom().len();
        assert(n >= 1) by {
            if n == 0 {
                assert(m.dom() =~= Set::empty());
            }
        }
        assert(chase(m, k, n) == chase(m, v, (n - 1) as nat));
        if under_way(m, v, (n - 1) as nat) {
            lemma_under_way_shift(m, k, (n - 1) as nat);
            let (i, j) = lemma_pigeonhole(m, k, n);
            assert forall|e: nat| e <= n implies m.contains_key(#[trigger] hop(m, v, e))
                && !is_end(m, hop(m, v, e)) by {
                lemma_circle(m, k, n, i, j, e + 1);
                lemma_hop_shift(m, k, e);
            }
            lemma_chase_under_way(m, v, n);
            lemma_chase_under_way(m, v, (n - 1) as nat);
        } else {
            lemma_chase_ended(m, v, (n - 1) as nat, n);
        }
    }
}

/// Chains of one, two and three entries. With `b` held for `a`, `a`
/// resolves to `b`, and `b` is unknown. With `c` held for `b` as well, both
/// resolve to `c`. With `c` discarded as well, all three are discarded.
pub proof fn lemma_chain_of_three(a: Oid, b: Oid, c: Oid)
    requires
        a != b,
        b != c,
        a != c,
    ensures
        ({
            let one = Map::<Oid, Option<Oid>>::empty().insert(a, Some(b));
            let two = one.insert(b, Some(c));
            let three = two.insert(c, None);
            &&& resolved(one, a) == Some(Some(b))
            &&& resolved(one, b) == None::<Option<Oid>>
            &&& resolved(two, a) == Some(Some(c))
            &&& resolved(two, b) == Some(Some(c))
            &&& resolved(three, a) == Some(None::<Oid>)
            &&& resolved(three, b) == Some(None::<Oid>)
            &&& resolved(three, c) == Some(None::<Oid>)
        }),
{
    let none = Map::<Oid, Option<Oid>>::empty();
    let one = none.insert(a, Some(b));
    let two = one.insert(b, Some(c));
    let three = two.insert(c, None);
    assert(one.dom() =~= set![a]);
    assert(two.dom() =~= set![a, b]);
    assert(three.dom() =~= set![a, b, c]);
    assert(one.dom().finite() && two.dom().finite() && three.dom().finite());
    lemma_resolve_follows(one, a);
    lemma_resolve_follows(two, a);
    lemma_resolve_follows(two, b);
    lemma_resolve_follows(three, a);
    lemma_resolve_follows(three, b);
    lemma_resolve_follows(three, c);
}

/// What a chain gives, if it gives an identifier, is where it ends: the
/// identifier is no key, or is held for itself.
pub proof fn lemma_chase_ends(m: Map<Oid, Option<Oid>>, k: Oid, hops: nat)
    requires
        chase(m, k, hops) is Some,
    ensures
        !m.contains_key(chase(m, k, hops)->Some_0) || m[chase(m, k, hops)->Some_0] == Some(
            chase(m, k, hops)->Some_0,
        ),
    decreases hops,
{
    match m[k] {
        None => {},
        Some(v) => {
            if v == k || !m.contains_key(v) {
            } else if hops > 0 {
                lemma_chase_ends(m, v, (hops - 1) as nat);
            }
        },
    }
}

/// The keys of a list of entries.
pub open spec fn keys_of(es: Seq<Entry>) -> Seq<Oid> {
    Seq::new(es.len(), |i: int| es[i].key)
}

/// The mapping that a list of entries stands for: later entries win.
pub open spec fn map_of(es: Seq<Entry>) -> Map<Oid, Option<Oid>>
    decreases es.len(),
{
    if es.len() == 0 {
        Map::empty()
    } else {
        map_of(es.drop_last()).insert(es.last().key, es.last().value)
    }
}

/// The keys of `map_of` are the keys of the entries, and the map is finite.
pub proof fn lemma_map_of_dom(es: Seq<Entry>)
    ensures
        map_of(es).dom() == keys_of(es).to_set(),
        map_of(es).dom().finite(),
    decreases es.len(),
{
    if es.len() == 0 {
        assert(map_of(es).dom() =~= keys_of(es).to_set());
    } else {
        let front = es.drop_last();
        lemma_map_of_dom(front);
        assert forall|k: Oid| map_of(es).dom().contains(k) <==> keys_of(es).to_set().contains(
            k,
        ) by {
            if keys_of(front).to_set().contains(k) {
                let i = choose|i: int| 0 <= i < front.len() && keys_of(front)[i] == k;
                assert(keys_of(es)[i] == k);
            }
            if k == es.last().key {
                assert(keys_of(es)[es.len() - 1] == k);
            }
            if keys_of(es).to_set().contains(k) {
                let i = choose|i: int| 0 <= i < es.len() && keys_of(es)[i] == k;
                if i < front.len() {
                    assert(keys_of(front)[i] == k);
                }
            }
        }
        assert(map_of(es).dom() =~= keys_of(es).to_set());
    }
}

/// With distinct keys, every entry is found in `map_of` with its own value.
pub proof fn lemma_map_of_entry(es: Seq<Entry>, i: int)
    requires
        keys_of(es).no_duplicates(),
        0 <= i < es.len(),
    ensures
        map_of(es).contains_key(es[i].key),
        map_of(es)[es[i].key] == es[i].value,
    decreases es.len(),
{
    if i < es.len() - 1 {
        let before = es.drop_last();
        assert(keys_of(before) =~= keys_of(es).drop_last());
        lemma_map_of_entry(before, i);
        assert(keys_of(es)[i] != keys_of(es)[es.len() - 1]);
    }
}

/// With distinct keys, the map has as many keys as there are entries.
pub proof fn lemma_map_of_len(es: Seq<Entry>)
    requires
        keys_of(es).no_duplicates(),
    ensures
        map_of(es).dom().len() == es.len(),
{
    lemma_map_of_dom(es);
    keys_of(es).unique_seq_to_set();
}

/// Replacing the value of one entry is an insertion under its key.
pub proof fn lemma_map_of_update(es: Seq<Entry>, i: int, v: Option<Oid>)
    requires
        keys_of(es).no_duplicates(),
        0 <= i < es.len(),
    ensures
        map_of(es.update(i, Entry { key: es[i].key, value: v })) == map_of(es).insert(
            es[i].key,
            v,
        ),
        keys_of(es.update(i, Entry { key: es[i].key, value: v })) == keys_of(es),
    decreases es.len(),
{
    let e = Entry { key: es[i].key, value: v };
    let after = es.update(i, e);
    assert(keys_of(after) =~= keys_of(es));
    if i == es.len() - 1 {
        assert(after.drop_last() =~= es.drop_last());
        assert(map_of(after) =~= map_of(es).insert(es[i].key, v));
    } else {
        let before = es.drop_last();
        assert(keys_of(before) =~= keys_of(es).drop_last());
        lemma_map_of_update(before, i, v);
        assert(after.drop_last() =~= before.update(i, e));
        assert(keys_of(es)[i] != keys_of(es)[es.len() - 1]);
        assert(map_of(after) =~= map_of(es).insert(es[i].key, v));
    }
}

/// The line that holds an entry: the key in forty digits and, unless the
/// entry marks a discarded object, a space and the value in forty digits.
pub open spec fn line_of(e: Entry) -> Seq<u8> {
    match e.value {
        Some(v) => hex_text(e.key@) + seq![0x20u8] + hex_text(v@),
        None => hex_text(e.key@),
    }
}

/// The text that holds entries: one line for each, in order, each ended by a
/// line feed.
pub open spec fn rendered(es: Seq<Entry>) -> Seq<u8>
    decreases es.len(),
{
    if es.len() == 0 {
        Seq::empty()
    } else {
        rendered(es.drop_last()) + line_of(es.last()) + seq![0x0au8]
    }
}

/// The entry that a line of text holds, if it holds one. The line counts
/// without the blanks at its ends and is cut at each space. An empty line
/// and one that starts with `#` hold nothing. Otherwise the first piece has
/// to spell the key; if it is the only piece, the entry marks a discarded
/// object, and if not, the second piece has to spell the value. Further
/// pieces are not looked at. A line that does not meet this holds nothing.
pub open spec fn read_entry(line: Seq<u8>) -> Option<Entry> {
    let t = trim(line);
    if t.len() == 0 || t[0] == 0x23 {
        None
    } else {
        let pieces = split(t, 0x20);
        match spelled(pieces[0]) {
            None => None,
            Some(key) => if pieces.len() == 1 {
                Some(Entry { key, value: None })
            } else {
                match spelled(pieces[1]) {
                    None => None,
                    Some(v) => Some(Entry { key, value: Some(v) }),
                }
            },
        }
    }
}

/// The mapping that lines of text hold: the entries are entered in order,
/// so of two lines with one key the later counts.
pub open spec fn read_entries(lines: Seq<Seq<u8>>) -> Map<Oid, Option<Oid>>
    decreases lines.len(),
{
    if lines.len() == 0 {
        Map::empty()
    } else {
        let before = read_entries(lines.drop_last());
        match read_entry(lines.last()) {
            Some(e) => before.insert(e.key, e.value),
            None => before,
        }
    }
}

/// Where the key `k` stands among entries, if it is there.
pub open spec fn position_of(es: Seq<Entry>, k: Oid) -> Option<int> {
    if exists|i: int| 0 <= i < es.len() && es[i].key == k {
        Some(choose|i: int| 0 <= i < es.len() && es[i].key == k)
    } else {
        None
    }
}

/// The entries after one more has been entered: it takes the place of the
/// entry with its key, or comes last if there is none.
pub open spec fn entered(es: Seq<Entry>, e: Entry) -> Seq<Entry> {
    match position_of(es, e.key) {
        Some(i) => es.update(i, e),
        None => es.push(e),
    }
}

/// The entries that lines of text hold, in the order in which their keys
/// first appear.
pub open spec fn entries_read(lines: Seq<Seq<u8>>) -> Seq<Entry>
    decreases lines.len(),
{
    if lines.len() == 0 {
        Seq::empty()
    } else {
        let before = entries_read(lines.drop_last());
        match read_entry(lines.last()) {
            Some(e) => entered(before, e),
            None => before,
        }
    }
}

/// The mapping that a text holds.
pub open spec fn parsed(text: Seq<u8>) -> Map<Oid, Option<Oid>> {
    read_entries(split(text, 0x0a))
}

/// The lines of entries, without the line feeds.
pub open spec fn lines_of(es: Seq<Entry>) -> Seq<Seq<u8>> {
    Seq::new(es.len(), |i: int| line_of(es[i]))
}

/// The digits that spell an identifier are plain: none is a blank or part
/// of one, a line feed, a space or `#`.
pub proof fn lemma_hex_text_plain(id: Oid)
    ensures
        hex_text(id@).len() == 40,
        forall|i: int|
            0 <= i < 40 ==> {
                let b = #[trigger] hex_text(id@)[i];
                (0x30 <= b <= 0x39) || (0x61 <= b <= 0x66)
            },
        !occurs(hex_text(id@), 0x20),
        !occurs(hex_text(id@), 0x0a),
{
    let t = hex_text(id@);
    assert forall|i: int| 0 <= i < 40 implies {
        let b = #[trigger] t[i];
        (0x30 <= b <= 0x39) || (0x61 <= b <= 0x66)
    } by {
        let v = id@[i / 2] as int;
        assert(0 <= v / 16 < 16 && 0 <= v % 16 < 16);
    }
}

/// Two spellings with a space between them are cut at the space, and have
/// no blank at either end and no line feed.
proof fn lemma_two_spellings(a: Oid, b: Oid)
    ensures
        trim(hex_text(a@) + seq![0x20u8] + hex_text(b@)) == hex_text(a@) + seq![0x20u8] + hex_text(
            b@,
        ),
        split(hex_text(a@) + seq![0x20u8] + hex_text(b@), 0x20) == seq![hex_text(a@), hex_text(b@)],
        !occurs(hex_text(a@) + seq![0x20u8] + hex_text(b@), 0x0a),
        (hex_text(a@) + seq![0x20u8] + hex_text(b@))[0] != 0x23,
        (hex_text(a@) + seq![0x20u8] + hex_text(b@)).len() > 0,
{
    let key = hex_text(a@);
    let value = hex_text(b@);
    let line = key + seq![0x20u8] + value;
    lemma_hex_text_plain(a);
    lemma_hex_text_plain(b);
    assert(line.len() == 81);
    assert(line[0] == key[0]);
    assert(line[80] == value[39] && line[79] == value[38] && line[78] == value[37]);
    assert(blank_start(line) == 0);
    assert(blank_end(line) == 0);
    assert(trim(line) == line) by {
        lemma_trim_nothing(line);
    }
    assert(split(line, 0x20) == seq![key, value]) by {
        lemma_split_whole(key, 0x20);
        lemma_split_push_sep(key, 0x20);
        assert(key + seq![0x20u8] =~= key.push(0x20u8));
        lemma_split_append(key.push(0x20u8), value, 0x20);
        let first = split(key.push(0x20u8), 0x20);
        assert(first =~= seq![key, Seq::<u8>::empty()]);
        assert(first.last() + value =~= value);
        assert(first.drop_last() =~= seq![key]);
        assert(first.drop_last().push(first.last() + value) =~= seq![key, value]);
    }
    assert(!occurs(line, 0x0a)) by {
        assert forall|i: int| 0 <= i < line.len() implies line[i] != 0x0a by {
            if i < 40 {
                assert(line[i] == key[i]);
            } else if i > 40 {
                assert(line[i] == value[i - 41]);
            }
        }
    }
}

/// A spelling alone is one piece, and has no blank at either end and no
/// line feed.
proof fn lemma_one_spelling(a: Oid)
    ensures
        trim(hex_text(a@)) == hex_text(a@),
        split(hex_text(a@), 0x20) == seq![hex_text(a@)],
        !occurs(hex_text(a@), 0x0a),
        hex_text(a@)[0] != 0x23,
        hex_text(a@).len() > 0,
{
    let key = hex_text(a@);
    lemma_hex_text_plain(a);
    assert(key[39] == key[39] && key[38] == key[38] && key[37] == key[37] && key[0] == key[0]);
    assert(blank_start(key) == 0);
    assert(blank_end(key) == 0);
    lemma_trim_nothing(key);
    lemma_split_whole(key, 0x20);
}

/// A line that is trimmed already, with a plain first byte, is read from
/// its pieces alone.
proof fn lemma_read_plain(line: Seq<u8>, pieces: Seq<Seq<u8>>)
    requires
        trim(line) == line,
        line.len() > 0,
        line[0] != 0x23,
        split(line, 0x20) == pieces,
    ensures
        read_entry(line) == (match spelled(pieces[0]) {
            None => None,
            Some(key) => if pieces.len() == 1 {
                Some(Entry { key, value: None })
            } else {
                match spelled(pieces[1]) {
                    None => None,
                    Some(v) => Some(Entry { key, value: Some(v) }),
                }
            },
        }),
{
}

/// The line of an entry is read back as the entry.
pub proof fn lemma_read_line_of(e: Entry)
    ensures
        read_entry(line_of(e)) == Some(e),
        !occurs(line_of(e), 0x0a),
{
    let key = hex_text(e.key@);
    assert(spelled(key) == Some(e.key)) by {
        lemma_hex_round_trip(e.key@);
        lemma_oid_of(e.key);
    }
    match e.value {
        None => {
            lemma_one_spelling(e.key);
            lemma_read_plain(key, seq![key]);
            assert(seq![key][0] == key);
        },
        Some(v) => {
            let value = hex_text(v@);
            assert(spelled(value) == Some(v)) by {
                lemma_hex_round_trip(v@);
                lemma_oid_of(v);
            }
            lemma_two_spellings(e.key, v);
            let line = key + seq![0x20u8] + value;
            lemma_read_plain(line, seq![key, value]);
            assert(seq![key, value][0] == key && seq![key, value][1] == value);
        },
    }
}

/// The text of entries is cut into their lines, and an empty piece after
/// the last line feed.
pub proof fn lemma_rendered_lines(es: Seq<Entry>)
    ensures
        split(rendered(es), 0x0a) == lines_of(es).push(Seq::<u8>::empty()),
    decreases es.len(),
{
    let none = Seq::<u8>::empty();
    if es.len() == 0 {
        assert(lines_of(es).push(none) =~= seq![none]);
    } else {
        let front = es.drop_last();
        let line = line_of(es.last());
        lemma_rendered_lines(front);
        lemma_read_line_of(es.last());
        lemma_split_append(rendered(front), line, 0x0a);
        lemma_split_push_sep(rendered(front) + line, 0x0a);
        assert(rendered(es) =~= (rendered(front) + line).push(0x0au8));
        let before = split(rendered(front), 0x0a);
        assert(before.drop_last() =~= lines_of(front));
        assert(before.last() + line =~= line);
        assert(lines_of(front).push(line) =~= lines_of(es));
    }
}

/// Lines that are the lines of entries hold the mapping of the entries.
pub proof fn lemma_read_lines_of(es: Seq<Entry>)
    ensures
        read_entries(lines_of(es)) == map_of(es),
    decreases es.len(),
{
    if es.len() > 0 {
        lemma_read_lines_of(es.drop_last());
        lemma_read_line_of(es.last());
        assert(lines_of(es).drop_last() =~= lines_of(es.drop_last()));
    }
}

/// What is written is read back: the text of entries holds their mapping.
pub proof fn lemma_written_reads_back(es: Seq<Entry>)
    ensures
        parsed(rendered(es)) == map_of(es),
{
    let none = Seq::<u8>::empty();
    lemma_rendered_lines(es);
    lemma_read_lines_of(es);
    let lines = lines_of(es).push(none);
    assert(lines.drop_last() =~= lines_of(es));
    assert(trim(none) =~= none);
}

impl View for OidMap {
    type V = Map<Oid, Option<Oid>>;

    closed spec fn view(&self) -> Map<Oid, Option<Oid>> {
        map_of(self.entries@)
    }
}

impl OidMap {
    /// The entries in the order in which their keys were first inserted.
    pub closed spec fn entries(&self) -> Seq<Entry> {
        self.entries@
    }

    /// The table's invariant: keys are distinct, and the index leads from the
    /// slot of each key to its entry.
    pub closed spec fn wf(&self) -> bool {
        &&& keys_of(self.entries@).no_duplicates()
        &&& forall|i: int|
            0 <= i < self.entries@.len() ==> {
                let s = slot_of(#[trigger] self.entries@[i].key@) as u64;
                self.index@.contains_key(s) && self.index@[s]@.contains(i as usize)
            }
        &&& forall|s: u64, j: int|
            self.index@.contains_key(s) && 0 <= j < self.index@[s]@.len() ==> (
            #[trigger] self.index@[s]@[j]) < self.entries@.len()
    }

    /// What the entries say of the view: it is their mapping, its keys are
    /// distinct, and it is finite.
    pub proof fn lemma_entries(&self)
        requires
            self.wf(),
        ensures
            self@ == map_of(self.entries()),
            keys_of(self.entries()).no_duplicates(),
            self@.dom().finite(),
            self@.dom().len() == self.entries().len(),
    {
        lemma_map_of_dom(self.entries@);
        lemma_map_of_len(self.entries@);
    }

    /// The empty map.
    pub fn new() -> (r: OidMap)
        ensures
            r.wf(),
            r@ == Map::<Oid, Option<Oid>>::empty(),
            r.entries() == Seq::<Entry>::empty(),
    {
        OidMap { entries: Vec::new(), index: HashMap::new() }
    }

    /// The number of keys.
    pub fn len(&self) -> (r: usize)
        requires
            self.wf(),
        ensures
            r == self@.dom().len(),
            r == self.entries().len(),
    {
        proof {
            self.lemma_entries();
        }
        self.entries.len()
    }

    /// The entry at position `i` in order of first insertion.
    pub fn entry(&self, i: usize) -> (r: Entry)
        requires
            self.wf(),
            i < self.entries().len(),
        ensures
            r == self.entries()[i as int],
    {
        self.entries[i]
    }

    fn find(&self, k: &Oid) -> (r: Option<usize>)
        requires
            self.wf(),
        ensures
            match r {
                Some(p) => p < self.entries@.len() && self.entries@[p as int].key == *k,
                None => forall|i: int| 0 <= i < self.entries@.len() ==> self.entries@[i].key != *k,
            },
    {
        let s = k.slot();
        match self.index.get(&s) {
            None => None,
            Some(bucket) => {
                let mut j: usize = 0;
                while j < bucket.len()
                    invariant
                        self.wf(),
                        self.index@.contains_key(s),
                        *bucket == self.index@[s],
                        s == slot_of(k@),
                        j <= bucket@.len(),
                        forall|t: int|
                            0 <= t < j ==> self.entries@[(#[trigger] bucket@[t]) as int].key != *k,
                    decreases bucket@.len() - j,
                {
                    let p = bucket[j];
                    if self.entries[p].key.same(k) {
                        return Some(p);
                    }
                    j += 1;
                }
                assert forall|i: int| 0 <= i < self.entries@.len() implies self.entries@[i].key
                    != *k by {
                    if self.entries@[i].key == *k {
                        assert(i < self.entries.len());
                        assert(slot_of(self.entries@[i].key@) as u64 == s);
                        assert(bucket@.contains(i as usize));
                        let t = choose|t: int| 0 <= t < bucket@.len() && bucket@[t] == i as usize;
                        assert(self.entries@[bucket@[t] as int].key != *k);
                    }
                }
                None
            },
        }
    }

    /// The value under `k`, if `k` is a key: one step, no chain.
    pub fn get(&self, k: &Oid) -> (r: Option<Option<Oid>>)
        requires
            self.wf(),
        ensures
            r == (if self@.contains_key(*k) {
                Some(self@[*k])
            } else {
                None
            }),
    {
        proof {
            lemma_map_of_dom(self.entries@);
        }
        match self.find(k) {
            Some(p) => {
                proof {
                    lemma_map_of_entry(self.entries@, p as int);
                }
                Some(self.entries[p].value)
            },
            None => {
                assert(!keys_of(self.entries@).to_set().contains(*k)) by {
                    if keys_of(self.entries@).to_set().contains(*k) {
                        let i = choose|i: int|
                            0 <= i < keys_of(self.entries@).len() && keys_of(self.entries@)[i]
                                == *k;
                        assert(self.entries@[i].key == *k);
                    }
                }
                None
            },
        }
    }

    /// Whether `k` is a key.
    pub fn contains_key(&self, k: &Oid) -> (r: bool)
        requires
            self.wf(),
        ensures
            r == self@.contains_key(*k),
    {
        self.get(k).is_some()
    }

    /// Resolves `k` through every indirection: the value at the end of the
    /// chain that starts at `k`. Never runs in a circle.
    pub fn resolve(&self, k: &Oid) -> (r: Option<Option<Oid>>)
        requires
            self.wf(),
        ensures
            r == resolved(self@, *k),
    {
        proof {
            self.lemma_entries();
        }
        let mut value = match self.get(k) {
            None => {
                return None;
            },
            Some(v) => v,
        };
        let mut cur: Oid = *k;
        let mut hops: usize = self.entries.len();
        loop
            invariant
                self.wf(),
                self@.contains_key(*k),
                self@.contains_key(cur),
                value == self@[cur],
                hops <= self@.dom().len(),
                chase(self@, *k, self@.dom().len()) == chase(self@, cur, hops as nat),
            decreases hops,
        {
            let next = match value {
                None => {
                    return Some(None);
                },
                Some(v) => v,
            };
            if next.same(&cur) {
                return Some(Some(next));
            }
            match self.get(&next) {
                None => {
                    return Some(Some(next));
                },
                Some(following) => {
                    if hops == 0 {
                        return Some(None);
                    }
                    hops -= 1;
                    cur = next;
                    value = following;
                },
            }
        }
    }

    /// Sets the value under `k` and returns the value that was there before.
    pub fn insert(&mut self, k: Oid, v: Option<Oid>) -> (r: Option<Option<Oid>>)
        requires
            old(self).wf(),
        ensures
            final(self).wf(),
            final(self)@ == old(self)@.insert(k, v),
            r == (if old(self)@.contains_key(k) {
                Some(old(self)@[k])
            } else {
                None
            }),
            final(self).entries() == entered(old(self).entries(), Entry { key: k, value: v }),
    {
        proof {
            lemma_map_of_dom(self.entries@);
        }
        match self.find(&k) {
            Some(p) => {
                proof {
                    lemma_map_of_entry(self.entries@, p as int);
                    lemma_map_of_update(self.entries@, p as int, v);
                }
                proof {
                    let es = self.entries@;
                    let q = position_of(es, k)->Some_0;
                    assert(es[p as int].key == k);
                    assert(keys_of(es)[q] == keys_of(es)[p as int]);
                    assert(q == p);
                }
                let before = self.entries[p].value;
                self.entries[p] = Entry { key: k, value: v };
                Some(before)
            },
            None => {
                assert(!keys_of(self.entries@).to_set().contains(k)) by {
                    if keys_of(self.entries@).to_set().contains(k) {
                        let i = choose|i: int|
                            0 <= i < keys_of(self.entries@).len() && keys_of(self.entries@)[i]
                                == k;
                        assert(self.entries@[i].key == k);
                    }
                }
                let s = k.slot();
                let p = self.entries.len();
                let ghost before = self.entries@;
                let ghost index_before = self.index@;
                self.entries.push(Entry { key: k, value: v });
                let mut bucket = match self.index.remove(&s) {
                    Some(b) => b,
                    None => Vec::new(),
                };
                let ghost bucket_before = bucket@;
                bucket.push(p);
                self.index.insert(s, bucket);
                proof {
                    assert(self.entries@.drop_last() =~= before);
                    assert(keys_of(self.entries@) =~= keys_of(before).push(k));
                    assert(index_before.contains_key(s) ==> bucket_before == index_before[s]@);
                    assert(!index_before.contains_key(s) ==> bucket_before.len() == 0);
                    assert(self.index@[s]@ == bucket_before.push(p));
                    assert forall|i: int| 0 <= i < self.entries@.len() implies {
                        let t = slot_of(#[trigger] self.entries@[i].key@) as u64;
                        self.index@.contains_key(t) && self.index@[t]@.contains(i as usize)
                    } by {
                        let t = slot_of(self.entries@[i].key@) as u64;
                        if i < before.len() {
                            assert(self.entries@[i] == before[i]);
                            assert(index_before.contains_key(t) && index_before[t]@.contains(
                                i as usize,
                            ));
                            if t == s {
                                let j = choose|j: int|
                                    0 <= j < bucket_before.len() && bucket_before[j] == i as usize;
                                assert(self.index@[s]@[j] == i as usize);
                            }
                        } else {
                            assert(self.index@[s]@[bucket_before.len() as int] == p);
                        }
                    }
                    assert forall|t: u64, j: int|
                        self.index@.contains_key(t) && 0 <= j < self.index@[t]@.len() implies (
                    #[trigger] self.index@[t]@[j]) < self.entries@.len() by {
                        if t == s {
                            if j < bucket_before.len() {
                                assert(index_before.contains_key(s));
                                assert(index_before[s]@[j] < before.len());
                            }
                        } else {
                            assert(index_before.contains_key(t));
                            assert(index_before[t]@[j] < before.len());
                        }
                    }
                }
                None
            },
        }
    }

    /// Reads the entry that a line holds; see [`read_entry`].
    pub fn parse_line(line: &[u8]) -> (r: Option<Entry>)
        ensures
            r == read_entry(line@),
    {
        let t = trim_bytes(line);
        if t.len() == 0 || t[0] == 0x23 {
            return None;
        }
        let pieces = split_bytes(t.as_slice(), 0x20);
        proof {
            lemma_split_nonempty(t@, 0x20);
            assert(views(pieces@)[0] == pieces@[0]@);
            if pieces@.len() > 1 {
                assert(views(pieces@)[1] == pieces@[1]@);
            }
        }
        let key = match Oid::parse(pieces[0].as_slice()) {
            None => {
                return None;
            },
            Some(key) => key,
        };
        if pieces.len() == 1 {
            return Some(Entry { key, value: None });
        }
        match Oid::parse(pieces[1].as_slice()) {
            None => None,
            Some(v) => Some(Entry { key, value: Some(v) }),
        }
    }

    /// Reads the map from its text: one entry on each line, the key and,
    /// after a space, the value, each in hexadecimal digits; a key alone
    /// marks a discarded object. Blank lines, lines that start with `#` and
    /// lines that cannot be read are passed over.
    pub fn from_reader(text: &[u8]) -> (r: OidMap)
        ensures
            r.wf(),
            r@ == parsed(text@),
            r.entries() == entries_read(split(text@, 0x0a)),
    {
        let lines = split_bytes(text, 0x0a);
        let ghost all = views(lines@);
        let mut map = OidMap::new();
        let mut i: usize = 0;
        assert(all.take(0) =~= Seq::<Seq<u8>>::empty());
        while i < lines.len()
            invariant
                i <= lines@.len(),
                all == views(lines@),
                map.wf(),
                map@ == read_entries(all.take(i as int)),
                map.entries() == entries_read(all.take(i as int)),
            decreases lines@.len() - i,
        {
            proof {
                assert(all.take(i + 1).drop_last() =~= all.take(i as int));
                assert(all.take(i + 1).last() == lines@[i as int]@);
            }
            match Self::parse_line(lines[i].as_slice()) {
                Some(e) => {
                    map.insert(e.key, e.value);
                },
                None => {},
            }
            i += 1;
        }
        assert(all.take(i as int) =~= all);
        map
    }

    /// The text of the map: a line for each entry, in the order in which
    /// the keys were first inserted. Reading the text gives the map back.
    pub fn write(&self) -> (r: Vec<u8>)
        requires
            self.wf(),
        ensures
            r@ == rendered(self.entries()),
            parsed(r@) == self@,
    {
        proof {
            lemma_written_reads_back(self.entries@);
        }
        let mut out: Vec<u8> = Vec::new();
        let mut i: usize = 0;
        assert(self.entries@.take(0) =~= Seq::<Entry>::empty());
        while i < self.entries.len()
            invariant
                i <= self.entries@.len(),
                out@ == rendered(self.entries@.take(i as int)),
            decreases self.entries@.len() - i,
        {
            let e = self.entries[i];
            let ghost before = out@;
            proof {
                assert(self.entries@.take(i + 1).drop_last() =~= self.entries@.take(i as int));
                assert(self.entries@.take(i + 1).last() == e);
            }
            let key = e.key.to_hex();
            append(&mut out, key.as_slice());
            match e.value {
                Some(v) => {
                    out.push(0x20);
                    let value = v.to_hex();
                    append(&mut out, value.as_slice());
                    assert(out@ =~= before + (hex_text(e.key@) + seq![0x20u8] + hex_text(v@)));
                },
                None => {},
            }
            out.push(0x0a);
            assert(out@ =~= before + line_of(e) + seq![0x0au8]);
            i += 1;
        }
        assert(self.entries@.take(i as int) =~= self.entries@);
        out
    }
}

/// Puts `bytes` at the end of `out`.
fn append(out: &mut Vec<u8>, bytes: &[u8])
    ensures
        final(out)@ == old(out)@ + bytes@,
{
    let mut i: usize = 0;
    assert(bytes@.take(0) =~= Seq::<u8>::empty());
    assert(out@ =~= old(out)@ + bytes@.take(0));
    while i < bytes.len()
        invariant
            i <= bytes@.len(),
            out@ == old(out)@ + bytes@.take(i as int),
        decreases bytes@.len() - i,
    {
        out.push(bytes[i]);
        assert(bytes@.take(i + 1) =~= bytes@.take(i as int).push(bytes@[i as int]));
        assert(out@ =~= old(out)@ + bytes@.take(i + 1));
        i += 1;
    }
    assert(bytes@.take(i as int) =~= bytes@);
}

} // verus!
