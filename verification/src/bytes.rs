//! Byte strings: equality, lexicographic order, separators and blanks.
//!
//! Paths, entry names and the lines of the text formats are all handled as
//! sequences of bytes, which is what a repository stores.

use vstd::prelude::*;

verus! {

/// Lexicographic "less than" on byte strings: a proper prefix comes first,
/// otherwise the first differing byte decides.
pub open spec fn lex_lt(a: Seq<u8>, b: Seq<u8>) -> bool
    decreases a.len(),
{
    if b.len() == 0 {
        false
    } else if a.len() == 0 {
        true
    } else if a[0] != b[0] {
        a[0] < b[0]
    } else {
        lex_lt(a.drop_first(), b.drop_first())
    }
}

/// Nothing is less than itself.
pub proof fn lemma_lex_irreflexive(a: Seq<u8>)
    ensures
        !lex_lt(a, a),
    decreases a.len(),
{
    if a.len() > 0 {
        lemma_lex_irreflexive(a.drop_first());
    }
}

/// The order is transitive.
pub proof fn lemma_lex_transitive(a: Seq<u8>, b: Seq<u8>, c: Seq<u8>)
    requires
        lex_lt(a, b),
        lex_lt(b, c),
    ensures
        lex_lt(a, c),
    decreases a.len(),
{
    if a.len() > 0 && a[0] == b[0] && b[0] == c[0] {
        lemma_lex_transitive(a.drop_first(), b.drop_first(), c.drop_first());
    }
}

/// Two different byte strings are ordered one way or the other.
pub proof fn lemma_lex_total(a: Seq<u8>, b: Seq<u8>)
    ensures
        lex_lt(a, b) || lex_lt(b, a) || a == b,
    decreases a.len(),
{
    if a.len() == 0 || b.len() == 0 {
        if a.len() == 0 && b.len() == 0 {
            assert(a =~= b);
        }
    } else if a[0] == b[0] {
        lemma_lex_total(a.drop_first(), b.drop_first());
        if a.drop_first() == b.drop_first() {
            assert(a =~= seq![a[0]] + a.drop_first());
            assert(b =~= seq![b[0]] + b.drop_first());
        }
    }
}

proof fn lemma_lex_skip(a: Seq<u8>, b: Seq<u8>, i: int)
    requires
        0 <= i < a.len(),
        i < b.len(),
        a[i] == b[i],
    ensures
        lex_lt(a.skip(i), b.skip(i)) == lex_lt(a.skip(i + 1), b.skip(i + 1)),
{
    assert(a.skip(i).drop_first() =~= a.skip(i + 1));
    assert(b.skip(i).drop_first() =~= b.skip(i + 1));
}

/// Whether two byte strings hold the same bytes.
pub fn bytes_eq(a: &[u8], b: &[u8]) -> (r: bool)
    ensures
        r == (a@ == b@),
{
    if a.len() != b.len() {
        return false;
    }
    let mut i: usize = 0;
    while i < a.len()
        invariant
            a@.len() == b@.len(),
            i <= a@.len(),
            forall|j: int| 0 <= j < i ==> a@[j] == b@[j],
        decreases a@.len() - i,
    {
        if a[i] != b[i] {
            return false;
        }
        i += 1;
    }
    assert(a@ =~= b@);
    true
}

/// Whether `a` comes before `b` in lexicographic order.
pub fn bytes_lt(a: &[u8], b: &[u8]) -> (r: bool)
    ensures
        r == lex_lt(a@, b@),
{
    let mut i: usize = 0;
    assert(a@.skip(0) =~= a@ && b@.skip(0) =~= b@);
    while i < a.len() && i < b.len()
        invariant
            i <= a@.len(),
            i <= b@.len(),
            lex_lt(a@, b@) == lex_lt(a@.skip(i as int), b@.skip(i as int)),
        decreases a@.len() - i,
    {
        if a[i] != b[i] {
            return a[i] < b[i];
        }
        proof {
            lemma_lex_skip(a@, b@, i as int);
        }
        i += 1;
    }
    i < b.len()
}

/// The pieces of `s` between occurrences of `sep`. There is always at least
/// one piece; two separators in a row enclose an empty piece.
pub open spec fn split(s: Seq<u8>, sep: u8) -> Seq<Seq<u8>>
    decreases s.len(),
{
    if s.len() == 0 {
        seq![Seq::<u8>::empty()]
    } else {
        let before = split(s.drop_last(), sep);
        if s.last() == sep {
            before.push(Seq::<u8>::empty())
        } else {
            before.drop_last().push(before.last().push(s.last()))
        }
    }
}

/// Splitting always yields a piece.
pub proof fn lemma_split_nonempty(s: Seq<u8>, sep: u8)
    ensures
        split(s, sep).len() >= 1,
    decreases s.len(),
{
    if s.len() > 0 {
        lemma_split_nonempty(s.drop_last(), sep);
    }
}

/// Whether a byte occurs in a byte string.
pub open spec fn occurs(s: Seq<u8>, b: u8) -> bool {
    exists|i: int| 0 <= i < s.len() && s[i] == b
}

/// A text that ends with a separator ends with an empty piece.
pub proof fn lemma_split_push_sep(s: Seq<u8>, sep: u8)
    ensures
        split(s.push(sep), sep) == split(s, sep).push(Seq::<u8>::empty()),
{
    assert(s.push(sep).drop_last() =~= s);
}

/// Bytes without a separator that follow a text lengthen its last piece.
pub proof fn lemma_split_append(s: Seq<u8>, t: Seq<u8>, sep: u8)
    requires
        !occurs(t, sep),
    ensures
        split(s + t, sep) == split(s, sep).drop_last().push(split(s, sep).last() + t),
    decreases t.len(),
{
    lemma_split_nonempty(s, sep);
    let pieces = split(s, sep);
    if t.len() == 0 {
        assert(s + t =~= s);
        assert(pieces.last() + t =~= pieces.last());
        assert(pieces.drop_last().push(pieces.last()) =~= pieces);
    } else {
        let front = t.drop_last();
        assert(!occurs(front, sep)) by {
            if occurs(front, sep) {
                let i = choose|i: int| 0 <= i < front.len() && front[i] == sep;
                assert(t[i] == sep);
            }
        }
        assert(t.last() != sep) by {
            if t.last() == sep {
                assert(t[t.len() - 1] == sep);
            }
        }
        lemma_split_append(s, front, sep);
        assert((s + t).drop_last() =~= s + front);
        assert((s + t).last() == t.last());
        let before = split(s + front, sep);
        assert(before.drop_last() =~= pieces.drop_last());
        assert(before.last().push(t.last()) =~= pieces.last() + t);
    }
}

/// A text without a separator is one piece.
pub proof fn lemma_split_whole(t: Seq<u8>, sep: u8)
    requires
        !occurs(t, sep),
    ensures
        split(t, sep) == seq![t],
{
    let none = Seq::<u8>::empty();
    lemma_split_append(none, t, sep);
    assert(none + t =~= t);
    assert(split(none, sep) =~= seq![none]);
    assert(seq![none].drop_last().push(none + t) =~= seq![t]);
}

/// The view of a list of byte strings: each one as a sequence.
pub open spec fn views(v: Seq<Vec<u8>>) -> Seq<Seq<u8>> {
    Seq::new(v.len(), |i: int| v[i]@)
}

/// Cuts `s` at every `sep`.
pub fn split_bytes(s: &[u8], sep: u8) -> (r: Vec<Vec<u8>>)
    ensures
        views(r@) == split(s@, sep),
{
    let mut done: Vec<Vec<u8>> = Vec::new();
    let mut piece: Vec<u8> = Vec::new();
    let mut i: usize = 0;
    assert(s@.take(0) =~= Seq::<u8>::empty());
    assert(views(done@).push(piece@) =~= split(s@.take(0), sep));
    while i < s.len()
        invariant
            i <= s@.len(),
            views(done@).push(piece@) == split(s@.take(i as int), sep),
        decreases s@.len() - i,
    {
        let b = s[i];
        proof {
            let next = s@.take(i + 1);
            assert(next.drop_last() =~= s@.take(i as int));
            assert(next.last() == b);
            let before = views(done@).push(piece@);
            assert(before.drop_last() =~= views(done@));
            assert(before.last() == piece@);
        }
        if b == sep {
            let ghost old_done = done@;
            done.push(piece);
            piece = Vec::new();
            assert(views(done@) =~= views(old_done).push(done@.last()@));
        } else {
            piece.push(b);
        }
        i += 1;
    }
    assert(s@.take(i as int) =~= s@);
    let ghost old_done = done@;
    done.push(piece);
    assert(views(done@) =~= views(old_done).push(done@.last()@));
    done
}

/// The blanks of one byte: space, tab, line feed, vertical tab, form feed
/// and carriage return.
pub open spec fn is_blank(b: u8) -> bool {
    b == 0x20 || (0x09 <= b && b <= 0x0d)
}

/// The blanks of two bytes: next line and no-break space, as UTF-8 writes
/// them.
pub open spec fn is_blank_pair(a: u8, b: u8) -> bool {
    a == 0xc2 && (b == 0x85 || b == 0xa0)
}

/// The blanks of three bytes, as UTF-8 writes them: the Ogham space mark,
/// the spaces from en quad to hair space, line and paragraph separator,
/// narrow no-break space, medium mathematical space and ideographic space.
pub open spec fn is_blank_triple(a: u8, b: u8, c: u8) -> bool {
    ||| (a == 0xe1 && b == 0x9a && c == 0x80)
    ||| (a == 0xe2 && b == 0x80 && ((0x80 <= c && c <= 0x8a) || c == 0xa8 || c == 0xa9 || c == 0xaf))
    ||| (a == 0xe2 && b == 0x81 && c == 0x9f)
    ||| (a == 0xe3 && b == 0x80 && c == 0x80)
}

/// How many bytes the blank has that `s` starts with; 0 if it starts with
/// none. The blanks are the characters that Unicode calls white space.
pub open spec fn blank_start(s: Seq<u8>) -> nat {
    if s.len() >= 1 && is_blank(s[0]) {
        1
    } else if s.len() >= 2 && is_blank_pair(s[0], s[1]) {
        2
    } else if s.len() >= 3 && is_blank_triple(s[0], s[1], s[2]) {
        3
    } else {
        0
    }
}

/// How many bytes the blank has that `s` ends with; 0 if it ends with none.
pub open spec fn blank_end(s: Seq<u8>) -> nat {
    let n = s.len() as int;
    if n >= 1 && is_blank(s[n - 1]) {
        1
    } else if n >= 2 && is_blank_pair(s[n - 2], s[n - 1]) {
        2
    } else if n >= 3 && is_blank_triple(s[n - 3], s[n - 2], s[n - 1]) {
        3
    } else {
        0
    }
}

/// Whether a byte is a blank of one byte.
pub fn blank(b: u8) -> (r: bool)
    ensures
        r == is_blank(b),
{
    b == 0x20 || (0x09 <= b && b <= 0x0d)
}

/// `s` without the blanks at its start.
pub open spec fn trim_start(s: Seq<u8>) -> Seq<u8>
    decreases s.len(),
{
    if blank_start(s) > 0 {
        trim_start(s.skip(blank_start(s) as int))
    } else {
        s
    }
}

/// `s` without the blanks at its end.
pub open spec fn trim_end(s: Seq<u8>) -> Seq<u8>
    decreases s.len(),
{
    if blank_end(s) > 0 {
        trim_end(s.take(s.len() - blank_end(s)))
    } else {
        s
    }
}

/// `s` without the blanks at either end.
pub open spec fn trim(s: Seq<u8>) -> Seq<u8> {
    trim_end(trim_start(s))
}

/// A text that neither starts nor ends with a blank is trimmed already.
pub proof fn lemma_trim_nothing(s: Seq<u8>)
    requires
        blank_start(s) == 0,
        blank_end(s) == 0,
    ensures
        trim(s) == s,
{
}

fn triple(a: u8, b: u8, c: u8) -> (r: bool)
    ensures
        r == is_blank_triple(a, b, c),
{
    (a == 0xe1 && b == 0x9a && c == 0x80) || (a == 0xe2 && b == 0x80 && ((0x80 <= c && c <= 0x8a)
        || c == 0xa8 || c == 0xa9 || c == 0xaf)) || (a == 0xe2 && b == 0x81 && c == 0x9f) || (a
        == 0xe3 && b == 0x80 && c == 0x80)
}

/// How long the blank is that the part of `s` from `from` to `to` starts
/// with.
fn leading(s: &[u8], from: usize, to: usize) -> (r: usize)
    requires
        from <= to <= s@.len(),
    ensures
        r == blank_start(s@.subrange(from as int, to as int)),
        from + r <= to,
{
    let ghost part = s@.subrange(from as int, to as int);
    let n = to - from;
    if n >= 1 && blank(s[from]) {
        assert(part[0] == s@[from as int]);
        1
    } else if n >= 2 && s[from] == 0xc2 && (s[from + 1] == 0x85 || s[from + 1] == 0xa0) {
        assert(part[0] == s@[from as int] && part[1] == s@[from + 1]);
        2
    } else if n >= 3 && triple(s[from], s[from + 1], s[from + 2]) {
        assert(part[0] == s@[from as int] && part[1] == s@[from + 1] && part[2] == s@[from + 2]);
        3
    } else {
        proof {
            if n >= 1 {
                assert(part[0] == s@[from as int]);
            }
            if n >= 2 {
                assert(part[1] == s@[from + 1]);
            }
            if n >= 3 {
                assert(part[2] == s@[from + 2]);
            }
        }
        0
    }
}

/// How long the blank is that the part of `s` from `from` to `to` ends
/// with.
fn trailing(s: &[u8], from: usize, to: usize) -> (r: usize)
    requires
        from <= to <= s@.len(),
    ensures
        r == blank_end(s@.subrange(from as int, to as int)),
        from + r <= to,
{
    let ghost part = s@.subrange(from as int, to as int);
    let n = to - from;
    proof {
        if n >= 1 {
            assert(part[n - 1] == s@[to - 1]);
        }
        if n >= 2 {
            assert(part[n - 2] == s@[to - 2]);
        }
        if n >= 3 {
            assert(part[n - 3] == s@[to - 3]);
        }
    }
    if n >= 1 && blank(s[to - 1]) {
        1
    } else if n >= 2 && s[to - 2] == 0xc2 && (s[to - 1] == 0x85 || s[to - 1] == 0xa0) {
        2
    } else if n >= 3 && triple(s[to - 3], s[to - 2], s[to - 1]) {
        3
    } else {
        0
    }
}

/// Copies `s` without the blanks at either end.
pub fn trim_bytes(s: &[u8]) -> (r: Vec<u8>)
    ensures
        r@ == trim(s@),
{
    let end = s.len();
    let mut from: usize = 0;
    assert(s@.subrange(0, end as int) =~= s@);
    let mut n = leading(s, from, end);
    while n > 0
        invariant
            end == s@.len(),
            from <= end,
            from + n <= end,
            n == blank_start(s@.subrange(from as int, end as int)),
            trim_start(s@) == trim_start(s@.subrange(from as int, end as int)),
        decreases end - from,
    {
        assert(s@.subrange(from as int, end as int).skip(n as int) =~= s@.subrange(
            from + n,
            end as int,
        ));
        from = from + n;
        n = leading(s, from, end);
    }
    assert(trim_start(s@) == s@.subrange(from as int, end as int));
    let mut to: usize = end;
    let mut n = trailing(s, from, to);
    while n > 0
        invariant
            from <= to <= s@.len(),
            from + n <= to,
            n == blank_end(s@.subrange(from as int, to as int)),
            trim(s@) == trim_end(s@.subrange(from as int, to as int)),
        decreases to - from,
    {
        assert(s@.subrange(from as int, to as int).take(to - from - n) =~= s@.subrange(
            from as int,
            to - n,
        ));
        to = to - n;
        n = trailing(s, from, to);
    }
    let mut out: Vec<u8> = Vec::new();
    let mut i: usize = from;
    while i < to
        invariant
            from <= i <= to <= s@.len(),
            out@ == s@.subrange(from as int, i as int),
        decreases to - i,
    {
        out.push(s[i]);
        assert(s@.subrange(from as int, i + 1) =~= s@.subrange(from as int, i as int).push(
            s@[i as int],
        ));
        i += 1;
    }
    out
}

} // verus!
