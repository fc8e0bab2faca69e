//! Paths as the filter reads them: names separated by `/`.
//!
//! Only named components count. An empty component (a leading, doubled or
//! trailing `/`), `.` and `..` name nothing and are dropped.

use crate::bytes::{bytes_eq, split, split_bytes, views};
use vstd::prelude::*;

verus! {

/// Whether a component names an entry: it is not empty, not `.` and not `..`.
pub open spec fn is_named(c: Seq<u8>) -> bool {
    c.len() > 0 && c != seq![0x2eu8] && c != seq![0x2eu8, 0x2eu8]
}

/// The named ones among `pieces`, in their order.
pub open spec fn named_only(pieces: Seq<Seq<u8>>) -> Seq<Seq<u8>>
    decreases pieces.len(),
{
    if pieces.len() == 0 {
        Seq::empty()
    } else if is_named(pieces.last()) {
        named_only(pieces.drop_last()).push(pieces.last())
    } else {
        named_only(pieces.drop_last())
    }
}

/// The named components of a path.
pub open spec fn components(path: Seq<u8>) -> Seq<Seq<u8>> {
    named_only(split(path, 0x2f))
}

/// Every component that `named_only` keeps is named.
pub proof fn lemma_named_only(pieces: Seq<Seq<u8>>)
    ensures
        forall|i: int| 0 <= i < named_only(pieces).len() ==> is_named(#[trigger] named_only(pieces)[i]),
    decreases pieces.len(),
{
    if pieces.len() > 0 {
        let front = named_only(pieces.drop_last());
        lemma_named_only(pieces.drop_last());
        assert forall|i: int| 0 <= i < named_only(pieces).len() implies is_named(
            #[trigger] named_only(pieces)[i],
        ) by {
            if i < front.len() {
                assert(named_only(pieces)[i] == front[i]);
            }
        }
    }
}

/// Whether a component names an entry.
pub fn named(c: &[u8]) -> (r: bool)
    ensures
        r == is_named(c@),
{
    let dot: [u8; 1] = [0x2e];
    let dots: [u8; 2] = [0x2e, 0x2e];
    assert(dot@ =~= seq![0x2eu8]);
    assert(dots@ =~= seq![0x2eu8, 0x2eu8]);
    c.len() > 0 && !bytes_eq(c, dot.as_slice()) && !bytes_eq(c, dots.as_slice())
}

/// Splits a path into its named components.
pub fn path_components(path: &[u8]) -> (r: Vec<Vec<u8>>)
    ensures
        views(r@) == components(path@),
        forall|i: int| 0 <= i < r@.len() ==> is_named(#[trigger] r@[i]@),
{
    let mut pieces = split_bytes(path, 0x2f);
    let ghost all = views(pieces@);
    let mut out: Vec<Vec<u8>> = Vec::new();
    let n = pieces.len();
    let mut i: usize = 0;
    assert(all.take(0) =~= Seq::<Seq<u8>>::empty());
    assert(views(out@) =~= named_only(all.take(0)));
    while i < n
        invariant
            n == pieces@.len(),
            all.len() == n,
            i <= n,
            forall|j: int| i <= j < n ==> (#[trigger] pieces@[j])@ == all[j],
            views(out@) == named_only(all.take(i as int)),
        decreases n - i,
    {
        let mut piece: Vec<u8> = Vec::new();
        std::mem::swap(&mut pieces[i], &mut piece);
        proof {
            assert(piece@ == all[i as int]);
            assert(all.take(i + 1).drop_last() =~= all.take(i as int));
            assert(all.take(i + 1).last() == all[i as int]);
        }
        if named(piece.as_slice()) {
            let ghost before = out@;
            out.push(piece);
            assert(views(out@) =~= views(before).push(all[i as int]));
        }
        i += 1;
    }
    proof {
        assert(all.take(n as int) =~= all);
        lemma_named_only(all);
        assert forall|i: int| 0 <= i < out@.len() implies is_named(#[trigger] out@[i]@) by {
            assert(views(out@)[i] == out@[i]@);
        }
    }
    out
}

} // verus!
