//! Object identifiers: the twenty bytes under which a repository stores a
//! blob, a tree or a commit, and their spelling as forty hexadecimal digits.

use crate::bytes::bytes_eq;
use vstd::prelude::*;
use vstd::string::StringSliceAdditionalSpecFns;

verus! {

/// The identifier of a stored object.
#[derive(Clone, Copy, PartialEq, Eq, Hash, Debug)]
pub struct Oid {
    pub bytes: [u8; 20],
}

impl View for Oid {
    type V = Seq<u8>;

    open spec fn view(&self) -> Seq<u8> {
        self.bytes@
    }
}

/// What a hexadecimal digit stands for; `None` for any other byte.
pub open spec fn hex_value(b: u8) -> Option<int> {
    if 0x30 <= b <= 0x39 {
        Some(b - 0x30)
    } else if 0x61 <= b <= 0x66 {
        Some(b - 0x61 + 10)
    } else if 0x41 <= b <= 0x46 {
        Some(b - 0x41 + 10)
    } else {
        None
    }
}

/// A spelling of an identifier: one to forty hexadecimal digits.
pub open spec fn is_hex_id(s: Seq<u8>) -> bool {
    &&& 1 <= s.len() <= 40
    &&& forall|i: int| 0 <= i < s.len() ==> (#[trigger] hex_value(s[i])) is Some
}

/// The value of the digit at position `i`, and 0 past the end: a short
/// spelling is read as if zeros followed it.
pub open spec fn nibble(s: Seq<u8>, i: int) -> int {
    if 0 <= i < s.len() {
        match hex_value(s[i]) {
            Some(v) => v,
            None => 0,
        }
    } else {
        0
    }
}

/// The twenty bytes that a spelling stands for.
pub open spec fn hex_bytes(s: Seq<u8>) -> Seq<u8> {
    Seq::new(20, |i: int| (16 * nibble(s, 2 * i) + nibble(s, 2 * i + 1)) as u8)
}

/// The lower-case digit for a value below sixteen.
pub open spec fn hex_digit(v: int) -> u8 {
    if v < 10 {
        (0x30 + v) as u8
    } else {
        (0x61 + v - 10) as u8
    }
}

/// The forty digits that spell twenty bytes, high half of each byte first.
pub open spec fn hex_text(id: Seq<u8>) -> Seq<u8> {
    Seq::new(
        40,
        |i: int|
            if i % 2 == 0 {
                hex_digit(id[i / 2] as int / 16)
            } else {
                hex_digit(id[i / 2] as int % 16)
            },
    )
}

/// The identifier with the given bytes.
pub open spec fn oid_of(bytes: Seq<u8>) -> Oid {
    choose|id: Oid| id@ == bytes
}

/// The identifier that text spells, if it spells one.
pub open spec fn spelled(s: Seq<u8>) -> Option<Oid> {
    if is_hex_id(s) {
        Some(oid_of(hex_bytes(s)))
    } else {
        None
    }
}

/// An identifier is the one with its bytes.
pub proof fn lemma_oid_of(id: Oid)
    ensures
        oid_of(id@) == id,
{
    let other = oid_of(id@);
    assert(other@ == id@);
    assert(other.bytes =~= id.bytes);
}

/// Spelling an identifier and reading the spelling gives the identifier back.
pub proof fn lemma_hex_round_trip(id: Seq<u8>)
    requires
        id.len() == 20,
    ensures
        hex_text(id).len() == 40,
        is_hex_id(hex_text(id)),
        hex_bytes(hex_text(id)) == id,
{
    let t = hex_text(id);
    assert forall|i: int| 0 <= i < 40 implies (#[trigger] hex_value(t[i])) is Some && nibble(t, i)
        == (if i % 2 == 0 {
        id[i / 2] as int / 16
    } else {
        id[i / 2] as int % 16
    }) by {
        let b = id[i / 2] as int;
        assert(0 <= b / 16 < 16 && 0 <= b % 16 < 16);
    }
    assert forall|i: int| 0 <= i < 20 implies hex_bytes(t)[i] == id[i] by {
        let b = id[i] as int;
        assert((2 * i) / 2 == i && (2 * i) % 2 == 0);
        assert((2 * i + 1) / 2 == i && (2 * i + 1) % 2 == 1);
        assert(nibble(t, 2 * i) == b / 16);
        assert(nibble(t, 2 * i + 1) == b % 16);
        assert(16 * (b / 16) + b % 16 == b);
    }
    assert(hex_bytes(t) =~= id);
}

/// The first eight bytes of an identifier read as one number. Identifiers are
/// hashes already, so this serves as the slot of a hash table.
pub open spec fn slot_of(id: Seq<u8>) -> int {
    ((((((id[0] as int * 256 + id[1]) * 256 + id[2]) * 256 + id[3]) * 256 + id[4]) * 256
        + id[5]) * 256 + id[6]) * 256 + id[7]
}

/// The identifier of the tree without entries, as every repository computes it.
pub open spec fn empty_tree_bytes() -> Seq<u8> {
    seq![
        0x4bu8, 0x82u8, 0x5du8, 0xc6u8, 0x42u8, 0xcbu8, 0x6eu8, 0xb9u8, 0xa0u8, 0x60u8,
        0xe5u8, 0x4bu8, 0xf8u8, 0xd6u8, 0x92u8, 0x88u8, 0xfbu8, 0xeeu8, 0x49u8, 0x04u8,
    ]
}

/// Reads a spelling with `git2::Oid::from_str`. The contract restates what
/// that function does: it fails on an empty text, on one of more than forty
/// bytes and on any byte that is no hexadecimal digit (of either case);
/// otherwise each pair of digits gives one byte, high half first, and the
/// bytes that a short text does not reach are zero.
#[verifier::external_body]
pub(crate) fn parse_hex(token: &[u8]) -> (r: Option<Oid>)
    ensures
        r is Some <==> is_hex_id(token@),
        r is Some ==> r->Some_0@ == hex_bytes(token@),
{
    let text = std::str::from_utf8(token).ok()?;
    let id = git2::Oid::from_str(text).ok()?;
    let bytes = <[u8; 20]>::try_from(id.as_bytes()).ok()?;
    Some(Oid { bytes })
}

/// Spells an identifier with the `Display` of `git2::Oid`, which writes
/// forty lower-case hexadecimal digits, the high half of each byte first.
#[verifier::external_body]
pub(crate) fn format_hex(id: &Oid) -> (r: Vec<u8>)
    ensures
        r@ == hex_text(id@),
{
    match git2::Oid::from_bytes(&id.bytes) {
        Ok(raw) => raw.to_string().into_bytes(),
        Err(_) => Vec::new(),
    }
}

impl Oid {
    /// An identifier is its bytes and nothing else.
    pub proof fn lemma_view_is_identity(self, other: Oid)
        ensures
            self@.len() == 20,
            (self@ == other@) == (self == other),
    {
        if self@ == other@ {
            assert(self.bytes =~= other.bytes);
        }
    }

    /// The identifier that `text` spells: one to forty hexadecimal digits,
    /// read as if zeros followed a short text.
    pub fn from_hex(text: &str) -> (r: Option<Oid>)
        ensures
            r == spelled(text.spec_bytes()),
    {
        Oid::parse(text.as_bytes())
    }

    /// The identifier that the bytes of `token` spell.
    pub fn parse(token: &[u8]) -> (r: Option<Oid>)
        ensures
            r == spelled(token@),
    {
        let r = parse_hex(token);
        proof {
            if let Some(id) = r {
                lemma_oid_of(id);
            }
        }
        r
    }

    /// The forty digits that spell this identifier.
    pub fn to_hex(&self) -> (r: Vec<u8>)
        ensures
            r@ == hex_text(self@),
            spelled(r@) == Some(*self),
    {
        proof {
            lemma_hex_round_trip(self@);
            lemma_oid_of(*self);
        }
        format_hex(self)
    }

    /// Whether two identifiers are the same.
    pub fn same(&self, other: &Oid) -> (r: bool)
        ensures
            r == (*self == *other),
            r == (self@ == other@),
    {
        proof {
            self.lemma_view_is_identity(*other);
        }
        bytes_eq(self.bytes.as_slice(), other.bytes.as_slice())
    }

    /// The slot of this identifier in a hash table.
    pub fn slot(&self) -> (r: u64)
        ensures
            r == slot_of(self@),
    {
        let b = &self.bytes;
        let mut r: u64 = b[0] as u64;
        r = r * 256 + b[1] as u64;
        r = r * 256 + b[2] as u64;
        r = r * 256 + b[3] as u64;
        r = r * 256 + b[4] as u64;
        r = r * 256 + b[5] as u64;
        r = r * 256 + b[6] as u64;
        r = r * 256 + b[7] as u64;
        r
    }

    /// The identifier of the tree without entries.
    pub fn empty_tree() -> (r: Oid)
        ensures
            r@ == empty_tree_bytes(),
    {
        let r = Oid {
            bytes: [
                0x4b, 0x82, 0x5d, 0xc6, 0x42, 0xcb, 0x6e, 0xb9, 0xa0, 0x60,
                0xe5, 0x4b, 0xf8, 0xd6, 0x92, 0x88, 0xfb, 0xee, 0x49, 0x04,
            ],
        };
        assert(r@ =~= empty_tree_bytes());
        r
    }
}

} // verus!
