//! Ledger headers: a standard claims `root[0]` of the blocks that embed it,
//! and its 32-byte magic is the first leaf there.
//!
//! - A standard without fields is one Cell at `[0]`, its magic.
//! - A standard with fields is an Array at `[0]`: the magic at `[0, 0]`, field
//!   `i` at `[0, i + 1]`, at most fifteen fields.
//! - The magic is not a field: it has a path and no write, and its value comes
//!   from the deploy state.
//! - A block has one standard at most, and a magic is never all zero: that is
//!   what an unset `Bytes<32>` cell holds.
use crate::derive::{has_text, lemma_found_at};
use crate::fab::padded;
use crate::layout::{BlockLayout, FieldPath};
use crate::sealed;
use vstd::prelude::*;

verus! {

/// Where a slot sits in its block.
#[derive(Clone, Copy, PartialEq, Eq, Structural, Debug)]
pub enum Placement {
    /// In the body, at the path its declaration order gives.
    Body,
    /// At `root[0]`.
    RootHeader,
}

impl Placement {
    /// Whether the slot claims `root[0]`.
    pub fn is_root_header(&self) -> (r: bool)
        ensures
            r == (*self == Placement::RootHeader),
    {
        *self == Placement::RootHeader
    }
}

/// What a slot type takes up in its block.
pub trait LedgerWidth {
    /// The body fields it occupies.
    const WIDTH: usize;

    /// Where it sits.
    const PLACEMENT: Placement;

    /// Whether it settles under this response kind.
    spec fn settles(kind: u8) -> bool;

    /// The response kinds it settles under, each once.
    fn kinds() -> (r: Vec<u8>)
        ensures
            r@.no_duplicates(),
            forall|kind: u8| r@.contains(kind) <==> Self::settles(kind),
    ;
}

/// A standard: a type that claims `root[0]` of every block that embeds it, and
/// the 32 bytes a reader finds there.
pub trait LedgerHeader: LedgerWidth {
    /// The discriminator at the first leaf. Not all zero.
    const MAGIC: [u8; 32];
}

/// Why a standard is refused.
#[derive(Clone, Copy, PartialEq, Eq, Structural, Debug)]
pub enum HeaderRefusal {
    /// The magic is all zero.
    ZeroMagic,
    /// A magic's path is neither `[0]` nor `[0, 0]`.
    MagicElsewhere,
    /// A field of the standard is a group of fields, or another standard.
    NotOneField,
    /// A field of the standard settles a response kind.
    SettlesAKind,
    /// A field of the standard claims `root[0]` itself.
    AnotherStandard,
    /// The block's layout leaves `root[0]` to the body.
    NotHeaded,
}

impl HeaderRefusal {
    /// The rule, in words.
    pub fn message(&self) -> (r: &'static str)
        ensures
            r@ == self.text(),
    {
        match self {
            HeaderRefusal::ZeroMagic => "a standard's MAGIC is all zero bytes: that is what an unset `Bytes<32>` cell holds, so a reader could not tell this standard from a contract with none. Give it a non-zero value, e.g. pad32(b\"…\")",
            HeaderRefusal::MagicElsewhere => "a standard's magic is at [0] (a magic-only standard) or [0, 0] (one with fields): a standard claims root[0], and its magic is the first leaf there",
            HeaderRefusal::NotOneField => "a standard's fields are single-field ledger slots: one field of this standard is a group (WIDTH != 1) or another standard (WIDTH 0)",
            HeaderRefusal::SettlesAKind => "a standard's fields settle no Signet response kind: a Signet slot needs the block's Signet, which lives in the body",
            HeaderRefusal::AnotherStandard => "a standard cannot contain another standard: root[0] has one owner",
            HeaderRefusal::NotHeaded => "a standard is placed only in a headed layout: its root[0] would collide with the body's first field under compactc's. Declare it in a #[derive(Ledger)] block, which gives the block a headed layout",
        }
    }

    pub open spec fn text(&self) -> Seq<char> {
        match *self {
            HeaderRefusal::ZeroMagic => "a standard's MAGIC is all zero bytes: that is what an unset `Bytes<32>` cell holds, so a reader could not tell this standard from a contract with none. Give it a non-zero value, e.g. pad32(b\"…\")"@,
            HeaderRefusal::MagicElsewhere => "a standard's magic is at [0] (a magic-only standard) or [0, 0] (one with fields): a standard claims root[0], and its magic is the first leaf there"@,
            HeaderRefusal::NotOneField => "a standard's fields are single-field ledger slots: one field of this standard is a group (WIDTH != 1) or another standard (WIDTH 0)"@,
            HeaderRefusal::SettlesAKind => "a standard's fields settle no Signet response kind: a Signet slot needs the block's Signet, which lives in the body"@,
            HeaderRefusal::AnotherStandard => "a standard cannot contain another standard: root[0] has one owner"@,
            HeaderRefusal::NotHeaded => "a standard is placed only in a headed layout: its root[0] would collide with the body's first field under compactc's. Declare it in a #[derive(Ledger)] block, which gives the block a headed layout"@,
        }
    }
}

/// Thirty-two zero bytes.
pub fn zero32() -> (r: [u8; 32])
    ensures
        r@ == padded(Seq::empty(), 32),
{
    let r: [u8; 32] = [
        0, 0, 0, 0, 0, 0, 0, 0, 0, 0, 0, 0, 0, 0, 0, 0, 0, 0, 0, 0, 0, 0, 0, 0, 0, 0, 0, 0, 0, 0, 0, 0,
    ];
    assert(r@ =~= padded(Seq::empty(), 32));
    r
}

/// `s` followed by zero bytes, 32 in all: for writing a magic. At most 32
/// bytes.
pub fn pad32(s: &[u8]) -> (out: [u8; 32])
    requires
        s@.len() <= 32,
    ensures
        out@ == padded(s@, 32),
{
    let mut out: [u8; 32] = zero32();
    let mut i: usize = 0;
    while i < s.len()
        invariant
            i <= s@.len() <= 32,
            forall|j: int| 0 <= j < i ==> out@[j] == s@[j],
            forall|j: int| i <= j < 32 ==> out@[j] == 0,
        decreases s@.len() - i,
    {
        out[i] = s[i];
        i += 1;
    }
    assert(out@ =~= padded(s@, 32));
    out
}

/// A standard's magic as a slot: where it is, and nothing to write it with.
#[derive(Clone, Copy)]
pub struct Magic {
    path: FieldPath,
}

impl Magic {
    #[verifier::type_invariant]
    spec fn inv(self) -> bool {
        self.path@ == seq![0u8] || self.path@ == seq![0u8, 0u8]
    }

    /// The magic's path.
    pub closed spec fn path(self) -> FieldPath {
        self.path
    }

    /// The magic at `path`: `[0]` or `[0, 0]`, and nowhere else.
    pub fn at_path(path: &[u8]) -> (r: Result<Self, HeaderRefusal>)
        ensures
            match r {
                Ok(magic) => magic.path()@ == path@ && (path@ == seq![0u8] || path@ == seq![
                    0u8,
                    0u8,
                ]),
                Err(refusal) => refusal == HeaderRefusal::MagicElsewhere && path@ != seq![0u8]
                    && path@ != seq![0u8, 0u8],
            },
    {
        if path.len() == 1 && path[0] == 0 {
            assert(path@ =~= seq![0u8]);
            Ok(Magic { path: FieldPath::of(path) })
        } else if path.len() == 2 && path[0] == 0 && path[1] == 0 {
            assert(path@ =~= seq![0u8, 0u8]);
            Ok(Magic { path: FieldPath::of(path) })
        } else {
            Err(HeaderRefusal::MagicElsewhere)
        }
    }

    /// The magic's path: `[0]` for a standard without fields, `[0, 0]` for one
    /// with fields, whatever the contract.
    pub fn field_path(&self) -> (r: FieldPath)
        ensures
            r == self.path(),
            r@ == seq![0u8] || r@ == seq![0u8, 0u8],
    {
        proof {
            use_type_invariant(self);
        }
        self.path
    }
}

/// The slot types a standard may own besides its magic: those that occupy one
/// body field, settle no kind and are no standard. Sealed.
pub trait HeaderField: LedgerWidth + sealed::HeaderField {
    /// What the type says of itself.
    proof fn is_one_field()
        ensures
            Self::WIDTH == 1,
            Self::PLACEMENT == Placement::Body,
            forall|kind: u8| !Self::settles(kind),
    ;
}

/// Whether 32 bytes are all zero.
pub open spec fn all_zero(bytes: Seq<u8>) -> bool {
    forall|i: int| 0 <= i < bytes.len() ==> bytes[i] == 0
}

/// The magic check: refuses 32 zero bytes.
pub fn assert_magic(magic: &[u8; 32]) -> (r: Result<(), HeaderRefusal>)
    ensures
        r == if all_zero(magic@) {
            Err(HeaderRefusal::ZeroMagic)
        } else {
            Ok(())
        },
{
    let mut i: usize = 0;
    let mut zero: bool = true;
    while i < 32
        invariant
            i <= 32,
            zero <==> forall|j: int| 0 <= j < i ==> magic@[j] == 0,
        decreases 32 - i,
    {
        if magic[i] != 0 {
            zero = false;
        }
        i += 1;
    }
    if zero {
        Err(HeaderRefusal::ZeroMagic)
    } else {
        Ok(())
    }
}

/// What is wrong with a standard's field of this width, with these kinds, at
/// this placement.
pub open spec fn field_refusal(width: usize, kinds: Seq<u8>, placement: Placement) -> Option<
    HeaderRefusal,
> {
    if width != 1 {
        Some(HeaderRefusal::NotOneField)
    } else if kinds.len() != 0 {
        Some(HeaderRefusal::SettlesAKind)
    } else if placement == Placement::RootHeader {
        Some(HeaderRefusal::AnotherStandard)
    } else {
        None
    }
}

/// The check on a standard's fields: one body field each, no response kind,
/// and not a standard. The first field that breaks a rule is the one refused.
pub fn assert_header_fields(widths: &[usize], kinds: &[&[u8]], placements: &[Placement]) -> (r: Result<
    (),
    HeaderRefusal,
>)
    requires
        widths@.len() == kinds@.len(),
        widths@.len() == placements@.len(),
    ensures
        match r {
            Ok(()) => forall|i: int|
                0 <= i < widths@.len() ==> field_refusal(
                    #[trigger] widths@[i],
                    kinds@[i]@,
                    placements@[i],
                ) is None,
            Err(refusal) => exists|i: int|
                0 <= i < widths@.len() && field_refusal(
                    #[trigger] widths@[i],
                    kinds@[i]@,
                    placements@[i],
                ) == Some(refusal) && forall|j: int|
                    0 <= j < i ==> field_refusal(
                        #[trigger] widths@[j],
                        kinds@[j]@,
                        placements@[j],
                    ) is None,
        },
{
    let mut i: usize = 0;
    while i < widths.len()
        invariant
            i <= widths@.len(),
            widths@.len() == kinds@.len(),
            widths@.len() == placements@.len(),
            forall|j: int|
                0 <= j < i ==> field_refusal(
                    #[trigger] widths@[j],
                    kinds@[j]@,
                    placements@[j],
                ) is None,
        decreases widths@.len() - i,
    {
        let ghost wrong = field_refusal(widths@[i as int], kinds@[i as int]@, placements@[i as int]);
        if widths[i] != 1 {
            assert(wrong == Some(HeaderRefusal::NotOneField));
            return Err(HeaderRefusal::NotOneField);
        }
        if kinds[i].len() != 0 {
            assert(wrong == Some(HeaderRefusal::SettlesAKind));
            return Err(HeaderRefusal::SettlesAKind);
        }
        if placements[i].is_root_header() {
            assert(wrong == Some(HeaderRefusal::AnotherStandard));
            return Err(HeaderRefusal::AnotherStandard);
        }
        i += 1;
    }
    Ok(())
}

/// The bound on a standard's field, as a call: the type is a [`HeaderField`],
/// so it passes [`assert_header_fields`] by itself.
pub fn header_field<T: HeaderField>()
    ensures
        T::WIDTH == 1,
        T::PLACEMENT == Placement::Body,
        forall|kind: u8| !T::settles(kind),
{
    proof {
        T::is_one_field();
    }
}

/// A standard is at `root[0]` only under a headed layout.
pub fn assert_headed(layout: BlockLayout) -> (r: Result<(), HeaderRefusal>)
    ensures
        r == if layout.has_header() {
            Ok(())
        } else {
            Err(HeaderRefusal::NotHeaded)
        },
{
    if layout.is_headed() {
        Ok(())
    } else {
        Err(HeaderRefusal::NotHeaded)
    }
}

/// A magic of at most 32 bytes survives being stored: the ledger drops its
/// trailing zero bytes and a reader pads them back.
pub proof fn law_magic_round_trip(s: Seq<u8>)
    requires
        s.len() <= 32,
    ensures
        padded(crate::fab::trimmed(padded(s, 32)), 32) == padded(s, 32),
{
    crate::fab::law_padding_undoes_trimming(padded(s, 32), 32);
    assert(padded(padded(s, 32), 32) =~= padded(s, 32));
}

/// What a standard may own: a slot of one body field that settles no kind and is no
/// standard. What is wrong with another one is its width before its kinds, and its
/// kinds before its placement.
pub proof fn law_what_a_standard_owns(width: usize, kinds: Seq<u8>, placement: Placement)
    ensures
        field_refusal(width, kinds, placement) is None <==> width == 1 && kinds == Seq::<u8>::empty()
            && placement == Placement::Body,
        field_refusal(width, kinds, placement) == Some(HeaderRefusal::NotOneField) <==> width != 1,
        field_refusal(width, kinds, placement) == Some(HeaderRefusal::SettlesAKind) <==> width == 1
            && kinds != Seq::<u8>::empty(),
        field_refusal(width, kinds, placement) == Some(HeaderRefusal::AnotherStandard) <==> width
            == 1 && kinds == Seq::<u8>::empty() && placement == Placement::RootHeader,
{
    if kinds.len() == 0 {
        assert(kinds =~= Seq::<u8>::empty());
    }
}

/// Of all magics the one that is refused is thirty-two zero bytes: one byte that is
/// not zero, wherever it is, makes another.
pub proof fn law_one_magic_is_all_zero(magic: Seq<u8>)
    requires
        magic.len() == 32,
    ensures
        all_zero(magic) <==> magic == Seq::new(32, |i: int| 0u8),
        !all_zero(magic) <==> exists|i: int| 0 <= i < 32 && #[trigger] magic[i] != 0,
{
    if all_zero(magic) {
        assert(magic =~= Seq::new(32, |i: int| 0u8));
    } else {
        let i = choose|i: int| 0 <= i < magic.len() && magic[i] != 0;
        assert(magic[i] != 0);
        assert(Seq::new(32, |i: int| 0u8)[i] == 0);
    }
}

/// A refusal's text names the rule that was broken.
pub proof fn law_a_refusal_names_its_rule(refusal: HeaderRefusal)
    ensures
        refusal is ZeroMagic ==> has_text(refusal.text(), "all zero bytes"@),
        refusal is MagicElsewhere ==> has_text(refusal.text(), "magic is at [0]"@),
        refusal is NotOneField ==> has_text(refusal.text(), "single-field ledger slots"@),
        refusal is SettlesAKind ==> has_text(refusal.text(), "response kind"@),
        refusal is AnotherStandard ==> has_text(refusal.text(), "cannot contain another standard"@),
        refusal is NotHeaded ==> has_text(refusal.text(), "headed layout"@),
{
    match refusal {
        HeaderRefusal::ZeroMagic => {
            reveal_strlit("a standard's MAGIC is all zero bytes: that is what an unset `Bytes<32>` cell holds, so a reader could not tell this standard from a contract with none. Give it a non-zero value, e.g. pad32(b\"…\")");
            reveal_strlit("all zero bytes");
            lemma_found_at("a standard's MAGIC is all zero bytes: that is what an unset `Bytes<32>` cell holds, so a reader could not tell this standard from a contract with none. Give it a non-zero value, e.g. pad32(b\"…\")"@, "all zero bytes"@, 22);
        },
        HeaderRefusal::MagicElsewhere => {
            reveal_strlit("a standard's magic is at [0] (a magic-only standard) or [0, 0] (one with fields): a standard claims root[0], and its magic is the first leaf there");
            reveal_strlit("magic is at [0]");
            lemma_found_at("a standard's magic is at [0] (a magic-only standard) or [0, 0] (one with fields): a standard claims root[0], and its magic is the first leaf there"@, "magic is at [0]"@, 13);
        },
        HeaderRefusal::NotOneField => {
            reveal_strlit("a standard's fields are single-field ledger slots: one field of this standard is a group (WIDTH != 1) or another standard (WIDTH 0)");
            reveal_strlit("single-field ledger slots");
            lemma_found_at("a standard's fields are single-field ledger slots: one field of this standard is a group (WIDTH != 1) or another standard (WIDTH 0)"@, "single-field ledger slots"@, 24);
        },
        HeaderRefusal::SettlesAKind => {
            reveal_strlit("a standard's fields settle no Signet response kind: a Signet slot needs the block's Signet, which lives in the body");
            reveal_strlit("response kind");
            lemma_found_at("a standard's fields settle no Signet response kind: a Signet slot needs the block's Signet, which lives in the body"@, "response kind"@, 37);
        },
        HeaderRefusal::AnotherStandard => {
            reveal_strlit("a standard cannot contain another standard: root[0] has one owner");
            reveal_strlit("cannot contain another standard");
            lemma_found_at("a standard cannot contain another standard: root[0] has one owner"@, "cannot contain another standard"@, 11);
        },
        HeaderRefusal::NotHeaded => {
            reveal_strlit("a standard is placed only in a headed layout: its root[0] would collide with the body's first field under compactc's. Declare it in a #[derive(Ledger)] block, which gives the block a headed layout");
            reveal_strlit("headed layout");
            lemma_found_at("a standard is placed only in a headed layout: its root[0] would collide with the body's first field under compactc's. Declare it in a #[derive(Ledger)] block, which gives the block a headed layout"@, "headed layout"@, 31);
        },
    }
}

} // verus!
