//! Field-aligned binary: the ledger's stored form of a value.
//!
//! A stored value is a list of byte strings, one per atom, and an alignment
//! that says what each of them is. Byte strings are in normal form: trailing
//! zero bytes are dropped, so a number is its little-endian bytes without
//! leading zero digits and `false` is the empty string.
use vstd::prelude::*;

verus! {

/// What one atom of a stored value is.
#[derive(Clone, Copy, PartialEq, Eq, Structural, Debug)]
pub enum AlignmentAtom {
    /// A byte string of any length, hashed where the proof needs it.
    Compress,
    /// At most `length` bytes.
    Bytes { length: u32 },
    /// A native field element.
    Field,
}

/// One segment of an alignment.
#[derive(Debug)]
pub enum AlignmentSegment {
    /// A single atom.
    Atom(AlignmentAtom),
    /// A choice between alignments, kept as the ledger's own serialization of
    /// the alternatives. Nothing here looks inside one.
    Choice(Vec<u8>),
}

/// The model of an alignment segment.
pub enum Segment {
    Atom(AlignmentAtom),
    Choice(Seq<u8>),
}

impl AlignmentSegment {
    pub open spec fn view(&self) -> Segment {
        match *self {
            AlignmentSegment::Atom(atom) => Segment::Atom(atom),
            AlignmentSegment::Choice(bytes) => Segment::Choice(bytes@),
        }
    }
}

/// A stored value with its alignment.
#[derive(Debug)]
pub struct AlignedValue {
    /// The byte string of each atom.
    pub value: Vec<Vec<u8>>,
    /// What each of them is.
    pub alignment: Vec<AlignmentSegment>,
}

/// The model of a stored value.
#[verifier::ext_equal]
pub struct Aligned {
    pub value: Seq<Seq<u8>>,
    pub alignment: Seq<Segment>,
}

impl AlignedValue {
    pub open spec fn view(&self) -> Aligned {
        Aligned {
            value: self.value@.map_values(|bytes: Vec<u8>| bytes@),
            alignment: self.alignment@.map_values(|segment: AlignmentSegment| segment@),
        }
    }
}

// ---- normal form -------------------------------------------------------------

/// `bytes` without its trailing zero bytes.
pub open spec fn trimmed(bytes: Seq<u8>) -> Seq<u8>
    decreases bytes.len(),
{
    if bytes.len() > 0 && bytes.last() == 0 {
        trimmed(bytes.drop_last())
    } else {
        bytes
    }
}

/// `bytes` followed by zero bytes, `len` in all.
pub open spec fn padded(bytes: Seq<u8>, len: nat) -> Seq<u8> {
    Seq::new(len, |i: int| if i < bytes.len() { bytes[i] } else { 0u8 })
}

/// A byte string in normal form has no trailing zero byte.
pub open spec fn is_normal(bytes: Seq<u8>) -> bool {
    bytes.len() > 0 ==> bytes.last() != 0
}

/// What trimming drops, padding restores, at any length that holds the whole
/// string; and a trimmed string is in normal form and no longer.
pub proof fn law_padding_undoes_trimming(bytes: Seq<u8>, len: nat)
    requires
        bytes.len() <= len,
    ensures
        padded(trimmed(bytes), len) == padded(bytes, len),
        trimmed(bytes).len() <= bytes.len(),
        is_normal(trimmed(bytes)),
    decreases bytes.len(),
{
    if bytes.len() > 0 && bytes.last() == 0 {
        law_padding_undoes_trimming(bytes.drop_last(), len);
        assert(padded(bytes.drop_last(), len) =~= padded(bytes, len));
    }
}

/// Trimming a byte string in normal form, however it was padded, gives it
/// back.
pub proof fn law_trimming_undoes_padding(bytes: Seq<u8>, len: nat)
    requires
        is_normal(bytes),
        bytes.len() <= len,
    ensures
        trimmed(padded(bytes, len)) == bytes,
    decreases len,
{
    let wide = padded(bytes, len);
    if len > bytes.len() {
        assert(wide.drop_last() =~= padded(bytes, (len - 1) as nat));
        law_trimming_undoes_padding(bytes, (len - 1) as nat);
    } else {
        assert(wide =~= bytes);
    }
}

/// `bytes` without its trailing zero bytes.
pub fn trim(bytes: &[u8]) -> (r: Vec<u8>)
    ensures
        r@ == trimmed(bytes@),
{
    let mut len: usize = bytes.len();
    proof {
        assert(bytes@.take(bytes@.len() as int) =~= bytes@);
    }
    while len > 0 && bytes[len - 1] == 0
        invariant
            len <= bytes@.len(),
            trimmed(bytes@.take(len as int)) == trimmed(bytes@),
        ensures
            len <= bytes@.len(),
            trimmed(bytes@.take(len as int)) == trimmed(bytes@),
            len > 0 ==> bytes@[len - 1] != 0,
        decreases len,
    {
        proof {
            assert(bytes@.take(len as int).drop_last() =~= bytes@.take(len - 1));
        }
        len -= 1;
    }
    let r = copy_bytes(vstd::slice::slice_subrange(bytes, 0, len));
    assert(r@ =~= bytes@.take(len as int));
    r
}

/// A copy of `bytes`.
pub fn copy_bytes(bytes: &[u8]) -> (r: Vec<u8>)
    ensures
        r@ == bytes@,
{
    let mut r: Vec<u8> = Vec::new();
    let mut i: usize = 0;
    while i < bytes.len()
        invariant
            i <= bytes@.len(),
            r@ == bytes@.take(i as int),
        decreases bytes@.len() - i,
    {
        r.push(bytes[i]);
        assert(bytes@.take(i + 1) =~= bytes@.take(i as int).push(bytes@[i as int]));
        i += 1;
    }
    assert(bytes@.take(i as int) =~= bytes@);
    r
}

/// Whether two byte strings are the same.
pub fn same_bytes(a: &[u8], b: &[u8]) -> (r: bool)
    ensures
        r == (a@ == b@),
{
    if a.len() != b.len() {
        return false;
    }
    let mut i: usize = 0;
    while i < a.len()
        invariant
            i <= a@.len(),
            a@.len() == b@.len(),
            forall|j: int| 0 <= j < i ==> a@[j] == b@[j],
        decreases a@.len() - i,
    {
        if a[i] != b[i] {
            return false;
        }
        i += 1;
    }
    assert(a@ =~= b@);
    true
}

// ---- numbers -------------------------------------------------------------------

/// The number whose little-endian bytes these are.
pub open spec fn le_value(bytes: Seq<u8>) -> nat
    decreases bytes.len(),
{
    if bytes.len() == 0 {
        0
    } else {
        bytes[0] as nat + 256 * le_value(bytes.skip(1))
    }
}

/// The little-endian bytes of `v`, `width` of them.
pub open spec fn le_bytes(v: nat, width: nat) -> Seq<u8>
    decreases width,
{
    if width == 0 {
        Seq::empty()
    } else {
        seq![(v % 256) as u8] + le_bytes(v / 256, (width - 1) as nat)
    }
}

/// `256` to the power `width`.
pub open spec fn capacity(width: nat) -> nat
    decreases width,
{
    if width == 0 {
        1
    } else {
        256 * capacity((width - 1) as nat)
    }
}

/// Reading back the bytes of a number that fits them gives the number.
pub proof fn law_le_round_trip(v: nat, width: nat)
    requires
        v < capacity(width),
    ensures
        le_bytes(v, width).len() == width,
        le_value(le_bytes(v, width)) == v,
    decreases width,
{
    if width > 0 {
        law_le_round_trip(v / 256, (width - 1) as nat);
        let bytes = le_bytes(v, width);
        assert(bytes.skip(1) =~= le_bytes(v / 256, (width - 1) as nat));
    }
}

/// Trailing zero bytes do not change the number.
pub proof fn law_trimming_keeps_the_number(bytes: Seq<u8>)
    ensures
        le_value(trimmed(bytes)) == le_value(bytes),
    decreases bytes.len(),
{
    if bytes.len() > 0 && bytes.last() == 0 {
        lemma_drop_zero(bytes);
        law_trimming_keeps_the_number(bytes.drop_last());
    }
}

proof fn lemma_drop_zero(bytes: Seq<u8>)
    requires
        bytes.len() > 0,
        bytes.last() == 0,
    ensures
        le_value(bytes.drop_last()) == le_value(bytes),
    decreases bytes.len(),
{
    if bytes.len() > 1 {
        lemma_drop_zero(bytes.skip(1));
        assert(bytes.skip(1).drop_last() =~= bytes.drop_last().skip(1));
    } else {
        assert(bytes.skip(1) =~= Seq::<u8>::empty());
        assert(bytes.drop_last() =~= Seq::<u8>::empty());
    }
}

/// Two byte strings in normal form with one number are the same string.
pub proof fn law_normal_form_is_unique(a: Seq<u8>, b: Seq<u8>)
    requires
        is_normal(a),
        is_normal(b),
        le_value(a) == le_value(b),
    ensures
        a == b,
    decreases a.len(),
{
    if a.len() == 0 {
        if b.len() > 0 {
            lemma_normal_is_positive(b);
        }
    } else if b.len() == 0 {
        lemma_normal_is_positive(a);
    } else {
        assert(a[0] == b[0]) by {
            assert(le_value(a) % 256 == a[0] as nat);
            assert(le_value(b) % 256 == b[0] as nat);
        }
        if a.len() > 1 {
            assert(a.skip(1).last() == a.last());
        }
        if b.len() > 1 {
            assert(b.skip(1).last() == b.last());
        }
        law_normal_form_is_unique(a.skip(1), b.skip(1));
        assert forall|i: int| 0 <= i < a.len() && i < b.len() implies a[i] == b[i] by {
            if i > 0 {
                assert(a[i] == a.skip(1)[i - 1]);
                assert(b[i] == b.skip(1)[i - 1]);
            }
        }
        assert(a.skip(1).len() == b.skip(1).len());
        assert(a =~= b);
    }
}

proof fn lemma_normal_is_positive(a: Seq<u8>)
    requires
        is_normal(a),
        a.len() > 0,
    ensures
        le_value(a) > 0,
    decreases a.len(),
{
    if a.len() > 1 {
        assert(a.skip(1).last() == a.last());
        lemma_normal_is_positive(a.skip(1));
    }
}

/// The stored form of `v` under one `bytes<width>` atom.
pub open spec fn number(v: nat, width: nat) -> Aligned {
    Aligned {
        value: seq![trimmed(le_bytes(v, width))],
        alignment: seq![Segment::Atom(AlignmentAtom::Bytes { length: width as u32 })],
    }
}

/// The stored form of `bytes` under one `bytes<length>` atom.
pub open spec fn byte_string(bytes: Seq<u8>, length: u32) -> Aligned {
    Aligned {
        value: seq![trimmed(bytes)],
        alignment: seq![Segment::Atom(AlignmentAtom::Bytes { length })],
    }
}

/// Bytes are read from the lowest on, and written so.
pub proof fn law_lowest_byte_first(first: u8, rest: Seq<u8>, v: nat, width: nat)
    ensures
        le_value(seq![first]) == first,
        le_value(seq![first] + rest) == first + 256 * le_value(rest),
        width > 0 ==> le_bytes(v, width)[0] == v % 256,
        width > 0 ==> le_bytes(v, width).skip(1) == le_bytes(v / 256, (width - 1) as nat),
{
    reveal_with_fuel(le_value, 3);
    assert(seq![first].skip(1) =~= Seq::<u8>::empty());
    assert((seq![first] + rest).skip(1) =~= rest);
    if width > 0 {
        assert(le_bytes(v, width).skip(1) =~= le_bytes(v / 256, (width - 1) as nat));
    }
}

/// How a number and a byte string are stored: under one atom of their length, the
/// number as its lowest byte first, both without the zeros at the end.
pub proof fn law_stored_under_one_atom(v: nat, width: u32, bytes: Seq<u8>)
    ensures
        number(v, width as nat).alignment == seq![
            Segment::Atom(AlignmentAtom::Bytes { length: width }),
        ],
        byte_string(bytes, width).alignment == seq![
            Segment::Atom(AlignmentAtom::Bytes { length: width }),
        ],
        number(v, width as nat).value.len() == 1,
        byte_string(bytes, width).value.len() == 1,
        v < capacity(width as nat) ==> le_value(number(v, width as nat).value[0]) == v,
        padded(byte_string(bytes, width).value[0], bytes.len()) == bytes,
        is_normal(number(v, width as nat).value[0]),
        is_normal(byte_string(bytes, width).value[0]),
{
    let all = le_bytes(v, width as nat);
    law_padding_undoes_trimming(all, all.len());
    law_trimming_keeps_the_number(all);
    if v < capacity(width as nat) {
        law_le_round_trip(v, width as nat);
    }
    law_padding_undoes_trimming(bytes, bytes.len());
    assert(padded(bytes, bytes.len()) =~= bytes);
}

/// The number a stored value is: one atom, below `2^64`.
pub open spec fn as_u64(cell: Aligned) -> Option<u64> {
    if cell.value.len() == 1 && cell.value[0].len() <= 16 && le_value(cell.value[0]) <= u64::MAX {
        Some(le_value(cell.value[0]) as u64)
    } else {
        None
    }
}

/// The truth value a stored value is: one atom, the number zero or one.
pub open spec fn as_bool(cell: Aligned) -> Option<bool> {
    match as_u64(cell) {
        Some(0) => Some(false),
        Some(1) => Some(true),
        _ => None,
    }
}

/// A number reads back from its stored form.
pub proof fn law_number_round_trip(v: u64, width: nat)
    requires
        v < capacity(width),
        width <= 16,
    ensures
        as_u64(number(v as nat, width)) == Some(v),
{
    law_le_round_trip(v as nat, width);
    law_trimming_keeps_the_number(le_bytes(v as nat, width));
    law_padding_undoes_trimming(le_bytes(v as nat, width), width);
}

/// A truth value reads back from its stored form.
pub proof fn law_truth_round_trip(b: bool)
    ensures
        as_bool(number(if b { 1 } else { 0 }, 1)) == Some(b),
{
    assert(capacity(1) == 256) by {
        reveal_with_fuel(capacity, 2);
    }
    law_number_round_trip(if b { 1 } else { 0 }, 1);
}

/// The stored form of `v` under one `bytes<width>` atom.
pub fn store_number(v: u64, width: u32) -> (r: AlignedValue)
    ensures
        r@ == number(v as nat, width as nat),
{
    let mut bytes: Vec<u8> = Vec::new();
    let mut rest: u64 = v;
    let mut i: u32 = 0;
    proof {
        assert(bytes@ + le_bytes(rest as nat, (width - i) as nat) =~= le_bytes(
            v as nat,
            width as nat,
        ));
    }
    while i < width
        invariant
            i <= width,
            bytes@ + le_bytes(rest as nat, (width - i) as nat) == le_bytes(v as nat, width as nat),
        decreases width - i,
    {
        let digit: u8 = (rest % 256) as u8;
        let ghost before = bytes@;
        let ghost tail = le_bytes(rest as nat, (width - i) as nat);
        bytes.push(digit);
        proof {
            assert(tail == seq![(rest as nat % 256) as u8] + le_bytes(
                rest as nat / 256,
                (width - i - 1) as nat,
            ));
            assert(bytes@ + le_bytes(rest as nat / 256, (width - i - 1) as nat) =~= before + tail);
        }
        rest = rest / 256;
        i += 1;
    }
    proof {
        assert(bytes@ =~= le_bytes(v as nat, width as nat));
    }
    store_bytes(bytes.as_slice(), width)
}

/// The stored form of `bytes` under one `bytes<length>` atom.
pub fn store_bytes(bytes: &[u8], length: u32) -> (r: AlignedValue)
    ensures
        r@ == byte_string(bytes@, length),
{
    let mut value: Vec<Vec<u8>> = Vec::new();
    value.push(trim(bytes));
    let mut alignment: Vec<AlignmentSegment> = Vec::new();
    alignment.push(AlignmentSegment::Atom(AlignmentAtom::Bytes { length }));
    let r = AlignedValue { value, alignment };
    assert(r@ =~= byte_string(bytes@, length));
    r
}

// ---- comparing and copying ---------------------------------------------------

impl AlignmentSegment {
    fn copy(&self) -> (r: Self)
        ensures
            r@ == self@,
    {
        match self {
            AlignmentSegment::Atom(atom) => AlignmentSegment::Atom(*atom),
            AlignmentSegment::Choice(bytes) => AlignmentSegment::Choice(copy_bytes(bytes.as_slice())),
        }
    }

    fn same(&self, other: &Self) -> (r: bool)
        ensures
            r == (self@ == other@),
    {
        match (self, other) {
            (AlignmentSegment::Atom(a), AlignmentSegment::Atom(b)) => *a == *b,
            (AlignmentSegment::Choice(a), AlignmentSegment::Choice(b)) => same_bytes(
                a.as_slice(),
                b.as_slice(),
            ),
            _ => false,
        }
    }
}

impl AlignedValue {
    /// A copy of the value.
    pub fn copy(&self) -> (r: Self)
        ensures
            r@ == self@,
    {
        let mut value: Vec<Vec<u8>> = Vec::new();
        let mut i: usize = 0;
        while i < self.value.len()
            invariant
                i <= self.value@.len(),
                value@.len() == i,
                forall|j: int| 0 <= j < i ==> #[trigger] value@[j]@ == self.value@[j]@,
            decreases self.value@.len() - i,
        {
            value.push(copy_bytes(self.value[i].as_slice()));
            i += 1;
        }
        let mut alignment: Vec<AlignmentSegment> = Vec::new();
        let mut k: usize = 0;
        while k < self.alignment.len()
            invariant
                k <= self.alignment@.len(),
                alignment@.len() == k,
                forall|j: int| 0 <= j < k ==> #[trigger] alignment@[j]@ == self.alignment@[j]@,
            decreases self.alignment@.len() - k,
        {
            alignment.push(self.alignment[k].copy());
            k += 1;
        }
        let r = AlignedValue { value, alignment };
        assert(r@ =~= self@);
        r
    }

    /// Whether two stored values have the same alignment.
    pub fn same_alignment(&self, other: &Self) -> (r: bool)
        ensures
            r == (self@.alignment == other@.alignment),
    {
        if self.alignment.len() != other.alignment.len() {
            assert(self@.alignment.len() != other@.alignment.len());
            return false;
        }
        let mut i: usize = 0;
        while i < self.alignment.len()
            invariant
                i <= self.alignment@.len(),
                self.alignment@.len() == other.alignment@.len(),
                forall|j: int|
                    0 <= j < i ==> #[trigger] self.alignment@[j]@ == other.alignment@[j]@,
            decreases self.alignment@.len() - i,
        {
            if !self.alignment[i].same(&other.alignment[i]) {
                proof {
                    assert(self@.alignment[i as int] != other@.alignment[i as int]);
                }
                return false;
            }
            i += 1;
        }
        assert(self@.alignment =~= other@.alignment);
        true
    }

    /// Whether two stored values are the same.
    pub fn same(&self, other: &Self) -> (r: bool)
        ensures
            r == (self@ == other@),
    {
        if !self.same_alignment(other) {
            return false;
        }
        if self.value.len() != other.value.len() {
            assert(self@.value.len() != other@.value.len());
            return false;
        }
        let mut i: usize = 0;
        while i < self.value.len()
            invariant
                i <= self.value@.len(),
                self.value@.len() == other.value@.len(),
                forall|j: int| 0 <= j < i ==> #[trigger] self.value@[j]@ == other.value@[j]@,
            decreases self.value@.len() - i,
        {
            if !same_bytes(self.value[i].as_slice(), other.value[i].as_slice()) {
                proof {
                    assert(self@.value[i as int] != other@.value[i as int]);
                }
                return false;
            }
            i += 1;
        }
        assert(self@.value =~= other@.value);
        assert(self@ =~= other@);
        true
    }
}

} // verus!
