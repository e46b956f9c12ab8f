//! The values a circuit computes with, and their stored form.
//!
//! A value is public or private, and its type says which: only a public value
//! has a stored form, so nothing private reaches the ledger without being
//! disclosed first.
use crate::fab::{
    capacity, copy_bytes, is_normal, law_le_round_trip, law_normal_form_is_unique,
    law_padding_undoes_trimming, law_trimming_keeps_the_number, le_bytes, le_value, padded,
    store_number, trim, trimmed, Aligned, AlignedValue, AlignmentAtom, AlignmentSegment, Segment,
};
use crate::number::{
    lemma_capacity_is_a_power, lemma_exactly, lemma_is_exactly, lemma_le_bound, lemma_limits,
    lemma_two_to_grows, lemma_two_to_positive, limit, number_of, two_to, Number,
};
use crate::vector::{array_from, into_array, lemma_array_from};
use core::marker::PhantomData;
use vstd::prelude::*;

verus! {

/// Whether a value is known outside the proof.
pub trait Vis3 {

}

/// Known to everyone.
#[derive(Clone, Copy, Debug)]
pub struct Public;

/// Known to the prover.
#[derive(Clone, Copy, Debug)]
pub struct Private;

impl Vis3 for Public {

}

impl Vis3 for Private {

}

/// How many bytes a number of `bits` bits is stored in.
pub open spec fn byte_width(bits: u32) -> u32 {
    if bits % 8 == 0 {
        bits / 8
    } else {
        (bits / 8 + 1) as u32
    }
}

/// A number of `bits` bits fits the bytes it is stored in, and every machine word
/// is a number of 64 bits or more.
pub proof fn law_bits_fit_their_bytes(bits: u32)
    ensures
        two_to(bits as nat) <= capacity(byte_width(bits) as nat),
        bits >= 64 ==> two_to(bits as nat) > u64::MAX,
        bits < 64 ==> two_to(bits as nat) <= 0x8000_0000_0000_0000,
        bits == 64 ==> two_to(bits as nat) == 0x1_0000_0000_0000_0000,
        two_to(bits as nat) >= 1,
{
    lemma_capacity_is_a_power(byte_width(bits) as nat);
    if bits < 8 * byte_width(bits) {
        lemma_two_to_grows(bits as nat, (8 * byte_width(bits)) as nat);
    }
    assert(two_to(64) == 0x1_0000_0000_0000_0000 && two_to(63) == 0x8000_0000_0000_0000) by {
        reveal_with_fuel(two_to, 65);
    }
    lemma_two_to_positive(bits as nat);
    if bits > 64 {
        lemma_two_to_grows(64, bits as nat);
    } else if bits < 63 {
        lemma_two_to_grows(bits as nat, 63);
    }
}

/// How many bytes a number of `bits` bits is stored in.
pub fn bytes_for(bits: u32) -> (r: u32)
    ensures
        r == byte_width(bits),
{
    if bits % 8 == 0 {
        bits / 8
    } else {
        bits / 8 + 1
    }
}

/// `2` to the power `bits`, where that is a machine word.
pub fn two_to_the(bits: u32) -> (r: u64)
    requires
        bits < 64,
    ensures
        r == two_to(bits as nat),
{
    let mut r: u64 = 1;
    let mut i: u32 = 0;
    while i < bits
        invariant
            i <= bits < 64,
            r == two_to(i as nat),
        decreases bits - i,
    {
        proof {
            law_bits_fit_their_bytes((i + 1) as u32);
        }
        r = r * 2;
        i += 1;
    }
    r
}

/// An unsigned number of `BITS` bits: one wire, so it has no more than 256.
#[derive(Debug)]
pub struct Uint<const BITS: u32, V: Vis3> {
    pub value: Number,
    pub vis: PhantomData<V>,
}

/// A truth value.
#[derive(Debug)]
pub struct Bool<V: Vis3> {
    pub value: bool,
    pub vis: PhantomData<V>,
}

/// Thirty-two bytes.
#[derive(Debug)]
pub struct B32<V: Vis3> {
    pub bytes: [u8; 32],
    pub vis: PhantomData<V>,
}

impl<const BITS: u32, V: Vis3> Clone for Uint<BITS, V> {
    fn clone(&self) -> (r: Self)
        ensures
            r == *self,
    {
        *self
    }
}

impl<const BITS: u32, V: Vis3> Copy for Uint<BITS, V> {

}

impl<V: Vis3> Clone for Bool<V> {
    fn clone(&self) -> (r: Self)
        ensures
            r == *self,
    {
        *self
    }
}

impl<V: Vis3> Copy for Bool<V> {

}

impl<V: Vis3> Clone for B32<V> {
    fn clone(&self) -> (r: Self)
        ensures
            r == *self,
    {
        *self
    }
}

impl<V: Vis3> Copy for B32<V> {

}

impl<const BITS: u32, V: Vis3> Uint<BITS, V> {
    /// The number `value`, with nothing checked of its width.
    pub fn from_field_unchecked(value: Number) -> (r: Self)
        ensures
            r.value == value,
    {
        Uint { value, vis: PhantomData }
    }

    /// A machine word.
    pub open spec fn word(word: u64) -> Self {
        Uint { value: Number::word(word), vis: PhantomData }
    }

    /// A machine word.
    pub fn of(word: u64) -> (r: Self)
        ensures
            r == Self::word(word),
            r.value@ == word,
    {
        Uint { value: Number::of(word), vis: PhantomData }
    }

    /// The number as a machine word, where it is one.
    pub fn to_word(&self) -> (r: Option<u64>)
        ensures
            match r {
                Some(word) => self.value@ == word,
                None => self.value@ > u64::MAX,
            },
    {
        self.value.to_word()
    }

    /// Whether the number is one of `BITS` bits.
    pub open spec fn fits(self) -> bool {
        self.value@ < two_to(BITS as nat)
    }
}

impl<const BITS: u32> Uint<BITS, Private> {
    /// The same number, made public.
    pub fn disclose(self) -> (r: Uint<BITS, Public>)
        ensures
            r.value == self.value,
    {
        Uint { value: self.value, vis: PhantomData }
    }
}

impl<V: Vis3> Bool<V> {
    /// The truth value `value`.
    pub fn of(value: bool) -> (r: Self)
        ensures
            r.value == value,
    {
        Bool { value, vis: PhantomData }
    }
}

impl<V: Vis3> B32<V> {
    /// These bytes.
    pub fn of(bytes: [u8; 32]) -> (r: Self)
        ensures
            r.bytes == bytes,
    {
        B32 { bytes, vis: PhantomData }
    }
}

/// The model of a list of byte strings.
pub open spec fn strings(limbs: Seq<Vec<u8>>) -> Seq<Seq<u8>> {
    limbs.map_values(|limb: Vec<u8>| limb@)
}

/// An alignment of these atoms.
pub open spec fn aligned_as(atoms: Seq<AlignmentAtom>) -> Seq<Segment> {
    atoms.map_values(|atom: AlignmentAtom| Segment::Atom(atom))
}

/// Every byte string empty: the stored form of zero, atom for atom.
pub open spec fn blank_limbs(n: nat) -> Seq<Seq<u8>> {
    Seq::new(n, |i: int| Seq::<u8>::empty())
}

/// Whether a byte string is one that an atom stores: in normal form, and no longer
/// than the atom, where that has a length.
pub open spec fn fits_atom(bytes: Seq<u8>, atom: AlignmentAtom) -> bool {
    match atom {
        AlignmentAtom::Compress => true,
        AlignmentAtom::Bytes { length } => bytes.len() <= length && is_normal(bytes),
        AlignmentAtom::Field => bytes.len() <= 32 && is_normal(bytes),
    }
}

/// Whether these byte strings are what these atoms store, one for each.
pub open spec fn fit_atoms(limbs: Seq<Seq<u8>>, atoms: Seq<AlignmentAtom>) -> bool {
    &&& limbs.len() == atoms.len()
    &&& forall|i: int| 0 <= i < atoms.len() ==> fits_atom(#[trigger] limbs[i], atoms[i])
}

/// What an atom stores: a byte string without zeros at its end, of at most the
/// atom's length; a field element of at most thirty-two bytes; a commitment of any
/// length.
pub proof fn law_what_an_atom_stores(bytes: Seq<u8>, length: u32)
    ensures
        fits_atom(bytes, AlignmentAtom::Bytes { length }) <==> bytes.len() <= length && (bytes.len()
            == 0 || bytes[bytes.len() - 1] != 0),
        fits_atom(bytes, AlignmentAtom::Field) <==> bytes.len() <= 32 && (bytes.len() == 0
            || bytes[bytes.len() - 1] != 0),
        fits_atom(bytes, AlignmentAtom::Compress),
{
}

/// Byte strings are what atoms store one by one, as many as there are.
pub proof fn law_atoms_store_one_each(
    limbs: Seq<Seq<u8>>,
    atoms: Seq<AlignmentAtom>,
    limb: Seq<u8>,
    atom: AlignmentAtom,
)
    ensures
        fit_atoms(Seq::empty(), Seq::empty()),
        fit_atoms(limbs, atoms) ==> limbs.len() == atoms.len(),
        fit_atoms(limbs.push(limb), atoms.push(atom)) <==> fit_atoms(limbs, atoms) && fits_atom(
            limb,
            atom,
        ),
{
    let (more, wider) = (limbs.push(limb), atoms.push(atom));
    if fit_atoms(more, wider) {
        assert(fits_atom(more[limbs.len() as int], wider[limbs.len() as int]));
        assert forall|i: int| 0 <= i < atoms.len() implies fits_atom(#[trigger] limbs[i], atoms[i]) by {
            assert(fits_atom(more[i], wider[i]));
        }
    }
    if fit_atoms(limbs, atoms) && fits_atom(limb, atom) {
        assert forall|i: int| 0 <= i < wider.len() implies fits_atom(#[trigger] more[i], wider[i]) by {
            if i < limbs.len() {
                assert(fits_atom(limbs[i], atoms[i]));
            }
        }
    }
}

/// Whether a byte string is one that an atom stores.
fn fit_atom(bytes: &Vec<u8>, atom: AlignmentAtom) -> (r: bool)
    ensures
        r == fits_atom(bytes@, atom),
{
    let normal: bool = bytes.len() == 0 || bytes[bytes.len() - 1] != 0;
    match atom {
        AlignmentAtom::Compress => true,
        AlignmentAtom::Bytes { length } => bytes.len() as u64 <= length as u64 && normal,
        AlignmentAtom::Field => bytes.len() <= 32 && normal,
    }
}

/// Whether these byte strings are what these atoms store, one for each.
pub fn limbs_fit(limbs: &Vec<Vec<u8>>, atoms: &Vec<AlignmentAtom>) -> (r: bool)
    ensures
        r == fit_atoms(strings(limbs@), atoms@),
{
    if limbs.len() != atoms.len() {
        return false;
    }
    let mut i: usize = 0;
    while i < atoms.len()
        invariant
            i <= atoms@.len(),
            limbs@.len() == atoms@.len(),
            forall|j: int|
                0 <= j < i ==> fits_atom(#[trigger] strings(limbs@)[j], atoms@[j]),
        decreases atoms@.len() - i,
    {
        assert(strings(limbs@)[i as int] == limbs@[i as int]@);
        if !fit_atom(&limbs[i], atoms[i]) {
            return false;
        }
        i += 1;
    }
    true
}

/// A type the ledger stores: one byte string per atom.
pub trait LedgerRepr: Sized {
    /// What the atoms are.
    spec fn shape() -> Seq<AlignmentAtom>;

    /// The byte strings, one per atom, in normal form.
    spec fn limbs(self) -> Seq<Seq<u8>>;

    /// The value these byte strings are.
    spec fn of_limbs(limbs: Seq<Seq<u8>>) -> Self;

    /// Whether the value is one its type can store.
    spec fn storable(self) -> bool;

    /// What a read gives back of a write: the value that was stored.
    proof fn law_reads_back(value: Self)
        requires
            value.storable(),
        ensures
            fit_atoms(value.limbs(), Self::shape()),
            Self::of_limbs(value.limbs()) == value,
    ;

    /// What the atoms are.
    fn atoms() -> (r: Vec<AlignmentAtom>)
        ensures
            r@ == Self::shape(),
    ;

    /// Appends the byte strings.
    fn push_limbs(&self, limbs: &mut Vec<Vec<u8>>)
        ensures
            strings(final(limbs)@) == strings(old(limbs)@) + self.limbs(),
    ;

    /// The value that byte strings `from .. from + shape` of `limbs` are.
    fn from_limbs(limbs: &Vec<Vec<u8>>, from: usize) -> (r: Self)
        requires
            from + Self::shape().len() <= limbs@.len(),
        ensures
            r == Self::of_limbs(
                strings(limbs@).subrange(from as int, from + Self::shape().len() as int),
            ),
    ;
}

/// The stored form of a value.
pub open spec fn stored<T: LedgerRepr>(value: T) -> Aligned {
    Aligned { value: value.limbs(), alignment: aligned_as(T::shape()) }
}

/// The stored form of a type's default: zero in every atom.
pub open spec fn stored_default<T: LedgerRepr>() -> Aligned {
    Aligned { value: blank_limbs(T::shape().len()), alignment: aligned_as(T::shape()) }
}

/// The alignment of these atoms.
pub fn align(atoms: &Vec<AlignmentAtom>) -> (r: Vec<AlignmentSegment>)
    ensures
        r@.map_values(|segment: AlignmentSegment| segment@) == aligned_as(atoms@),
{
    let mut r: Vec<AlignmentSegment> = Vec::new();
    let mut i: usize = 0;
    while i < atoms.len()
        invariant
            i <= atoms@.len(),
            r@.len() == i,
            forall|j: int| 0 <= j < i ==> #[trigger] r@[j]@ == Segment::Atom(atoms@[j]),
        decreases atoms@.len() - i,
    {
        r.push(AlignmentSegment::Atom(atoms[i]));
        i += 1;
    }
    assert(r@.map_values(|segment: AlignmentSegment| segment@) =~= aligned_as(atoms@));
    r
}

/// The stored form of `value`.
pub fn ledger_value<T: LedgerRepr>(value: &T) -> (r: AlignedValue)
    ensures
        r@ == stored(*value),
{
    let mut limbs: Vec<Vec<u8>> = Vec::new();
    value.push_limbs(&mut limbs);
    let r = AlignedValue { value: limbs, alignment: align(&T::atoms()) };
    assert(r@ =~= stored(*value));
    r
}

/// The stored form of the type's default.
pub fn default_stored<T: LedgerRepr>() -> (r: AlignedValue)
    ensures
        r@ == stored_default::<T>(),
{
    let atoms = T::atoms();
    let mut limbs: Vec<Vec<u8>> = Vec::new();
    let mut i: usize = 0;
    while i < atoms.len()
        invariant
            i <= atoms@.len(),
            limbs@.len() == i,
            forall|j: int| 0 <= j < i ==> #[trigger] limbs@[j]@ == Seq::<u8>::empty(),
        decreases atoms@.len() - i,
    {
        limbs.push(Vec::new());
        i += 1;
    }
    let r = AlignedValue { value: limbs, alignment: align(&atoms) };
    assert(r@.value =~= blank_limbs(atoms@.len()));
    assert(r@ =~= stored_default::<T>());
    r
}

/// The number these little-endian bytes are; zero where it has more than 256
/// bits.
fn read_le(bytes: &Vec<u8>) -> (r: Number)
    ensures
        r == number_of(bytes@),
{
    match Number::from_le(bytes) {
        Some(n) => {
            proof {
                lemma_is_exactly(n);
            }
            n
        },
        None => Number::of(0),
    }
}

// ---- the stored types ---------------------------------------------------------

impl<const BITS: u32> LedgerRepr for Uint<BITS, Public> {
    open spec fn shape() -> Seq<AlignmentAtom> {
        seq![AlignmentAtom::Bytes { length: byte_width(BITS) }]
    }

    open spec fn limbs(self) -> Seq<Seq<u8>> {
        seq![trimmed(le_bytes(self.value@, byte_width(BITS) as nat))]
    }

    open spec fn of_limbs(limbs: Seq<Seq<u8>>) -> Self {
        Uint { value: number_of(limbs[0]), vis: PhantomData }
    }

    open spec fn storable(self) -> bool {
        self.fits()
    }

    proof fn law_reads_back(value: Self) {
        let width = byte_width(BITS) as nat;
        law_bits_fit_their_bytes(BITS);
        law_le_round_trip(value.value@, width);
        law_trimming_keeps_the_number(le_bytes(value.value@, width));
        law_padding_undoes_trimming(le_bytes(value.value@, width), width);
        lemma_is_exactly(value.value);
    }

    fn atoms() -> (r: Vec<AlignmentAtom>) {
        let mut r: Vec<AlignmentAtom> = Vec::new();
        r.push(AlignmentAtom::Bytes { length: bytes_for(BITS) });
        assert(r@ =~= Self::shape());
        r
    }

    fn push_limbs(&self, limbs: &mut Vec<Vec<u8>>) {
        let bytes = self.value.to_le(bytes_for(BITS));
        limbs.push(trim(bytes.as_slice()));
        assert(strings(limbs@) =~= strings(old(limbs)@) + self.limbs());
    }

    fn from_limbs(limbs: &Vec<Vec<u8>>, from: usize) -> (r: Self) {
        assert(strings(limbs@).subrange(from as int, from + 1)[0] == limbs@[from as int]@);
        Uint { value: read_le(&limbs[from]), vis: PhantomData }
    }
}

impl LedgerRepr for Bool<Public> {
    open spec fn shape() -> Seq<AlignmentAtom> {
        seq![AlignmentAtom::Bytes { length: 1 }]
    }

    open spec fn limbs(self) -> Seq<Seq<u8>> {
        seq![trimmed(le_bytes(if self.value { 1 } else { 0 }, 1))]
    }

    open spec fn of_limbs(limbs: Seq<Seq<u8>>) -> Self {
        Bool { value: le_value(limbs[0]) == 1, vis: PhantomData }
    }

    open spec fn storable(self) -> bool {
        true
    }

    proof fn law_reads_back(value: Self) {
        let v: nat = if value.value { 1 } else { 0 };
        assert(capacity(1) == 256) by {
            reveal_with_fuel(capacity, 2);
        }
        law_le_round_trip(v, 1);
        law_trimming_keeps_the_number(le_bytes(v, 1));
        law_padding_undoes_trimming(le_bytes(v, 1), 1);
    }

    fn atoms() -> (r: Vec<AlignmentAtom>) {
        let mut r: Vec<AlignmentAtom> = Vec::new();
        r.push(AlignmentAtom::Bytes { length: 1 });
        assert(r@ =~= Self::shape());
        r
    }

    fn push_limbs(&self, limbs: &mut Vec<Vec<u8>>) {
        let bit: u64 = if self.value {
            1
        } else {
            0
        };
        let cell = store_number(bit, 1);
        assert(cell@.value =~= self.limbs());
        assert(cell@.value[0] == cell.value@[0]@);
        assert(cell@.value.len() == 1);
        let limb = copy_bytes(cell.value[0].as_slice());
        limbs.push(limb);
        assert(strings(limbs@) =~= strings(old(limbs)@) + self.limbs());
    }

    fn from_limbs(limbs: &Vec<Vec<u8>>, from: usize) -> (r: Self) {
        assert(strings(limbs@).subrange(from as int, from + 1)[0] == limbs@[from as int]@);
        let number: Number = read_le(&limbs[from]);
        let ghost value = le_value(limbs@[from as int]@);
        proof {
            if value < limit() {
                lemma_exactly(value);
            }
        }
        Bool { value: number.high == 0 && number.low == 1, vis: PhantomData }
    }
}

/// The bytes as exactly `n`: padded with zeros, and all zero where there are
/// more.
pub open spec fn fixed(bytes: Seq<u8>, n: nat) -> Seq<u8> {
    padded(
        if bytes.len() <= n {
            bytes
        } else {
            Seq::empty()
        },
        n,
    )
}

/// The bytes as exactly `N`.
pub fn fix<const N: usize>(bytes: &Vec<u8>) -> (r: [u8; N])
    ensures
        r@ == fixed(bytes@, N as nat),
        r == array_from::<u8, N>(fixed(bytes@, N as nat)),
{
    let keep: usize = if bytes.len() <= N {
        bytes.len()
    } else {
        0
    };
    let mut out: Vec<u8> = Vec::new();
    while out.len() < N
        invariant
            out@.len() <= N,
            keep <= bytes@.len(),
            forall|i: int|
                0 <= i < out@.len() ==> #[trigger] out@[i] == if i < keep {
                    bytes@[i]
                } else {
                    0
                },
        decreases N - out@.len(),
    {
        let i: usize = out.len();
        let byte: u8 = if i < keep {
            bytes[i]
        } else {
            0
        };
        out.push(byte);
    }
    assert(out@ =~= fixed(bytes@, N as nat));
    match into_array::<u8, N>(out) {
        Ok(r) => {
            proof {
                lemma_array_from(r);
            }
            r
        },
        Err(_) => vstd::pervasive::unreached(),
    }
}

impl LedgerRepr for B32<Public> {
    open spec fn shape() -> Seq<AlignmentAtom> {
        seq![AlignmentAtom::Bytes { length: 32 }]
    }

    open spec fn limbs(self) -> Seq<Seq<u8>> {
        seq![trimmed(self.bytes@)]
    }

    open spec fn of_limbs(limbs: Seq<Seq<u8>>) -> Self {
        B32 { bytes: array_from::<u8, 32>(fixed(limbs[0], 32)), vis: PhantomData }
    }

    open spec fn storable(self) -> bool {
        true
    }

    proof fn law_reads_back(value: Self) {
        law_padding_undoes_trimming(value.bytes@, 32);
        assert(fixed(trimmed(value.bytes@), 32) =~= value.bytes@);
        lemma_array_from(value.bytes);
    }

    fn atoms() -> (r: Vec<AlignmentAtom>) {
        let mut r: Vec<AlignmentAtom> = Vec::new();
        r.push(AlignmentAtom::Bytes { length: 32 });
        assert(r@ =~= Self::shape());
        r
    }

    fn push_limbs(&self, limbs: &mut Vec<Vec<u8>>) {
        limbs.push(trim(self.bytes.as_slice()));
        assert(strings(limbs@) =~= strings(old(limbs)@) + self.limbs());
    }

    fn from_limbs(limbs: &Vec<Vec<u8>>, from: usize) -> (r: Self) {
        assert(strings(limbs@).subrange(from as int, from + 1)[0] == limbs@[from as int]@);
        B32 { bytes: fix(&limbs[from]), vis: PhantomData }
    }
}

/// Nothing to store.
impl LedgerRepr for () {
    open spec fn shape() -> Seq<AlignmentAtom> {
        Seq::empty()
    }

    open spec fn limbs(self) -> Seq<Seq<u8>> {
        Seq::empty()
    }

    open spec fn of_limbs(limbs: Seq<Seq<u8>>) -> Self {
        ()
    }

    open spec fn storable(self) -> bool {
        true
    }

    proof fn law_reads_back(value: Self) {
    }

    fn atoms() -> (r: Vec<AlignmentAtom>) {
        Vec::new()
    }

    fn push_limbs(&self, limbs: &mut Vec<Vec<u8>>) {
        assert(strings(limbs@) =~= strings(old(limbs)@) + self.limbs());
    }

    fn from_limbs(limbs: &Vec<Vec<u8>>, from: usize) -> (r: Self) {
    }
}

/// Two values, the first one's atoms leading.
impl<A: LedgerRepr, B: LedgerRepr> LedgerRepr for (A, B) {
    open spec fn shape() -> Seq<AlignmentAtom> {
        A::shape() + B::shape()
    }

    open spec fn limbs(self) -> Seq<Seq<u8>> {
        self.0.limbs() + self.1.limbs()
    }

    open spec fn of_limbs(limbs: Seq<Seq<u8>>) -> Self {
        (
            A::of_limbs(limbs.take(A::shape().len() as int)),
            B::of_limbs(limbs.skip(A::shape().len() as int)),
        )
    }

    open spec fn storable(self) -> bool {
        self.0.storable() && self.1.storable()
    }

    proof fn law_reads_back(value: Self) {
        A::law_reads_back(value.0);
        B::law_reads_back(value.1);
        let all = value.0.limbs() + value.1.limbs();
        assert(all.take(A::shape().len() as int) =~= value.0.limbs());
        assert(all.skip(A::shape().len() as int) =~= value.1.limbs());
    }

    fn atoms() -> (r: Vec<AlignmentAtom>) {
        let mut r = A::atoms();
        let mut rest = B::atoms();
        r.append(&mut rest);
        r
    }

    fn push_limbs(&self, limbs: &mut Vec<Vec<u8>>) {
        self.0.push_limbs(limbs);
        self.1.push_limbs(limbs);
        assert(strings(limbs@) =~= strings(old(limbs)@) + self.limbs());
    }

    fn from_limbs(limbs: &Vec<Vec<u8>>, from: usize) -> (r: Self) {
        let n: usize = A::atoms().len();
        let total: usize = limbs.len();
        assert(from + n <= total);
        proof {
            let all = strings(limbs@).subrange(from as int, from + Self::shape().len() as int);
            assert(all.take(n as int) =~= strings(limbs@).subrange(from as int, from + n));
            assert(all.skip(n as int) =~= strings(limbs@).subrange(
                from + n,
                from + n + B::shape().len() as int,
            ));
        }
        (A::from_limbs(limbs, from), B::from_limbs(limbs, from + n))
    }
}

/// Whether a byte string is these bytes, with the zeros at their end left out.
pub open spec fn bytes_without_end(limb: Seq<u8>, bytes: Seq<u8>) -> bool {
    &&& limb.len() <= bytes.len()
    &&& limb.len() > 0 ==> limb.last() != 0
    &&& forall|i: int|
        0 <= i < bytes.len() ==> #[trigger] bytes[i] == if i < limb.len() {
            limb[i]
        } else {
            0
        }
}

/// Trimming leaves out the zeros at the end, and nothing else.
pub proof fn law_trimmed_is_the_bytes(bytes: Seq<u8>)
    ensures
        bytes_without_end(trimmed(bytes), bytes),
{
    let limb = trimmed(bytes);
    law_padding_undoes_trimming(bytes, bytes.len());
    assert forall|i: int| 0 <= i < bytes.len() implies #[trigger] bytes[i] == if i < limb.len() {
        limb[i]
    } else {
        0
    } by {
        assert(padded(limb, bytes.len())[i] == bytes[i]);
    }
}

/// How a number is stored: as its little-endian bytes, in as many bytes as its
/// bits take.
pub proof fn law_stored_number<const BITS: u32>(value: Uint<BITS, Public>)
    requires
        value.fits(),
    ensures
        stored(value).value.len() == 1,
        le_value(stored(value).value[0]) == value.value@,
        is_normal(stored(value).value[0]),
        stored(value).alignment.len() == 1,
        stored(value).alignment[0] matches Segment::Atom(AlignmentAtom::Bytes { length }) && BITS
            <= 8 * length < BITS + 8,
{
    let width = byte_width(BITS) as nat;
    law_bits_fit_their_bytes(BITS);
    law_le_round_trip(value.value@, width);
    law_trimming_keeps_the_number(le_bytes(value.value@, width));
    law_padding_undoes_trimming(le_bytes(value.value@, width), width);
}

/// How a truth value is stored: as the byte one or zero.
pub proof fn law_stored_truth(value: Bool<Public>)
    ensures
        stored(value).value.len() == 1,
        le_value(stored(value).value[0]) == if value.value {
            1nat
        } else {
            0nat
        },
        stored(value).alignment == seq![Segment::Atom(AlignmentAtom::Bytes { length: 1 })],
{
    let v: nat = if value.value { 1 } else { 0 };
    assert(capacity(1) == 256) by {
        reveal_with_fuel(capacity, 2);
    }
    law_le_round_trip(v, 1);
    law_trimming_keeps_the_number(le_bytes(v, 1));
    assert(stored(value).alignment =~= seq![Segment::Atom(AlignmentAtom::Bytes { length: 1 })]);
}

/// How thirty-two bytes are stored: as they are.
pub proof fn law_stored_bytes(value: B32<Public>)
    ensures
        stored(value).value.len() == 1,
        bytes_without_end(stored(value).value[0], value.bytes@),
        stored(value).alignment == seq![Segment::Atom(AlignmentAtom::Bytes { length: 32 })],
{
    law_trimmed_is_the_bytes(value.bytes@);
    assert(stored(value).alignment =~= seq![Segment::Atom(AlignmentAtom::Bytes { length: 32 })]);
}

/// How two values are stored: one after the other.
pub proof fn law_stored_pair<A: LedgerRepr, B: LedgerRepr>(first: A, second: B)
    ensures
        stored((first, second)).value == stored(first).value + stored(second).value,
        stored((first, second)).alignment == stored(first).alignment + stored(second).alignment,
        (first, second).storable() <==> first.storable() && second.storable(),
{
    assert(stored((first, second)).alignment =~= stored(first).alignment + stored(second).alignment);
}

/// What the types' defaults are: zero, false, zero bytes; and a default has the
/// alignment of every value of its type.
pub proof fn law_defaults_are_zero<const BITS: u32, T: LedgerRepr>(value: T, zeros: B32<Public>)
    requires
        forall|i: int| 0 <= i < 32 ==> #[trigger] zeros.bytes@[i] == 0,
    ensures
        Uint::<BITS, Public>::of_limbs(stored_default::<Uint<BITS, Public>>().value).value@ == 0,
        !Bool::<Public>::of_limbs(stored_default::<Bool<Public>>().value).value,
        B32::<Public>::of_limbs(stored_default::<B32<Public>>().value) == zeros,
        stored_default::<T>().alignment == stored(value).alignment,
        stored_default::<T>().value.len() == T::shape().len(),
{
    lemma_limits();
    let none = Seq::<u8>::empty();
    assert(le_value(none) == 0);
    lemma_exactly(0);
    assert(fixed(none, 32) =~= zeros.bytes@);
    lemma_array_from(zeros.bytes);
}

/// No number is lost in a read: whatever a cell of the type stores is read as the
/// number it is, and stored again it is what was read.
pub proof fn law_every_stored_number_is_read<const BITS: u32>(limbs: Seq<Seq<u8>>)
    requires
        BITS <= 256,
        fit_atoms(limbs, Uint::<BITS, Public>::shape()),
    ensures
        Uint::<BITS, Public>::of_limbs(limbs).value@ == le_value(limbs[0]),
        Uint::<BITS, Public>::of_limbs(limbs).limbs() == limbs,
{
    let (bytes, width) = (limbs[0], byte_width(BITS) as nat);
    assert(fits_atom(limbs[0], Uint::<BITS, Public>::shape()[0]));
    lemma_limits();
    lemma_le_bound(bytes, 32);
    lemma_le_bound(bytes, width);
    lemma_exactly(le_value(bytes));
    law_le_round_trip(le_value(bytes), width);
    let again = le_bytes(le_value(bytes), width);
    law_trimming_keeps_the_number(again);
    law_padding_undoes_trimming(again, width);
    law_normal_form_is_unique(trimmed(again), bytes);
    assert(Uint::<BITS, Public>::of_limbs(limbs).limbs() =~= limbs);
}

/// Of what a cell of the type can hold, one is read as true and everything else as
/// false.
pub proof fn law_one_is_true(limbs: Seq<Seq<u8>>)
    requires
        fit_atoms(limbs, Bool::<Public>::shape()),
    ensures
        Bool::<Public>::of_limbs(limbs).value <==> limbs == seq![seq![1u8]],
{
    let bytes = limbs[0];
    assert(fits_atom(limbs[0], Bool::<Public>::shape()[0]));
    assert(limbs =~= seq![bytes]);
    reveal_with_fuel(le_value, 2);
    if bytes.len() == 1 {
        assert(bytes =~= seq![bytes[0]]);
        assert(bytes.drop_first().len() == 0);
        assert(le_value(bytes) == bytes[0]);
    }
}

} // verus!
