//! Assumed values: what an inline ledger read returns.
//!
//! A read is an assumption the transaction makes about the state at landing,
//! and a landed transaction that changed the slot makes it stale. The proof may
//! consume the value freely. The ledger may not take it back: an [`Assumed`]
//! has no stored form, so writing it or handing it to a hook does not compile
//! until [`Assumed::stale`] names the assumption.
use crate::circuit::Circuit3;
use crate::number::Number;
use crate::wire::{stored, strings, B32, Bool, LedgerRepr, Public, Uint, Vis3};
use core::ops::Deref;
use vstd::prelude::*;

verus! {

/// The byte strings a value is made of, for [`Assumed::stale`] to name.
pub trait ProofWires {
    /// The byte strings, in slot order.
    spec fn wires(&self) -> Seq<Seq<u8>>;

    /// Appends the byte strings, in slot order.
    fn push_wires(&self, out: &mut Vec<Vec<u8>>)
        ensures
            strings(final(out)@) == strings(old(out)@) + self.wires(),
    ;
}

impl<const BITS: u32> ProofWires for Uint<BITS, Public> {
    open spec fn wires(&self) -> Seq<Seq<u8>> {
        self.limbs()
    }

    fn push_wires(&self, out: &mut Vec<Vec<u8>>) {
        self.push_limbs(out);
    }
}

impl ProofWires for Bool<Public> {
    open spec fn wires(&self) -> Seq<Seq<u8>> {
        self.limbs()
    }

    fn push_wires(&self, out: &mut Vec<Vec<u8>>) {
        self.push_limbs(out);
    }
}

impl ProofWires for B32<Public> {
    open spec fn wires(&self) -> Seq<Seq<u8>> {
        self.limbs()
    }

    fn push_wires(&self, out: &mut Vec<Vec<u8>>) {
        self.push_limbs(out);
    }
}

impl ProofWires for () {
    open spec fn wires(&self) -> Seq<Seq<u8>> {
        Seq::empty()
    }

    fn push_wires(&self, out: &mut Vec<Vec<u8>>) {
        assert(strings(out@) =~= strings(old(out)@) + self.wires());
    }
}

impl<A: ProofWires, B: ProofWires> ProofWires for (A, B) {
    open spec fn wires(&self) -> Seq<Seq<u8>> {
        self.0.wires() + self.1.wires()
    }

    fn push_wires(&self, out: &mut Vec<Vec<u8>>) {
        self.0.push_wires(out);
        self.1.push_wires(out);
        assert(strings(out@) =~= strings(old(out)@) + self.wires());
    }
}

impl<A: ProofWires, B: ProofWires, C: ProofWires> ProofWires for (A, B, C) {
    open spec fn wires(&self) -> Seq<Seq<u8>> {
        self.0.wires() + self.1.wires() + self.2.wires()
    }

    fn push_wires(&self, out: &mut Vec<Vec<u8>>) {
        self.0.push_wires(out);
        self.1.push_wires(out);
        self.2.push_wires(out);
        assert(strings(out@) =~= strings(old(out)@) + self.wires());
    }
}

impl<A: ProofWires, B: ProofWires, C: ProofWires, D: ProofWires> ProofWires for (A, B, C, D) {
    open spec fn wires(&self) -> Seq<Seq<u8>> {
        self.0.wires() + self.1.wires() + self.2.wires() + self.3.wires()
    }

    fn push_wires(&self, out: &mut Vec<Vec<u8>>) {
        self.0.push_wires(out);
        self.1.push_wires(out);
        self.2.push_wires(out);
        self.3.push_wires(out);
        assert(strings(out@) =~= strings(old(out)@) + self.wires());
    }
}

impl<T: ProofWires> ProofWires for Assumed<T> {
    open spec fn wires(&self) -> Seq<Seq<u8>> {
        self.value().wires()
    }

    fn push_wires(&self, out: &mut Vec<Vec<u8>>) {
        self.0.push_wires(out)
    }
}

/// A value an inline ledger read returned: what the transaction assumes the
/// slot holds at landing.
#[derive(Debug)]
pub struct Assumed<T>(T);

impl<T: Copy> Clone for Assumed<T> {
    fn clone(&self) -> (r: Self)
        ensures
            r == *self,
    {
        Assumed(self.0)
    }
}

impl<T: Copy> Copy for Assumed<T> {

}

impl<T> Assumed<T> {
    /// The value.
    pub closed spec fn value(self) -> T {
        self.0
    }

    /// Wraps a read's result. For the read implementations.
    pub fn of_read(value: T) -> (r: Self)
        ensures
            r.value() == value,
    {
        Assumed(value)
    }

    /// The value, with the assumption named: the transaction relies on the slot
    /// still holding what was read. The value's byte strings are recorded in
    /// the circuit as acknowledged, and nothing else changes there.
    pub fn stale(self, c: &mut Circuit3) -> (r: T) where T: ProofWires
        ensures
            r == self.value(),
            final(c)@ == old(c)@.acknowledge(self.value().wires()),
    {
        let mut wires: Vec<Vec<u8>> = Vec::new();
        assert(strings(wires@) =~= Seq::<Seq<u8>>::empty());
        self.0.push_wires(&mut wires);
        assert(strings(wires@) =~= self.0.wires());
        c.acknowledge_stale(&wires);
        self.0
    }

    /// A proof-side transformation that keeps the wrapper: the result is still
    /// an assumption about the ledger.
    pub fn map<U, F: FnOnce(T) -> U>(self, f: F) -> (r: Assumed<U>)
        requires
            call_requires(f, (self.value(),)),
        ensures
            call_ensures(f, (self.value(),), r.value()),
    {
        Assumed(f(self.0))
    }

    /// The value with the wrapper dropped, for the library's own compositions.
    /// It records nothing.
    pub(crate) fn into_inner(self) -> (r: T)
        ensures
            r == self.value(),
    {
        self.0
    }
}

impl<T> Deref for Assumed<T> {
    type Target = T;

    fn deref(&self) -> (r: &T)
        ensures
            *r == self.value(),
    {
        &self.0
    }
}

/// A value chosen by a bit.
pub trait Select: Sized {
    /// `taken` where the bit is on, `fallback` where it is off.
    fn select(bit: bool, taken: Self, fallback: Self) -> (r: Self)
        ensures
            r == if bit {
                taken
            } else {
                fallback
            },
    ;
}

/// Selecting between two assumptions is an assumption.
impl<T: Select> Select for Assumed<T> {
    fn select(bit: bool, taken: Self, fallback: Self) -> (r: Self) {
        Assumed(T::select(bit, taken.0, fallback.0))
    }
}

impl<const BITS: u32, V: Vis3> Select for Uint<BITS, V> {
    fn select(bit: bool, taken: Self, fallback: Self) -> (r: Self) {
        if bit {
            taken
        } else {
            fallback
        }
    }
}

impl<V: Vis3> Select for Bool<V> {
    fn select(bit: bool, taken: Self, fallback: Self) -> (r: Self) {
        if bit {
            taken
        } else {
            fallback
        }
    }
}

impl<A: Select, B: Select> Select for (A, B) {
    fn select(bit: bool, taken: Self, fallback: Self) -> (r: Self) {
        (A::select(bit, taken.0, fallback.0), B::select(bit, taken.1, fallback.1))
    }
}

/// What can stand in a comparison.
pub trait CheckOperand: Sized {
    /// How many bits it has.
    spec fn width() -> u32;

    /// How many bits it has.
    fn bits() -> (r: u32)
        ensures
            r == Self::width(),
    ;

    /// The number it is.
    spec fn number(self) -> nat;

    /// The number it is.
    fn operand(self) -> (r: Number)
        ensures
            r@ == self.number(),
    ;
}

impl<const BITS: u32, V: Vis3> CheckOperand for Uint<BITS, V> {
    open spec fn width() -> u32 {
        BITS
    }

    fn bits() -> (r: u32) {
        BITS
    }

    open spec fn number(self) -> nat {
        self.value@
    }

    fn operand(self) -> (r: Number) {
        self.value
    }
}

/// Comparisons take an assumed operand as they take the value.
impl<T: CheckOperand> CheckOperand for Assumed<T> {
    open spec fn width() -> u32 {
        T::width()
    }

    fn bits() -> (r: u32) {
        T::bits()
    }

    open spec fn number(self) -> nat {
        self.value().number()
    }

    fn operand(self) -> (r: Number) {
        self.0.operand()
    }
}

/// What can stand as a guard.
pub trait GuardCond: Sized {
    /// Whether it is on.
    spec fn is_on(self) -> bool;

    /// Whether it is on.
    fn into_guard(self) -> (r: bool)
        ensures
            r == self.is_on(),
    ;
}

impl<V: Vis3> GuardCond for Bool<V> {
    open spec fn is_on(self) -> bool {
        self.value
    }

    fn into_guard(self) -> (r: bool) {
        self.value
    }
}

/// An assumed truth value is a truth value to the proof.
impl<V: Vis3> GuardCond for Assumed<Bool<V>> {
    open spec fn is_on(self) -> bool {
        self.value().value
    }

    fn into_guard(self) -> (r: bool) {
        self.0.value
    }
}

impl<V: Vis3> From<Assumed<Bool<V>>> for Bool<V> {
    fn from(b: Assumed<Bool<V>>) -> (r: Bool<V>) {
        b.0
    }
}

impl<V: Vis3> vstd::std_specs::convert::FromSpecImpl<Assumed<Bool<V>>> for Bool<V> {
    open spec fn obeys_from_spec() -> bool {
        true
    }

    open spec fn from_spec(b: Assumed<Bool<V>>) -> Bool<V> {
        b.value()
    }
}

/// What is named of a read: the byte strings that its value is stored as, in slot
/// order.
pub proof fn law_wires_are_what_is_stored<
    const BITS: u32,
    A: ProofWires,
    B: ProofWires,
    C: ProofWires,
    D: ProofWires,
>(
    number: Uint<BITS, Public>,
    truth: Bool<Public>,
    bytes: B32<Public>,
    a: A,
    b: B,
    c: C,
    d: D,
    read: Assumed<A>,
)
    ensures
        number.wires() == stored(number).value,
        truth.wires() == stored(truth).value,
        bytes.wires() == stored(bytes).value,
        ().wires().len() == 0,
        (a, b).wires() == a.wires() + b.wires(),
        (a, b, c).wires() == (a, b).wires() + c.wires(),
        (a, b, c, d).wires() == (a, b, c).wires() + d.wires(),
        read.wires() == read.value().wires(),
{
}

/// An assumed number compares as the number it is, and as wide; an assumed truth
/// value guards as the truth value it is.
pub proof fn law_assumed_operands<const BITS: u32, V: Vis3>(
    number: Uint<BITS, V>,
    read: Assumed<Uint<BITS, V>>,
    bit: Bool<V>,
    guess: Assumed<Bool<V>>,
)
    ensures
        number.number() == number.value@,
        read.number() == read.value().value@,
        <Uint<BITS, V> as CheckOperand>::width() == BITS,
        <Assumed<Uint<BITS, V>> as CheckOperand>::width() == BITS,
        bit.is_on() <==> bit.value,
        guess.is_on() <==> guess.value().value,
        <Bool<V> as vstd::std_specs::convert::FromSpec<Assumed<Bool<V>>>>::from_spec(guess)
            == guess.value(),
{
}

} // verus!
