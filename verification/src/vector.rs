//! Bounded and non-empty vectors: a variable-length circuit argument, as a
//! length and a contiguous prefix.
//!
//! - [`Bounded`]: a length and `MAX` slots, the first `len` of them live, no
//!   holes.
//! - [`NonEmpty`]: a structural head and a [`Bounded`] tail. The all-empty case
//!   has no spelling: there is no constructor without a head.
//!
//! Iteration is internal. [`Bounded::fold`] and [`Bounded::for_each`] own the
//! guard and the choice of the carried state. The step is evaluated on every
//! slot, dead ones too, and applied only where live: under a guard that is off
//! a step leaves no trace.
use crate::abi::{
    decimal, decimal_text, is_unsigned, law_repeated, lemma_repeated_len, part, part_name, repeated,
    CircuitAbi, CircuitArg, Disclose, DisclosureLabel, Prim,
};
use crate::assumed::Select;
use crate::circuit::{same_trace, Circuit3, Run};
use crate::fab::AlignmentAtom;
use crate::number::{lemma_two_to_grows, two_to, Number};
use crate::wire::{law_bits_fit_their_bytes, strings, Bool, Private, Public, Uint, Vis3};
use core::marker::PhantomData;
use vstd::prelude::*;

verus! {

/// Up to `MAX` values of `T`: a length and a contiguous live prefix.
pub struct Bounded<T, const MAX: usize, V: Vis3> {
    len: Uint<8, V>,
    slots: [T; MAX],
}

/// One to `REST + 1` values of `T`: a structural head and a bounded tail.
pub struct NonEmpty<T, const REST: usize, V: Vis3> {
    head: T,
    tail: Bounded<T, REST, V>,
}

impl<T: Copy, const MAX: usize, V: Vis3> Clone for Bounded<T, MAX, V> {
    fn clone(&self) -> (r: Self)
        ensures
            r == *self,
    {
        *self
    }
}

impl<T: Copy, const MAX: usize, V: Vis3> Copy for Bounded<T, MAX, V> {

}

impl<T: Copy, const REST: usize, V: Vis3> Clone for NonEmpty<T, REST, V> {
    fn clone(&self) -> (r: Self)
        ensures
            r == *self,
    {
        *self
    }
}

impl<T: Copy, const REST: usize, V: Vis3> Copy for NonEmpty<T, REST, V> {

}

/// Why a list of items does not fit.
#[derive(Clone, Copy, PartialEq, Eq, Structural, Debug)]
pub enum VectorRefusal {
    /// More items than slots.
    TooMany,
    /// More slots than a byte counts.
    TooWide,
    /// No item where one is needed.
    Empty,
}

/// The array with these items.
pub open spec fn array_from<T, const N: usize>(items: Seq<T>) -> [T; N] {
    choose|a: [T; N]| a@ == items
}

/// An array is its items.
pub proof fn lemma_array_from<T, const N: usize>(a: [T; N])
    ensures
        array_from::<T, N>(a@) == a,
{
    assert(array_from::<T, N>(a@)@ == a@);
    assert(array_from::<T, N>(a@) =~= a);
}

/// std's `TryFrom<Vec<T>>` for an array: the items as an array where there are
/// exactly `N`, and the vector back where there are not.
#[verifier::external_body]
pub(crate) fn into_array<T, const N: usize>(items: Vec<T>) -> (r: Result<[T; N], Vec<T>>)
    ensures
        match r {
            Ok(array) => items@.len() == N && array@ == items@,
            Err(back) => items@.len() != N && back@ == items@,
        },
{
    <[T; N]>::try_from(items)
}

// ---- folding ------------------------------------------------------------------------------

/// A step over the items of a vector: what it does to the run and to the
/// carried state.
pub trait SlotStep<S, T> {
    /// The run and the state after the step.
    spec fn stepped(&self, run: Run, state: S, item: T) -> (Run, S);

    /// A step keeps the guard it finds, and under one that is off leaves no trace:
    /// it may still declare arguments and disclose values.
    proof fn law_guarded(&self, run: Run, state: S, item: T)
        ensures
            self.stepped(run, state, item).0.guard == run.guard,
            !run.guard ==> same_trace(self.stepped(run, state, item).0, run),
    ;

    /// The step.
    fn step(&self, c: &mut Circuit3, state: S, item: &T) -> (r: S)
        ensures
            (final(c)@, r) == self.stepped(old(c)@, state, *item),
    ;
}

/// A computation on one item of a vector: what it does to the run, and what it
/// makes of the item.
pub trait SlotMap<T, U> {
    /// The run and the result.
    spec fn mapped(&self, run: Run, item: T) -> (Run, U);

    /// The computation.
    fn apply(&self, c: &mut Circuit3, item: &T) -> (r: U)
        ensures
            (final(c)@, r) == self.mapped(old(c)@, *item),
    ;
}

/// The first `n` items mapped, in order.
pub open spec fn mapped_slots<T, U, F: SlotMap<T, U>>(f: F, run: Run, items: Seq<T>, n: nat) -> (
    Run,
    Seq<U>,
)
    decreases n,
{
    if n == 0 {
        (run, Seq::empty())
    } else {
        let (before, made) = mapped_slots::<T, U, F>(f, run, items, (n - 1) as nat);
        let (after, item) = f.mapped(before, items[n - 1]);
        (after, made.push(item))
    }
}

/// The run under a guard.
pub open spec fn guarded(run: Run, guard: bool) -> Run {
    Run { guard: run.guard && guard, ..run }
}

/// Folding the first `n` slots, each under its live bit, the state chosen by
/// it.
pub open spec fn folded<S, T, F: SlotStep<S, T>>(
    step: F,
    run: Run,
    state: S,
    slots: Seq<T>,
    len: int,
    n: int,
) -> (Run, S)
    decreases n,
{
    if n <= 0 {
        (run, state)
    } else {
        let (before, carried) = folded(step, run, state, slots, len, n - 1);
        let live = n - 1 < len;
        let (after, next) = step.stepped(guarded(before, live), carried, slots[n - 1]);
        (
            Run { guard: before.guard, ..after },
            if live {
                next
            } else {
                carried
            },
        )
    }
}

/// Folding the first `n` items, as plain code does.
pub open spec fn native<S, T, F: SlotStep<S, T>>(
    step: F,
    run: Run,
    state: S,
    items: Seq<T>,
    n: int,
) -> (Run, S)
    decreases n,
{
    if n <= 0 {
        (run, state)
    } else {
        let (before, carried) = native(step, run, state, items, n - 1);
        step.stepped(before, carried, items[n - 1])
    }
}

/// The fold is the plain fold over the live prefix: a dead slot's step neither
/// leaves a trace in the run nor lands in the state, whatever the slot holds. Up
/// to the first dead slot the runs are the same in everything.
pub proof fn law_fold_is_the_native_fold<S, T, F: SlotStep<S, T>>(
    step: F,
    run: Run,
    state: S,
    slots: Seq<T>,
    len: int,
    n: int,
)
    requires
        0 <= len,
        0 <= n <= slots.len(),
    ensures
        n <= len ==> folded(step, run, state, slots, len, n) == native(
            step,
            run,
            state,
            slots,
            n,
        ),
        ({
            let plain = native(
                step,
                run,
                state,
                slots,
                if n < len {
                    n
                } else {
                    len
                },
            );
            &&& same_trace(folded(step, run, state, slots, len, n).0, plain.0)
            &&& folded(step, run, state, slots, len, n).1 == plain.1
        }),
    decreases n,
{
    if n > 0 {
        law_fold_is_the_native_fold(step, run, state, slots, len, n - 1);
        let (before, carried) = folded(step, run, state, slots, len, n - 1);
        let live = n - 1 < len;
        step.law_guarded(guarded(before, live), carried, slots[n - 1]);
        if live {
            assert(guarded(before, live) == before);
        }
    }
}

// ---- bounded --------------------------------------------------------------------------------

impl<T, const MAX: usize, V: Vis3> Bounded<T, MAX, V> {
    /// The length.
    pub closed spec fn length(self) -> Uint<8, V> {
        self.len
    }

    /// Every slot, live or not.
    pub closed spec fn items(self) -> [T; MAX] {
        self.slots
    }

    /// The vector of this length and these slots.
    pub closed spec fn with(len: Uint<8, V>, slots: [T; MAX]) -> Self {
        Bounded { len, slots }
    }

    /// A vector is its length and its slots.
    pub proof fn law_parts(self, len: Uint<8, V>, slots: [T; MAX])
        ensures
            Self::with(len, slots).length() == len,
            Self::with(len, slots).items() == slots,
            Self::with(self.length(), self.items()) == self,
    {
    }

    /// From parts already in hand. Nothing here constrains the length.
    pub fn from_parts_unchecked(len: Uint<8, V>, slots: [T; MAX]) -> (r: Self)
        ensures
            r.length() == len,
            r.items() == slots,
    {
        Bounded { len, slots }
    }

    /// The length.
    pub fn len(&self) -> (r: Uint<8, V>)
        ensures
            r == self.length(),
    {
        self.len
    }

    /// Every slot, live or not.
    pub fn slots(&self) -> (r: &[T; MAX])
        ensures
            *r == self.items(),
    {
        &self.slots
    }

    /// Applies `f` to every slot, live or not, in order. No guard is put on it.
    pub fn map<U, F: SlotMap<T, U>>(&self, c: &mut Circuit3, f: &F) -> (r: Bounded<U, MAX, V>)
        ensures
            r.length() == self.length(),
            (final(c)@, r.items()@) == mapped_slots::<T, U, F>(
                *f,
                old(c)@,
                self.items()@,
                MAX as nat,
            ),
    {
        let mut out: Vec<U> = Vec::new();
        assert(out@ =~= Seq::<U>::empty());
        while out.len() < MAX
            invariant
                out@.len() <= MAX,
                self.items()@.len() == MAX,
                (c@, out@) == mapped_slots::<T, U, F>(*f, old(c)@, self.items()@, out@.len()),
            decreases MAX - out@.len(),
        {
            let ghost made = out@;
            let item = f.apply(c, &self.slots[out.len()]);
            out.push(item);
            assert(out@.len() == made.len() + 1);
        }
        match into_array::<U, MAX>(out) {
            Ok(slots) => Bounded { len: self.len, slots },
            Err(_) => vstd::pervasive::unreached(),
        }
    }
}

impl<T, const MAX: usize> Bounded<T, MAX, Private> {
    /// Discloses the length only, keeping the elements private.
    pub fn disclose_len_as<L: DisclosureLabel>(self, c: &mut Circuit3) -> (r: Bounded<
        T,
        MAX,
        Public,
    >)
        ensures
            r.length().value == self.length().value,
            r.items() == self.items(),
            final(c)@ == old(c)@.disclose(L::LABEL@),
    {
        Bounded { len: self.len.disclose_as::<L>(c), slots: self.slots }
    }
}

impl<T, const MAX: usize> Bounded<T, MAX, Public> {
    /// How many slots are live.
    pub open spec fn count(&self) -> int {
        self.length().value@ as int
    }

    /// Whether slot `i` is live.
    pub fn live(&self, i: usize) -> (r: Bool<Public>)
        ensures
            r.value == (i < self.count()),
    {
        Bool::of(Number::of(i as u64).below(&self.len.value))
    }

    /// `step` over the live prefix, in order. Each slot's step runs under its
    /// live bit, and the carried state is the step's result where live and the
    /// previous state where not.
    pub fn fold<S: Copy + Select, F: SlotStep<S, T>>(&self, c: &mut Circuit3, init: S, step: &F)
        -> (r: S)
        ensures
            (final(c)@, r) == folded(
                *step,
                old(c)@,
                init,
                self.items()@,
                self.count(),
                MAX as int,
            ),
    {
        let mut s: S = init;
        let mut i: usize = 0;
        while i < MAX
            invariant
                i <= MAX,
                self.items()@.len() == MAX,
                (c@, s) == folded(*step, old(c)@, init, self.items()@, self.count(), i as int),
            decreases MAX - i,
        {
            let live: bool = self.live(i).value;
            let outer: bool = c.enter(live);
            let next: S = step.step(c, s, &self.slots[i]);
            c.leave(outer);
            s = S::select(live, next, s);
            i += 1;
        }
        s
    }

    /// [`Self::fold`] without carried state.
    pub fn for_each<F: SlotStep<(), T>>(&self, c: &mut Circuit3, body: &F)
        ensures
            (final(c)@, ()) == folded(*body, old(c)@, (), self.items()@, self.count(), MAX as int),
    {
        self.fold(c, (), body)
    }

    /// Each slot with its live bit, for pure computations.
    pub fn iter(&self) -> (r: Vec<(Bool<Public>, &T)>)
        ensures
            r@.len() == MAX,
            forall|i: int|
                0 <= i < MAX ==> (#[trigger] r@[i]).0.value == (i < self.count()) && *r@[i].1
                    == self.items()@[i],
    {
        let mut r: Vec<(Bool<Public>, &T)> = Vec::new();
        while r.len() < MAX
            invariant
                r@.len() <= MAX,
                self.items()@.len() == MAX,
                forall|i: int|
                    0 <= i < r@.len() ==> (#[trigger] r@[i]).0.value == (i < self.count())
                        && *r@[i].1 == self.items()@[i],
            decreases MAX - r@.len(),
        {
            let i: usize = r.len();
            r.push((self.live(i), &self.slots[i]));
        }
        r
    }
}

impl Select for () {
    fn select(bit: bool, taken: Self, fallback: Self) -> (r: Self) {
    }
}

/// The items, and then the default, `n` in all.
pub open spec fn padding<X>(items: Seq<X>, default: X, n: nat) -> Seq<X> {
    Seq::new(
        n,
        |i: int|
            if i < items.len() {
                items[i]
            } else {
                default
            },
    )
}

/// Whether these are clones of the items and then of the default, `n` in all.
pub open spec fn is_padding<X: Clone>(slots: Seq<X>, items: Seq<X>, default: X, n: nat) -> bool {
    &&& slots.len() == n
    &&& forall|i: int| 0 <= i < n ==> cloned(padding(items, default, n)[i], #[trigger] slots[i])
}

impl<X: Clone, const MAX: usize> Bounded<X, MAX, Private> {
    /// The prover's padding: the items, at most `MAX` of them, followed by the
    /// default, and the length.
    pub fn pad(items: &[X], default: X) -> (r: Result<(u8, [X; MAX]), VectorRefusal>)
        ensures
            match r {
                Ok((len, slots)) => items@.len() <= MAX <= 255 && len == items@.len()
                    && is_padding(slots@, items@, default, MAX as nat),
                Err(VectorRefusal::TooMany) => items@.len() > MAX,
                Err(VectorRefusal::TooWide) => items@.len() <= MAX && MAX > 255,
                Err(VectorRefusal::Empty) => false,
            },
    {
        if items.len() > MAX {
            return Err(VectorRefusal::TooMany);
        }
        if MAX > 255 {
            return Err(VectorRefusal::TooWide);
        }
        let mut slots: Vec<X> = Vec::new();
        while slots.len() < MAX
            invariant
                slots@.len() <= MAX,
                forall|i: int|
                    0 <= i < slots@.len() ==> cloned(
                        padding(items@, default, MAX as nat)[i],
                        #[trigger] slots@[i],
                    ),
            decreases MAX - slots@.len(),
        {
            let i: usize = slots.len();
            if i < items.len() {
                slots.push(items[i].clone());
            } else {
                slots.push(default.clone());
            }
        }
        let len: u8 = items.len() as u8;
        match into_array::<X, MAX>(slots) {
            Ok(slots) => Ok((len, slots)),
            Err(_) => vstd::pervasive::unreached(),
        }
    }
}

/// Padding loses nothing: where a clone is the same value, the items are the
/// live prefix.
pub proof fn law_padding_keeps_the_items<X: Clone>(
    slots: Seq<X>,
    items: Seq<X>,
    default: X,
    n: nat,
)
    requires
        is_padding(slots, items, default, n),
        items.len() <= n,
        forall|a: X, b: X| #[trigger] cloned(a, b) ==> a == b,
    ensures
        slots.take(items.len() as int) == items,
        slots == padding(items, default, n),
{
    assert(slots =~= padding(items, default, n));
    assert(slots.take(items.len() as int) =~= items);
}

impl<T: CircuitAbi, const MAX: usize, V: Vis3> CircuitAbi for Bounded<T, MAX, V> {
    open spec fn slot_count() -> nat {
        1 + MAX as nat * T::slot_count()
    }

    open spec fn atom_list() -> Seq<AlignmentAtom> {
        seq![AlignmentAtom::Bytes { length: 1 }] + repeated(T::atom_list(), MAX as nat)
    }

    open spec fn prim_list() -> Seq<Prim> {
        seq![length_prim(MAX as u64)] + repeated(T::prim_list(), MAX as nat)
    }

    fn slots() -> (r: usize) {
        if MAX == 0 {
            assert(MAX as nat * T::slot_count() == 0) by (nonlinear_arith)
                requires
                    MAX == 0,
            ;
            return 1;
        }
        assert(T::slot_count() <= MAX as nat * T::slot_count()) by (nonlinear_arith)
            requires
                MAX >= 1,
        ;
        let each: usize = T::slots();
        1 + MAX * each
    }

    fn push_atoms(atoms: &mut Vec<AlignmentAtom>) {
        atoms.push(AlignmentAtom::Bytes { length: 1 });
        let mut i: usize = 0;
        assert(atoms@ =~= old(atoms)@ + (seq![AlignmentAtom::Bytes { length: 1 }] + repeated(
            T::atom_list(),
            0,
        )));
        while i < MAX
            invariant
                i <= MAX,
                atoms@ == old(atoms)@ + (seq![AlignmentAtom::Bytes { length: 1 }] + repeated(
                    T::atom_list(),
                    i as nat,
                )),
            decreases MAX - i,
        {
            T::push_atoms(atoms);
            i += 1;
            assert(atoms@ =~= old(atoms)@ + (seq![AlignmentAtom::Bytes { length: 1 }] + repeated(
                T::atom_list(),
                i as nat,
            )));
        }
    }

    fn push_prims(prims: &mut Vec<Prim>) {
        let prim = Prim::unsigned(MAX as u64);
        proof {
            lemma_length_prim(MAX as u64, prim);
        }
        prims.push(prim);
        let mut i: usize = 0;
        assert(prims@ =~= old(prims)@ + (seq![length_prim(MAX as u64)] + repeated(T::prim_list(), 0)));
        while i < MAX
            invariant
                i <= MAX,
                prims@ == old(prims)@ + (seq![length_prim(MAX as u64)] + repeated(
                    T::prim_list(),
                    i as nat,
                )),
            decreases MAX - i,
        {
            T::push_prims(prims);
            i += 1;
            assert(prims@ =~= old(prims)@ + (seq![length_prim(MAX as u64)] + repeated(
                T::prim_list(),
                i as nat,
            )));
        }
    }
}

/// The length's type: the numbers up to `max`.
pub open spec fn length_prim(max: u64) -> Prim {
    choose|prim: Prim| is_unsigned(prim, max)
}

proof fn lemma_length_prim(max: u64, prim: Prim)
    requires
        is_unsigned(prim, max),
    ensures
        length_prim(max) == prim,
{
    let other = length_prim(max);
    assert(is_unsigned(other, max));
    match (prim, other) {
        (Prim::Uint { bits: a }, Prim::Uint { bits: b }) => {
            if a < b {
                lemma_two_to_grows(a as nat, b as nat);
            } else if b < a {
                lemma_two_to_grows(b as nat, a as nat);
            }
        },
        (Prim::Uint { bits }, Prim::UintMax { .. }) => {
            assert(max + 1 != two_to(bits as nat));
        },
        (Prim::UintMax { .. }, Prim::Uint { bits }) => {
            assert(max + 1 != two_to(bits as nat));
        },
        _ => {},
    }
}

/// Declaring the first `n` slots under `path`.
pub open spec fn declared_slots<T: CircuitArg>(run: Run, path: Seq<char>, n: nat) -> (Run, Seq<T>)
    decreases n,
{
    if n == 0 {
        (run, Seq::empty())
    } else {
        let (before, items) = declared_slots::<T>(run, path, (n - 1) as nat);
        let (after, item) = T::declared(before, part_name(path, decimal((n - 1) as nat)));
        (after, items.push(item))
    }
}

/// The slots of the first `n` elements.
pub open spec fn values_of<T: CircuitArg>(items: Seq<T>, n: int) -> Seq<Seq<u8>>
    decreases n,
{
    if n <= 0 {
        Seq::empty()
    } else {
        values_of(items, n - 1) + items[n - 1].slot_values()
    }
}

proof fn lemma_declared_slots<T: CircuitArg>(
    run: Run,
    path: Seq<char>,
    items: Seq<T>,
    n: nat,
    more: Seq<Seq<u8>>,
)
    requires
        n <= items.len(),
        run.inputs == values_of(items, n as int) + more,
    ensures
        ({
            let (last, made) = declared_slots::<T>(run, path, n);
            &&& made == items.take(n as int)
            &&& last == (Run { inputs: more, args: last.args, ..run })
            &&& last.args.len() == run.args.len() + n * T::slot_count()
            &&& last.args.take(run.args.len() as int) == run.args
        }),
        values_of(items, n as int).len() == n * T::slot_count(),
    decreases n,
{
    let each = T::slot_count();
    if n == 0 {
        assert(values_of(items, 0) + more =~= more);
        assert(items.take(0) =~= Seq::<T>::empty());
        assert(run.args.take(run.args.len() as int) =~= run.args);
        assert(0 * each == 0) by (nonlinear_arith);
    } else {
        let m = (n - 1) as nat;
        let item = items[m as int];
        let rest = item.slot_values() + more;
        assert(run.inputs =~= values_of(items, m as int) + rest);
        lemma_declared_slots(run, path, items, m, rest);
        let before = declared_slots::<T>(run, path, m).0;
        let name = part_name(path, decimal(m));
        T::law_declares_its_slots(before, name, item, more);
        let last = T::declared(before, name).0;
        assert(items.take(n as int) =~= items.take(m as int).push(item));
        assert(m * each + each == n * each) by (nonlinear_arith)
            requires
                n == m + 1,
        ;
        assert(last.args.take(run.args.len() as int) =~= run.args) by {
            assert forall|i: int| 0 <= i < run.args.len() implies last.args[i] == run.args[i] by {
                assert(last.args.take(before.args.len() as int)[i] == before.args[i]);
                assert(before.args.take(run.args.len() as int)[i] == run.args[i]);
            }
        }
    }
}

/// The names a vector's arguments are declared under, where each is one slot: the
/// length's is `path_len`, and element `i`'s is `path_i`.
pub proof fn law_names_of_a_vector<const BITS: u32, const MAX: usize>(
    run: Run,
    path: Seq<char>,
    i: nat,
)
    requires
        i < MAX,
    ensures
        ({
            let after = <Bounded<Uint<BITS, Private>, MAX, Private> as CircuitArg>::declared(
                run,
                path,
            ).0;
            &&& after.args.len() == run.args.len() + 1 + MAX
            &&& after.args[run.args.len() as int] == part_name(path, "len"@)
            &&& after.args[(run.args.len() + 1 + i) as int] == part_name(path, decimal(i))
        }),
{
    let first = <Uint<8, Private>>::declared(run, part_name(path, "len"@)).0;
    lemma_names::<BITS>(first, path, MAX as nat, i);
    let last = declared_slots::<Uint<BITS, Private>>(first, path, MAX as nat).0;
    assert(last.args[run.args.len() as int] == last.args.take(first.args.len() as int)[run.args.len() as int]);
}

proof fn lemma_names<const BITS: u32>(run: Run, path: Seq<char>, n: nat, i: nat)
    ensures
        ({
            let after = declared_slots::<Uint<BITS, Private>>(run, path, n).0;
            &&& after.args.len() == run.args.len() + n
            &&& after.args.take(run.args.len() as int) == run.args
            &&& i < n ==> after.args[(run.args.len() + i) as int] == part_name(path, decimal(i))
        }),
    decreases n,
{
    if n == 0 {
        assert(run.args.take(run.args.len() as int) =~= run.args);
    } else {
        lemma_names::<BITS>(run, path, (n - 1) as nat, i);
        let before = declared_slots::<Uint<BITS, Private>>(run, path, (n - 1) as nat).0;
        let after = declared_slots::<Uint<BITS, Private>>(run, path, n).0;
        assert(after.args =~= before.args.push(part_name(path, decimal((n - 1) as nat))));
        assert(after.args.take(run.args.len() as int) =~= before.args.take(run.args.len() as int));
    }
}

impl<T: CircuitArg, const MAX: usize> CircuitArg for Bounded<T, MAX, Private> {
    /// The length is one byte.
    open spec fn declarable() -> bool {
        MAX <= 255 && T::declarable()
    }

    /// The length under `path_len`, and then the slots under `path_0` and on.
    open spec fn declared(run: Run, path: Seq<char>) -> (Run, Self) {
        let (first, len) = <Uint<8, Private>>::declared(run, part_name(path, "len"@));
        let (last, items) = declared_slots::<T>(first, path, MAX as nat);
        (last, Bounded::with(len, array_from::<T, MAX>(items)))
    }

    /// The length is at most `MAX`, and every slot is in range.
    open spec fn in_range(self) -> bool {
        self.length().value@ <= MAX && forall|i: int|
            0 <= i < MAX ==> (#[trigger] self.items()@[i]).in_range()
    }

    open spec fn slot_values(self) -> Seq<Seq<u8>> {
        self.length().slot_values() + values_of(self.items()@, MAX as int)
    }

    proof fn law_declares_its_slots(
        run: Run,
        path: Seq<char>,
        value: Self,
        more: Seq<Seq<u8>>,
    ) {
        let (len, items) = (value.length(), value.items()@);
        let rest = values_of(items, MAX as int) + more;
        assert(run.inputs =~= len.slot_values() + rest);
        <Uint<8, Private>>::law_declares_its_slots(run, part_name(path, "len"@), len, rest);
        let first = <Uint<8, Private>>::declared(run, part_name(path, "len"@)).0;
        lemma_declared_slots(first, path, items, MAX as nat, more);
        assert(items.take(MAX as int) =~= items);
        lemma_array_from(value.items());
        value.law_parts(len, value.items());
        let last = declared_slots::<T>(first, path, MAX as nat).0;
        assert(last.args.take(run.args.len() as int) =~= first.args.take(run.args.len() as int)) by {
            assert(last.args.take(first.args.len() as int) == first.args);
            assert forall|i: int| 0 <= i < run.args.len() implies last.args[i] == first.args[i] by {
                assert(last.args.take(first.args.len() as int)[i] == first.args[i]);
            }
        }
    }

    proof fn law_one_atom_per_slot() {
        T::law_one_atom_per_slot();
        lemma_repeated_len(T::atom_list(), MAX as nat);
        lemma_repeated_len(T::prim_list(), MAX as nat);
    }

    fn declare(c: &mut Circuit3, path: &str) -> (r: Self) {
        let name = part(path, "len");
        let len = <Uint<8, Private>>::declare(c, name.as_str());
        let ghost first = c@;
        let mut items: Vec<T> = Vec::new();
        assert(items@ =~= Seq::<T>::empty());
        while items.len() < MAX
            invariant
                items@.len() <= MAX,
                T::declarable(),
                (c@, items@) == declared_slots::<T>(first, path@, items@.len()),
            decreases MAX - items@.len(),
        {
            let ghost before = items@;
            let name = part(path, decimal_text(items.len()).as_str());
            let item = T::declare(c, name.as_str());
            items.push(item);
            assert(items@.len() == before.len() + 1);
        }
        match into_array::<T, MAX>(items) {
            Ok(slots) => {
                proof {
                    lemma_array_from(slots);
                }
                Bounded { len, slots }
            },
            Err(_) => vstd::pervasive::unreached(),
        }
    }

    fn check_range(&self) -> (r: bool) {
        if Number::of(MAX as u64).below(&self.len.value) {
            return false;
        }
        let mut i: usize = 0;
        while i < MAX
            invariant
                i <= MAX,
                self.items()@.len() == MAX,
                forall|j: int| 0 <= j < i ==> (#[trigger] self.items()@[j]).in_range(),
            decreases MAX - i,
        {
            if !self.slots[i].check_range() {
                assert(!self.items()@[i as int].in_range());
                return false;
            }
            i += 1;
        }
        true
    }

    fn push_slots(&self, slots: &mut Vec<Vec<u8>>) {
        self.len.push_slots(slots);
        let ghost lead = strings(slots@);
        let mut i: usize = 0;
        assert(strings(slots@) =~= lead + values_of(self.items()@, 0));
        while i < MAX
            invariant
                i <= MAX,
                self.items()@.len() == MAX,
                strings(slots@) == lead + values_of(self.items()@, i as int),
            decreases MAX - i,
        {
            self.slots[i].push_slots(slots);
            i += 1;
            assert(strings(slots@) =~= lead + values_of(self.items()@, i as int));
        }
        assert(strings(slots@) =~= strings(old(slots)@) + self.slot_values());
    }
}

/// Disclosing `n` elements under a label.
pub open spec fn disclosing_slots<T: Disclose>(run: Run, label: Seq<char>, n: nat) -> Run
    decreases n,
{
    if n == 0 {
        run
    } else {
        T::disclosing(disclosing_slots::<T>(run, label, (n - 1) as nat), label)
    }
}

/// Elements made public.
pub open spec fn public_slots<T: Disclose>(items: Seq<T>) -> Seq<T::Public> {
    items.map_values(|item: T| item.public())
}

impl<T: Disclose + Copy, const MAX: usize> Disclose for Bounded<T, MAX, Private> {
    type Public = Bounded<T::Public, MAX, Public>;

    open spec fn disclosing(run: Run, label: Seq<char>) -> Run {
        disclosing_slots::<T>(run.disclose(label), label, MAX as nat)
    }

    open spec fn public(self) -> Bounded<T::Public, MAX, Public> {
        Bounded::with(
            self.length().public(),
            array_from::<T::Public, MAX>(public_slots(self.items()@)),
        )
    }

    fn disclose_as<L: DisclosureLabel>(self, c: &mut Circuit3) -> (r: Bounded<
        T::Public,
        MAX,
        Public,
    >)
        ensures
            r.length().value@ == self.length().value@,
            forall|i: int|
                0 <= i < MAX ==> #[trigger] r.items()@[i] == self.items()@[i].public(),
    {
        let len = self.len.disclose_as::<L>(c);
        let each: Disclosing<L> = Disclosing(PhantomData);
        proof {
            lemma_mapped_is_disclosed::<T, L>(each, c@, self.items()@, MAX as nat);
        }
        let shown = self.map(c, &each);
        proof {
            assert(self.items()@.take(MAX as int) =~= self.items()@);
            lemma_array_from(shown.items());
        }
        Bounded { len, slots: shown.slots }
    }
}

/// Disclosing an item under the label `L`.
pub struct Disclosing<L>(pub PhantomData<L>);

impl<T: Disclose + Copy, L: DisclosureLabel> SlotMap<T, T::Public> for Disclosing<L> {
    open spec fn mapped(&self, run: Run, item: T) -> (Run, T::Public) {
        (T::disclosing(run, L::LABEL@), item.public())
    }

    fn apply(&self, c: &mut Circuit3, item: &T) -> (r: T::Public) {
        (*item).disclose_as::<L>(c)
    }
}

proof fn lemma_mapped_is_disclosed<T: Disclose + Copy, L: DisclosureLabel>(
    each: Disclosing<L>,
    run: Run,
    items: Seq<T>,
    n: nat,
)
    requires
        n <= items.len(),
    ensures
        mapped_slots::<T, T::Public, Disclosing<L>>(each, run, items, n) == (
            disclosing_slots::<T>(run, L::LABEL@, n),
            public_slots(items.take(n as int)),
        ),
    decreases n,
{
    if n > 0 {
        lemma_mapped_is_disclosed::<T, L>(each, run, items, (n - 1) as nat);
    }
    assert(mapped_slots::<T, T::Public, Disclosing<L>>(each, run, items, n).1 =~= public_slots(
        items.take(n as int),
    ));
}

impl<T, const MAX: usize> Select for Bounded<T, MAX, Public> {
    fn select(bit: bool, taken: Self, fallback: Self) -> (r: Self) {
        if bit {
            taken
        } else {
            fallback
        }
    }
}

// ---- non-empty -------------------------------------------------------------------------------

impl<T, const REST: usize, V: Vis3> NonEmpty<T, REST, V> {
    /// The element that is always there.
    pub closed spec fn first(self) -> T {
        self.head
    }

    /// The optional rest.
    pub closed spec fn rest(self) -> Bounded<T, REST, V> {
        self.tail
    }

    /// The vector of this head and this tail.
    pub closed spec fn with(head: T, tail: Bounded<T, REST, V>) -> Self {
        NonEmpty { head, tail }
    }

    /// A vector is its head and its tail.
    pub proof fn law_parts(self, head: T, tail: Bounded<T, REST, V>)
        ensures
            Self::with(head, tail).first() == head,
            Self::with(head, tail).rest() == tail,
            Self::with(self.first(), self.rest()) == self,
    {
    }

    /// From a head and a tail already in hand.
    pub fn from_parts(head: T, tail: Bounded<T, REST, V>) -> (r: Self)
        ensures
            r.first() == head,
            r.rest() == tail,
    {
        NonEmpty { head, tail }
    }

    /// The element that is always there.
    pub fn head(&self) -> (r: &T)
        ensures
            *r == self.first(),
    {
        &self.head
    }

    /// The optional rest.
    pub fn tail(&self) -> (r: &Bounded<T, REST, V>)
        ensures
            *r == self.rest(),
    {
        &self.tail
    }

    /// Applies `f` to the head and to every slot of the tail, live or not.
    pub fn map<U, F: SlotMap<T, U>>(&self, c: &mut Circuit3, f: &F) -> (r: NonEmpty<U, REST, V>)
        ensures
            r.rest().length() == self.rest().length(),
            ({
                let (first, head) = f.mapped(old(c)@, self.first());
                r.first() == head && (final(c)@, r.rest().items()@) == mapped_slots::<T, U, F>(
                    *f,
                    first,
                    self.rest().items()@,
                    REST as nat,
                )
            }),
    {
        let head = f.apply(c, &self.head);
        NonEmpty { head, tail: self.tail.map(c, f) }
    }
}

impl<T, const REST: usize> NonEmpty<T, REST, Private> {
    /// Discloses the tail's length only.
    pub fn disclose_len_as<L: DisclosureLabel>(self, c: &mut Circuit3) -> (r: NonEmpty<
        T,
        REST,
        Public,
    >)
        ensures
            r.first() == self.first(),
            r.rest().length().value == self.rest().length().value,
            r.rest().items() == self.rest().items(),
            final(c)@ == old(c)@.disclose(L::LABEL@),
    {
        NonEmpty { head: self.head, tail: self.tail.disclose_len_as::<L>(c) }
    }
}

/// Folding the head, unguarded, and then the tail.
pub open spec fn folded_from_head<S, T, const REST: usize, F: SlotStep<S, T>>(
    step: F,
    run: Run,
    state: S,
    keys: NonEmpty<T, REST, Public>,
) -> (Run, S) {
    let (after, carried) = step.stepped(run, state, keys.first());
    folded(step, after, carried, keys.rest().items()@, keys.rest().count(), REST as int)
}

/// The items of a non-empty vector: the head, and the tail's live prefix.
pub open spec fn items_of<T, const REST: usize>(keys: NonEmpty<T, REST, Public>) -> Seq<T> {
    let n = if keys.rest().count() < REST {
        keys.rest().count()
    } else {
        REST as int
    };
    seq![keys.first()] + keys.rest().items()@.take(n)
}

/// The head always folds: folding a non-empty vector is the plain fold over the
/// head and the tail's live prefix, one item at least.
pub proof fn law_head_always_folds<S, T, const REST: usize, F: SlotStep<S, T>>(
    step: F,
    run: Run,
    state: S,
    keys: NonEmpty<T, REST, Public>,
)
    ensures
        items_of(keys).len() >= 1,
        ({
            let plain = native(
                step,
                run,
                state,
                items_of(keys),
                items_of(keys).len() as int,
            );
            &&& same_trace(folded_from_head(step, run, state, keys).0, plain.0)
            &&& folded_from_head(step, run, state, keys).1 == plain.1
        }),
{
    let slots = keys.rest().items()@;
    let len = keys.rest().count();
    let n = if len < REST {
        len
    } else {
        REST as int
    };
    let (after, carried) = step.stepped(run, state, keys.first());
    assert(slots.len() == REST);
    law_fold_is_the_native_fold(step, after, carried, slots, len, REST as int);
    lemma_native_from_head(step, run, state, keys.first(), slots, n);
}

proof fn lemma_native_from_head<S, T, F: SlotStep<S, T>>(
    step: F,
    run: Run,
    state: S,
    head: T,
    slots: Seq<T>,
    n: int,
)
    requires
        0 <= n <= slots.len(),
    ensures
        ({
            let (after, carried) = step.stepped(run, state, head);
            native(step, after, carried, slots, n) == native(
                step,
                run,
                state,
                seq![head] + slots.take(n),
                n + 1,
            )
        }),
    decreases n,
{
    let items = seq![head] + slots.take(n);
    if n == 0 {
        reveal_with_fuel(native, 2);
        assert(items[0] == head);
    } else {
        lemma_native_from_head(step, run, state, head, slots, n - 1);
        let fewer = seq![head] + slots.take(n - 1);
        lemma_native_agrees(step, run, state, fewer, items, n);
        assert(items[n] == slots[n - 1]);
    }
}

proof fn lemma_native_agrees<S, T, F: SlotStep<S, T>>(
    step: F,
    run: Run,
    state: S,
    a: Seq<T>,
    b: Seq<T>,
    n: int,
)
    requires
        0 <= n <= a.len(),
        n <= b.len(),
        forall|i: int| 0 <= i < n ==> a[i] == b[i],
    ensures
        native(step, run, state, a, n) == native(step, run, state, b, n),
    decreases n,
{
    if n > 0 {
        lemma_native_agrees(step, run, state, a, b, n - 1);
    }
}

impl<T, const REST: usize> NonEmpty<T, REST, Public> {
    /// [`Bounded::fold`] with the head folded first and unguarded: its step
    /// always runs and always lands.
    pub fn fold<S: Copy + Select, F: SlotStep<S, T>>(&self, c: &mut Circuit3, init: S, step: &F)
        -> (r: S)
        ensures
            (final(c)@, r) == folded_from_head(*step, old(c)@, init, *self),
    {
        let s: S = step.step(c, init, &self.head);
        self.tail.fold(c, s, step)
    }

    /// [`Bounded::for_each`], the head first and unguarded.
    pub fn for_each<F: SlotStep<(), T>>(&self, c: &mut Circuit3, body: &F)
        ensures
            (final(c)@, ()) == folded_from_head(*body, old(c)@, (), *self),
    {
        body.step(c, (), &self.head);
        self.tail.for_each(c, body)
    }

    /// The head, which is live, and every slot of the tail with its live bit.
    pub fn iter(&self) -> (r: Vec<(Bool<Public>, &T)>)
        ensures
            r@.len() == REST + 1,
            r@[0].0.value && *r@[0].1 == self.first(),
            forall|i: int|
                0 <= i < REST ==> (#[trigger] r@[i + 1]).0.value == (i < self.rest().count())
                    && *r@[i + 1].1 == self.rest().items()@[i],
    {
        let mut r: Vec<(Bool<Public>, &T)> = Vec::new();
        r.push((Bool::of(true), &self.head));
        let mut rest = self.tail.iter();
        let ghost tail = rest@;
        r.append(&mut rest);
        assert forall|i: int| 0 <= i < REST implies (#[trigger] r@[i + 1]).0.value == (i
            < self.rest().count()) && *r@[i + 1].1 == self.rest().items()@[i] by {
            assert(r@[i + 1] == tail[i]);
        }
        r
    }
}

impl<X: Clone, const REST: usize> NonEmpty<X, REST, Private> {
    /// The prover's split: the first item as the head, the rest padded into the
    /// tail. Refuses an empty list and more than `REST + 1` items.
    pub fn split(items: &[X], default: X) -> (r: Result<(X, u8, [X; REST]), VectorRefusal>)
        ensures
            match r {
                Ok((head, len, tail)) => 1 <= items@.len() <= REST + 1 && REST <= 255 && cloned(
                    items@[0],
                    head,
                ) && len == items@.len() - 1 && is_padding(
                    tail@,
                    items@.skip(1),
                    default,
                    REST as nat,
                ),
                Err(VectorRefusal::Empty) => items@.len() == 0,
                Err(VectorRefusal::TooMany) => items@.len() > REST + 1,
                Err(VectorRefusal::TooWide) => 1 <= items@.len() <= REST + 1 && REST > 255,
            },
    {
        if items.len() == 0 {
            return Err(VectorRefusal::Empty);
        }
        let rest = vstd::slice::slice_subrange(items, 1, items.len());
        assert(rest@ =~= items@.skip(1));
        match Bounded::<X, REST, Private>::pad(rest, default) {
            Ok((len, tail)) => Ok((items[0].clone(), len, tail)),
            Err(refusal) => Err(refusal),
        }
    }
}

impl<T: CircuitAbi, const REST: usize, V: Vis3> CircuitAbi for NonEmpty<T, REST, V> {
    open spec fn slot_count() -> nat {
        T::slot_count() + <Bounded<T, REST, V> as CircuitAbi>::slot_count()
    }

    open spec fn atom_list() -> Seq<AlignmentAtom> {
        T::atom_list() + <Bounded<T, REST, V> as CircuitAbi>::atom_list()
    }

    open spec fn prim_list() -> Seq<Prim> {
        T::prim_list() + <Bounded<T, REST, V> as CircuitAbi>::prim_list()
    }

    fn slots() -> (r: usize) {
        let head: usize = T::slots();
        head + <Bounded<T, REST, V> as CircuitAbi>::slots()
    }

    fn push_atoms(atoms: &mut Vec<AlignmentAtom>) {
        T::push_atoms(atoms);
        <Bounded<T, REST, V>>::push_atoms(atoms);
        assert(atoms@ =~= old(atoms)@ + Self::atom_list());
    }

    fn push_prims(prims: &mut Vec<Prim>) {
        T::push_prims(prims);
        <Bounded<T, REST, V>>::push_prims(prims);
        assert(prims@ =~= old(prims)@ + Self::prim_list());
    }
}

impl<T: CircuitArg, const REST: usize> CircuitArg for NonEmpty<T, REST, Private> {
    open spec fn declarable() -> bool {
        REST <= 255 && T::declarable()
    }

    /// The head under `path_head`, and the tail under `path_tail`.
    open spec fn declared(run: Run, path: Seq<char>) -> (Run, Self) {
        let (first, head) = T::declared(run, part_name(path, "head"@));
        let (last, tail) = <Bounded<T, REST, Private>>::declared(
            first,
            part_name(path, "tail"@),
        );
        (last, NonEmpty::with(head, tail))
    }

    open spec fn in_range(self) -> bool {
        self.first().in_range() && self.rest().in_range()
    }

    open spec fn slot_values(self) -> Seq<Seq<u8>> {
        self.first().slot_values() + self.rest().slot_values()
    }

    proof fn law_declares_its_slots(
        run: Run,
        path: Seq<char>,
        value: Self,
        more: Seq<Seq<u8>>,
    ) {
        let (head, tail) = (value.first(), value.rest());
        let rest = tail.slot_values() + more;
        assert(run.inputs =~= head.slot_values() + rest);
        T::law_declares_its_slots(run, part_name(path, "head"@), head, rest);
        let first = T::declared(run, part_name(path, "head"@)).0;
        <Bounded<T, REST, Private>>::law_declares_its_slots(
            first,
            part_name(path, "tail"@),
            tail,
            more,
        );
        let last = <Bounded<T, REST, Private>>::declared(first, part_name(path, "tail"@)).0;
        value.law_parts(head, tail);
        assert(last.args.take(run.args.len() as int) =~= run.args) by {
            assert forall|i: int| 0 <= i < run.args.len() implies last.args[i] == run.args[i] by {
                assert(last.args.take(first.args.len() as int)[i] == first.args[i]);
                assert(first.args.take(run.args.len() as int)[i] == run.args[i]);
            }
        }
    }

    proof fn law_one_atom_per_slot() {
        T::law_one_atom_per_slot();
        <Bounded<T, REST, Private>>::law_one_atom_per_slot();
    }

    fn declare(c: &mut Circuit3, path: &str) -> (r: Self) {
        let name = part(path, "head");
        let head = T::declare(c, name.as_str());
        let name = part(path, "tail");
        NonEmpty { head, tail: <Bounded<T, REST, Private>>::declare(c, name.as_str()) }
    }

    fn check_range(&self) -> (r: bool) {
        self.head.check_range() && self.tail.check_range()
    }

    fn push_slots(&self, slots: &mut Vec<Vec<u8>>) {
        self.head.push_slots(slots);
        self.tail.push_slots(slots);
        assert(strings(slots@) =~= strings(old(slots)@) + self.slot_values());
    }
}

impl<T: Disclose + Copy, const REST: usize> Disclose for NonEmpty<T, REST, Private> {
    type Public = NonEmpty<T::Public, REST, Public>;

    open spec fn disclosing(run: Run, label: Seq<char>) -> Run {
        <Bounded<T, REST, Private>>::disclosing(T::disclosing(run, label), label)
    }

    open spec fn public(self) -> NonEmpty<T::Public, REST, Public> {
        NonEmpty::with(self.first().public(), self.rest().public())
    }

    fn disclose_as<L: DisclosureLabel>(self, c: &mut Circuit3) -> (r: NonEmpty<
        T::Public,
        REST,
        Public,
    >)
        ensures
            r.first() == self.first().public(),
            r.rest().length().value@ == self.rest().length().value@,
            forall|i: int|
                0 <= i < REST ==> #[trigger] r.rest().items()@[i] == self.rest().items()@[i].public(),
    {
        NonEmpty { head: self.head.disclose_as::<L>(c), tail: self.tail.disclose_as::<L>(c) }
    }
}

// ---- item by item ---------------------------------------------------------------------------------

/// Mapping is item by item, in order: what comes of item `i` is what the
/// computation makes of it in the run that the items before it left.
pub proof fn law_mapped_item_by_item<T, U, F: SlotMap<T, U>>(
    f: F,
    run: Run,
    items: Seq<T>,
    n: nat,
    i: nat,
)
    requires
        i < n <= items.len(),
    ensures
        mapped_slots::<T, U, F>(f, run, items, 0) == (run, Seq::<U>::empty()),
        mapped_slots::<T, U, F>(f, run, items, n).1.len() == n,
        mapped_slots::<T, U, F>(f, run, items, n).1[i as int] == f.mapped(
            mapped_slots::<T, U, F>(f, run, items, i).0,
            items[i as int],
        ).1,
        mapped_slots::<T, U, F>(f, run, items, i + 1).0 == f.mapped(
            mapped_slots::<T, U, F>(f, run, items, i).0,
            items[i as int],
        ).0,
    decreases n,
{
    if i + 1 < n {
        law_mapped_item_by_item(f, run, items, (n - 1) as nat, i);
    } else {
        lemma_mapped_len(f, run, items, i);
    }
}

proof fn lemma_mapped_len<T, U, F: SlotMap<T, U>>(f: F, run: Run, items: Seq<T>, n: nat)
    ensures
        mapped_slots::<T, U, F>(f, run, items, n).1.len() == n,
    decreases n,
{
    if n > 0 {
        lemma_mapped_len(f, run, items, (n - 1) as nat);
    }
}

/// A plain fold is item by item, in order, each step on the state that the one
/// before it left.
pub proof fn law_native_item_by_item<S, T, F: SlotStep<S, T>>(
    step: F,
    run: Run,
    state: S,
    items: Seq<T>,
    i: int,
)
    requires
        0 <= i < items.len(),
    ensures
        native(step, run, state, items, 0) == (run, state),
        ({
            let (before, carried) = native(step, run, state, items, i);
            native(step, run, state, items, i + 1) == step.stepped(before, carried, items[i])
        }),
{
}

/// What padding fills up with: the default, behind the items.
pub proof fn law_padding_is_the_default<X>(items: Seq<X>, default: X, n: nat, i: int)
    requires
        0 <= i < n,
    ensures
        padding(items, default, n).len() == n,
        i < items.len() ==> padding(items, default, n)[i] == items[i],
        i >= items.len() ==> padding(items, default, n)[i] == default,
{
}

/// The items of a non-empty vector, one by one: the head, and after it the tail's
/// live ones.
pub proof fn law_items_one_by_one<T, const REST: usize>(keys: NonEmpty<T, REST, Public>, i: int)
    ensures
        items_of(keys)[0] == keys.first(),
        keys.rest().count() <= REST ==> items_of(keys).len() == 1 + keys.rest().count(),
        keys.rest().count() > REST ==> items_of(keys).len() == 1 + REST,
        0 <= i < keys.rest().count() && i < REST ==> items_of(keys)[i + 1]
            == keys.rest().items()@[i],
{
    assert(keys.rest().items()@.len() == REST);
}

/// The range of a vector's arguments: the length at most what it holds, and every
/// element in its own range.
pub proof fn law_range_of_a_vector<T: CircuitArg, const MAX: usize>(
    value: Bounded<T, MAX, Private>,
    keys: NonEmpty<T, MAX, Private>,
)
    ensures
        value.in_range() <==> value.length().value@ <= MAX && forall|i: int|
            0 <= i < MAX ==> (#[trigger] value.items()@[i]).in_range(),
        keys.in_range() <==> keys.first().in_range() && keys.rest().in_range(),
{
}

/// How a vector is laid out in slots: one for the length, a byte, and then the
/// elements', one element after the other; with a head, its own first.
pub proof fn law_slots_of_a_vector<T: CircuitAbi, const MAX: usize, V: Vis3>(k: nat, j: nat)
    requires
        k < MAX,
        j < T::atom_list().len(),
        T::prim_list().len() == T::atom_list().len() == T::slot_count(),
    ensures
        ({
            let at = (1 + k * T::slot_count() + j) as int;
            let atoms = <Bounded<T, MAX, V> as CircuitAbi>::atom_list();
            let prims = <Bounded<T, MAX, V> as CircuitAbi>::prim_list();
            &&& <Bounded<T, MAX, V> as CircuitAbi>::slot_count() == 1 + MAX * T::slot_count()
            &&& atoms.len() == 1 + MAX * T::slot_count()
            &&& prims.len() == 1 + MAX * T::slot_count()
            &&& atoms[0] == (AlignmentAtom::Bytes { length: 1 })
            &&& is_unsigned(prims[0], MAX as u64)
            &&& atoms[at] == T::atom_list()[j as int]
            &&& prims[at] == T::prim_list()[j as int]
        }),
        <NonEmpty<T, MAX, V> as CircuitAbi>::slot_count() == T::slot_count() + <Bounded<
            T,
            MAX,
            V,
        > as CircuitAbi>::slot_count(),
        <NonEmpty<T, MAX, V> as CircuitAbi>::atom_list() == T::atom_list() + <Bounded<
            T,
            MAX,
            V,
        > as CircuitAbi>::atom_list(),
        <NonEmpty<T, MAX, V> as CircuitAbi>::prim_list() == T::prim_list() + <Bounded<
            T,
            MAX,
            V,
        > as CircuitAbi>::prim_list(),
{
    law_repeated(T::atom_list(), MAX as nat, k, j);
    law_repeated(T::prim_list(), MAX as nat, k, j);
    lemma_numbers_have_a_type(MAX as u64);
}

proof fn lemma_numbers_have_a_type(max: u64)
    ensures
        is_unsigned(length_prim(max), max),
{
    if exists|k: nat| max + 1 == #[trigger] two_to(k) {
        let k = choose|k: nat| max + 1 == #[trigger] two_to(k);
        law_bits_fit_their_bytes(64);
        if k > 64 {
            lemma_two_to_grows(64, k);
        }
        assert(is_unsigned(Prim::Uint { bits: k as u32 }, max));
    } else {
        assert(is_unsigned(Prim::UintMax { maxval: max }, max));
    }
}

/// A length's type admits the numbers up to the most that a vector holds.
pub proof fn law_length_is_bounded(max: u64, prim: Prim)
    requires
        is_unsigned(prim, max),
    ensures
        length_prim(max) == prim,
{
    lemma_length_prim(max, prim);
}

/// Disclosing a vector of numbers shows its length and every element, each under
/// the label, and changes nothing else of the run.
pub proof fn law_disclosing_a_vector<const BITS: u32, const MAX: usize>(
    run: Run,
    label: Seq<char>,
)
    ensures
        <Bounded<Uint<BITS, Private>, MAX, Private> as Disclose>::disclosing(run, label) == (Run {
            disclosed: run.disclosed + Seq::new((1 + MAX) as nat, |i: int| label),
            ..run
        }),
        <NonEmpty<Uint<BITS, Private>, MAX, Private> as Disclose>::disclosing(run, label) == (Run {
            disclosed: run.disclosed + Seq::new((2 + MAX) as nat, |i: int| label),
            ..run
        }),
{
    lemma_labels::<BITS>(run.disclose(label), label, MAX as nat);
    lemma_labels::<BITS>(run.disclose(label).disclose(label), label, MAX as nat);
    assert(run.disclose(label).disclosed + Seq::new(MAX as nat, |i: int| label)
        =~= run.disclosed + Seq::new((1 + MAX) as nat, |i: int| label));
    assert(run.disclose(label).disclose(label).disclosed + Seq::new(MAX as nat, |i: int| label)
        =~= run.disclosed + Seq::new((2 + MAX) as nat, |i: int| label));
}

proof fn lemma_labels<const BITS: u32>(run: Run, label: Seq<char>, n: nat)
    ensures
        disclosing_slots::<Uint<BITS, Private>>(run, label, n) == (Run {
            disclosed: run.disclosed + Seq::new(n, |i: int| label),
            ..run
        }),
    decreases n,
{
    if n == 0 {
        assert(run.disclosed + Seq::new(0, |i: int| label) =~= run.disclosed);
    } else {
        lemma_labels::<BITS>(run, label, (n - 1) as nat);
        assert((run.disclosed + Seq::new((n - 1) as nat, |i: int| label)).push(label)
            =~= run.disclosed + Seq::new(n, |i: int| label));
    }
}

} // verus!
