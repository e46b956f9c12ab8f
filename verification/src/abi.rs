//! Circuit arguments: how many slots a type takes, what they are, and how they
//! are declared, constrained and disclosed.
use crate::circuit::{Circuit3, Run};
use crate::fab::{
    law_le_round_trip, law_trimming_keeps_the_number, le_bytes, le_value, trim, trimmed, AlignmentAtom,
};
use crate::number::{
    lemma_exactly, lemma_is_exactly, lemma_limits, lemma_two_to_grows, limit, number_of, two_to,
    Number,
};
use crate::wire::{byte_width, bytes_for, strings, Private, Public, Uint, Vis3};
use core::marker::PhantomData;
use vstd::prelude::*;

verus! {

/// What one argument slot holds.
#[derive(Clone, Copy, PartialEq, Eq, Structural, Debug)]
pub enum Prim {
    /// A number of `bits` bits: a bit constraint.
    Uint { bits: u32 },
    /// A number up to `maxval`: a comparison and an assertion.
    UintMax { maxval: u64 },
    /// A native field element.
    Field,
}

/// The type of the numbers up to `max`: a bit count where they are all the
/// numbers of that many bits, a bound otherwise.
pub open spec fn is_unsigned(prim: Prim, max: u64) -> bool {
    match prim {
        Prim::Uint { bits } => max + 1 == two_to(bits as nat),
        Prim::UintMax { maxval } => maxval == max && forall|k: nat| max + 1 != #[trigger] two_to(k),
        Prim::Field => false,
    }
}

impl Prim {
    /// The type of the numbers up to `max`.
    pub fn unsigned(max: u64) -> (r: Prim)
        ensures
            is_unsigned(r, max),
    {
        let target: u128 = max as u128 + 1;
        let mut power: u128 = 1;
        let mut bits: u32 = 0;
        while power < target
            invariant
                target == max + 1,
                power == two_to(bits as nat),
                power <= 0x1_0000_0000_0000_0000u128,
                bits <= 64,
                bits > 0 ==> two_to((bits - 1) as nat) < target,
                bits == 64 ==> power == 0x1_0000_0000_0000_0000u128,
                bits < 64 ==> power <= 0x8000_0000_0000_0000u128,
            decreases 64 - bits,
        {
            proof {
                lemma_bits_bound(bits as nat);
                lemma_bits_bound((bits + 1) as nat);
            }
            power = power * 2;
            bits += 1;
        }
        if power == target {
            Prim::Uint { bits }
        } else {
            proof {
                assert forall|k: nat| max + 1 != #[trigger] two_to(k) by {
                    if k < bits {
                        if k < bits - 1 {
                            lemma_two_to_grows(k, (bits - 1) as nat);
                        }
                    } else if k > bits {
                        lemma_two_to_grows(bits as nat, k);
                    }
                }
            }
            Prim::UintMax { maxval: max }
        }
    }
}

/// What the type of the numbers up to `max` admits: exactly those; and it is a bit
/// count wherever a bit count says so.
pub proof fn law_type_of_the_numbers_up_to(prim: Prim, max: u64, n: nat, bits: u32)
    requires
        is_unsigned(prim, max),
    ensures
        match prim {
            Prim::Uint { bits: b } => n < two_to(b as nat) <==> n <= max,
            Prim::UintMax { maxval } => n <= maxval <==> n <= max,
            Prim::Field => false,
        },
        two_to(bits as nat) == max + 1 ==> prim == (Prim::Uint { bits }),
{
    if let Prim::Uint { bits: b } = prim {
        if b < bits {
            lemma_two_to_grows(b as nat, bits as nat);
        } else if bits < b {
            lemma_two_to_grows(bits as nat, b as nat);
        }
    }
}

proof fn lemma_bits_bound(k: nat)
    ensures
        k <= 63 ==> two_to(k) <= 0x8000_0000_0000_0000,
        k == 64 ==> two_to(k) == 0x1_0000_0000_0000_0000,
{
    assert(two_to(63) == 0x8000_0000_0000_0000) by {
        reveal_with_fuel(two_to, 64);
    }
    if k < 63 {
        lemma_two_to_grows(k, 63);
    }
}

/// `n` copies of a list, one after the other.
pub open spec fn repeated<A>(list: Seq<A>, n: nat) -> Seq<A>
    decreases n,
{
    if n == 0 {
        Seq::empty()
    } else {
        repeated(list, (n - 1) as nat) + list
    }
}

/// Every item of a list repeated is the list's.
pub proof fn law_repeated<A>(list: Seq<A>, n: nat, k: nat, j: nat)
    requires
        k < n,
        j < list.len(),
    ensures
        repeated(list, n).len() == n * list.len(),
        k * list.len() + j < repeated(list, n).len(),
        repeated(list, n)[(k * list.len() + j) as int] == list[j as int],
    decreases n,
{
    let len = list.len();
    lemma_repeated_len(list, n);
    lemma_repeated_len(list, (n - 1) as nat);
    assert((n - 1) * len + len == n * len) by (nonlinear_arith);
    if k < n - 1 {
        law_repeated(list, (n - 1) as nat, k, j);
    } else {
        assert(k * len == (n - 1) * len);
    }
}

/// As many items as the list has, `n` times.
pub proof fn lemma_repeated_len<A>(list: Seq<A>, n: nat)
    ensures
        repeated(list, n).len() == n * list.len(),
    decreases n,
{
    let len = list.len();
    if n > 0 {
        lemma_repeated_len(list, (n - 1) as nat);
        assert((n - 1) * len + len == n * len) by (nonlinear_arith);
    } else {
        assert(0 * len == 0) by (nonlinear_arith);
    }
}

/// The decimal digits of a number.
pub open spec fn decimal(n: nat) -> Seq<char>
    decreases n,
{
    if n < 10 {
        digit(n)
    } else {
        decimal(n / 10) + digit(n % 10)
    }
}

/// A digit.
pub open spec fn digit(n: nat) -> Seq<char> {
    if n == 0 {
        "0"@
    } else if n == 1 {
        "1"@
    } else if n == 2 {
        "2"@
    } else if n == 3 {
        "3"@
    } else if n == 4 {
        "4"@
    } else if n == 5 {
        "5"@
    } else if n == 6 {
        "6"@
    } else if n == 7 {
        "7"@
    } else if n == 8 {
        "8"@
    } else {
        "9"@
    }
}

fn digit_text(n: usize) -> (r: &'static str)
    requires
        n < 10,
    ensures
        r@ == digit(n as nat),
{
    match n {
        0 => "0",
        1 => "1",
        2 => "2",
        3 => "3",
        4 => "4",
        5 => "5",
        6 => "6",
        7 => "7",
        8 => "8",
        _ => "9",
    }
}

/// The decimal digits of a number.
pub fn decimal_text(n: usize) -> (r: String)
    ensures
        r@ == decimal(n as nat),
    decreases n,
{
    if n < 10 {
        digit_text(n).to_owned()
    } else {
        let mut r = decimal_text(n / 10);
        r.append(digit_text(n % 10));
        r
    }
}

/// The number these characters are, read as decimal digits.
pub open spec fn digits_value(text: Seq<char>) -> nat
    decreases text.len(),
{
    if text.len() == 0 {
        0
    } else {
        (digits_value(text.drop_last()) * 10 + (text.last() as int - '0' as int)) as nat
    }
}

/// The decimal digits of a number read back as the number, and there is no zero
/// before them.
pub proof fn law_decimal_reads_back(n: nat)
    ensures
        digits_value(decimal(n)) == n,
        decimal(n).len() > 0,
        forall|i: int| 0 <= i < decimal(n).len() ==> '0' <= #[trigger] decimal(n)[i] <= '9',
        n > 0 ==> decimal(n)[0] != '0',
    decreases n,
{
    lemma_digit(n % 10);
    if n < 10 {
        assert(decimal(n).drop_last() =~= Seq::<char>::empty());
        assert(digits_value(Seq::<char>::empty()) == 0);
    } else {
        let (lead, last) = (decimal(n / 10), digit(n % 10));
        law_decimal_reads_back(n / 10);
        assert(decimal(n) == lead + last);
        assert((lead + last).drop_last() =~= lead);
        assert((lead + last).last() == last[0]);
        assert(decimal(n)[0] == lead[0]);
        assert forall|i: int| 0 <= i < decimal(n).len() implies '0' <= #[trigger] decimal(n)[i] <= '9' by {
            if i < lead.len() {
                assert(decimal(n)[i] == lead[i]);
            } else {
                assert(decimal(n)[i] == last[0]);
            }
        }
    }
}

proof fn lemma_digit(n: nat)
    requires
        n < 10,
    ensures
        digit(n).len() == 1,
        digit(n)[0] as int == '0' as int + n,
{
    reveal_strlit("0");
    reveal_strlit("1");
    reveal_strlit("2");
    reveal_strlit("3");
    reveal_strlit("4");
    reveal_strlit("5");
    reveal_strlit("6");
    reveal_strlit("7");
    reveal_strlit("8");
    reveal_strlit("9");
}

/// The name of a part of an argument: `path_part`.
pub open spec fn part_name(path: Seq<char>, part: Seq<char>) -> Seq<char> {
    path + "_"@ + part
}

/// The name of a part of an argument.
pub fn part(path: &str, name: &str) -> (r: String)
    ensures
        r@ == part_name(path@, name@),
{
    let mut r: String = path.to_owned();
    r.append("_");
    r.append(name);
    r
}

/// A part's name is the argument's, an underscore and the part.
pub proof fn law_part_name(path: Seq<char>, part: Seq<char>)
    ensures
        part_name(path, part).len() == path.len() + 1 + part.len(),
        part_name(path, part).take(path.len() as int) == path,
        part_name(path, part)[path.len() as int] == '_',
        part_name(path, part).skip(path.len() as int + 1) == part,
{
    reveal_strlit("_");
    assert(part_name(path, part).take(path.len() as int) =~= path);
    assert(part_name(path, part).skip(path.len() as int + 1) =~= part);
}

/// How a type is laid out in argument slots.
pub trait CircuitAbi {
    /// How many slots it takes.
    spec fn slot_count() -> nat;

    /// What each slot is stored as.
    spec fn atom_list() -> Seq<AlignmentAtom>;

    /// What each slot holds.
    spec fn prim_list() -> Seq<Prim>;

    /// How many slots it takes.
    fn slots() -> (r: usize)
        requires
            Self::slot_count() <= usize::MAX,
        ensures
            r == Self::slot_count(),
    ;

    /// Appends what each slot is stored as.
    fn push_atoms(atoms: &mut Vec<AlignmentAtom>)
        ensures
            final(atoms)@ == old(atoms)@ + Self::atom_list(),
    ;

    /// Appends what each slot holds.
    fn push_prims(prims: &mut Vec<Prim>)
        ensures
            final(prims)@ == old(prims)@ + Self::prim_list(),
    ;
}

/// What the circuit notes where an argument is out of range.
pub open spec fn out_of_range() -> Seq<char> {
    "an argument is out of its type's range"@
}

/// What a run notes where an argument has more bits than a wire.
pub open spec fn no_element() -> Seq<char> {
    "an argument is no field element"@
}

/// A type an argument can have.
pub trait CircuitArg: CircuitAbi + Sized {
    /// Whether the type can be declared at all.
    spec fn declarable() -> bool;

    /// The run after declaring an argument under `path`, and the argument.
    spec fn declared(run: Run, path: Seq<char>) -> (Run, Self);

    /// Whether the argument's constraint holds.
    spec fn in_range(self) -> bool;

    /// The argument's slots.
    spec fn slot_values(self) -> Seq<Seq<u8>>;

    /// What a declaration gives back of an argument's slots: handed a value's slots,
    /// it gives the value, one name for each slot, and leaves the other arguments.
    proof fn law_declares_its_slots(
        run: Run,
        path: Seq<char>,
        value: Self,
        more: Seq<Seq<u8>>,
    )
        requires
            run.inputs == value.slot_values() + more,
        ensures
            Self::declared(run, path).1 == value,
            Self::declared(run, path).0 == (Run {
                inputs: more,
                args: Self::declared(run, path).0.args,
                ..run
            }),
            value.slot_values().len() == Self::slot_count(),
            Self::declared(run, path).0.args.len() == run.args.len() + Self::slot_count(),
            Self::declared(run, path).0.args.take(run.args.len() as int) == run.args,
    ;

    /// The atoms and the primitives are one for each slot.
    proof fn law_one_atom_per_slot()
        ensures
            Self::atom_list().len() == Self::slot_count(),
            Self::prim_list().len() == Self::slot_count(),
    ;

    /// Declares an argument under `path`.
    fn declare(c: &mut Circuit3, path: &str) -> (r: Self)
        requires
            Self::declarable(),
        ensures
            (final(c)@, r) == Self::declared(old(c)@, path@),
    ;

    /// Whether the argument's constraint holds.
    fn check_range(&self) -> (r: bool)
        ensures
            r == self.in_range(),
    ;

    /// Appends the argument's slots.
    fn push_slots(&self, slots: &mut Vec<Vec<u8>>)
        ensures
            strings(final(slots)@) == strings(old(slots)@) + self.slot_values(),
    ;
}

/// Constrains an argument to its type's range.
pub fn constrain<T: CircuitArg>(arg: &T, c: &mut Circuit3)
    ensures
        final(c)@ == old(c)@.check(arg.in_range(), out_of_range()),
        final(c)@ == old(c)@.check(arg.in_range(), "an argument is out of its type's range"@),
{
    let ok: bool = arg.check_range();
    c.check(ok, "an argument is out of its type's range");
}

/// The label a value is disclosed under.
pub trait DisclosureLabel {
    /// The label.
    const LABEL: &'static str;
}

/// A private value that can be made public.
pub trait Disclose: Sized {
    type Public;

    /// The run after disclosing under a label.
    spec fn disclosing(run: Run, label: Seq<char>) -> Run;

    /// The same value, public.
    spec fn public(self) -> Self::Public;

    /// Discloses the value under the label `L`.
    fn disclose_as<L: DisclosureLabel>(self, c: &mut Circuit3) -> (r: Self::Public)
        ensures
            r == self.public(),
            final(c)@ == Self::disclosing(old(c)@, L::LABEL@),
    ;
}

impl<const BITS: u32, V: Vis3> CircuitAbi for Uint<BITS, V> {
    open spec fn slot_count() -> nat {
        1
    }

    open spec fn atom_list() -> Seq<AlignmentAtom> {
        seq![AlignmentAtom::Bytes { length: byte_width(BITS) }]
    }

    open spec fn prim_list() -> Seq<Prim> {
        seq![Prim::Uint { bits: BITS }]
    }

    fn slots() -> (r: usize) {
        1
    }

    fn push_atoms(atoms: &mut Vec<AlignmentAtom>) {
        atoms.push(AlignmentAtom::Bytes { length: bytes_for(BITS) });
        assert(atoms@ =~= old(atoms)@ + Self::atom_list());
    }

    fn push_prims(prims: &mut Vec<Prim>) {
        prims.push(Prim::Uint { bits: BITS });
        assert(prims@ =~= old(prims)@ + Self::prim_list());
    }
}

impl<const BITS: u32> CircuitArg for Uint<BITS, Private> {
    open spec fn declarable() -> bool {
        true
    }

    open spec fn declared(run: Run, path: Seq<char>) -> (Run, Self) {
        let (run, bytes) = run.arg(path);
        (
            run.check(le_value(bytes) < limit(), no_element()),
            Uint { value: number_of(bytes), vis: PhantomData },
        )
    }

    open spec fn in_range(self) -> bool {
        self.fits()
    }

    open spec fn slot_values(self) -> Seq<Seq<u8>> {
        seq![trimmed(le_bytes(self.value@, 32))]
    }

    proof fn law_declares_its_slots(
        run: Run,
        path: Seq<char>,
        value: Self,
        more: Seq<Seq<u8>>,
    ) {
        law_declared_number(run, path, value, more);
        assert(run.args.push(path).take(run.args.len() as int) =~= run.args);
    }

    proof fn law_one_atom_per_slot() {
    }

    fn declare(c: &mut Circuit3, path: &str) -> (r: Self) {
        let bytes = c.arg(path);
        let number = Number::from_le(&bytes);
        c.check(number.is_some(), "an argument is no field element");
        match number {
            Some(value) => {
                proof {
                    lemma_is_exactly(value);
                }
                Uint { value, vis: PhantomData }
            },
            None => Uint::of(0),
        }
    }

    fn check_range(&self) -> (r: bool) {
        proof {
            lemma_limits();
            lemma_is_exactly(self.value);
            if BITS > 256 {
                lemma_two_to_grows(256, BITS as nat);
            }
        }
        BITS >= 256 || self.value.below(&Number::two_to_the(BITS))
    }

    fn push_slots(&self, slots: &mut Vec<Vec<u8>>) {
        let bytes = self.value.to_le(32);
        slots.push(trim(bytes.as_slice()));
        assert(strings(slots@) =~= strings(old(slots)@) + self.slot_values());
    }
}

impl<const BITS: u32> Disclose for Uint<BITS, Private> {
    type Public = Uint<BITS, Public>;

    open spec fn disclosing(run: Run, label: Seq<char>) -> Run {
        run.disclose(label)
    }

    open spec fn public(self) -> Uint<BITS, Public> {
        Uint { value: self.value, vis: PhantomData }
    }

    fn disclose_as<L: DisclosureLabel>(self, c: &mut Circuit3) -> (r: Uint<BITS, Public>)
        ensures
            r.value@ == self.value@,
            final(c)@.disclosed == old(c)@.disclosed.push(L::LABEL@),
    {
        c.disclose(L::LABEL);
        Uint { value: self.value, vis: PhantomData }
    }
}

/// A number is one slot: of as many bits as the number, stored in as many bytes as
/// these take.
pub proof fn law_slot_of_a_number<const BITS: u32, V: Vis3>()
    ensures
        Uint::<BITS, V>::slot_count() == 1,
        Uint::<BITS, V>::prim_list() == seq![Prim::Uint { bits: BITS }],
        Uint::<BITS, V>::atom_list().len() == 1,
        Uint::<BITS, V>::atom_list()[0] matches AlignmentAtom::Bytes { length } && BITS <= 8
            * length < BITS + 8,
{
}

/// Disclosing a number changes who may see it and not the number, and adds its
/// label, and nothing else, to the run.
pub proof fn law_disclosed_number<const BITS: u32>(
    value: Uint<BITS, Private>,
    run: Run,
    label: Seq<char>,
)
    ensures
        value.public().value == value.value,
        <Uint<BITS, Private> as Disclose>::disclosing(run, label) == (Run {
            disclosed: run.disclosed.push(label),
            ..run
        }),
{
}

/// What a declaration gives back of an argument's slots: handed a number's slots,
/// it gives the number, under its name, and leaves the other arguments.
pub proof fn law_declared_number<const BITS: u32>(
    run: Run,
    path: Seq<char>,
    value: Uint<BITS, Private>,
    more: Seq<Seq<u8>>,
)
    requires
        run.inputs == value.slot_values() + more,
    ensures
        <Uint<BITS, Private> as CircuitArg>::declared(run, path) == (
            Run { inputs: more, args: run.args.push(path), ..run },
            value,
        ),
        value.in_range() <==> value.value@ < two_to(BITS as nat),
        value.slot_values().len() == Uint::<BITS, Private>::slot_count(),
        Uint::<BITS, Private>::atom_list().len() == Uint::<BITS, Private>::slot_count(),
        Uint::<BITS, Private>::prim_list().len() == Uint::<BITS, Private>::slot_count(),
{
    lemma_limits();
    lemma_is_exactly(value.value);
    law_le_round_trip(value.value@, 32);
    law_trimming_keeps_the_number(le_bytes(value.value@, 32));
    assert((value.slot_values() + more).skip(1) =~= more);
}

/// An argument with more bits than a wire is noted.
pub proof fn law_no_element_is_noted<const BITS: u32>(run: Run, path: Seq<char>)
    requires
        run.guard,
        run.unmet is None,
        run.inputs.len() > 0,
    ensures
        <Uint<BITS, Private> as CircuitArg>::declared(run, path).0.unmet == if le_value(
            run.inputs[0],
        ) < two_to(256) {
            None
        } else {
            Some("an argument is no field element"@)
        },
        le_value(run.inputs[0]) < two_to(256) ==> <Uint<BITS, Private> as CircuitArg>::declared(
            run,
            path,
        ).1.value@ == le_value(run.inputs[0]),
{
    lemma_limits();
    if le_value(run.inputs[0]) < two_to(256) {
        lemma_exactly(le_value(run.inputs[0]));
    }
}

} // verus!
