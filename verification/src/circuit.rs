//! A run of a circuit: the public program it leaves for the ledger.
//!
//! A run takes the values its reads are claimed to return, emits ops for what
//! it does inline, collects the hooks attached to it, and notes the first
//! assertion that does not hold. Hooks come after the whole body, in the order
//! they were attached. Under a guard that is off nothing is emitted, read,
//! attached or asserted.
use crate::assumed::Assumed;
use crate::fab::{
    capacity, copy_bytes, law_le_round_trip, law_trimming_keeps_the_number, le_bytes, le_value,
    Aligned, AlignedValue, AlignmentAtom,
};
use crate::hook::Hook;
use crate::impact::{
    assumed, cell_write_at, flag_of, flag_test, joined, law_flag_test, law_member_test,
    law_read_is_an_assumption, map_insert_at, map_remove_at, member_test, performs, present, program, read_at, read_member_at, read_member_ops,
    read_ops, remove_ops, step_down, truth, write_ops, ImpactOp, Op,
};
use crate::layout::FieldPath;
use crate::ledger::{steps, LedgerCell, LedgerMap, LedgerPath};
use crate::wire::{
    align, aligned_as, blank_limbs, fit_atoms, law_one_is_true, ledger_value, limbs_fit, stored,
    strings, Bool, LedgerRepr, Public,
};
use core::marker::PhantomData;
use vstd::prelude::*;

verus! {

// ---- the model ------------------------------------------------------------------------

/// The model of a run.
pub struct Run {
    /// The body's program.
    pub ops: Seq<Op>,
    /// The attached hooks, in order.
    pub deferred: Seq<Op>,
    /// How many hooks are attached.
    pub hooks: nat,
    /// Whether the ambient guard is on.
    pub guard: bool,
    /// Whether the run is inside a private guard.
    pub private: bool,
    /// The byte strings of the next arguments.
    pub inputs: Seq<Seq<u8>>,
    /// The names of the arguments declared so far.
    pub args: Seq<Seq<char>>,
    /// The labels under which values were disclosed.
    pub disclosed: Seq<Seq<char>>,
    /// The byte strings that the next reads are claimed to return.
    pub supplied: Seq<Seq<Seq<u8>>>,
    /// The byte strings of the reads that were named as assumed.
    pub acknowledged: Seq<Seq<u8>>,
    /// The first assertion that did not hold.
    pub unmet: Option<Seq<char>>,
}

/// What the run notes where a read finds no value of its shape supplied.
pub open spec fn no_value() -> Seq<char> {
    "a read found no value of its shape supplied"@
}

impl Run {
    /// Under the guard, these ops.
    pub open spec fn emit(self, ops: Seq<Op>) -> Run {
        if self.guard {
            Run { ops: self.ops + ops, ..self }
        } else {
            self
        }
    }

    /// Under the guard, this hook.
    pub open spec fn attach(self, hook: Seq<Op>) -> Run {
        if self.guard {
            Run { deferred: self.deferred + hook, hooks: self.hooks + 1, ..self }
        } else {
            self
        }
    }

    /// Under the guard, this condition.
    pub open spec fn check(self, holds: bool, message: Seq<char>) -> Run {
        if self.guard && !holds && self.unmet is None {
            Run { unmet: Some(message), ..self }
        } else {
            self
        }
    }

    /// The next argument, declared under this name.
    pub open spec fn arg(self, name: Seq<char>) -> (Run, Seq<u8>) {
        (
            Run {
                inputs: if self.inputs.len() > 0 {
                    self.inputs.skip(1)
                } else {
                    self.inputs
                },
                args: self.args.push(name),
                ..self
            },
            if self.inputs.len() > 0 {
                self.inputs[0]
            } else {
                Seq::empty()
            },
        )
    }

    /// A disclosure under this label.
    pub open spec fn disclose(self, label: Seq<char>) -> Run {
        Run { disclosed: self.disclosed.push(label), ..self }
    }

    /// Whether the next supplied value is one that these atoms store.
    pub open spec fn has_value(self, atoms: Seq<AlignmentAtom>) -> bool {
        self.supplied.len() > 0 && fit_atoms(self.supplied[0], atoms)
    }

    /// What a read of these atoms returns.
    pub open spec fn next_value(self, atoms: Seq<AlignmentAtom>) -> Seq<Seq<u8>> {
        if self.guard && self.has_value(atoms) {
            self.supplied[0]
        } else {
            blank_limbs(atoms.len())
        }
    }

    /// The run without the value a read takes.
    pub open spec fn take_value(self, atoms: Seq<AlignmentAtom>) -> Run {
        if !self.guard {
            self
        } else if self.has_value(atoms) {
            Run { supplied: self.supplied.skip(1), ..self }
        } else {
            self.check(false, no_value())
        }
    }

    /// A read, as `T`, of what is at `path`.
    pub open spec fn read<T: LedgerRepr>(self, path: Seq<Aligned>) -> (Run, T) {
        let limbs = self.next_value(T::shape());
        let claimed = Aligned { value: limbs, alignment: aligned_as(T::shape()) };
        (self.take_value(T::shape()).emit(read_ops(path, claimed)), T::of_limbs(limbs))
    }

    /// A read of whether the map at `path` has `key`.
    pub open spec fn read_member(self, path: Seq<Aligned>, key: Aligned) -> (Run, bool) {
        let bit = Bool::<Public>::shape();
        let present = le_value(self.next_value(bit)[0]) == 1;
        (self.take_value(bit).emit(read_member_ops(path, key, present)), present)
    }

    /// Under the guard, the byte strings of a read, named as assumed.
    pub open spec fn acknowledge(self, limbs: Seq<Seq<u8>>) -> Run {
        if self.guard {
            Run { acknowledged: self.acknowledged + limbs, ..self }
        } else {
            self
        }
    }

    /// The public program: the body, then the hooks.
    pub open spec fn program(self) -> Seq<Op> {
        self.ops + self.deferred
    }
}

/// Whether two runs leave the same trace: they differ in nothing but the arguments
/// declared and the values disclosed, which no guard holds back.
pub open spec fn same_trace(a: Run, b: Run) -> bool {
    a == (Run { inputs: a.inputs, args: a.args, disclosed: a.disclosed, ..b })
}

/// What a read gives back of a write: supplied with a value's stored form, a
/// read returns the value, and its op lands exactly where the slot holds that
/// stored form, changing nothing.
pub proof fn law_read_gives_back_the_stored_value<T: LedgerRepr>(
    run: Run,
    path: Seq<Aligned>,
    value: T,
)
    requires
        run.guard,
        value.storable(),
        run.supplied.len() > 0,
        run.supplied[0] == value.limbs(),
    ensures
        run.read::<T>(path) == (
            Run {
                ops: run.ops + read_ops(path, stored(value)),
                supplied: run.supplied.skip(1),
                ..run
            },
            value,
        ),
        performs(read_ops(path, stored(value)), assumed(flag_of(path), stored(value))),
{
    T::law_reads_back(value);
    law_flag_test(path);
    law_read_is_an_assumption(flag_test(path), flag_of(path), stored(value));
}

/// What is stored of a truth value reads back as that value.
pub proof fn lemma_stored_truth(b: bool)
    ensures
        fit_atoms(truth(b)->Cell_0.value, Bool::<Public>::shape()),
        le_value(truth(b)->Cell_0.value[0]) == if b {
            1nat
        } else {
            0nat
        },
{
    let value: Bool<Public> = Bool { value: b, vis: PhantomData };
    Bool::<Public>::law_reads_back(value);
    assert(truth(b)->Cell_0.value =~= value.limbs());
    let v: nat = if b {
        1
    } else {
        0
    };
    assert(capacity(1) == 256) by {
        reveal_with_fuel(capacity, 2);
    }
    law_le_round_trip(v, 1);
    law_trimming_keeps_the_number(le_bytes(v, 1));
}

/// A hook runs after the whole body: where it is attached does not matter.
pub proof fn law_hooks_run_after_the_body(run: Run, hook: Seq<Op>, ops: Seq<Op>)
    ensures
        run.attach(hook).emit(ops) == run.emit(ops).attach(hook),
        run.guard ==> run.attach(hook).emit(ops).program() == run.ops + ops + run.deferred + hook,
{
    assert(run.attach(hook).emit(ops).ops =~= run.emit(ops).attach(hook).ops);
    assert((run.ops + ops) + (run.deferred + hook) =~= run.ops + ops + run.deferred + hook);
}

/// Hooks run in the order they were attached.
pub proof fn law_hooks_run_in_order(run: Run, first: Seq<Op>, second: Seq<Op>)
    requires
        run.guard,
    ensures
        run.attach(first).attach(second).program() == run.program() + first + second,
{
    assert(run.attach(first).attach(second).program() =~= run.program() + first + second);
}

/// Under a guard that is off, nothing a circuit does leaves a trace: it emits,
/// reads, attaches, asserts and names nothing. An argument is still declared and a
/// value still disclosed.
pub proof fn law_a_guard_that_is_off_leaves_no_trace<T: LedgerRepr>(
    run: Run,
    ops: Seq<Op>,
    path: Seq<Aligned>,
    key: Aligned,
    holds: bool,
    message: Seq<char>,
    limbs: Seq<Seq<u8>>,
)
    requires
        !run.guard,
    ensures
        same_trace(run.arg(message).0, run),
        same_trace(run.disclose(message), run),
        run.acknowledge(limbs) == run,
        run.emit(ops) == run,
        run.attach(ops) == run,
        run.check(holds, message) == run,
        run.read::<T>(path).0 == run,
        run.read_member(path, key).0 == run,
{
}

/// What a run emits, names and shows it adds behind what it has, and changes nothing
/// else.
pub proof fn law_a_run_adds_to_what_it_has(
    run: Run,
    ops: Seq<Op>,
    limbs: Seq<Seq<u8>>,
    label: Seq<char>,
)
    ensures
        run.guard ==> run.emit(ops) == (Run { ops: run.ops + ops, ..run }),
        run.guard ==> run.attach(ops) == (Run {
            deferred: run.deferred + ops,
            hooks: run.hooks + 1,
            ..run
        }),
        run.guard ==> run.acknowledge(limbs) == (Run {
            acknowledged: run.acknowledged + limbs,
            ..run
        }),
        run.disclose(label) == (Run { disclosed: run.disclosed.push(label), ..run }),
        run.program() == run.ops + run.deferred,
{
}

/// Of the assertions that do not hold the first is noted, and one that holds is
/// not.
pub proof fn law_the_first_unmet_is_noted(
    run: Run,
    first: Seq<char>,
    holds: bool,
    later: Seq<char>,
)
    requires
        run.guard,
        run.unmet is None,
    ensures
        run.check(true, first) == run,
        run.check(false, first) == (Run { unmet: Some(first), ..run }),
        run.check(false, first).check(holds, later) == run.check(false, first),
{
}

/// Arguments are handed out in order, each under the name it is declared with; past
/// the last one they are empty.
pub proof fn law_arguments_in_order(run: Run, first: Seq<char>, second: Seq<char>)
    ensures
        run.arg(first).0.args == run.args.push(first),
        run.arg(first).0.arg(second).0.args == run.args.push(first).push(second),
        run.inputs.len() >= 1 ==> run.arg(first).1 == run.inputs[0],
        run.inputs.len() >= 2 ==> run.arg(first).0.arg(second).1 == run.inputs[1],
        run.inputs.len() >= 1 ==> run.arg(first).0.inputs == run.inputs.skip(1),
        run.inputs.len() == 0 ==> run.arg(first).1.len() == 0 && run.arg(first).0.inputs
            == run.inputs,
        run.arg(first).0 == (Run {
            inputs: run.arg(first).0.inputs,
            args: run.arg(first).0.args,
            ..run
        }),
{
}

/// A read that finds no value of its shape notes that, takes none, and goes on with
/// the type's zero.
pub proof fn law_a_read_without_a_value<T: LedgerRepr>(run: Run, path: Seq<Aligned>)
    requires
        run.guard,
        run.supplied.len() == 0 || !fit_atoms(run.supplied[0], T::shape()),
    ensures
        run.read::<T>(path).1 == T::of_limbs(Seq::new(T::shape().len(), |i: int| Seq::<u8>::empty())),
        run.read::<T>(path).0.supplied == run.supplied,
        run.unmet is None ==> run.read::<T>(path).0.unmet == Some(
            "a read found no value of its shape supplied"@,
        ),
        run.unmet is Some ==> run.read::<T>(path).0.unmet == run.unmet,
{
}

/// A read that is handed no value claims the type's zero, and one of a key's presence
/// that the key is not there. Under a guard that is off every read is handed none,
/// whatever is supplied.
pub proof fn law_a_read_of_nothing<T: LedgerRepr>(run: Run, path: Seq<Aligned>, key: Aligned)
    ensures
        !run.guard ==> run.read::<T>(path).1 == T::of_limbs(
            Seq::new(T::shape().len(), |i: int| Seq::<u8>::empty()),
        ),
        !run.guard || run.supplied.len() == 0 ==> !run.read_member(path, key).1,
        run.guard && run.supplied.len() == 0 ==> run.read::<T>(path).0.ops == run.ops + read_ops(
            path,
            (Aligned {
                value: Seq::new(T::shape().len(), |i: int| Seq::<u8>::empty()),
                alignment: aligned_as(T::shape()),
            }),
        ),
        run.guard && run.supplied.len() == 0 ==> run.read_member(path, key).0.ops == run.ops
            + read_member_ops(path, key, false),
{
    let bit = Bool::<Public>::shape();
    if !run.guard || run.supplied.len() == 0 {
        assert(run.next_value(bit)[0] =~= Seq::<u8>::empty());
    }
}

/// A key is read as present exactly where one is supplied, under a guard that is on.
pub proof fn law_one_is_present(run: Run, path: Seq<Aligned>, key: Aligned)
    ensures
        run.read_member(path, key).1 <==> run.guard && run.supplied.len() > 0 && run.supplied[0]
            == seq![seq![1u8]],
{
    let bit = Bool::<Public>::shape();
    if run.guard && run.has_value(bit) {
        law_one_is_true(run.supplied[0]);
    } else {
        assert(run.next_value(bit)[0] =~= Seq::<u8>::empty());
        if run.supplied.len() > 0 && run.supplied[0] == seq![seq![1u8]] {
            assert(fit_atoms(run.supplied[0], bit));
        }
    }
}

/// What a read of a key's presence gives back: supplied with a truth value, it
/// returns that, and its op lands exactly where the map has the key or has not,
/// accordingly.
pub proof fn law_a_presence_reads_back(run: Run, path: Seq<Aligned>, key: Aligned, there: bool)
    requires
        run.guard,
        run.supplied.len() > 0,
        run.supplied[0] == truth(there)->Cell_0.value,
    ensures
        run.read_member(path, key) == (
            Run {
                ops: run.ops + read_member_ops(path, key, there),
                supplied: run.supplied.skip(1),
                ..run
            },
            there,
        ),
        performs(
            read_member_ops(path, key, there),
            assumed(present(path, key), truth(there)->Cell_0),
        ),
{
    lemma_stored_truth(there);
    law_member_test(path, key);
    law_read_is_an_assumption(member_test(path, key), present(path, key), truth(there)->Cell_0);
}

/// A fresh run has done nothing, and its guard is on.
pub proof fn law_a_fresh_run(inputs: Seq<Seq<u8>>, supplied: Seq<Seq<Seq<u8>>>)
    ensures
        ({
            let run = fresh(inputs, supplied);
            &&& run.program().len() == 0
            &&& run.hooks == 0
            &&& run.guard
            &&& !run.private
            &&& run.inputs == inputs
            &&& run.supplied == supplied
            &&& run.args.len() == 0
            &&& run.disclosed.len() == 0
            &&& run.acknowledged.len() == 0
            &&& run.unmet is None
        }),
{
}

// ---- running ------------------------------------------------------------------------------

/// Why a circuit refuses.
#[derive(Clone, Copy, PartialEq, Eq, Structural, Debug)]
pub enum CircuitRefusal {
    /// A hook inside a private guard: whether it ran would be public.
    PrivateHook,
}

impl CircuitRefusal {
    /// The rule, in words.
    pub fn message(&self) -> (r: &'static str)
        ensures
            r@ == "a hook cannot be attached inside `when_private`: whether it ran is public"@,
    {
        "a hook cannot be attached inside `when_private`: whether it ran is public"
    }
}

/// The model of the supplied values.
pub open spec fn claims(supplied: Seq<Vec<Vec<u8>>>) -> Seq<Seq<Seq<u8>>> {
    supplied.map_values(|limbs: Vec<Vec<u8>>| strings(limbs@))
}

/// A run of a circuit.
pub struct Circuit3 {
    ops: Vec<ImpactOp>,
    deferred: Vec<ImpactOp>,
    /// One entry per attached hook.
    hooks: Vec<bool>,
    guard: bool,
    private: bool,
    /// In reverse, so that the next one is last.
    inputs: Vec<Vec<u8>>,
    args: Vec<String>,
    disclosed: Vec<String>,
    /// In reverse, so that the next one is last.
    supplied: Vec<Vec<Vec<u8>>>,
    acknowledged: Vec<Vec<u8>>,
    unmet: Option<String>,
}

/// A copy of byte strings.
pub fn copy_limbs(limbs: &Vec<Vec<u8>>) -> (r: Vec<Vec<u8>>)
    ensures
        strings(r@) == strings(limbs@),
{
    let mut r: Vec<Vec<u8>> = Vec::new();
    let mut i: usize = 0;
    while i < limbs.len()
        invariant
            i <= limbs@.len(),
            r@.len() == i,
            forall|j: int| 0 <= j < i ==> (#[trigger] r@[j])@ == limbs@[j]@,
        decreases limbs@.len() - i,
    {
        r.push(copy_bytes(limbs[i].as_slice()));
        i += 1;
    }
    assert(strings(r@) =~= strings(limbs@));
    r
}

/// The model of a list of texts.
pub open spec fn texts(list: Seq<String>) -> Seq<Seq<char>> {
    list.map_values(|text: String| text@)
}

fn reversed<T>(list: Vec<T>) -> (r: Vec<T>)
    ensures
        r@ == list@.reverse(),
{
    let ghost all = list@;
    let mut left = list;
    let mut r: Vec<T> = Vec::new();
    while left.len() > 0
        invariant
            left@.len() + r@.len() == all.len(),
            left@ == all.take(left@.len() as int),
            forall|i: int| 0 <= i < r@.len() ==> #[trigger] r@[i] == all[all.len() - 1 - i],
        decreases left@.len(),
    {
        let ghost n = left@.len();
        match left.pop() {
            Some(item) => {
                assert(item == all[n - 1]);
                r.push(item);
            },
            None => {},
        }
        assert(left@ =~= all.take(left@.len() as int));
    }
    assert(r@ =~= all.reverse());
    r
}

impl Circuit3 {
    pub closed spec fn view(&self) -> Run {
        Run {
            ops: program(self.ops@),
            deferred: program(self.deferred@),
            hooks: self.hooks@.len(),
            guard: self.guard,
            private: self.private,
            inputs: strings(self.inputs@).reverse(),
            args: texts(self.args@),
            disclosed: texts(self.disclosed@),
            supplied: claims(self.supplied@).reverse(),
            acknowledged: strings(self.acknowledged@),
            unmet: match self.unmet {
                Some(message) => Some(message@),
                None => None,
            },
        }
    }

    /// A run without arguments, and with nothing supplied.
    pub fn new() -> (r: Self)
        ensures
            r@ == fresh(Seq::empty(), Seq::empty()),
    {
        let none: Vec<Vec<Vec<u8>>> = Vec::new();
        let blank: Vec<Vec<u8>> = Vec::new();
        assert(claims(none@) =~= Seq::<Seq<Seq<u8>>>::empty());
        assert(strings(blank@) =~= Seq::<Seq<u8>>::empty());
        Circuit3::with(blank, none)
    }

    /// A run with these arguments, whose reads are claimed to return these
    /// values, in order.
    pub fn with(inputs: Vec<Vec<u8>>, supplied: Vec<Vec<Vec<u8>>>) -> (r: Self)
        ensures
            r@ == fresh(strings(inputs@), claims(supplied@)),
    {
        let backward = reversed(inputs);
        let claimed = reversed(supplied);
        let r = Circuit3 {
            ops: Vec::new(),
            deferred: Vec::new(),
            hooks: Vec::new(),
            guard: true,
            private: false,
            inputs: backward,
            args: Vec::new(),
            disclosed: Vec::new(),
            supplied: claimed,
            acknowledged: Vec::new(),
            unmet: None,
        };
        proof {
            assert(claims(claimed@).reverse() =~= claims(supplied@));
            assert(strings(backward@).reverse() =~= strings(inputs@));
            assert(program(r.ops@) =~= Seq::<Op>::empty());
            assert(program(r.deferred@) =~= Seq::<Op>::empty());
            assert(strings(r.acknowledged@) =~= Seq::<Seq<u8>>::empty());
            assert(texts(r.args@) =~= Seq::<Seq<char>>::empty());
            assert(texts(r.disclosed@) =~= Seq::<Seq<char>>::empty());
        }
        r
    }

    /// Declares the next argument, under this name.
    pub fn arg(&mut self, name: &str) -> (r: Vec<u8>)
        ensures
            (final(self)@, r@) == old(self)@.arg(name@),
    {
        let ghost all = self.inputs@;
        self.args.push(name.to_owned());
        assert(texts(self.args@) =~= texts(old(self).args@).push(name@));
        proof {
            assert(strings(all).reverse().len() == all.len());
            if all.len() > 0 {
                assert(strings(all).reverse()[0] == all.last()@);
                assert(strings(all.drop_last()).reverse() =~= strings(all).reverse().skip(1));
            }
        }
        match self.inputs.pop() {
            Some(input) => {
                assert(self.inputs@ =~= all.drop_last());
                input
            },
            None => {
                let none: Vec<u8> = Vec::new();
                assert(none@ =~= Seq::<u8>::empty());
                assert(all.len() == 0);
                assert(self.inputs@ =~= all);
                none
            },
        }
    }

    /// The names of the arguments declared so far.
    pub fn args(&self) -> (r: &Vec<String>)
        ensures
            texts(r@) == self@.args,
    {
        &self.args
    }

    /// Notes a disclosure under this label.
    pub fn disclose(&mut self, label: &str)
        ensures
            final(self)@ == old(self)@.disclose(label@),
    {
        self.disclosed.push(label.to_owned());
        assert(texts(self.disclosed@) =~= texts(old(self).disclosed@).push(label@));
    }

    /// The labels under which values were disclosed.
    pub fn disclosed(&self) -> (r: &Vec<String>)
        ensures
            texts(r@) == self@.disclosed,
    {
        &self.disclosed
    }

    /// The body's program so far.
    pub fn ops(&self) -> (r: &Vec<ImpactOp>)
        ensures
            program(r@) == self@.ops,
    {
        &self.ops
    }

    /// How many hooks are attached.
    pub fn deferred_count(&self) -> (r: usize)
        ensures
            r == self@.hooks,
    {
        self.hooks.len()
    }

    /// The first assertion that did not hold.
    pub fn unmet(&self) -> (r: &Option<String>)
        ensures
            match *r {
                Some(message) => self@.unmet == Some(message@),
                None => self@.unmet is None,
            },
    {
        &self.unmet
    }

    /// The byte strings of the reads that were named as assumed.
    pub fn acknowledged(&self) -> (r: &Vec<Vec<u8>>)
        ensures
            strings(r@) == self@.acknowledged,
    {
        &self.acknowledged
    }

    /// Enters a guard; returns the one around it, to [`Self::leave`] with.
    pub fn enter(&mut self, guard: bool) -> (outer: bool)
        ensures
            outer == old(self)@.guard,
            final(self)@ == (Run { guard: old(self)@.guard && guard, ..old(self)@ }),
    {
        let outer: bool = self.guard;
        self.guard = outer && guard;
        outer
    }

    /// Leaves a guard.
    pub fn leave(&mut self, outer: bool)
        ensures
            final(self)@ == (Run { guard: outer, ..old(self)@ }),
    {
        self.guard = outer;
    }

    /// Enters a private guard; returns whether the run was in one already, to
    /// [`Self::leave_private`] with.
    pub fn enter_private(&mut self) -> (outer: bool)
        ensures
            outer == old(self)@.private,
            final(self)@ == (Run { private: true, ..old(self)@ }),
    {
        let outer: bool = self.private;
        self.private = true;
        outer
    }

    /// Whether the run is inside a private guard.
    pub fn is_private(&self) -> (r: bool)
        ensures
            r == self@.private,
    {
        self.private
    }

    /// Leaves a private guard.
    pub fn leave_private(&mut self, outer: bool)
        ensures
            final(self)@ == (Run { private: outer, ..old(self)@ }),
    {
        self.private = outer;
    }

    /// Emits ops inline.
    pub fn emit(&mut self, ops: Vec<ImpactOp>)
        ensures
            final(self)@ == old(self)@.emit(program(ops@)),
    {
        if self.guard {
            let mut more = ops;
            self.ops.append(&mut more);
            assert(program(self.ops@) =~= program(old(self).ops@) + program(ops@));
        }
    }

    /// Attaches a hook: it runs after the body. Refused inside a private guard.
    pub fn attach(&mut self, hook: Hook) -> (r: Result<(), CircuitRefusal>)
        ensures
            match r {
                Ok(()) => !old(self)@.private && final(self)@ == old(self)@.attach(hook@),
                Err(refusal) => refusal == CircuitRefusal::PrivateHook && old(self)@.private
                    && final(self)@ == old(self)@,
            },
    {
        if self.private {
            return Err(CircuitRefusal::PrivateHook);
        }
        if self.guard {
            let ghost inner = hook@;
            let mut more = hook.into_ops();
            let ghost added = more@;
            self.deferred.append(&mut more);
            self.hooks.push(true);
            assert(program(self.deferred@) =~= program(old(self).deferred@) + program(added));
        }
        Ok(())
    }

    /// Asserts a condition.
    pub fn check(&mut self, holds: bool, message: &str)
        ensures
            final(self)@ == old(self)@.check(holds, message@),
    {
        if self.guard && !holds && self.unmet.is_none() {
            self.unmet = Some(message.to_owned());
        }
    }

    /// The next supplied value, where these atoms store it; blank under a guard
    /// that is off, or where there is none.
    fn next_limbs(&mut self, atoms: &Vec<AlignmentAtom>) -> (r: Vec<Vec<u8>>)
        ensures
            strings(r@) == old(self)@.next_value(atoms@),
            final(self)@ == old(self)@.take_value(atoms@),
    {
        let ghost all = self.supplied@;
        proof {
            assert(claims(all).reverse().len() == all.len());
            if all.len() > 0 {
                assert(claims(all).reverse()[0] == strings(all.last()@));
            }
        }
        if self.guard {
            let count: usize = self.supplied.len();
            if count > 0 && limbs_fit(&self.supplied[count - 1], atoms) {
                match self.supplied.pop() {
                    Some(limbs) => {
                        proof {
                            assert(self.supplied@ =~= all.drop_last());
                            assert(claims(self.supplied@).reverse() =~= claims(all).reverse().skip(
                                1,
                            ));
                        }
                        return limbs;
                    },
                    None => {},
                }
            }
            self.check(false, "a read found no value of its shape supplied");
        }
        blank(atoms.len())
    }

    /// Reads what is at `path` as a `T`.
    pub fn read<T: LedgerRepr, P: LedgerPath>(&mut self, path: &P) -> (r: T)
        ensures
            (final(self)@, r) == old(self)@.read::<T>(path.keys()),
    {
        let atoms = T::atoms();
        let limbs = self.next_limbs(&atoms);
        let keys = path.ledger_path();
        assert(strings(limbs@).len() == limbs@.len());
        let r = T::from_limbs(&limbs, 0);
        assert(strings(limbs@).subrange(0, T::shape().len() as int) =~= strings(limbs@));
        let claimed = AlignedValue { value: limbs, alignment: align(&atoms) };
        assert(claimed@ =~= Aligned { value: strings(limbs@), alignment: aligned_as(T::shape()) });
        self.emit(read_at(&keys, &claimed));
        r
    }

    /// Reads whether the map at `path` has `key`.
    pub fn read_member<P: LedgerPath>(&mut self, path: &P, key: &AlignedValue) -> (r: bool)
        ensures
            (final(self)@, r) == old(self)@.read_member(path.keys(), key@),
    {
        let limbs = self.next_limbs(&Bool::<Public>::atoms());
        assert(strings(limbs@).len() == limbs@.len());
        let bit: Bool<Public> = Bool::from_limbs(&limbs, 0);
        assert(strings(limbs@).subrange(0, 1)[0] == strings(limbs@)[0]);
        let keys = path.ledger_path();
        self.emit(read_member_at(&keys, key, bit.value));
        bit.value
    }

    /// Names byte strings that a read returned as assumed.
    pub fn acknowledge_stale(&mut self, limbs: &Vec<Vec<u8>>)
        ensures
            final(self)@ == old(self)@.acknowledge(strings(limbs@)),
    {
        if self.guard {
            let mut more = copy_limbs(limbs);
            let ghost added = more@;
            self.acknowledged.append(&mut more);
            assert(strings(self.acknowledged@) =~= strings(old(self).acknowledged@) + strings(
                added,
            ));
        }
    }

    /// Puts the attached hooks behind the body.
    pub fn flush_deferred(&mut self)
        ensures
            final(self)@ == (Run {
                ops: old(self)@.program(),
                deferred: Seq::empty(),
                hooks: 0,
                ..old(self)@
            }),
    {
        let mut hooks: Vec<ImpactOp> = Vec::new();
        core::mem::swap(&mut hooks, &mut self.deferred);
        self.ops.append(&mut hooks);
        self.hooks = Vec::new();
        proof {
            assert(program(self.ops@) =~= program(old(self).ops@) + program(old(self).deferred@));
            assert(program(self.deferred@) =~= Seq::<Op>::empty());
        }
    }

    /// The public program: the body, then the hooks.
    pub fn finish(self) -> (r: Vec<ImpactOp>)
        ensures
            program(r@) == self@.program(),
    {
        joined(self.ops, self.deferred)
    }
}

impl Default for Circuit3 {
    fn default() -> (r: Self)
        ensures
            r@ == fresh(Seq::empty(), Seq::empty()),
    {
        Circuit3::new()
    }
}

/// A run that has done nothing yet.
pub open spec fn fresh(inputs: Seq<Seq<u8>>, supplied: Seq<Seq<Seq<u8>>>) -> Run {
    Run {
        ops: Seq::empty(),
        deferred: Seq::empty(),
        hooks: 0,
        guard: true,
        private: false,
        inputs,
        args: Seq::empty(),
        disclosed: Seq::empty(),
        supplied,
        acknowledged: Seq::empty(),
        unmet: None,
    }
}

fn blank(n: usize) -> (r: Vec<Vec<u8>>)
    ensures
        strings(r@) == blank_limbs(n as nat),
{
    let mut r: Vec<Vec<u8>> = Vec::new();
    while r.len() < n
        invariant
            r@.len() <= n,
            forall|i: int| 0 <= i < r@.len() ==> (#[trigger] r@[i])@ == Seq::<u8>::empty(),
        decreases n - r@.len(),
    {
        r.push(Vec::new());
    }
    assert(strings(r@) =~= blank_limbs(n as nat));
    r
}

// ---- the slots, inline -----------------------------------------------------------------------

impl<T: LedgerRepr> LedgerCell<T> {
    /// What the cell holds, as assumed.
    pub fn read(&self, c: &mut Circuit3) -> (r: Assumed<T>)
        ensures
            (final(c)@, r.value()) == old(c)@.read::<T>(self.path.keys()),
    {
        Assumed::of_read(c.read(&self.path))
    }

    /// `cell = value`.
    pub fn write(&self, c: &mut Circuit3, value: &T)
        ensures
            final(c)@ == old(c)@.emit(write_ops(self.path.keys(), stored(*value))),
    {
        let path = self.path.ledger_path();
        assert(steps(path@).len() == path@.len());
        c.emit(cell_write_at(&path, &ledger_value(value)));
    }
}

impl<K: LedgerRepr, V: LedgerRepr> LedgerMap<K, V, FieldPath> {
    /// Whether the map has `key`.
    pub fn member(&self, c: &mut Circuit3, key: &K) -> (r: bool)
        ensures
            (final(c)@, r) == old(c)@.read_member(self.path.keys(), stored(*key)),
    {
        c.read_member(&self.path, &ledger_value(key))
    }

    /// What the map holds under `key`, as assumed.
    pub fn lookup(&self, c: &mut Circuit3, key: &K) -> (r: Assumed<V>)
        ensures
            (final(c)@, r.value()) == old(c)@.read::<V>(self.path.keys().push(stored(*key))),
    {
        let entry = Entry { map: self.path, key: ledger_value(key) };
        Assumed::of_read(c.read(&entry))
    }

    /// `map[key] = value`.
    pub fn insert(&self, c: &mut Circuit3, key: &K, value: &V)
        ensures
            final(c)@ == old(c)@.emit(
                write_ops(self.path.keys().push(stored(*key)), stored(*value)),
            ),
    {
        let path = self.path.ledger_path();
        assert(steps(path@).len() == path@.len());
        c.emit(map_insert_at(&path, &ledger_value(key), &ledger_value(value)));
    }

    /// `map.remove(key)`.
    pub fn remove(&self, c: &mut Circuit3, key: &K)
        ensures
            final(c)@ == old(c)@.emit(remove_ops(self.path.keys(), stored(*key))),
    {
        let path = self.path.ledger_path();
        assert(steps(path@).len() == path@.len());
        c.emit(map_remove_at(&path, &ledger_value(key)));
    }
}

/// An entry of a map.
struct Entry {
    map: FieldPath,
    key: AlignedValue,
}

impl LedgerPath for Entry {
    closed spec fn keys(&self) -> Seq<Aligned> {
        self.map.keys().push(self.key@)
    }

    fn ledger_path(&self) -> (r: Vec<crate::ledger::LedgerKey>) {
        step_down(&self.map.ledger_path(), &self.key)
    }
}

} // verus!
