//! The stream: insert out of order under your own key, sequence a chosen subset
//! through one shared accumulator, take one element at a time.
//!
//! A [`StreamSpec`] names the key, the body (what only `take` sees), the head
//! (what the step may look at), the state and the step. The step is either
//!
//! - a primitive of [`crate::blind`], or a tuple of them: the stream is
//!   [`ContentionFree`]. `insert` sequences itself (the step and then the
//!   snapshot, both in one hook, so that the stored state is the one after the
//!   step), `take` reads entries written once, `combine` is blind, and there is
//!   no `sequence`; or
//! - [`Serial`] over a [`Fold`] of the author's code: `insert` is a pure insert,
//!   and `sequence` reads the accumulator once, folds the step over the chosen
//!   keys, stages each key's state and writes the accumulator once.
//!
//! | step | ledger fields beyond the bodies |
//! |---|---|
//! | primitive | one accumulator cell and one snapshot map per component |
//! | [`Serial`] | `heads`, `acc`, `staged` |
use crate::assumed::{Assumed, ProofWires, Select};
use crate::blind::{
    all_cleared, all_read, clear_all_ops, law_entries_are_read_and_cleared, lemma_all_cleared,
    lemma_all_read, lemma_field_cleared, lemma_other_entries, lemma_ranges_part, limbs_of, read_all_ops, taken_entry,
    within, Add, And, First, Last, Max, Min, Or, Primitive,
};
use crate::circuit::{
    fresh, law_read_gives_back_the_stored_value, lemma_stored_truth, same_trace, Circuit3,
    CircuitRefusal, Run,
};
use crate::fab::Aligned;
use crate::header::{LedgerWidth, Placement};
use crate::hook::Hook;
use crate::impact::{
    assumed, at_path, blind, flag_of, flag_test, has_entry, in_turn, law_entry_write,
    law_flag_test, law_member_test, law_programs_compose, law_read_is_an_assumption, law_remove,
    law_write, law_write_keeps_the_rest, law_write_reads_back, lemma_entry, lookup, member_test, performs, present, read_member_ops,
    read_ops, remove_ops, truth, update, without, write_ops, written, Effect, Op,
};
use crate::layout::{BlockLayout, FieldPath, MAX_FIELDS};
use crate::ledger::{law_fields_part, one_slot, LedgerCell, LedgerMap, LedgerPath};
use crate::state::{
    contributed, law_contributions_add_up, Contribution, InitialState, StateBuilder, StateRefusal,
};
use crate::value::Tree;
use crate::vector::{
    folded_from_head, items_of, law_head_always_folds, native, NonEmpty, SlotStep,
};
use crate::wire::{stored, stored_default, LedgerRepr, Public};
use core::marker::PhantomData;
use vstd::prelude::*;

verus! {

/// What a stream carries and how it steps.
pub trait StreamSpec: Sized {
    /// The key a writer picks; public, since map keys are disclosed.
    type Key: LedgerRepr;

    /// The payload: written at insert, read at take, never by the step.
    type Body: LedgerRepr;

    /// What the step may look at, a projection of the body.
    type Head;

    /// The accumulator's value.
    type State;

    /// What the step consumes per element: the state itself for a primitive,
    /// the fold's own for a serial step.
    type Delta;

    /// A primitive, or [`Serial`].
    type Step;

    /// The run after computing the head of a body, and the head.
    spec fn head_of(run: Run, body: Self::Body) -> (Run, Self::Head);

    /// The run after computing the step's delta for a head, and the delta.
    spec fn delta_of(run: Run, head: Self::Head) -> (Run, Self::Delta);

    /// Both keep the guard they find, and under one that is off leave no trace:
    /// they may still declare arguments and disclose values.
    proof fn law_guarded(run: Run, body: Self::Body, head: Self::Head)
        ensures
            Self::head_of(run, body).0.guard == run.guard,
            Self::head_of(run, body).0.private == run.private,
            !run.guard ==> same_trace(Self::head_of(run, body).0, run),
            Self::delta_of(run, head).0.guard == run.guard,
            Self::delta_of(run, head).0.private == run.private,
            !run.guard ==> same_trace(Self::delta_of(run, head).0, run),
    ;

    /// The head of a body, computed at insert.
    fn head(c: &mut Circuit3, body: &Self::Body) -> (r: Self::Head)
        ensures
            (final(c)@, r) == Self::head_of(old(c)@, *body),
    ;

    /// The step's delta for a head.
    fn delta(c: &mut Circuit3, head: &Self::Head) -> (r: Self::Delta)
        ensures
            (final(c)@, r) == Self::delta_of(old(c)@, *head),
    ;
}

/// The head of a body, where it is computed from the body alone.
pub open spec fn head_alone<P: StreamSpec>(body: P::Body) -> P::Head {
    P::head_of(fresh(Seq::empty(), Seq::empty()), body).1
}

/// The delta of a head, where it is computed from the head alone.
pub open spec fn delta_alone<P: StreamSpec>(head: P::Head) -> P::Delta {
    P::delta_of(fresh(Seq::empty(), Seq::empty()), head).1
}

/// Whether heads and deltas are computed from the body and the head alone, and
/// leave the run as it was.
pub open spec fn quiet<P: StreamSpec>() -> bool {
    &&& forall|run: Run, body: P::Body|
        #[trigger] P::head_of(run, body) == (run, head_alone::<P>(body))
    &&& forall|run: Run, head: P::Head|
        #[trigger] P::delta_of(run, head) == (run, delta_alone::<P>(head))
}

/// A step of the author's code, behind a read of the accumulator.
pub trait Fold<S> {
    /// What the step consumes per element.
    type Delta;

    /// The run and the state after the step.
    spec fn folds(run: Run, s: S, d: Self::Delta) -> (Run, S);

    /// The step keeps the guard it finds, and under one that is off leaves no
    /// trace: it is evaluated on every slot of a flush, live or not.
    proof fn law_guarded(run: Run, s: S, d: Self::Delta)
        ensures
            Self::folds(run, s, d).0.guard == run.guard,
            !run.guard ==> same_trace(Self::folds(run, s, d).0, run),
    ;

    /// The step, total on every delta.
    fn step(c: &mut Circuit3, s: S, d: Self::Delta) -> (r: S)
        ensures
            (final(c)@, r) == Self::folds(old(c)@, s, d),
    ;
}

/// The serial step: `F`'s fold, flushed one to `REST + 1` keys at a time.
pub struct Serial<F, const REST: usize>(pub PhantomData<F>);

/// The marker a primitive step earns: no operation of the stream reads shared
/// state, so none can be made stale by another landing.
pub trait ContentionFree {

}

/// The stream, placed in a ledger block.
pub struct Stream<P: StreamSpec> {
    layout: BlockLayout,
    start: usize,
    spec: PhantomData<P>,
}

impl<P: StreamSpec> Clone for Stream<P> {
    fn clone(&self) -> (r: Self)
        ensures
            r == *self,
    {
        *self
    }
}

impl<P: StreamSpec> Copy for Stream<P> {

}

impl<P: StreamSpec> Stream<P> {
    /// The layout of the block it is in.
    pub closed spec fn layout(self) -> BlockLayout {
        self.layout
    }

    /// Its first body field.
    pub closed spec fn start(self) -> nat {
        self.start as nat
    }

    /// Whether the block has room for the stream, with a step of `fields`
    /// fields.
    pub open spec fn has_room(self, fields: nat) -> bool {
        self.start() + 1 + fields <= self.layout().total() <= MAX_FIELDS
    }

    /// Where field `i` of the stream is.
    pub open spec fn at(self, i: nat) -> FieldPath {
        self.layout().field(self.start() + i)
    }

    /// The stream's fields from body field `start` under `layout`.
    pub fn at_layout(layout: BlockLayout, start: usize) -> (r: Self)
        ensures
            r.layout() == layout,
            r.start() == start,
    {
        Stream { layout, start, spec: PhantomData }
    }

    /// The stream's fields from field `start` of a block of `total` fields
    /// without a standard.
    pub fn at_block(total: usize, start: usize) -> (r: Self)
        ensures
            r.layout().total() == total,
            !r.layout().has_header(),
            r.start() == start,
    {
        Stream::at_layout(BlockLayout::compactc(total), start)
    }

    /// The bodies by key: field 0 of the stream.
    fn bodies(&self) -> (r: LedgerMap<P::Key, P::Body, FieldPath>)
        requires
            self.has_room(0),
        ensures
            r.path == self.at(0),
    {
        LedgerMap::at_layout(self.layout, self.start)
    }
}

/// A step's layout, and the operations every stream has.
pub trait Step<P: StreamSpec>: Sized {
    /// Ledger fields the step occupies beyond the bodies.
    const WIDTH: usize;

    /// Whether `insert`, `take` and `combine` embed no read of shared state.
    /// Then `insert` and `combine` attach a hook, which a private guard
    /// refuses.
    const CONTENTION_FREE: bool;

    /// Ledger fields the step occupies beyond the bodies.
    spec fn fields() -> nat;

    /// Whether `insert`, `take` and `combine` embed no read of shared state.
    spec fn contention_free() -> bool;

    /// The run after an insert.
    spec fn inserted(s: Stream<P>, run: Run, key: P::Key, body: P::Body) -> Run;

    /// The run after a take, and what it returned.
    spec fn taken(s: Stream<P>, run: Run, key: P::Key) -> (Run, P::Body, P::State);

    /// The run after combining a delta.
    spec fn combined(s: Stream<P>, run: Run, delta: P::Delta) -> Run;

    /// What the step's fields hold at deploy.
    spec fn contributions(s: Stream<P>) -> Seq<Contribution>;

    /// The constants say the same, the count wherever a block has room for it.
    proof fn law_fields()
        ensures
            Self::fields() <= MAX_FIELDS ==> Self::WIDTH == Self::fields(),
            Self::CONTENTION_FREE == Self::contention_free(),
    ;

    /// Inserts `body` under `key`.
    fn insert(s: &Stream<P>, c: &mut Circuit3, key: &P::Key, body: &P::Body) -> (r: Result<
        (),
        CircuitRefusal,
    >)
        requires
            s.has_room(Self::fields()),
        ensures
            match r {
                Ok(()) => !(Self::contention_free() && old(c)@.private) && final(c)@
                    == Self::inserted(*s, old(c)@, *key, *body),
                Err(refusal) => Self::contention_free() && old(c)@.private && refusal
                    == CircuitRefusal::PrivateHook && final(c)@ == old(c)@,
            },
    ;

    /// Takes what is under `key`.
    fn take(s: &Stream<P>, c: &mut Circuit3, key: &P::Key) -> (r: (
        Assumed<P::Body>,
        Assumed<P::State>,
    ))
        requires
            s.has_room(Self::fields()),
        ensures
            (final(c)@, r.0.value(), r.1.value()) == Self::taken(*s, old(c)@, *key),
    ;

    /// Combines a delta with no element.
    fn combine(s: &Stream<P>, c: &mut Circuit3, delta: P::Delta) -> (r: Result<(), CircuitRefusal>)
        requires
            s.has_room(Self::fields()),
        ensures
            match r {
                Ok(()) => !(Self::contention_free() && old(c)@.private) && final(c)@
                    == Self::combined(*s, old(c)@, delta),
                Err(refusal) => Self::contention_free() && old(c)@.private && refusal
                    == CircuitRefusal::PrivateHook && final(c)@ == old(c)@,
            },
    ;

    /// Writes the step's fields at deploy.
    fn contribute(s: &Stream<P>, state: &mut StateBuilder) -> (r: Result<(), StateRefusal>)
        requires
            s.has_room(Self::fields()),
            old(state).wf(),
        ensures
            final(state).wf(),
            final(state)@ == contributed(old(state)@, Self::contributions(*s)).0,
            r == match contributed(old(state)@, Self::contributions(*s)).1 {
                None => Ok::<(), StateRefusal>(()),
                Some(refusal) => Err(refusal),
            },
    ;
}

impl<P: StreamSpec> Stream<P> where P::Step: Step<P> {
    /// Whether the stream lies within its block.
    pub open spec fn placed(self) -> bool {
        self.has_room(<P::Step as Step<P>>::fields())
    }

    /// Inserts under `key`: asserts that the key is not present, stores the
    /// body, and on a primitive stream sequences the element at once.
    pub fn insert(&self, c: &mut Circuit3, key: &P::Key, body: &P::Body) -> (r: Result<
        (),
        CircuitRefusal,
    >)
        requires
            self.placed(),
        ensures
            match r {
                Ok(()) => !(<P::Step as Step<P>>::contention_free() && old(c)@.private) && final(c)@
                    == <P::Step as Step<P>>::inserted(*self, old(c)@, *key, *body),
                Err(refusal) => <P::Step as Step<P>>::contention_free() && old(c)@.private && refusal
                    == CircuitRefusal::PrivateHook && final(c)@ == old(c)@,
            },
    {
        <P::Step as Step<P>>::insert(self, c, key, body)
    }

    /// Takes `key`'s element: the body and the state it was sequenced with,
    /// removing everything read. Asserts that the key is present.
    pub fn take(&self, c: &mut Circuit3, key: &P::Key) -> (r: (Assumed<P::Body>, Assumed<P::State>))
        requires
            self.placed(),
        ensures
            (final(c)@, r.0.value(), r.1.value()) == <P::Step as Step<P>>::taken(
                *self,
                old(c)@,
                *key,
            ),
    {
        <P::Step as Step<P>>::take(self, c, key)
    }

    /// Combines a delta with no element. Blind on a primitive stream; on a
    /// serial one a read, the step and a write.
    pub fn combine(&self, c: &mut Circuit3, delta: P::Delta) -> (r: Result<(), CircuitRefusal>)
        requires
            self.placed(),
        ensures
            match r {
                Ok(()) => !(<P::Step as Step<P>>::contention_free() && old(c)@.private) && final(c)@
                    == <P::Step as Step<P>>::combined(*self, old(c)@, delta),
                Err(refusal) => <P::Step as Step<P>>::contention_free() && old(c)@.private && refusal
                    == CircuitRefusal::PrivateHook && final(c)@ == old(c)@,
            },
    {
        <P::Step as Step<P>>::combine(self, c, delta)
    }
}

/// The bodies map and the step's fields, each at its own default: the
/// accumulator at zero, which is the identity of `Add`, `Max` and `Or` and not
/// of `Min` or `And`.
impl<P: StreamSpec> InitialState for Stream<P> where P::Step: Step<P> {
    open spec fn ready(&self) -> bool {
        self.placed()
    }

    open spec fn contributions(&self) -> Seq<Contribution> {
        one_slot(self.at(0), Tree::Mapping(Map::empty())) + <P::Step as Step<P>>::contributions(
            *self,
        )
    }

    fn contribute(&self, state: &mut StateBuilder) -> (r: Result<(), StateRefusal>) {
        let bodies = self.bodies();
        proof {
            law_contributions_add_up(
                state@,
                bodies.contributions(),
                <P::Step as Step<P>>::contributions(*self),
            );
        }
        match bodies.contribute(state) {
            Ok(()) => <P::Step as Step<P>>::contribute(self, state),
            Err(refusal) => Err(refusal),
        }
    }
}

impl<P: StreamSpec> LedgerWidth for Stream<P> where P::Step: Step<P> {
    const WIDTH: usize = 1 + <P::Step as Step<P>>::WIDTH;

    const PLACEMENT: Placement = Placement::Body;

    open spec fn settles(kind: u8) -> bool {
        false
    }

    fn kinds() -> (r: Vec<u8>) {
        Vec::new()
    }
}

impl<P: StreamSpec> ContentionFree for Stream<P> where P::Step: Primitive<P::State> {

}

// ---- the primitive layout: the bodies, the step's cells, its snapshot maps --------------------

/// The accumulator of a primitive stream.
pub open spec fn acc_of<P: StreamSpec, S, A: Primitive<S>>(s: Stream<P>) -> A::Acc {
    A::acc_at(s.layout(), s.start() + 1)
}

/// The snapshot maps of a primitive stream.
pub open spec fn snapshot_of<P: StreamSpec, S, A: Primitive<S>>(s: Stream<P>) -> A::Snapshot {
    A::snapshot_at(s.layout(), s.start() + 1 + A::acc_fields())
}

/// What a primitive insert attaches: the step, and then the snapshot.
pub open spec fn blind_hook<P: StreamSpec<State = S, Delta = S>, S, A: Primitive<S>>(
    s: Stream<P>,
    key: P::Key,
    delta: S,
) -> Seq<Op> {
    let acc = acc_of::<P, S, A>(s);
    A::combine_ops(acc, delta) + A::snapshot_ops(
        acc,
        snapshot_of::<P, S, A>(s),
        stored(key),
    )
}

/// A primitive insert: the key is not there, the body is written, the delta is
/// computed, and the step and its snapshot are attached.
pub open spec fn blind_inserted<P: StreamSpec<State = S, Delta = S>, S, A: Primitive<S>>(
    s: Stream<P>,
    run: Run,
    key: P::Key,
    body: P::Body,
) -> Run {
    let bodies = s.at(0).keys();
    let (run, present) = run.read_member(bodies, stored(key));
    let (run, head) = P::head_of(
        run.check(!present, "Stream key already present"@).emit(
            write_ops(bodies.push(stored(key)), stored(body)),
        ),
        body,
    );
    let (run, delta) = P::delta_of(run, head);
    run.attach(blind_hook::<P, S, A>(s, key, delta))
}

/// A primitive take: the key is there; the body and the snapshot's entries are
/// read and removed.
pub open spec fn blind_taken<P: StreamSpec<State = S, Delta = S>, S, A: Primitive<S>>(
    s: Stream<P>,
    run: Run,
    key: P::Key,
) -> (Run, P::Body, S) {
    let bodies = s.at(0).keys();
    let (run, present) = run.read_member(bodies, stored(key));
    let (run, body) = run.check(present, "Stream key not present"@).read::<P::Body>(
        bodies.push(stored(key)),
    );
    let (run, state) = taken_entry::<S, A>(
        run.emit(remove_ops(bodies, stored(key))),
        snapshot_of::<P, S, A>(s),
        stored(key),
    );
    (run, body, state)
}

fn insert_blind<P: StreamSpec<State = S, Delta = S>, S, A: Primitive<S>>(
    s: &Stream<P>,
    c: &mut Circuit3,
    key: &P::Key,
    body: &P::Body,
) -> (r: Result<(), CircuitRefusal>)
    requires
        s.has_room(A::acc_fields() + A::snapshot_fields()),
    ensures
        match r {
            Ok(()) => !old(c)@.private && final(c)@ == blind_inserted::<P, S, A>(
                *s,
                old(c)@,
                *key,
                *body,
            ),
            Err(refusal) => old(c)@.private && refusal == CircuitRefusal::PrivateHook && final(c)@
                == old(c)@,
        },
{
    if c.is_private() {
        return Err(CircuitRefusal::PrivateHook);
    }
    proof {
        A::law_fields();
    }
    let bodies = s.bodies();
    let present: bool = bodies.member(c, key);
    c.check(!present, "Stream key already present");
    bodies.insert(c, key, body);
    let ghost written = c@;
    let head = P::head(c, body);
    let ghost headed = c@;
    let delta = P::delta(c, &head);
    proof {
        P::law_guarded(written, *body, head);
        P::law_guarded(headed, *body, head);
    }
    let acc = A::acc_at_layout(s.layout, s.start + 1);
    let snapshot = A::snapshot_at_layout(s.layout, s.start + 1 + A::ACC_FIELDS);
    let hook = A::combine_hook(Hook::new(), &acc, &delta);
    let hook = A::snapshot_hook(hook, &acc, &snapshot, key);
    assert(hook@ =~= blind_hook::<P, S, A>(*s, *key, delta));
    c.attach(hook)
}

fn take_blind<P: StreamSpec<State = S, Delta = S>, S, A: Primitive<S>>(
    s: &Stream<P>,
    c: &mut Circuit3,
    key: &P::Key,
) -> (r: (Assumed<P::Body>, Assumed<S>))
    requires
        s.has_room(A::acc_fields() + A::snapshot_fields()),
    ensures
        (final(c)@, r.0.value(), r.1.value()) == blind_taken::<P, S, A>(*s, old(c)@, *key),
{
    proof {
        A::law_fields();
    }
    let bodies = s.bodies();
    let present: bool = bodies.member(c, key);
    c.check(present, "Stream key not present");
    let body = bodies.lookup(c, key);
    bodies.remove(c, key);
    let snapshot = A::snapshot_at_layout(s.layout, s.start + 1 + A::ACC_FIELDS);
    let state = A::take(c, &snapshot, key);
    (body, state)
}

fn combine_blind<P: StreamSpec<State = S, Delta = S>, S, A: Primitive<S>>(
    s: &Stream<P>,
    c: &mut Circuit3,
    delta: S,
) -> (r: Result<(), CircuitRefusal>)
    requires
        s.has_room(A::acc_fields() + A::snapshot_fields()),
    ensures
        match r {
            Ok(()) => !old(c)@.private && final(c)@ == old(c)@.attach(
                A::combine_ops(acc_of::<P, S, A>(*s), delta),
            ),
            Err(refusal) => old(c)@.private && refusal == CircuitRefusal::PrivateHook && final(c)@
                == old(c)@,
        },
{
    let acc = A::acc_at_layout(s.layout, s.start + 1);
    let hook = A::combine_hook(Hook::new(), &acc, &delta);
    assert(hook@ =~= A::combine_ops(acc_of::<P, S, A>(*s), delta));
    c.attach(hook)
}

fn contribute_blind<P: StreamSpec, S, A: Primitive<S>>(s: &Stream<P>, state: &mut StateBuilder)
    -> (r: Result<(), StateRefusal>)
    requires
        s.has_room(A::acc_fields() + A::snapshot_fields()),
        old(state).wf(),
    ensures
        final(state).wf(),
        ({
            let all = acc_of::<P, S, A>(*s).contributions() + snapshot_of::<P, S, A>(
                *s,
            ).contributions();
            &&& final(state)@ == contributed(old(state)@, all).0
            &&& r == match contributed(old(state)@, all).1 {
                None => Ok::<(), StateRefusal>(()),
                Some(refusal) => Err(refusal),
            }
        }),
{
    proof {
        A::law_fields();
    }
    let acc = A::acc_at_layout(s.layout, s.start + 1);
    let snapshot = A::snapshot_at_layout(s.layout, s.start + 1 + A::ACC_FIELDS);
    proof {
        A::law_ready(s.layout, s.start() + 1);
        A::law_ready(s.layout, s.start() + 1 + A::acc_fields());
        law_contributions_add_up(state@, acc.contributions(), snapshot.contributions());
    }
    match acc.contribute(state) {
        Ok(()) => snapshot.contribute(state),
        Err(refusal) => Err(refusal),
    }
}

impl<P, S> Step<P> for Add where P: StreamSpec<Step = Add, State = S, Delta = S>, Add: Primitive<S> {
    const WIDTH: usize = <Add as Primitive<S>>::ACC_FIELDS + <Add as Primitive<S>>::SNAPSHOT_FIELDS;

    const CONTENTION_FREE: bool = true;

    open spec fn contention_free() -> bool {
        true
    }

    open spec fn fields() -> nat {
        <Add as Primitive<S>>::acc_fields() + <Add as Primitive<S>>::snapshot_fields()
    }

    open spec fn inserted(s: Stream<P>, run: Run, key: P::Key, body: P::Body) -> Run {
        blind_inserted::<P, S, Add>(s, run, key, body)
    }

    open spec fn taken(s: Stream<P>, run: Run, key: P::Key) -> (Run, P::Body, S) {
        blind_taken::<P, S, Add>(s, run, key)
    }

    open spec fn combined(s: Stream<P>, run: Run, delta: S) -> Run {
        run.attach(<Add as Primitive<S>>::combine_ops(acc_of::<P, S, Add>(s), delta))
    }

    open spec fn contributions(s: Stream<P>) -> Seq<Contribution> {
        acc_of::<P, S, Add>(s).contributions() + snapshot_of::<P, S, Add>(s).contributions()
    }

    proof fn law_fields() {
        <Add as Primitive<S>>::law_fields();
    }

    fn insert(s: &Stream<P>, c: &mut Circuit3, key: &P::Key, body: &P::Body) -> (r: Result<
        (),
        CircuitRefusal,
    >) {
        insert_blind::<P, S, Add>(s, c, key, body)
    }

    fn take(s: &Stream<P>, c: &mut Circuit3, key: &P::Key) -> (r: (Assumed<P::Body>, Assumed<S>)) {
        take_blind::<P, S, Add>(s, c, key)
    }

    fn combine(s: &Stream<P>, c: &mut Circuit3, delta: S) -> (r: Result<(), CircuitRefusal>) {
        combine_blind::<P, S, Add>(s, c, delta)
    }

    fn contribute(s: &Stream<P>, state: &mut StateBuilder) -> (r: Result<(), StateRefusal>) {
        contribute_blind::<P, S, Add>(s, state)
    }
}

impl<P, S> Step<P> for Max where P: StreamSpec<Step = Max, State = S, Delta = S>, Max: Primitive<S> {
    const WIDTH: usize = <Max as Primitive<S>>::ACC_FIELDS + <Max as Primitive<S>>::SNAPSHOT_FIELDS;

    const CONTENTION_FREE: bool = true;

    open spec fn contention_free() -> bool {
        true
    }

    open spec fn fields() -> nat {
        <Max as Primitive<S>>::acc_fields() + <Max as Primitive<S>>::snapshot_fields()
    }

    open spec fn inserted(s: Stream<P>, run: Run, key: P::Key, body: P::Body) -> Run {
        blind_inserted::<P, S, Max>(s, run, key, body)
    }

    open spec fn taken(s: Stream<P>, run: Run, key: P::Key) -> (Run, P::Body, S) {
        blind_taken::<P, S, Max>(s, run, key)
    }

    open spec fn combined(s: Stream<P>, run: Run, delta: S) -> Run {
        run.attach(<Max as Primitive<S>>::combine_ops(acc_of::<P, S, Max>(s), delta))
    }

    open spec fn contributions(s: Stream<P>) -> Seq<Contribution> {
        acc_of::<P, S, Max>(s).contributions() + snapshot_of::<P, S, Max>(s).contributions()
    }

    proof fn law_fields() {
        <Max as Primitive<S>>::law_fields();
    }

    fn insert(s: &Stream<P>, c: &mut Circuit3, key: &P::Key, body: &P::Body) -> (r: Result<
        (),
        CircuitRefusal,
    >) {
        insert_blind::<P, S, Max>(s, c, key, body)
    }

    fn take(s: &Stream<P>, c: &mut Circuit3, key: &P::Key) -> (r: (Assumed<P::Body>, Assumed<S>)) {
        take_blind::<P, S, Max>(s, c, key)
    }

    fn combine(s: &Stream<P>, c: &mut Circuit3, delta: S) -> (r: Result<(), CircuitRefusal>) {
        combine_blind::<P, S, Max>(s, c, delta)
    }

    fn contribute(s: &Stream<P>, state: &mut StateBuilder) -> (r: Result<(), StateRefusal>) {
        contribute_blind::<P, S, Max>(s, state)
    }
}

impl<P, S> Step<P> for Min where P: StreamSpec<Step = Min, State = S, Delta = S>, Min: Primitive<S> {
    const WIDTH: usize = <Min as Primitive<S>>::ACC_FIELDS + <Min as Primitive<S>>::SNAPSHOT_FIELDS;

    const CONTENTION_FREE: bool = true;

    open spec fn contention_free() -> bool {
        true
    }

    open spec fn fields() -> nat {
        <Min as Primitive<S>>::acc_fields() + <Min as Primitive<S>>::snapshot_fields()
    }

    open spec fn inserted(s: Stream<P>, run: Run, key: P::Key, body: P::Body) -> Run {
        blind_inserted::<P, S, Min>(s, run, key, body)
    }

    open spec fn taken(s: Stream<P>, run: Run, key: P::Key) -> (Run, P::Body, S) {
        blind_taken::<P, S, Min>(s, run, key)
    }

    open spec fn combined(s: Stream<P>, run: Run, delta: S) -> Run {
        run.attach(<Min as Primitive<S>>::combine_ops(acc_of::<P, S, Min>(s), delta))
    }

    open spec fn contributions(s: Stream<P>) -> Seq<Contribution> {
        acc_of::<P, S, Min>(s).contributions() + snapshot_of::<P, S, Min>(s).contributions()
    }

    proof fn law_fields() {
        <Min as Primitive<S>>::law_fields();
    }

    fn insert(s: &Stream<P>, c: &mut Circuit3, key: &P::Key, body: &P::Body) -> (r: Result<
        (),
        CircuitRefusal,
    >) {
        insert_blind::<P, S, Min>(s, c, key, body)
    }

    fn take(s: &Stream<P>, c: &mut Circuit3, key: &P::Key) -> (r: (Assumed<P::Body>, Assumed<S>)) {
        take_blind::<P, S, Min>(s, c, key)
    }

    fn combine(s: &Stream<P>, c: &mut Circuit3, delta: S) -> (r: Result<(), CircuitRefusal>) {
        combine_blind::<P, S, Min>(s, c, delta)
    }

    fn contribute(s: &Stream<P>, state: &mut StateBuilder) -> (r: Result<(), StateRefusal>) {
        contribute_blind::<P, S, Min>(s, state)
    }
}

impl<P, S> Step<P> for And where P: StreamSpec<Step = And, State = S, Delta = S>, And: Primitive<S> {
    const WIDTH: usize = <And as Primitive<S>>::ACC_FIELDS + <And as Primitive<S>>::SNAPSHOT_FIELDS;

    const CONTENTION_FREE: bool = true;

    open spec fn contention_free() -> bool {
        true
    }

    open spec fn fields() -> nat {
        <And as Primitive<S>>::acc_fields() + <And as Primitive<S>>::snapshot_fields()
    }

    open spec fn inserted(s: Stream<P>, run: Run, key: P::Key, body: P::Body) -> Run {
        blind_inserted::<P, S, And>(s, run, key, body)
    }

    open spec fn taken(s: Stream<P>, run: Run, key: P::Key) -> (Run, P::Body, S) {
        blind_taken::<P, S, And>(s, run, key)
    }

    open spec fn combined(s: Stream<P>, run: Run, delta: S) -> Run {
        run.attach(<And as Primitive<S>>::combine_ops(acc_of::<P, S, And>(s), delta))
    }

    open spec fn contributions(s: Stream<P>) -> Seq<Contribution> {
        acc_of::<P, S, And>(s).contributions() + snapshot_of::<P, S, And>(s).contributions()
    }

    proof fn law_fields() {
        <And as Primitive<S>>::law_fields();
    }

    fn insert(s: &Stream<P>, c: &mut Circuit3, key: &P::Key, body: &P::Body) -> (r: Result<
        (),
        CircuitRefusal,
    >) {
        insert_blind::<P, S, And>(s, c, key, body)
    }

    fn take(s: &Stream<P>, c: &mut Circuit3, key: &P::Key) -> (r: (Assumed<P::Body>, Assumed<S>)) {
        take_blind::<P, S, And>(s, c, key)
    }

    fn combine(s: &Stream<P>, c: &mut Circuit3, delta: S) -> (r: Result<(), CircuitRefusal>) {
        combine_blind::<P, S, And>(s, c, delta)
    }

    fn contribute(s: &Stream<P>, state: &mut StateBuilder) -> (r: Result<(), StateRefusal>) {
        contribute_blind::<P, S, And>(s, state)
    }
}

impl<P, S> Step<P> for Or where P: StreamSpec<Step = Or, State = S, Delta = S>, Or: Primitive<S> {
    const WIDTH: usize = <Or as Primitive<S>>::ACC_FIELDS + <Or as Primitive<S>>::SNAPSHOT_FIELDS;

    const CONTENTION_FREE: bool = true;

    open spec fn contention_free() -> bool {
        true
    }

    open spec fn fields() -> nat {
        <Or as Primitive<S>>::acc_fields() + <Or as Primitive<S>>::snapshot_fields()
    }

    open spec fn inserted(s: Stream<P>, run: Run, key: P::Key, body: P::Body) -> Run {
        blind_inserted::<P, S, Or>(s, run, key, body)
    }

    open spec fn taken(s: Stream<P>, run: Run, key: P::Key) -> (Run, P::Body, S) {
        blind_taken::<P, S, Or>(s, run, key)
    }

    open spec fn combined(s: Stream<P>, run: Run, delta: S) -> Run {
        run.attach(<Or as Primitive<S>>::combine_ops(acc_of::<P, S, Or>(s), delta))
    }

    open spec fn contributions(s: Stream<P>) -> Seq<Contribution> {
        acc_of::<P, S, Or>(s).contributions() + snapshot_of::<P, S, Or>(s).contributions()
    }

    proof fn law_fields() {
        <Or as Primitive<S>>::law_fields();
    }

    fn insert(s: &Stream<P>, c: &mut Circuit3, key: &P::Key, body: &P::Body) -> (r: Result<
        (),
        CircuitRefusal,
    >) {
        insert_blind::<P, S, Or>(s, c, key, body)
    }

    fn take(s: &Stream<P>, c: &mut Circuit3, key: &P::Key) -> (r: (Assumed<P::Body>, Assumed<S>)) {
        take_blind::<P, S, Or>(s, c, key)
    }

    fn combine(s: &Stream<P>, c: &mut Circuit3, delta: S) -> (r: Result<(), CircuitRefusal>) {
        combine_blind::<P, S, Or>(s, c, delta)
    }

    fn contribute(s: &Stream<P>, state: &mut StateBuilder) -> (r: Result<(), StateRefusal>) {
        contribute_blind::<P, S, Or>(s, state)
    }
}

impl<P, S> Step<P> for Last where P: StreamSpec<Step = Last, State = S, Delta = S>, Last: Primitive<S> {
    const WIDTH: usize = <Last as Primitive<S>>::ACC_FIELDS + <Last as Primitive<S>>::SNAPSHOT_FIELDS;

    const CONTENTION_FREE: bool = true;

    open spec fn contention_free() -> bool {
        true
    }

    open spec fn fields() -> nat {
        <Last as Primitive<S>>::acc_fields() + <Last as Primitive<S>>::snapshot_fields()
    }

    open spec fn inserted(s: Stream<P>, run: Run, key: P::Key, body: P::Body) -> Run {
        blind_inserted::<P, S, Last>(s, run, key, body)
    }

    open spec fn taken(s: Stream<P>, run: Run, key: P::Key) -> (Run, P::Body, S) {
        blind_taken::<P, S, Last>(s, run, key)
    }

    open spec fn combined(s: Stream<P>, run: Run, delta: S) -> Run {
        run.attach(<Last as Primitive<S>>::combine_ops(acc_of::<P, S, Last>(s), delta))
    }

    open spec fn contributions(s: Stream<P>) -> Seq<Contribution> {
        acc_of::<P, S, Last>(s).contributions() + snapshot_of::<P, S, Last>(s).contributions()
    }

    proof fn law_fields() {
        <Last as Primitive<S>>::law_fields();
    }

    fn insert(s: &Stream<P>, c: &mut Circuit3, key: &P::Key, body: &P::Body) -> (r: Result<
        (),
        CircuitRefusal,
    >) {
        insert_blind::<P, S, Last>(s, c, key, body)
    }

    fn take(s: &Stream<P>, c: &mut Circuit3, key: &P::Key) -> (r: (Assumed<P::Body>, Assumed<S>)) {
        take_blind::<P, S, Last>(s, c, key)
    }

    fn combine(s: &Stream<P>, c: &mut Circuit3, delta: S) -> (r: Result<(), CircuitRefusal>) {
        combine_blind::<P, S, Last>(s, c, delta)
    }

    fn contribute(s: &Stream<P>, state: &mut StateBuilder) -> (r: Result<(), StateRefusal>) {
        contribute_blind::<P, S, Last>(s, state)
    }
}

impl<P, S> Step<P> for First where P: StreamSpec<Step = First, State = S, Delta = S>, First: Primitive<S> {
    const WIDTH: usize = <First as Primitive<S>>::ACC_FIELDS + <First as Primitive<S>>::SNAPSHOT_FIELDS;

    const CONTENTION_FREE: bool = true;

    open spec fn contention_free() -> bool {
        true
    }

    open spec fn fields() -> nat {
        <First as Primitive<S>>::acc_fields() + <First as Primitive<S>>::snapshot_fields()
    }

    open spec fn inserted(s: Stream<P>, run: Run, key: P::Key, body: P::Body) -> Run {
        blind_inserted::<P, S, First>(s, run, key, body)
    }

    open spec fn taken(s: Stream<P>, run: Run, key: P::Key) -> (Run, P::Body, S) {
        blind_taken::<P, S, First>(s, run, key)
    }

    open spec fn combined(s: Stream<P>, run: Run, delta: S) -> Run {
        run.attach(<First as Primitive<S>>::combine_ops(acc_of::<P, S, First>(s), delta))
    }

    open spec fn contributions(s: Stream<P>) -> Seq<Contribution> {
        acc_of::<P, S, First>(s).contributions() + snapshot_of::<P, S, First>(s).contributions()
    }

    proof fn law_fields() {
        <First as Primitive<S>>::law_fields();
    }

    fn insert(s: &Stream<P>, c: &mut Circuit3, key: &P::Key, body: &P::Body) -> (r: Result<
        (),
        CircuitRefusal,
    >) {
        insert_blind::<P, S, First>(s, c, key, body)
    }

    fn take(s: &Stream<P>, c: &mut Circuit3, key: &P::Key) -> (r: (Assumed<P::Body>, Assumed<S>)) {
        take_blind::<P, S, First>(s, c, key)
    }

    fn combine(s: &Stream<P>, c: &mut Circuit3, delta: S) -> (r: Result<(), CircuitRefusal>) {
        combine_blind::<P, S, First>(s, c, delta)
    }

    fn contribute(s: &Stream<P>, state: &mut StateBuilder) -> (r: Result<(), StateRefusal>) {
        contribute_blind::<P, S, First>(s, state)
    }
}

impl<P, S, A, B> Step<P> for (A, B) where P: StreamSpec<Step = (A, B), State = S, Delta = S>, (A, B): Primitive<S> {
    const WIDTH: usize = <(A, B) as Primitive<S>>::ACC_FIELDS + <(A, B) as Primitive<S>>::SNAPSHOT_FIELDS;

    const CONTENTION_FREE: bool = true;

    open spec fn contention_free() -> bool {
        true
    }

    open spec fn fields() -> nat {
        <(A, B) as Primitive<S>>::acc_fields() + <(A, B) as Primitive<S>>::snapshot_fields()
    }

    open spec fn inserted(s: Stream<P>, run: Run, key: P::Key, body: P::Body) -> Run {
        blind_inserted::<P, S, (A, B)>(s, run, key, body)
    }

    open spec fn taken(s: Stream<P>, run: Run, key: P::Key) -> (Run, P::Body, S) {
        blind_taken::<P, S, (A, B)>(s, run, key)
    }

    open spec fn combined(s: Stream<P>, run: Run, delta: S) -> Run {
        run.attach(<(A, B) as Primitive<S>>::combine_ops(acc_of::<P, S, (A, B)>(s), delta))
    }

    open spec fn contributions(s: Stream<P>) -> Seq<Contribution> {
        acc_of::<P, S, (A, B)>(s).contributions() + snapshot_of::<P, S, (A, B)>(s).contributions()
    }

    proof fn law_fields() {
        <(A, B) as Primitive<S>>::law_fields();
    }

    fn insert(s: &Stream<P>, c: &mut Circuit3, key: &P::Key, body: &P::Body) -> (r: Result<
        (),
        CircuitRefusal,
    >) {
        insert_blind::<P, S, (A, B)>(s, c, key, body)
    }

    fn take(s: &Stream<P>, c: &mut Circuit3, key: &P::Key) -> (r: (Assumed<P::Body>, Assumed<S>)) {
        take_blind::<P, S, (A, B)>(s, c, key)
    }

    fn combine(s: &Stream<P>, c: &mut Circuit3, delta: S) -> (r: Result<(), CircuitRefusal>) {
        combine_blind::<P, S, (A, B)>(s, c, delta)
    }

    fn contribute(s: &Stream<P>, state: &mut StateBuilder) -> (r: Result<(), StateRefusal>) {
        contribute_blind::<P, S, (A, B)>(s, state)
    }
}

impl<P, S, A, B, C> Step<P> for (A, B, C) where P: StreamSpec<Step = (A, B, C), State = S, Delta = S>, (A, B, C): Primitive<S> {
    const WIDTH: usize = <(A, B, C) as Primitive<S>>::ACC_FIELDS + <(A, B, C) as Primitive<S>>::SNAPSHOT_FIELDS;

    const CONTENTION_FREE: bool = true;

    open spec fn contention_free() -> bool {
        true
    }

    open spec fn fields() -> nat {
        <(A, B, C) as Primitive<S>>::acc_fields() + <(A, B, C) as Primitive<S>>::snapshot_fields()
    }

    open spec fn inserted(s: Stream<P>, run: Run, key: P::Key, body: P::Body) -> Run {
        blind_inserted::<P, S, (A, B, C)>(s, run, key, body)
    }

    open spec fn taken(s: Stream<P>, run: Run, key: P::Key) -> (Run, P::Body, S) {
        blind_taken::<P, S, (A, B, C)>(s, run, key)
    }

    open spec fn combined(s: Stream<P>, run: Run, delta: S) -> Run {
        run.attach(<(A, B, C) as Primitive<S>>::combine_ops(acc_of::<P, S, (A, B, C)>(s), delta))
    }

    open spec fn contributions(s: Stream<P>) -> Seq<Contribution> {
        acc_of::<P, S, (A, B, C)>(s).contributions() + snapshot_of::<P, S, (A, B, C)>(s).contributions()
    }

    proof fn law_fields() {
        <(A, B, C) as Primitive<S>>::law_fields();
    }

    fn insert(s: &Stream<P>, c: &mut Circuit3, key: &P::Key, body: &P::Body) -> (r: Result<
        (),
        CircuitRefusal,
    >) {
        insert_blind::<P, S, (A, B, C)>(s, c, key, body)
    }

    fn take(s: &Stream<P>, c: &mut Circuit3, key: &P::Key) -> (r: (Assumed<P::Body>, Assumed<S>)) {
        take_blind::<P, S, (A, B, C)>(s, c, key)
    }

    fn combine(s: &Stream<P>, c: &mut Circuit3, delta: S) -> (r: Result<(), CircuitRefusal>) {
        combine_blind::<P, S, (A, B, C)>(s, c, delta)
    }

    fn contribute(s: &Stream<P>, state: &mut StateBuilder) -> (r: Result<(), StateRefusal>) {
        contribute_blind::<P, S, (A, B, C)>(s, state)
    }
}

impl<P, S, A, B, C, D> Step<P> for (A, B, C, D) where P: StreamSpec<Step = (A, B, C, D), State = S, Delta = S>, (A, B, C, D): Primitive<S> {
    const WIDTH: usize = <(A, B, C, D) as Primitive<S>>::ACC_FIELDS + <(A, B, C, D) as Primitive<S>>::SNAPSHOT_FIELDS;

    const CONTENTION_FREE: bool = true;

    open spec fn contention_free() -> bool {
        true
    }

    open spec fn fields() -> nat {
        <(A, B, C, D) as Primitive<S>>::acc_fields() + <(A, B, C, D) as Primitive<S>>::snapshot_fields()
    }

    open spec fn inserted(s: Stream<P>, run: Run, key: P::Key, body: P::Body) -> Run {
        blind_inserted::<P, S, (A, B, C, D)>(s, run, key, body)
    }

    open spec fn taken(s: Stream<P>, run: Run, key: P::Key) -> (Run, P::Body, S) {
        blind_taken::<P, S, (A, B, C, D)>(s, run, key)
    }

    open spec fn combined(s: Stream<P>, run: Run, delta: S) -> Run {
        run.attach(<(A, B, C, D) as Primitive<S>>::combine_ops(acc_of::<P, S, (A, B, C, D)>(s), delta))
    }

    open spec fn contributions(s: Stream<P>) -> Seq<Contribution> {
        acc_of::<P, S, (A, B, C, D)>(s).contributions() + snapshot_of::<P, S, (A, B, C, D)>(s).contributions()
    }

    proof fn law_fields() {
        <(A, B, C, D) as Primitive<S>>::law_fields();
    }

    fn insert(s: &Stream<P>, c: &mut Circuit3, key: &P::Key, body: &P::Body) -> (r: Result<
        (),
        CircuitRefusal,
    >) {
        insert_blind::<P, S, (A, B, C, D)>(s, c, key, body)
    }

    fn take(s: &Stream<P>, c: &mut Circuit3, key: &P::Key) -> (r: (Assumed<P::Body>, Assumed<S>)) {
        take_blind::<P, S, (A, B, C, D)>(s, c, key)
    }

    fn combine(s: &Stream<P>, c: &mut Circuit3, delta: S) -> (r: Result<(), CircuitRefusal>) {
        combine_blind::<P, S, (A, B, C, D)>(s, c, delta)
    }

    fn contribute(s: &Stream<P>, state: &mut StateBuilder) -> (r: Result<(), StateRefusal>) {
        contribute_blind::<P, S, (A, B, C, D)>(s, state)
    }
}

// ---- the serial layout: the bodies, the heads, the accumulator, the staged states ---------------

impl<P: StreamSpec> Stream<P> {
    /// The heads by key: field 1 of a serial stream.
    fn heads(&self) -> (r: LedgerMap<P::Key, P::Head, FieldPath>)
        requires
            self.has_room(3),
        ensures
            r.path == self.at(1),
    {
        LedgerMap::at_layout(self.layout, self.start + 1)
    }

    /// The shared cell: field 2 of a serial stream.
    fn acc(&self) -> (r: LedgerCell<P::State>)
        requires
            self.has_room(3),
        ensures
            r.path == self.at(2),
    {
        LedgerCell::at_layout(self.layout, self.start + 2)
    }

    /// The states by key, each the one after its step: field 3 of a serial
    /// stream.
    fn staged(&self) -> (r: LedgerMap<P::Key, P::State, FieldPath>)
        requires
            self.has_room(3),
        ensures
            r.path == self.at(3),
    {
        LedgerMap::at_layout(self.layout, self.start + 3)
    }
}

/// A serial insert: the key is not there, and its head and body are written.
pub open spec fn serial_inserted<P: StreamSpec>(
    s: Stream<P>,
    run: Run,
    key: P::Key,
    body: P::Body,
) -> Run where P::Head: LedgerRepr {
    let (run, present) = run.read_member(s.at(0).keys(), stored(key));
    let (run, head) = P::head_of(run.check(!present, "Stream key already present"@), body);
    run.emit(write_ops(s.at(1).keys().push(stored(key)), stored(head))).emit(write_ops(s.at(0).keys().push(stored(key)), stored(body)))
}

/// A serial take: the key is staged; its state and body are read and removed.
pub open spec fn serial_taken<P: StreamSpec>(s: Stream<P>, run: Run, key: P::Key) -> (
    Run,
    P::Body,
    P::State,
) where P::State: LedgerRepr {
    let (bodies, staged) = (s.at(0).keys(), s.at(3).keys());
    let (run, present) = run.read_member(staged, stored(key));
    let (run, state) = run.check(present, "Stream key not sequenced"@).read::<P::State>(
        staged.push(stored(key)),
    );
    let (run, body) = run.emit(remove_ops(staged, stored(key))).read::<P::Body>(
        bodies.push(stored(key)),
    );
    (run.emit(remove_ops(bodies, stored(key))), body, state)
}

/// A serial combination: a read named as assumed, the step, a write.
pub open spec fn serial_combined<P: StreamSpec<State = S>, F: Fold<S>, S: LedgerRepr + ProofWires>(
    s: Stream<P>,
    run: Run,
    delta: F::Delta,
) -> Run {
    let acc = s.at(2).keys();
    let (run, state) = run.read::<S>(acc);
    let (run, next) = F::folds(run.acknowledge(state.wires()), state, delta);
    run.emit(write_ops(acc, stored(next)))
}

impl<P, F, S, D, const REST: usize> Step<P> for Serial<F, REST> where
    P: StreamSpec<Step = Serial<F, REST>, State = S, Delta = D>,
    P::Head: LedgerRepr + ProofWires,
    F: Fold<S, Delta = D>,
    S: LedgerRepr + ProofWires + Copy + Select,
 {
    const WIDTH: usize = 3;

    const CONTENTION_FREE: bool = false;

    open spec fn contention_free() -> bool {
        false
    }

    open spec fn fields() -> nat {
        3
    }

    open spec fn inserted(s: Stream<P>, run: Run, key: P::Key, body: P::Body) -> Run {
        serial_inserted(s, run, key, body)
    }

    open spec fn taken(s: Stream<P>, run: Run, key: P::Key) -> (Run, P::Body, S) {
        serial_taken(s, run, key)
    }

    open spec fn combined(s: Stream<P>, run: Run, delta: D) -> Run {
        serial_combined::<P, F, S>(s, run, delta)
    }

    open spec fn contributions(s: Stream<P>) -> Seq<Contribution> {
        one_slot(s.at(1), Tree::Mapping(Map::empty())) + one_slot(
            s.at(2),
            Tree::Cell(stored_default::<S>()),
        ) + one_slot(s.at(3), Tree::Mapping(Map::empty()))
    }

    proof fn law_fields() {
    }

    /// Asserts that the key is not present; writes the head and the body.
    fn insert(s: &Stream<P>, c: &mut Circuit3, key: &P::Key, body: &P::Body) -> (r: Result<
        (),
        CircuitRefusal,
    >) {
        let bodies = s.bodies();
        let present: bool = bodies.member(c, key);
        c.check(!present, "Stream key already present");
        let head = P::head(c, body);
        s.heads().insert(c, key, &head);
        bodies.insert(c, key, body);
        Ok(())
    }

    /// Asserts that the key is staged; reads and removes the state and the
    /// body.
    fn take(s: &Stream<P>, c: &mut Circuit3, key: &P::Key) -> (r: (Assumed<P::Body>, Assumed<S>)) {
        let staged = s.staged();
        let present: bool = staged.member(c, key);
        c.check(present, "Stream key not sequenced");
        let state = staged.lookup(c, key);
        staged.remove(c, key);
        let bodies = s.bodies();
        let body = bodies.lookup(c, key);
        bodies.remove(c, key);
        (body, state)
    }

    /// A read, the step, and a write that assumes the read is current.
    fn combine(s: &Stream<P>, c: &mut Circuit3, delta: D) -> (r: Result<(), CircuitRefusal>) {
        let acc = s.acc();
        let state = acc.read(c).stale(c);
        let next = F::step(c, state, delta);
        acc.write(c, &next);
        Ok(())
    }

    /// The heads map, the accumulator cell, the staged map.
    fn contribute(s: &Stream<P>, state: &mut StateBuilder) -> (r: Result<(), StateRefusal>) {
        let all = (s.heads(), s.acc(), s.staged());
        all.contribute(state)
    }
}

/// One key of a flush: it is queued; its head is read, named as assumed and
/// removed, the state is stepped, and the state after the step is staged.
pub open spec fn flushed_key<P: StreamSpec<State = S, Delta = D>, F: Fold<S, Delta = D>, S, D>(
    s: Stream<P>,
    run: Run,
    state: S,
    key: P::Key,
) -> (Run, S) where P::Head: LedgerRepr + ProofWires, S: LedgerRepr {
    let heads = s.at(1).keys();
    let (run, queued) = run.read_member(heads, stored(key));
    let (run, head) = run.check(queued, "Stream key not queued"@).read::<P::Head>(
        heads.push(stored(key)),
    );
    let (run, delta) = P::delta_of(
        run.acknowledge(head.wires()).emit(remove_ops(heads, stored(key))),
        head,
    );
    let (run, next) = F::folds(run, state, delta);
    (run.emit(write_ops(s.at(3).keys().push(stored(key)), stored(next))), next)
}

/// The step of a flush.
pub struct Flush<P: StreamSpec> {
    stream: Stream<P>,
}

impl<P: StreamSpec> Flush<P> {
    #[verifier::type_invariant]
    spec fn inv(self) -> bool {
        self.stream.has_room(3)
    }

    /// The stream it flushes.
    pub closed spec fn stream(self) -> Stream<P> {
        self.stream
    }
}

impl<P, F, S, D, const REST: usize> SlotStep<S, P::Key> for Flush<P> where
    P: StreamSpec<Step = Serial<F, REST>, State = S, Delta = D>,
    P::Head: LedgerRepr + ProofWires,
    F: Fold<S, Delta = D>,
    S: LedgerRepr + ProofWires + Copy + Select,
 {
    open spec fn stepped(&self, run: Run, state: S, key: P::Key) -> (Run, S) {
        flushed_key::<P, F, S, D>(self.stream(), run, state, key)
    }

    proof fn law_guarded(&self, run: Run, state: S, key: P::Key) {
        let heads = self.stream().at(1).keys();
        let (first, queued) = run.read_member(heads, stored(key));
        let (second, head) = first.check(queued, "Stream key not queued"@).read::<P::Head>(
            heads.push(stored(key)),
        );
        let third = second.acknowledge(head.wires()).emit(remove_ops(heads, stored(key)));
        let body: P::Body = arbitrary();
        P::law_guarded(third, body, head);
        let (fourth, delta) = P::delta_of(third, head);
        F::law_guarded(fourth, state, delta);
    }

    fn step(&self, c: &mut Circuit3, state: S, key: &P::Key) -> (r: S) {
        proof {
            use_type_invariant(self);
        }
        let heads = self.stream.heads();
        let staged = self.stream.staged();
        let queued: bool = heads.member(c, key);
        c.check(queued, "Stream key not queued");
        let head = heads.lookup(c, key).stale(c);
        heads.remove(c, key);
        let delta = P::delta(c, &head);
        let next = F::step(c, state, delta);
        staged.insert(c, key, &next);
        next
    }
}

impl<P: StreamSpec> Stream<P> {
    /// The step of a flush of this stream.
    pub closed spec fn flush(self) -> Flush<P> {
        Flush { stream: self }
    }
}

/// A flush: the accumulator is read once and named as assumed, the keys are
/// folded, and the accumulator is written once.
pub open spec fn sequenced<P, F, S, D, const REST: usize>(
    s: Stream<P>,
    run: Run,
    keys: NonEmpty<P::Key, REST, Public>,
) -> Run where
    P: StreamSpec<Step = Serial<F, REST>, State = S, Delta = D>,
    P::Head: LedgerRepr + ProofWires,
    F: Fold<S, Delta = D>,
    S: LedgerRepr + ProofWires + Copy + Select,
 {
    let acc = s.at(2).keys();
    let (run, state) = run.read::<S>(acc);
    let (run, last) = folded_from_head(s.flush(), run.acknowledge(state.wires()), state, keys);
    run.emit(write_ops(acc, stored(last)))
}

impl<P, F, S, D, const REST: usize> Stream<P> where
    P: StreamSpec<Step = Serial<F, REST>, State = S, Delta = D>,
    P::Head: LedgerRepr + ProofWires,
    F: Fold<S, Delta = D>,
    S: LedgerRepr + ProofWires + Copy + Select,
 {
    /// Sequences the flusher's choice of subset and order, one to `REST + 1`
    /// keys. Reads the accumulator once; per live key asserts that it is
    /// queued, reads and removes the head, steps, and stages the state after
    /// the step; writes the accumulator once.
    pub fn sequence(&self, c: &mut Circuit3, keys: NonEmpty<P::Key, REST, Public>)
        requires
            self.placed(),
        ensures
            final(c)@ == sequenced(*self, old(c)@, keys),
    {
        let acc = self.acc();
        let state = acc.read(c).stale(c);
        let flush = Flush { stream: *self };
        let state = keys.fold(c, state, &flush);
        acc.write(c, &state);
    }
}

// ---- the primitives as steps ------------------------------------------------------------------------

/// A primitive as a stream's step.
pub trait BlindStep<P: StreamSpec<State = S, Delta = S>, S>: Step<P> + Primitive<S> {
    /// Every stream over a primitive works in one way, whatever the primitive is:
    /// its fields are the accumulator's and then the snapshot maps', an insert
    /// attaches the step and the snapshot, a take reads and removes the snapshot's
    /// entries, a combination attaches the step alone.
    proof fn law_steps_as_the_primitive(
        s: Stream<P>,
        run: Run,
        key: P::Key,
        body: P::Body,
        delta: S,
    )
        ensures
            <Self as Step<P>>::inserted(s, run, key, body) == blind_inserted::<P, S, Self>(
                s,
                run,
                key,
                body,
            ),
            <Self as Step<P>>::taken(s, run, key) == blind_taken::<P, S, Self>(s, run, key),
            <Self as Step<P>>::combined(s, run, delta) == run.attach(
                Self::combine_ops(acc_of::<P, S, Self>(s), delta),
            ),
            <Self as Step<P>>::contributions(s) == acc_of::<P, S, Self>(s).contributions()
                + snapshot_of::<P, S, Self>(s).contributions(),
            <Self as Step<P>>::fields() == Self::acc_fields() + Self::snapshot_fields(),
            <Self as Step<P>>::contention_free(),
    ;
}

impl<P, S> BlindStep<P, S> for Add where
    P: StreamSpec<Step = Add, State = S, Delta = S>,
    Add: Primitive<S>,
 {
    proof fn law_steps_as_the_primitive(
        s: Stream<P>,
        run: Run,
        key: P::Key,
        body: P::Body,
        delta: S,
    ) {
    }
}

impl<P, S> BlindStep<P, S> for Max where
    P: StreamSpec<Step = Max, State = S, Delta = S>,
    Max: Primitive<S>,
 {
    proof fn law_steps_as_the_primitive(
        s: Stream<P>,
        run: Run,
        key: P::Key,
        body: P::Body,
        delta: S,
    ) {
    }
}

impl<P, S> BlindStep<P, S> for Min where
    P: StreamSpec<Step = Min, State = S, Delta = S>,
    Min: Primitive<S>,
 {
    proof fn law_steps_as_the_primitive(
        s: Stream<P>,
        run: Run,
        key: P::Key,
        body: P::Body,
        delta: S,
    ) {
    }
}

impl<P, S> BlindStep<P, S> for And where
    P: StreamSpec<Step = And, State = S, Delta = S>,
    And: Primitive<S>,
 {
    proof fn law_steps_as_the_primitive(
        s: Stream<P>,
        run: Run,
        key: P::Key,
        body: P::Body,
        delta: S,
    ) {
    }
}

impl<P, S> BlindStep<P, S> for Or where
    P: StreamSpec<Step = Or, State = S, Delta = S>,
    Or: Primitive<S>,
 {
    proof fn law_steps_as_the_primitive(
        s: Stream<P>,
        run: Run,
        key: P::Key,
        body: P::Body,
        delta: S,
    ) {
    }
}

impl<P, S> BlindStep<P, S> for Last where
    P: StreamSpec<Step = Last, State = S, Delta = S>,
    Last: Primitive<S>,
 {
    proof fn law_steps_as_the_primitive(
        s: Stream<P>,
        run: Run,
        key: P::Key,
        body: P::Body,
        delta: S,
    ) {
    }
}

impl<P, S> BlindStep<P, S> for First where
    P: StreamSpec<Step = First, State = S, Delta = S>,
    First: Primitive<S>,
 {
    proof fn law_steps_as_the_primitive(
        s: Stream<P>,
        run: Run,
        key: P::Key,
        body: P::Body,
        delta: S,
    ) {
    }
}

impl<P, S, A, B> BlindStep<P, S> for (A, B) where
    P: StreamSpec<Step = (A, B), State = S, Delta = S>,
    (A, B): Primitive<S>,
 {
    proof fn law_steps_as_the_primitive(
        s: Stream<P>,
        run: Run,
        key: P::Key,
        body: P::Body,
        delta: S,
    ) {
    }
}

impl<P, S, A, B, C> BlindStep<P, S> for (A, B, C) where
    P: StreamSpec<Step = (A, B, C), State = S, Delta = S>,
    (A, B, C): Primitive<S>,
 {
    proof fn law_steps_as_the_primitive(
        s: Stream<P>,
        run: Run,
        key: P::Key,
        body: P::Body,
        delta: S,
    ) {
    }
}

impl<P, S, A, B, C, D> BlindStep<P, S> for (A, B, C, D) where
    P: StreamSpec<Step = (A, B, C, D), State = S, Delta = S>,
    (A, B, C, D): Primitive<S>,
 {
    proof fn law_steps_as_the_primitive(
        s: Stream<P>,
        run: Run,
        key: P::Key,
        body: P::Body,
        delta: S,
    ) {
    }
}

/// A stream over a fold works as the serial layout says: three fields, an insert
/// that queues, a take of what was sequenced, a combination that reads and writes
/// the accumulator.
pub proof fn law_serial_steps<P, F, S, D, const REST: usize>(
    s: Stream<P>,
    run: Run,
    key: P::Key,
    body: P::Body,
    delta: D,
) where
    P: StreamSpec<Step = Serial<F, REST>, State = S, Delta = D>,
    P::Head: LedgerRepr + ProofWires,
    F: Fold<S, Delta = D>,
    S: LedgerRepr + ProofWires + Copy + Select,

    ensures
        <Serial<F, REST> as Step<P>>::inserted(s, run, key, body) == serial_inserted(
            s,
            run,
            key,
            body,
        ),
        <Serial<F, REST> as Step<P>>::taken(s, run, key) == serial_taken(s, run, key),
        <Serial<F, REST> as Step<P>>::combined(s, run, delta) == serial_combined::<P, F, S>(
            s,
            run,
            delta,
        ),
        <Serial<F, REST> as Step<P>>::contributions(s) == seq![
            Contribution { path: s.at(1)@, value: Tree::Mapping(Map::empty()), sealed: false },
            Contribution {
                path: s.at(2)@,
                value: Tree::Cell(stored_default::<S>()),
                sealed: false,
            },
            Contribution { path: s.at(3)@, value: Tree::Mapping(Map::empty()), sealed: false },
        ],
        <Serial<F, REST> as Step<P>>::fields() == 3,
        !<Serial<F, REST> as Step<P>>::contention_free(),
{
    assert(<Serial<F, REST> as Step<P>>::contributions(s) =~= seq![
        Contribution { path: s.at(1)@, value: Tree::Mapping(Map::empty()), sealed: false },
        Contribution { path: s.at(2)@, value: Tree::Cell(stored_default::<S>()), sealed: false },
        Contribution { path: s.at(3)@, value: Tree::Mapping(Map::empty()), sealed: false },
    ]);
}

/// A stream's fields follow one another: the bodies, the accumulator's cells, the
/// snapshot maps.
pub proof fn law_fields_follow_one_another<P: StreamSpec, S, A: Primitive<S>>(s: Stream<P>, i: int)
    ensures
        s.at(0) == s.layout().field(s.start()),
        0 <= i < A::acc_fields() ==> A::cells(acc_of::<P, S, A>(s))[i] == s.layout().field(
            (s.start() + 1 + i) as nat,
        ),
        0 <= i < A::snapshot_fields() ==> A::copies(snapshot_of::<P, S, A>(s))[i]
            == s.layout().field((s.start() + 1 + A::acc_fields() + i) as nat),
{
    A::law_fields_in_order(s.layout(), s.start() + 1);
    A::law_fields_in_order(s.layout(), s.start() + 1 + A::acc_fields());
}

/// What a stream starts as: no bodies, and then its step's fields.
pub proof fn law_a_stream_starts_empty<P: StreamSpec>(s: Stream<P>) where P::Step: Step<P>
    ensures
        s.contributions() == seq![
            Contribution { path: s.at(0)@, value: Tree::Mapping(Map::empty()), sealed: false },
        ] + <P::Step as Step<P>>::contributions(s),
        s.ready() <==> s.start() + 1 + <P::Step as Step<P>>::fields() <= s.layout().total()
            <= MAX_FIELDS,
{
}

/// What is noted where a key is there that should not be, or is not there that
/// should be: an insert of a key that is read as present, a take of a key that is
/// read as absent.
pub proof fn law_refused_keys_are_noted<
    P: StreamSpec<State = S, Delta = S>,
    S,
    A: Primitive<S>,
>(s: Stream<P>, run: Run, key: P::Key, body: P::Body, there: bool, more: Seq<Seq<Seq<u8>>>)
    requires
        run.guard,
        run.unmet is None,
        quiet::<P>(),
        run.supplied == seq![truth(there)->Cell_0.value] + more,
    ensures
        blind_inserted::<P, S, A>(s, run, key, body).unmet == if there {
            Some("Stream key already present"@)
        } else {
            None
        },
        !there ==> blind_taken::<P, S, A>(s, run, key).0.unmet == Some("Stream key not present"@),
{
    lemma_stored_truth(there);
    let (bodies, k) = (s.at(0).keys(), stored(key));
    let (read, present) = run.read_member(bodies, k);
    assert(present == there);
    assert(read.unmet is None);
    if !there {
        let noted = read.check(present, "Stream key not present"@);
        let (looked, found) = noted.read::<P::Body>(bodies.push(k));
        assert(looked.unmet == noted.unmet);
        let cleared = looked.emit(remove_ops(bodies, k));
        let snapshot = snapshot_of::<P, S, A>(s);
        A::law_entry_is_guarded(cleared, snapshot, k);
        A::law_entry_is_guarded(A::looked_up(cleared, snapshot, k).0, snapshot, k);
    }
}

// ---- what the stream promises ---------------------------------------------------------------------

/// A flush is the plain fold: the accumulator is read once, each key chosen is
/// stepped in the order chosen, one key at least, and the accumulator is written
/// once.
pub proof fn law_flush_is_the_plain_fold<P, F, S, D, const REST: usize>(
    s: Stream<P>,
    run: Run,
    keys: NonEmpty<P::Key, REST, Public>,
) where
    P: StreamSpec<Step = Serial<F, REST>, State = S, Delta = D>,
    P::Head: LedgerRepr + ProofWires,
    F: Fold<S, Delta = D>,
    S: LedgerRepr + ProofWires + Copy + Select,

    ensures
        s.flush().stream() == s,
        items_of(keys).len() >= 1,
        ({
            let acc = s.at(2).keys();
            let (first, state) = run.read::<S>(acc);
            let (rest, last) = native(
                s.flush(),
                first.acknowledge(state.wires()),
                state,
                items_of(keys),
                items_of(keys).len() as int,
            );
            same_trace(sequenced(s, run, keys), rest.emit(write_ops(acc, stored(last))))
        }),
{
    let (first, state) = run.read::<S>(s.at(2).keys());
    law_head_always_folds(s.flush(), first.acknowledge(state.wires()), state, keys);
}

/// A primitive insert reads whether its own key is there, and nothing else: the
/// accumulator is touched by the hook alone, and the hook is blind.
pub proof fn law_insert_reads_only_its_key<
    P: StreamSpec<State = S, Delta = S>,
    S,
    A: Primitive<S>,
>(s: Stream<P>, run: Run, key: P::Key, body: P::Body)
    requires
        run.guard,
        quiet::<P>(),
    ensures
        ({
            let bodies = s.at(0).keys();
            let present = run.read_member(bodies, stored(key)).1;
            let delta = delta_alone::<P>(head_alone::<P>(body));
            let after = blind_inserted::<P, S, A>(s, run, key, body);
            &&& after.ops == run.ops + read_member_ops(bodies, stored(key), present) + write_ops(
                bodies.push(stored(key)),
                stored(body),
            )
            &&& after.deferred == run.deferred + blind_hook::<P, S, A>(s, key, delta)
            &&& blind(blind_hook::<P, S, A>(s, key, delta))
        }),
{
    A::law_blind_step(
        acc_of::<P, S, A>(s),
        snapshot_of::<P, S, A>(s),
        delta_alone::<P>(head_alone::<P>(body)),
        stored(key),
    );
}

/// What landing a primitive insert with this delta does to the ledger.
pub open spec fn insert_landed<P: StreamSpec<State = S, Delta = S>, S, A: Primitive<S>>(
    s: Stream<P>,
    key: P::Key,
    body: P::Body,
    delta: S,
) -> Effect {
    let bodies = s.at(0).keys();
    in_turn(
        in_turn(
            assumed(present(bodies, stored(key)), truth(false)->Cell_0),
            written(bodies.push(stored(key)), Tree::Cell(stored(body))),
        ),
        in_turn(
            A::combine_effect(acc_of::<P, S, A>(s), delta),
            A::snapshot_effect(acc_of::<P, S, A>(s), snapshot_of::<P, S, A>(s), stored(key)),
        ),
    )
}

/// The program of a primitive insert does that: it fails where the key is
/// there, writes the body, steps the accumulator and snapshots it.
pub proof fn law_insert_lands<P: StreamSpec<State = S, Delta = S>, S, A: Primitive<S>>(
    s: Stream<P>,
    key: P::Key,
    body: P::Body,
    delta: S,
)
    ensures
        performs(
            (read_member_ops(s.at(0).keys(), stored(key), false) + write_ops(
                s.at(0).keys().push(stored(key)),
                stored(body),
            )) + blind_hook::<P, S, A>(s, key, delta),
            insert_landed::<P, S, A>(s, key, body, delta),
        ),
{
    let (bodies, k) = (s.at(0).keys(), stored(key));
    let (acc, snapshot) = (acc_of::<P, S, A>(s), snapshot_of::<P, S, A>(s));
    let answer = truth(false)->Cell_0;
    law_member_test(bodies, k);
    law_read_is_an_assumption(member_test(bodies, k), present(bodies, k), answer);
    law_write(bodies.push(k), stored(body));
    law_programs_compose(
        read_member_ops(bodies, k, false),
        assumed(present(bodies, k), answer),
        write_ops(bodies.push(k), stored(body)),
        written(bodies.push(k), Tree::Cell(stored(body))),
    );
    A::law_blind_step(acc, snapshot, delta, k);
    law_programs_compose(
        A::combine_ops(acc, delta),
        A::combine_effect(acc, delta),
        A::snapshot_ops(acc, snapshot, k),
        A::snapshot_effect(acc, snapshot, k),
    );
    law_programs_compose(
        read_member_ops(bodies, k, false) + write_ops(bodies.push(k), stored(body)),
        in_turn(
            assumed(present(bodies, k), answer),
            written(bodies.push(k), Tree::Cell(stored(body))),
        ),
        blind_hook::<P, S, A>(s, key, delta),
        in_turn(A::combine_effect(acc, delta), A::snapshot_effect(acc, snapshot, k)),
    );
}

/// The state right after the step of a landing insert, before its snapshot.
pub open spec fn insert_stepped<P: StreamSpec<State = S, Delta = S>, S, A: Primitive<S>>(
    s: Stream<P>,
    key: P::Key,
    body: P::Body,
    delta: S,
    state: Tree,
) -> Tree {
    let entry = s.at(0).keys().push(stored(key));
    A::combine_effect(acc_of::<P, S, A>(s), delta)(
        update(state, entry, Tree::Cell(stored(body)))->0,
    )->0
}

proof fn lemma_bodies_apart<P: StreamSpec<State = S, Delta = S>, S, A: Primitive<S>>(
    s: Stream<P>,
    key: P::Key,
    body: P::Body,
    delta: S,
    state: Tree,
    below: Seq<Aligned>,
)
    requires
        s.has_room(A::acc_fields() + A::snapshot_fields()),
        insert_landed::<P, S, A>(s, key, body, delta)(state) is Some,
    ensures
        lookup(
            insert_landed::<P, S, A>(s, key, body, delta)(state)->0,
            s.at(0).keys() + below,
        ) == lookup(
            update(state, s.at(0).keys().push(stored(key)), Tree::Cell(stored(body)))->0,
            s.at(0).keys() + below,
        ),
{
    let (layout, start) = (s.layout(), s.start());
    let (a, b) = (start + 1, start + 1 + A::acc_fields());
    let other = s.at(0).keys() + below;
    let (acc, snapshot) = (acc_of::<P, S, A>(s), snapshot_of::<P, S, A>(s));
    let first = update(state, s.at(0).keys().push(stored(key)), Tree::Cell(stored(body)))->0;
    A::law_laid_out(layout, a, b);
    assert(within(layout.field(start + 0), layout, start, a));
    lemma_ranges_part(A::cells(acc), layout, a, b, s.at(0), start, a, below);
    lemma_ranges_part(
        A::copies(snapshot),
        layout,
        b,
        b + A::snapshot_fields(),
        s.at(0),
        start,
        a,
        below,
    );
    A::law_step_keeps_the_rest(acc, delta, first, other);
    A::law_snapshot_keeps_the_rest(
        acc,
        snapshot,
        stored(key),
        A::combine_effect(acc, delta)(first)->0,
        other,
    );
}

/// What an insert stored is there for the take: the body under its key, and in
/// the snapshot what the accumulator holds right after the step.
pub proof fn law_insert_is_there_for_the_take<
    P: StreamSpec<State = S, Delta = S>,
    S,
    A: Primitive<S>,
>(s: Stream<P>, key: P::Key, body: P::Body, delta: S, state: Tree)
    requires
        s.has_room(A::acc_fields() + A::snapshot_fields()),
        insert_landed::<P, S, A>(s, key, body, delta)(state) is Some,
    ensures
        ({
            let next = insert_landed::<P, S, A>(s, key, body, delta)(state)->0;
            let stepped = insert_stepped::<P, S, A>(s, key, body, delta, state);
            let sources = A::sources(acc_of::<P, S, A>(s));
            let copies = A::copies(snapshot_of::<P, S, A>(s));
            &&& lookup(next, s.at(0).keys().push(stored(key))) == Some(Tree::Cell(stored(body)))
            &&& copies.len() == sources.len()
            &&& forall|i: int|
                0 <= i < sources.len() ==> lookup(
                    next,
                    (#[trigger] copies[i]).keys().push(stored(key)),
                ) == lookup(stepped, sources[i].keys())
        }),
{
    let (layout, start, k) = (s.layout(), s.start(), stored(key));
    let (a, b) = (start + 1, start + 1 + A::acc_fields());
    let entry = s.at(0).keys().push(k);
    let (acc, snapshot) = (acc_of::<P, S, A>(s), snapshot_of::<P, S, A>(s));
    let stepped = insert_stepped::<P, S, A>(s, key, body, delta, state);
    let (sources, copies) = (A::sources(acc), A::copies(snapshot));
    assert(s.at(0).keys() + seq![k] =~= entry);
    lemma_bodies_apart::<P, S, A>(s, key, body, delta, state, seq![k]);
    law_write_reads_back(state, entry, Tree::Cell(stored(body)));
    A::law_laid_out(layout, a, b);
    A::law_snapshot_copies(layout, a, b, k, stepped);
    let next = A::snapshot_effect(acc, snapshot, k)(stepped)->0;
    assert forall|i: int| 0 <= i < sources.len() implies lookup(
        next,
        (#[trigger] copies[i]).keys().push(k),
    ) == lookup(stepped, sources[i].keys()) by {
        assert(sources[i].keys() + Seq::<Aligned>::empty() =~= sources[i].keys());
        assert(within(sources[i], layout, a, b));
        lemma_ranges_part(
            copies,
            layout,
            b,
            b + A::snapshot_fields(),
            sources[i],
            a,
            b,
            Seq::empty(),
        );
        A::law_snapshot_keeps_the_rest(acc, snapshot, k, stepped, sources[i].keys());
    }
}

/// A combine reads nothing, and changes the accumulator alone: every entry of
/// every key, and every other field of the block, is as it was.
pub proof fn law_combine_touches_only_the_accumulator<
    P: StreamSpec<State = S, Delta = S>,
    S,
    A: Primitive<S>,
>(s: Stream<P>, delta: S, state: Tree, f: nat)
    requires
        s.has_room(A::acc_fields() + A::snapshot_fields()),
        f < s.layout().total(),
        !(s.start() + 1 <= f < s.start() + 1 + A::acc_fields()),
    ensures
        performs(
            A::combine_ops(acc_of::<P, S, A>(s), delta),
            A::combine_effect(acc_of::<P, S, A>(s), delta),
        ),
        blind(A::combine_ops(acc_of::<P, S, A>(s), delta)),
        A::combine_effect(acc_of::<P, S, A>(s), delta)(state) matches Some(next) ==> lookup(
            next,
            s.layout().field(f).keys(),
        ) == lookup(state, s.layout().field(f).keys()),
{
    let (layout, from) = (s.layout(), s.start() + 1);
    let (acc, snapshot) = (acc_of::<P, S, A>(s), snapshot_of::<P, S, A>(s));
    let path = layout.field(f).keys();
    A::law_blind_step(acc, snapshot, delta, arbitrary());
    A::law_laid_out(layout, from, from + A::acc_fields());
    if A::combine_effect(acc, delta)(state) is Some {
        assert(within(layout.field(f), layout, f, f + 1));
        lemma_ranges_part(
            A::cells(acc),
            layout,
            from,
            from + A::acc_fields(),
            layout.field(f),
            f,
            f + 1,
            Seq::empty(),
        );
        assert(path + Seq::<Aligned>::empty() =~= path);
        A::law_step_keeps_the_rest(acc, delta, state, path);
    }
}

/// A landed insert makes no other one stale: of every other key it leaves the
/// presence, the body and the entry of every snapshot map as they were, so what
/// an insert or a take of that key assumed still holds.
pub proof fn law_insert_stales_no_other_key<
    P: StreamSpec<State = S, Delta = S>,
    S,
    A: Primitive<S>,
>(s: Stream<P>, key: P::Key, body: P::Body, delta: S, state: Tree, other: Aligned)
    requires
        s.has_room(A::acc_fields() + A::snapshot_fields()),
        insert_landed::<P, S, A>(s, key, body, delta)(state) is Some,
        other != stored(key),
    ensures
        ({
            let next = insert_landed::<P, S, A>(s, key, body, delta)(state)->0;
            let bodies = s.at(0).keys();
            &&& present(bodies, other)(next) == present(bodies, other)(state)
            &&& has_entry(next, bodies, other) == has_entry(state, bodies, other)
            &&& lookup(next, bodies.push(other)) == lookup(state, bodies.push(other))
            &&& forall|i: int|
                #![trigger A::copies(snapshot_of::<P, S, A>(s))[i]]
                0 <= i < A::copies(snapshot_of::<P, S, A>(s)).len() && (lookup(
                    state,
                    A::copies(snapshot_of::<P, S, A>(s))[i].keys(),
                ) matches Some(Tree::Mapping(_))) ==> lookup(
                    next,
                    A::copies(snapshot_of::<P, S, A>(s))[i].keys().push(other),
                ) == lookup(state, A::copies(snapshot_of::<P, S, A>(s))[i].keys().push(other))
        }),
{
    let (bodies, k) = (s.at(0).keys(), stored(key));
    let next = insert_landed::<P, S, A>(s, key, body, delta)(state)->0;
    let entries = lookup(state, bodies)->0->Mapping_0;
    let after = entries.insert(k, Tree::Cell(stored(body)));
    assert(bodies + Seq::<Aligned>::empty() =~= bodies);
    lemma_bodies_apart::<P, S, A>(s, key, body, delta, state, Seq::empty());
    law_entry_write(state, bodies, entries, k, Tree::Cell(stored(body)));
    law_write_reads_back(state, bodies, Tree::Mapping(after));
    lemma_entry(state, bodies, other);
    lemma_entry(next, bodies, other);
    let (layout, start) = (s.layout(), s.start());
    let (a, b) = (start + 1, start + 1 + A::acc_fields());
    let to = b + A::snapshot_fields();
    let (acc, snapshot) = (acc_of::<P, S, A>(s), snapshot_of::<P, S, A>(s));
    let copies = A::copies(snapshot);
    let filed = update(state, bodies.push(k), Tree::Cell(stored(body)))->0;
    let stepped = A::combine_effect(acc, delta)(filed)->0;
    A::law_laid_out(layout, a, b);
    A::law_snapshot_keeps_other_keys(layout, a, b, k, stepped);
    assert forall|i: int|
        #![trigger copies[i]]
        0 <= i < copies.len() && (lookup(state, copies[i].keys()) matches Some(
            Tree::Mapping(_),
        )) implies lookup(next, copies[i].keys().push(other)) == lookup(
        state,
        copies[i].keys().push(other),
    ) by {
        let path = copies[i].keys();
        assert(within(copies[i], layout, b, to));
        let f = choose|f: nat| b <= f < to && copies[i] == #[trigger] layout.field(f);
        law_fields_part(layout, start, f, seq![k], Seq::empty());
        assert(bodies + seq![k] =~= bodies.push(k));
        assert(path + Seq::<Aligned>::empty() =~= path);
        law_write_keeps_the_rest(state, bodies.push(k), Tree::Cell(stored(body)), path);
        lemma_ranges_part(A::cells(acc), layout, a, b, copies[i], b, to, Seq::empty());
        A::law_step_keeps_the_rest(acc, delta, filed, path);
        lemma_entry(state, path, other);
        lemma_entry(stepped, path, other);
        lemma_other_entries(stepped, next, path, k, other);
    }
}

/// The ops of a primitive take that finds this body and this state.
pub open spec fn take_ops<P: StreamSpec<State = S, Delta = S>, S, A: Primitive<S>>(
    s: Stream<P>,
    key: P::Key,
    body: P::Body,
    state: S,
) -> Seq<Op> {
    let (bodies, k) = (s.at(0).keys(), stored(key));
    let copies = A::copies(snapshot_of::<P, S, A>(s));
    read_member_ops(bodies, k, true) + read_ops(bodies.push(k), stored(body)) + remove_ops(
        bodies,
        k,
    ) + read_all_ops(copies, k, A::entry_values(state)) + clear_all_ops(copies, k)
}

/// What landing a primitive take does to the ledger: a failure where the ledger
/// holds something else under the key.
pub open spec fn take_landed<P: StreamSpec<State = S, Delta = S>, S, A: Primitive<S>>(
    s: Stream<P>,
    key: P::Key,
    body: P::Body,
    state: S,
) -> Effect {
    let (bodies, k) = (s.at(0).keys(), stored(key));
    let copies = A::copies(snapshot_of::<P, S, A>(s));
    in_turn(
        in_turn(
            in_turn(
                in_turn(
                    assumed(present(bodies, k), truth(true)->Cell_0),
                    assumed(flag_of(bodies.push(k)), stored(body)),
                ),
                at_path(bodies, without(k)),
            ),
            all_read(copies, k, A::entry_values(state)),
        ),
        all_cleared(copies, k),
    )
}

/// The program of a primitive take does that.
pub proof fn law_take_lands<P: StreamSpec<State = S, Delta = S>, S, A: Primitive<S>>(
    s: Stream<P>,
    key: P::Key,
    body: P::Body,
    state: S,
)
    ensures
        performs(
            take_ops::<P, S, A>(s, key, body, state),
            take_landed::<P, S, A>(s, key, body, state),
        ),
{
    let (bodies, k) = (s.at(0).keys(), stored(key));
    let copies = A::copies(snapshot_of::<P, S, A>(s));
    let (yes, values) = (truth(true)->Cell_0, A::entry_values(state));
    law_member_test(bodies, k);
    law_read_is_an_assumption(member_test(bodies, k), present(bodies, k), yes);
    let (a, f) = (read_member_ops(bodies, k, true), assumed(present(bodies, k), yes));
    law_flag_test(bodies.push(k));
    law_read_is_an_assumption(flag_test(bodies.push(k)), flag_of(bodies.push(k)), stored(body));
    let (b, g) = (
        read_ops(bodies.push(k), stored(body)),
        assumed(flag_of(bodies.push(k)), stored(body)),
    );
    law_programs_compose(a, f, b, g);
    let (a, f) = (a + b, in_turn(f, g));
    law_remove(bodies, k);
    let (b, g) = (remove_ops(bodies, k), at_path(bodies, without(k)));
    law_programs_compose(a, f, b, g);
    let (a, f) = (a + b, in_turn(f, g));
    law_entries_are_read_and_cleared(copies, k, values);
    let (b, g) = (read_all_ops(copies, k, values), all_read(copies, k, values));
    law_programs_compose(a, f, b, g);
    law_programs_compose(a + b, in_turn(f, g), clear_all_ops(copies, k), all_cleared(copies, k));
}

/// A take gives back what is stored under its key: run against what the ledger
/// holds there, it returns the body and the state, nothing unmet, and emits the
/// program that takes them.
pub proof fn law_take_gives_back_what_is_stored<
    P: StreamSpec<State = S, Delta = S>,
    S,
    A: Primitive<S>,
>(
    s: Stream<P>,
    run: Run,
    key: P::Key,
    body: P::Body,
    state: S,
    more: Seq<Seq<Seq<u8>>>,
)
    requires
        run.guard,
        body.storable(),
        A::entry_storable(state),
        run.supplied == seq![truth(true)->Cell_0.value, stored(body).value] + limbs_of(
            A::entry_values(state),
        ) + more,
    ensures
        blind_taken::<P, S, A>(s, run, key) == (
            Run {
                ops: run.ops + take_ops::<P, S, A>(s, key, body, state),
                supplied: more,
                ..run
            },
            body,
            state,
        ),
{
    let (bodies, k) = (s.at(0).keys(), stored(key));
    let snapshot = snapshot_of::<P, S, A>(s);
    let rest = limbs_of(A::entry_values(state)) + more;
    lemma_stored_truth(true);
    let (one, there) = run.read_member(bodies, k);
    let first = one.check(there, "Stream key not present"@);
    assert(first.supplied =~= seq![stored(body).value] + rest);
    assert(first.supplied[0] == body.limbs());
    law_read_gives_back_the_stored_value(first, bodies.push(k), body);
    let second = first.read::<P::Body>(bodies.push(k)).0.emit(remove_ops(bodies, k));
    assert(second.supplied =~= rest);
    A::law_entry_reads_back(second, snapshot, k, state, more);
    let third = A::looked_up(second, snapshot, k).0;
    A::law_entry_is_cleared(third, snapshot, k);
    assert(blind_taken::<P, S, A>(s, run, key).0.ops =~= run.ops + take_ops::<P, S, A>(
        s,
        key,
        body,
        state,
    ));
}

/// A take undoes the storing of its insert, and only that: it lands wherever the
/// ledger holds a body under the key and, in every snapshot map, what the state
/// is stored as. Afterwards the key is in none of these maps, so an insert of it
/// lands again; every other key's entries and every other field of the block,
/// the accumulator among them, are as they were.
pub proof fn law_take_clears_its_key<P: StreamSpec<State = S, Delta = S>, S, A: Primitive<S>>(
    s: Stream<P>,
    key: P::Key,
    body: P::Body,
    state: S,
    ledger: Tree,
)
    requires
        s.has_room(A::acc_fields() + A::snapshot_fields()),
        lookup(ledger, s.at(0).keys()) matches Some(Tree::Mapping(_)),
        lookup(ledger, s.at(0).keys().push(stored(key))) == Some(Tree::Cell(stored(body))),
        A::copies(snapshot_of::<P, S, A>(s)).len() == A::entry_values(state).len(),
        forall|i: int|
            0 <= i < A::entry_values(state).len() ==> (lookup(
                ledger,
                (#[trigger] A::copies(snapshot_of::<P, S, A>(s))[i]).keys(),
            ) matches Some(Tree::Mapping(_))),
        forall|i: int|
            0 <= i < A::entry_values(state).len() ==> lookup(
                ledger,
                (#[trigger] A::copies(snapshot_of::<P, S, A>(s))[i]).keys().push(stored(key)),
            ) == Some(Tree::Cell(A::entry_values(state)[i])),
    ensures
        take_landed::<P, S, A>(s, key, body, state)(ledger) matches Some(next) && forall|f: nat|
            f < s.layout().total() ==> lookup(next, (#[trigger] s.layout().field(f)).keys())
                == if f == s.start() || A::copies(snapshot_of::<P, S, A>(s)).contains(
                s.layout().field(f),
            ) {
                Some(
                    Tree::Mapping(
                        lookup(ledger, s.layout().field(f).keys())->0->Mapping_0.remove(
                            stored(key),
                        ),
                    ),
                )
            } else {
                lookup(ledger, s.layout().field(f).keys())
            },
{
    let (layout, start, k) = (s.layout(), s.start(), stored(key));
    let (bodies, values) = (s.at(0).keys(), A::entry_values(state));
    let copies = A::copies(snapshot_of::<P, S, A>(s));
    let (a, b) = (start + 1, start + 1 + A::acc_fields());
    let to = b + A::snapshot_fields();
    A::law_laid_out(layout, a, b);
    lemma_entry(ledger, bodies, k);
    assert(s.at(0) == layout.field(start));
    assert(has_entry(ledger, bodies, k));
    lemma_field_cleared(layout, start, k, ledger);
    let mid = at_path(bodies, without(k))(ledger)->0;
    assert forall|i: int| 0 <= i < values.len() implies lookup(
        mid,
        (#[trigger] copies[i]).keys(),
    ) == lookup(ledger, copies[i].keys()) && lookup(mid, copies[i].keys().push(k)) == Some(
        Tree::Cell(values[i]),
    ) by {
        assert(within(copies[i], layout, b, to));
        let f = choose|f: nat| b <= f < to && copies[i] == #[trigger] layout.field(f);
        assert(lookup(mid, layout.field(f).keys()) == lookup(ledger, layout.field(f).keys()));
        lemma_entry(mid, copies[i].keys(), k);
        lemma_entry(ledger, copies[i].keys(), k);
    }
    lemma_all_read(copies, k, values, mid);
    lemma_all_cleared(layout, b, to, copies, k, mid);
    let next = all_cleared(copies, k)(mid)->0;
    assert(take_landed::<P, S, A>(s, key, body, state)(ledger) == Some(next));
    assert forall|f: nat| f < layout.total() implies lookup(
        next,
        (#[trigger] layout.field(f)).keys(),
    ) == if f == start || copies.contains(layout.field(f)) {
        Some(Tree::Mapping(lookup(ledger, layout.field(f).keys())->0->Mapping_0.remove(k)))
    } else {
        lookup(ledger, layout.field(f).keys())
    } by {
        if copies.contains(layout.field(f)) {
            let i = choose|i: int| 0 <= i < copies.len() && copies[i] == layout.field(f);
            assert(lookup(mid, copies[i].keys()) == lookup(ledger, copies[i].keys()));
            if f == start {
                assert(within(copies[i], layout, b, to));
                let g = choose|g: nat| b <= g < to && copies[i] == #[trigger] layout.field(g);
                law_fields_part(layout, f, g, Seq::empty(), Seq::empty());
                assert(copies[i].keys() + Seq::<Aligned>::empty() =~= copies[i].keys());
            }
        } else if f != start {
            assert(lookup(mid, layout.field(f).keys()) == lookup(ledger, layout.field(f).keys()));
        }
    }
}

/// A stream settles under no response kind, and is in its block's body.
pub proof fn law_a_stream_settles_nothing<P: StreamSpec>(kind: u8) where P::Step: Step<P>
    ensures
        !<Stream<P> as LedgerWidth>::settles(kind),
        <Stream<P> as LedgerWidth>::PLACEMENT == Placement::Body,
{
}

} // verus!
