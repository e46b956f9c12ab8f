//! The outbox: a contention-free slot for calls to another chain.
//!
//! A stream whose accumulator is the last nonce and the last height seen,
//! stepped by `(Add, Max)`, and beside it the records and environments of the
//! requests that are out:
//!
//! - [`Outbox::call`] stores the transaction without its nonce under a handle.
//!   The nonce is assigned on the ledger, never read: two calls proven against
//!   one state both land.
//! - [`Outbox::emit`] takes the handle's entry and gives the transaction with
//!   the nonce it was assigned, to be signed; [`Outbox::file`] moves the
//!   environment, with the last height seen at the call, into the outstanding
//!   set under the request's id.
//! - [`Outbox::raise_seen`] follows a settled response: the attested height is
//!   after the last one seen at the call, and the last one seen is raised to it.
//!
//! Hashes are the caller's: the handle, the commitment to the requester, the
//! request's id. So are the signed record and the settling of a response.
use crate::abi::{Disclose, DisclosureLabel};
use crate::assumed::{Assumed, ProofWires};
use crate::blind::{limbs_of, Add, Max, Primitive};
use crate::circuit::{Circuit3, CircuitRefusal, Run};
use crate::fab::{capacity, law_number_round_trip, number, same_bytes, Aligned, AlignmentAtom};
use crate::header::{LedgerWidth, Placement};
use crate::impact::{
    added, has_entry, law_entry_write, law_write_keeps_the_rest, law_write_reads_back,
    law_written_where_read, lemma_entry, lookup, performs, raised, truth, update, write_ops, Effect, Op,
};
use crate::layout::{BlockLayout, FieldPath, MAX_FIELDS};
use crate::ledger::{law_fields_part, one_slot, LedgerMap, LedgerPath};
use crate::record::{Handle, HandleOwned, PreRecord, QueueEntry};
use crate::state::{Contribution, InitialState, StateBuilder, StateRefusal};
use crate::stream::{
    acc_of, blind_taken, insert_landed, law_insert_stales_no_other_key, law_take_clears_its_key,
    law_take_gives_back_what_is_stored, law_take_lands, snapshot_of, take_landed,
    take_ops, Step, Stream, StreamSpec,
};
use crate::value::Tree;
use crate::wire::{
    law_bits_fit_their_bytes, law_stored_pair, stored, strings, B32, LedgerRepr, Private, Public,
    Uint,
};
use core::marker::PhantomData;
use core::ops::Deref;
use vstd::prelude::*;

verus! {

/// The handle an emit takes: the key of everything it reads.
pub struct HandleEmitted;

impl DisclosureLabel for HandleEmitted {
    const LABEL: &'static str = "emitted handle";
}

/// A kind of call: how it is told apart when its response settles, and the gas
/// it may use.
pub trait Filing {
    /// The response kind.
    const KIND: u8;

    /// The gas limit of the transaction.
    const GAS_LIMIT: u64;
}

/// The outbox's stream: keyed by handle, the body is the pre-record and the
/// environment, the state is the last nonce and the last height seen.
pub struct OutboxSpec<Env, const WORDS: usize>(pub PhantomData<Env>);

/// What every call adds: one to the nonce, nothing to the height.
pub open spec fn call_delta() -> (Uint<64, Public>, Uint<64, Public>) {
    (Uint::word(1), Uint::word(0))
}

impl<Env: LedgerRepr, const WORDS: usize> StreamSpec for OutboxSpec<Env, WORDS> {
    type Key = Handle<Public>;

    type Body = QueueEntry<Env, WORDS>;

    type Head = ();

    type State = (Uint<64, Public>, Uint<64, Public>);

    type Delta = (Uint<64, Public>, Uint<64, Public>);

    type Step = (Add, Max);

    open spec fn head_of(run: Run, body: QueueEntry<Env, WORDS>) -> (Run, ()) {
        (run, ())
    }

    open spec fn delta_of(run: Run, head: ()) -> (Run, (Uint<64, Public>, Uint<64, Public>)) {
        (run, call_delta())
    }

    proof fn law_guarded(run: Run, body: QueueEntry<Env, WORDS>, head: ()) {
    }

    fn head(c: &mut Circuit3, body: &QueueEntry<Env, WORDS>) -> (r: ()) {
    }

    fn delta(c: &mut Circuit3, head: &()) -> (r: (Uint<64, Public>, Uint<64, Public>)) {
        (Uint::of(1), Uint::of(0))
    }
}

/// What an emitted request holds while it is outstanding: the caller's
/// environment, and the last height seen at the call, which the response's must
/// exceed.
pub struct Outstanding<Env> {
    /// The environment, moved unchanged from the call.
    pub env: Env,
    /// The last height seen at the call, after its step.
    pub seen: Uint<64, Public>,
}

impl<Env: ProofWires> ProofWires for Outstanding<Env> {
    open spec fn wires(&self) -> Seq<Seq<u8>> {
        self.env.wires() + self.seen.wires()
    }

    fn push_wires(&self, out: &mut Vec<Vec<u8>>) {
        self.env.push_wires(out);
        self.seen.push_wires(out);
        assert(strings(out@) =~= strings(old(out)@) + self.wires());
    }
}

impl<Env: LedgerRepr> LedgerRepr for Outstanding<Env> {
    open spec fn shape() -> Seq<AlignmentAtom> {
        <(Env, Uint<64, Public>) as LedgerRepr>::shape()
    }

    open spec fn limbs(self) -> Seq<Seq<u8>> {
        (self.env, self.seen).limbs()
    }

    open spec fn of_limbs(limbs: Seq<Seq<u8>>) -> Self {
        let parts = <(Env, Uint<64, Public>) as LedgerRepr>::of_limbs(limbs);
        Outstanding { env: parts.0, seen: parts.1 }
    }

    open spec fn storable(self) -> bool {
        (self.env, self.seen).storable()
    }

    proof fn law_reads_back(value: Self) {
        <(Env, Uint<64, Public>) as LedgerRepr>::law_reads_back((value.env, value.seen));
    }

    fn atoms() -> (r: Vec<AlignmentAtom>) {
        <(Env, Uint<64, Public>) as LedgerRepr>::atoms()
    }

    fn push_limbs(&self, limbs: &mut Vec<Vec<u8>>) {
        self.env.push_limbs(limbs);
        self.seen.push_limbs(limbs);
        assert(strings(limbs@) =~= strings(old(limbs)@) + self.limbs());
    }

    fn from_limbs(limbs: &Vec<Vec<u8>>, from: usize) -> (r: Self) {
        let (env, seen) = <(Env, Uint<64, Public>) as LedgerRepr>::from_limbs(limbs, from);
        Outstanding { env, seen }
    }
}

/// The transaction of an emitted call, complete but for its fees and its
/// signature.
pub struct Emission<Env, const WORDS: usize> {
    /// Whom it calls, and with what.
    pub pre: PreRecord<WORDS>,
    /// The nonce the ledger assigned at the call.
    pub nonce: Uint<64, Public>,
    /// The gas it may use.
    pub gas_limit: u64,
    /// The kind its response settles under.
    pub kind: u8,
    /// What is to be outstanding under the request's id.
    pub outstanding: Outstanding<Env>,
}

/// A contention-free slot for calls: the records and the environments of the
/// requests that are out, then the stream's five fields.
pub struct Outbox<F: Filing, Env: LedgerRepr, const WORDS: usize> {
    records: FieldPath,
    envs: LedgerMap<B32<Public>, Outstanding<Env>, FieldPath>,
    signet_start: usize,
    stream: Stream<OutboxSpec<Env, WORDS>>,
    files: PhantomData<F>,
}

/// The run after an emit, and what it gives.
pub open spec fn emitted<F: Filing, Env: LedgerRepr + ProofWires, const WORDS: usize>(
    stream: Stream<OutboxSpec<Env, WORDS>>,
    run: Run,
    handle: Handle<Public>,
) -> (Run, Emission<Env, WORDS>) {
    let (run, entry, state) = blind_taken::<
        OutboxSpec<Env, WORDS>,
        (Uint<64, Public>, Uint<64, Public>),
        (Add, Max),
    >(stream, run.disclose("emitted handle"@), handle);
    (
        run.acknowledge(entry.wires()).acknowledge(state.wires()),
        Emission {
            pre: entry.pre,
            nonce: state.0,
            gas_limit: F::GAS_LIMIT,
            kind: F::KIND,
            outstanding: Outstanding { env: entry.env, seen: state.1 },
        },
    )
}

impl<F: Filing, Env: LedgerRepr, const WORDS: usize> Outbox<F, Env, WORDS> {
    /// The slot's first field is body field `start` under `layout`.
    pub closed spec fn is_at(self, layout: BlockLayout, start: nat) -> bool {
        &&& self.records == layout.field(start)
        &&& self.envs.path == layout.field(start + 1)
        &&& self.stream.layout() == layout
        &&& self.stream.start() == start + 2
    }

    /// The call side.
    pub closed spec fn stream(self) -> Stream<OutboxSpec<Env, WORDS>> {
        self.stream
    }

    /// Where the records are.
    pub closed spec fn records(self) -> FieldPath {
        self.records
    }

    /// Where the environments of the outstanding requests are.
    pub closed spec fn outstanding(self) -> FieldPath {
        self.envs.path
    }

    /// The first field of the block's protocol record.
    pub closed spec fn signet(self) -> nat {
        self.signet_start as nat
    }

    #[verifier::type_invariant]
    spec fn inv(self) -> bool {
        self.stream.has_room(4)
    }

    /// The slot's seven fields from body field `start` under `layout`, against
    /// the protocol record at body field `signet_start`.
    pub fn at_layout_with_signet(layout: BlockLayout, start: usize, signet_start: usize) -> (r:
        Self)
        requires
            start + 7 <= layout.total() <= MAX_FIELDS,
        ensures
            r.is_at(layout, start as nat),
            r.records() == layout.field(start as nat),
            r.outstanding() == layout.field((start + 1) as nat),
            r.stream().layout() == layout,
            r.stream().start() == start + 2,
            r.stream().has_room(4),
            r.signet() == signet_start,
    {
        Outbox {
            records: FieldPath::in_layout(layout, start),
            envs: LedgerMap::at_layout(layout, start + 1),
            signet_start,
            stream: Stream::at_layout(layout, start + 2),
            files: PhantomData,
        }
    }

    /// The same in a block of `total` fields without a standard.
    pub fn at_block_with_signet(total: usize, start: usize, signet_start: usize) -> (r: Self)
        requires
            start + 7 <= total <= MAX_FIELDS,
        ensures
            r.stream().layout().total() == total,
            !r.stream().layout().has_header(),
            r.is_at(r.stream().layout(), start as nat),
            r.records() == r.stream().layout().field(start as nat),
            r.outstanding() == r.stream().layout().field((start + 1) as nat),
            r.stream().start() == start + 2,
            r.stream().has_room(4),
            r.signet() == signet_start,
    {
        Self::at_layout_with_signet(BlockLayout::compactc(total), start, signet_start)
    }

    /// The record map's path.
    pub fn record_path(&self) -> (r: FieldPath)
        ensures
            r == self.records(),
    {
        self.records
    }

    /// The first field of the block's protocol record.
    pub fn signet_start(&self) -> (r: usize)
        ensures
            r == self.signet(),
    {
        self.signet_start
    }
}

impl<F: Filing, Env: LedgerRepr, const WORDS: usize> LedgerWidth for Outbox<F, Env, WORDS> {
    const WIDTH: usize = 2 + <Stream<OutboxSpec<Env, WORDS>> as LedgerWidth>::WIDTH;

    const PLACEMENT: Placement = Placement::Body;

    open spec fn settles(kind: u8) -> bool {
        kind == F::KIND
    }

    fn kinds() -> (r: Vec<u8>) {
        let mut r: Vec<u8> = Vec::new();
        r.push(F::KIND);
        assert(r@[0] == F::KIND);
        r
    }
}

/// The two maps, then the stream's five fields: all empty, the nonce and the
/// last height seen at zero.
impl<F: Filing, Env: LedgerRepr, const WORDS: usize> InitialState for Outbox<F, Env, WORDS> {
    open spec fn ready(&self) -> bool {
        true
    }

    open spec fn contributions(&self) -> Seq<Contribution> {
        one_slot(self.records(), Tree::Mapping(Map::empty())) + one_slot(
            self.outstanding(),
            Tree::Mapping(Map::empty()),
        ) + self.stream().contributions()
    }

    fn contribute(&self, state: &mut StateBuilder) -> (r: Result<(), StateRefusal>) {
        proof {
            use_type_invariant(self);
        }
        let records: LedgerMap<B32<Public>, (), FieldPath> = LedgerMap::at_path(self.records);
        let envs: LedgerMap<B32<Public>, (), FieldPath> = LedgerMap::at_path(self.envs.path);
        let all = (records, envs, self.stream);
        all.contribute(state)
    }
}

impl<F: Filing, Env: LedgerRepr + ProofWires, const WORDS: usize> Outbox<F, Env, WORDS> {
    /// Files the pre-record under its handle with the environment, and lets the
    /// ledger assign the nonce. The one read is whether the handle is there.
    pub fn call(
        &self,
        c: &mut Circuit3,
        pre: PreRecord<WORDS>,
        handle: Handle<Public>,
        env: Env,
    ) -> (r: Result<Handle<Public>, CircuitRefusal>)
        ensures
            match r {
                Ok(key) => !old(c)@.private && key == handle && final(c)@ == <(
                    Add,
                    Max,
                ) as Step<OutboxSpec<Env, WORDS>>>::inserted(
                    self.stream(),
                    old(c)@,
                    handle,
                    (QueueEntry { pre, env }),
                ),
                Err(refusal) => old(c)@.private && refusal == CircuitRefusal::PrivateHook && final(c)@ == old(c)@,
            },
    {
        proof {
            use_type_invariant(self);
        }
        match self.stream.insert(c, &handle, &QueueEntry { pre, env }) {
            Ok(()) => Ok(handle),
            Err(refusal) => Err(refusal),
        }
    }

    /// Takes the handle's pre-record, environment and snapshot, and gives the
    /// transaction at the nonce it was assigned. Anyone may do it: nothing here
    /// depends on who called.
    pub fn emit(&self, c: &mut Circuit3, handle: Handle<Private>) -> (r: Emission<Env, WORDS>)
        ensures
            (final(c)@, r) == emitted::<F, Env, WORDS>(
                self.stream(),
                old(c)@,
                (Handle { bytes: handle.bytes, vis: PhantomData }),
            ),
    {
        proof {
            use_type_invariant(self);
        }
        let handle = handle.disclose_as::<HandleEmitted>(c);
        let (entry, state) = self.stream.take(c, &handle);
        let entry = entry.stale(c);
        let (nonce, seen) = state.stale(c);
        let QueueEntry { pre, env } = entry;
        Emission {
            pre,
            nonce,
            gas_limit: F::GAS_LIMIT,
            kind: F::KIND,
            outstanding: Outstanding { env, seen },
        }
    }

    /// Puts what an emit gave into the outstanding set, under the id of the
    /// request that was filed for it.
    pub fn file(&self, c: &mut Circuit3, request_id: &B32<Public>, outstanding: &Outstanding<Env>)
        ensures
            final(c)@ == old(c)@.emit(
                write_ops(
                    self.outstanding().keys().push(stored(*request_id)),
                    stored(*outstanding),
                ),
            ),
    {
        self.envs.insert(c, request_id, outstanding);
    }

    /// The response's height is strictly after the last one seen at the call,
    /// and the last one seen is raised to it: a blind maximum, so a response
    /// contends with nothing. The height is disclosed under `L`.
    pub fn raise_seen<L: DisclosureLabel>(
        &self,
        c: &mut Circuit3,
        outstanding: &Outstanding<Env>,
        height: Uint<64, Private>,
    ) -> (r: Result<(), CircuitRefusal>)
        ensures
            ({
                let shown = old(c)@.disclose(L::LABEL@).check(
                    height.value@ > outstanding.seen.value@,
                    "Response not after the call"@,
                );
                match r {
                    Ok(()) => !old(c)@.private && final(c)@ == shown.attach(
                        raise_ops(
                            self.stream(),
                            (Uint { value: height.value, vis: PhantomData }),
                        ),
                    ),
                    Err(refusal) => old(c)@.private && refusal == CircuitRefusal::PrivateHook
                        && final(c)@ == shown,
                }
            }),
    {
        proof {
            use_type_invariant(self);
        }
        let height = height.disclose_as::<L>(c);
        c.check(outstanding.seen.value.below(&height.value), "Response not after the call");
        self.stream.combine(c, (Uint::of(0), height))
    }
}

/// The ops that raise the last height seen: nothing to the nonce, the maximum to
/// the height.
pub open spec fn raise_ops<Env: LedgerRepr, const WORDS: usize>(
    stream: Stream<OutboxSpec<Env, WORDS>>,
    height: Uint<64, Public>,
) -> Seq<Op> {
    <(Add, Max) as Primitive<(Uint<64, Public>, Uint<64, Public>)>>::combine_ops(
        acc_of::<
            OutboxSpec<Env, WORDS>,
            (Uint<64, Public>, Uint<64, Public>),
            (Add, Max),
        >(stream),
        raise_delta(height),
    )
}

/// What a response adds: nothing to the nonce, its height.
pub open spec fn raise_delta(height: Uint<64, Public>) -> (Uint<64, Public>, Uint<64, Public>) {
    (Uint::word(0), height)
}

/// What a settled response gives: the outstanding entry, as read, and the
/// call's attested result.
pub struct Outcome<Env, T> {
    pub env: Assumed<Outstanding<Env>>,
    pub output: T,
}

impl<F: Filing, E: LedgerRepr + ProofWires, const WORDS: usize> Outbox<F, HandleOwned<E>, WORDS> {
    /// [`Outbox::call`] with a commitment to the requester in the environment,
    /// bound to the handle. The commitment is stored, so it is disclosed under
    /// `L`.
    pub fn call_owned<L: DisclosureLabel>(
        &self,
        c: &mut Circuit3,
        pre: PreRecord<WORDS>,
        handle: Handle<Public>,
        owner: B32<Private>,
        inner: E,
    ) -> (r: Result<Handle<Public>, CircuitRefusal>)
        ensures
            match r {
                Ok(key) => !old(c)@.private && key == handle && final(c)@ == <(
                    Add,
                    Max,
                ) as Step<OutboxSpec<HandleOwned<E>, WORDS>>>::inserted(
                    self.stream(),
                    old(c)@.disclose(L::LABEL@),
                    handle,
                    (QueueEntry {
                        pre,
                        env: HandleOwned {
                            handle,
                            owner: B32 { bytes: owner.bytes, vis: PhantomData },
                            inner,
                        },
                    }),
                ),
                Err(refusal) => old(c)@.private && refusal == CircuitRefusal::PrivateHook && final(c)@ == old(c)@.disclose(L::LABEL@),
            },
    {
        let owner = owner.disclose_as::<L>(c);
        self.call(c, pre, handle, HandleOwned { handle, owner, inner })
    }

    /// A refund to the requester: the commitment that is stored with the
    /// outstanding entry is the one the requester opens, `opening` being the
    /// commitment recomputed from their secret and the stored handle. Gives the
    /// requester's key, disclosed under `L`, the entry and the output.
    pub fn refund_to_owner<L: DisclosureLabel, T>(
        &self,
        c: &mut Circuit3,
        outcome: Outcome<HandleOwned<E>, T>,
        opening: B32<Private>,
        own_key: B32<Private>,
    ) -> (r: (B32<Public>, Assumed<Outstanding<HandleOwned<E>>>, T))
        ensures
            r == (own_key.public(), outcome.env, outcome.output),
            r.0.bytes@ == own_key.bytes@,
            final(c)@ == old(c)@.check(
                opening.bytes@ == outcome.env.value().env.owner.bytes@,
                "Not the owner"@,
            ).disclose(L::LABEL@),
    {
        let Outcome { env, output } = outcome;
        let entry: &Outstanding<HandleOwned<E>> = env.deref();
        let opens: bool = same_bytes(
            opening.bytes.as_slice(),
            entry.env.owner.bytes.as_slice(),
        );
        c.check(opens, "Not the owner");
        let owner = own_key.disclose_as::<L>(c);
        (owner, env, output)
    }
}

// ---- what the outbox promises -------------------------------------------------------------------

/// Whether a slot holds this number.
pub open spec fn holds_number(state: Tree, path: Seq<Aligned>, value: u64) -> bool {
    lookup(state, path) == Some(Tree::Cell(number(value as nat, 8)))
}

/// Whether a slot holds a map.
pub open spec fn holds_map(state: Tree, path: Seq<Aligned>) -> bool {
    lookup(state, path) matches Some(Tree::Mapping(_))
}

/// Whether the ledger holds an outbox's stream with this last nonce and this
/// last height seen.
pub open spec fn stands<Env: LedgerRepr, const WORDS: usize>(
    s: Stream<OutboxSpec<Env, WORDS>>,
    state: Tree,
    nonce: u64,
    seen: u64,
) -> bool {
    &&& holds_map(state, s.at(0).keys())
    &&& holds_number(state, s.at(1).keys(), nonce)
    &&& holds_number(state, s.at(2).keys(), seen)
    &&& holds_map(state, s.at(3).keys())
    &&& holds_map(state, s.at(4).keys())
}

/// What landing a call does to the ledger.
pub open spec fn call_landed<Env: LedgerRepr, const WORDS: usize>(
    s: Stream<OutboxSpec<Env, WORDS>>,
    handle: Handle<Public>,
    entry: QueueEntry<Env, WORDS>,
) -> Effect {
    insert_landed::<
        OutboxSpec<Env, WORDS>,
        (Uint<64, Public>, Uint<64, Public>),
        (Add, Max),
    >(s, handle, entry, call_delta())
}

proof fn lemma_apart<Env: LedgerRepr, const WORDS: usize>(
    s: Stream<OutboxSpec<Env, WORDS>>,
    state: Tree,
    i: nat,
    below: Seq<Aligned>,
    value: Tree,
    j: nat,
)
    requires
        s.has_room(4),
        i <= 4,
        j <= 4,
        i != j,
        update(state, s.at(i).keys() + below, value) is Some,
    ensures
        lookup(update(state, s.at(i).keys() + below, value)->0, s.at(j).keys()) == lookup(
            state,
            s.at(j).keys(),
        ),
{
    let other = s.at(j).keys();
    law_fields_part(s.layout(), s.start() + i, s.start() + j, below, Seq::empty());
    assert(other + Seq::<Aligned>::empty() =~= other);
    law_write_keeps_the_rest(state, s.at(i).keys() + below, value, other);
}

/// Replacing a field's value leaves the other fields as they were.
proof fn lemma_field_written<Env: LedgerRepr, const WORDS: usize>(
    s: Stream<OutboxSpec<Env, WORDS>>,
    state: Tree,
    i: nat,
    value: Tree,
)
    requires
        s.has_room(4),
        i <= 4,
        lookup(state, s.at(i).keys()) is Some,
    ensures
        update(state, s.at(i).keys(), value) matches Some(next) && lookup(next, s.at(i).keys())
            == Some(value) && forall|j: nat|
            j <= 4 && j != i ==> #[trigger] lookup(next, s.at(j).keys()) == lookup(
                state,
                s.at(j).keys(),
            ),
{
    let path = s.at(i).keys();
    assert(path + Seq::<Aligned>::empty() =~= path);
    law_written_where_read(state, path, value);
    law_write_reads_back(state, path, value);
    assert forall|j: nat| j <= 4 && j != i implies #[trigger] lookup(
        update(state, path, value)->0,
        s.at(j).keys(),
    ) == lookup(state, s.at(j).keys()) by {
        lemma_apart(s, state, i, Seq::empty(), value, j);
    }
}

/// Writing an entry of a field that holds a map leaves the other fields as they
/// were, and the field a map.
proof fn lemma_entry_written<Env: LedgerRepr, const WORDS: usize>(
    s: Stream<OutboxSpec<Env, WORDS>>,
    state: Tree,
    i: nat,
    key: Aligned,
    value: Tree,
)
    requires
        s.has_room(4),
        i <= 4,
        holds_map(state, s.at(i).keys()),
    ensures
        update(state, s.at(i).keys().push(key), value) matches Some(next) && holds_map(
            next,
            s.at(i).keys(),
        ) && lookup(next, s.at(i).keys().push(key)) == Some(value) && forall|j: nat|
            j <= 4 && j != i ==> #[trigger] lookup(next, s.at(j).keys()) == lookup(
                state,
                s.at(j).keys(),
            ),
{
    let path = s.at(i).keys();
    let entries = lookup(state, path)->0->Mapping_0;
    law_entry_write(state, path, entries, key, value);
    lemma_field_written(s, state, i, Tree::Mapping(entries.insert(key, value)));
    law_write_reads_back(state, path.push(key), value);
}

proof fn lemma_steps<Env: LedgerRepr, const WORDS: usize>(
    s: Stream<OutboxSpec<Env, WORDS>>,
    state: Tree,
    nonce: u64,
    seen: u64,
    delta: (Uint<64, Public>, Uint<64, Public>),
)
    requires
        s.has_room(4),
        stands(s, state, nonce, seen),
        nonce + delta.0.value@ <= u64::MAX,
        delta.1.value@ <= u64::MAX,
    ensures
        ({
            let acc = acc_of::<
                OutboxSpec<Env, WORDS>,
                (Uint<64, Public>, Uint<64, Public>),
                (Add, Max),
            >(s);
            <(Add, Max) as Primitive<(Uint<64, Public>, Uint<64, Public>)>>::combine_effect(
                acc,
                delta,
            )(state) matches Some(next) && stands(
                s,
                next,
                (nonce + delta.0.value@) as u64,
                if seen < delta.1.value@ {
                    delta.1.value@ as u64
                } else {
                    seen
                },
            ) && lookup(next, s.at(0).keys()) == lookup(state, s.at(0).keys())
        }),
{
    let (one, high) = (stored(delta.0), stored(delta.1));
    assert(capacity(8) == 0x1_0000_0000_0000_0000) by {
        reveal_with_fuel(capacity, 9);
    }
    assert(one =~= number(delta.0.value@, 8));
    assert(high =~= number(delta.1.value@, 8));
    law_number_round_trip(nonce, 8);
    law_number_round_trip(seen, 8);
    law_number_round_trip(delta.0.value@ as u64, 8);
    law_number_round_trip(delta.1.value@ as u64, 8);
    law_number_round_trip((nonce + delta.0.value@) as u64, 8);
    let first = added(one)(lookup(state, s.at(1).keys())->0)->0;
    lemma_field_written(s, state, 1, first);
    let mid = update(state, s.at(1).keys(), first)->0;
    let second = raised(high)(lookup(mid, s.at(2).keys())->0)->0;
    lemma_field_written(s, mid, 2, second);
    let next = update(mid, s.at(2).keys(), second)->0;
    assert(lookup(mid, s.at(0).keys()) == lookup(state, s.at(0).keys()));
    assert(lookup(mid, s.at(2).keys()) == lookup(state, s.at(2).keys()));
    assert(lookup(mid, s.at(3).keys()) == lookup(state, s.at(3).keys()));
    assert(lookup(mid, s.at(4).keys()) == lookup(state, s.at(4).keys()));
    assert(lookup(next, s.at(0).keys()) == lookup(mid, s.at(0).keys()));
    assert(lookup(next, s.at(1).keys()) == lookup(mid, s.at(1).keys()));
    assert(lookup(next, s.at(3).keys()) == lookup(mid, s.at(3).keys()));
    assert(lookup(next, s.at(4).keys()) == lookup(mid, s.at(4).keys()));
}

/// A call lands wherever its handle is not there yet, whatever the last nonce:
/// the nonce goes up by one, the last height seen stays, and the handle's
/// snapshot holds both as they then are. Another handle that was not there is
/// still not there, so a call of it lands next: two calls proven against one
/// state both land, with two different nonces.
pub proof fn law_a_call_is_assigned_the_next_nonce<Env: LedgerRepr, const WORDS: usize>(
    s: Stream<OutboxSpec<Env, WORDS>>,
    handle: Handle<Public>,
    entry: QueueEntry<Env, WORDS>,
    state: Tree,
    nonce: u64,
    seen: u64,
    other: Handle<Public>,
)
    requires
        s.has_room(4),
        stands(s, state, nonce, seen),
        nonce < u64::MAX,
        !has_entry(state, s.at(0).keys(), stored(handle)),
    ensures
        call_landed(s, handle, entry)(state) matches Some(next) && stands(
            s,
            next,
            (nonce + 1) as u64,
            seen,
        ) && holds_number(next, s.at(3).keys().push(stored(handle)), (nonce + 1) as u64)
            && holds_number(next, s.at(4).keys().push(stored(handle)), seen) && lookup(
            next,
            s.at(0).keys().push(stored(handle)),
        ) == Some(Tree::Cell(stored(entry))) && (stored(other) != stored(handle) && !has_entry(
            state,
            s.at(0).keys(),
            stored(other),
        ) ==> !has_entry(next, s.at(0).keys(), stored(other))),
{
    let k = stored(handle);
    let bodies = s.at(0).keys();
    lemma_entry_written(s, state, 0, k, Tree::Cell(stored(entry)));
    let filed = update(state, bodies.push(k), Tree::Cell(stored(entry)))->0;
    assert(lookup(filed, s.at(1).keys()) == lookup(state, s.at(1).keys()));
    assert(lookup(filed, s.at(2).keys()) == lookup(state, s.at(2).keys()));
    assert(lookup(filed, s.at(3).keys()) == lookup(state, s.at(3).keys()));
    assert(lookup(filed, s.at(4).keys()) == lookup(state, s.at(4).keys()));
    assert(stands(s, filed, nonce, seen));
    lemma_steps(s, filed, nonce, seen, call_delta());
    let acc = acc_of::<
        OutboxSpec<Env, WORDS>,
        (Uint<64, Public>, Uint<64, Public>),
        (Add, Max),
    >(s);
    let stepped = <(Add, Max) as Primitive<(Uint<64, Public>, Uint<64, Public>)>>::combine_effect(
        acc,
        call_delta(),
    )(filed)->0;
    let first = lookup(stepped, s.at(1).keys())->0;
    lemma_entry_written(s, stepped, 3, k, first);
    let once = update(stepped, s.at(3).keys().push(k), first)->0;
    assert(lookup(once, s.at(0).keys()) == lookup(stepped, s.at(0).keys()));
    assert(lookup(once, s.at(1).keys()) == lookup(stepped, s.at(1).keys()));
    assert(lookup(once, s.at(2).keys()) == lookup(stepped, s.at(2).keys()));
    assert(lookup(once, s.at(4).keys()) == lookup(stepped, s.at(4).keys()));
    let second = lookup(once, s.at(2).keys())->0;
    lemma_entry_written(s, once, 4, k, second);
    let next = update(once, s.at(4).keys().push(k), second)->0;
    assert(lookup(next, s.at(0).keys()) == lookup(once, s.at(0).keys()));
    assert(lookup(next, s.at(1).keys()) == lookup(once, s.at(1).keys()));
    assert(lookup(next, s.at(2).keys()) == lookup(once, s.at(2).keys()));
    assert(lookup(next, s.at(3).keys()) == lookup(once, s.at(3).keys()));
    assert(call_landed(s, handle, entry)(state) == Some(next));
    lemma_entry(next, s.at(3).keys(), k);
    lemma_entry(once, s.at(3).keys(), k);
    lemma_entry(next, bodies, k);
    lemma_entry(filed, bodies, k);
    if stored(other) != k {
        law_insert_stales_no_other_key::<
            OutboxSpec<Env, WORDS>,
            (Uint<64, Public>, Uint<64, Public>),
            (Add, Max),
        >(s, handle, entry, call_delta(), state, stored(other));
    }
}

/// A settled response raises the last height seen to its own, where that is
/// higher, and leaves the nonce and every stored call as they were.
pub proof fn law_a_response_raises_the_height<Env: LedgerRepr, const WORDS: usize>(
    s: Stream<OutboxSpec<Env, WORDS>>,
    state: Tree,
    nonce: u64,
    seen: u64,
    height: Uint<64, Public>,
)
    requires
        s.has_room(4),
        stands(s, state, nonce, seen),
        height.fits(),
    ensures
        performs(
            raise_ops(s, height),
            <(Add, Max) as Primitive<(Uint<64, Public>, Uint<64, Public>)>>::combine_effect(
                acc_of::<
                    OutboxSpec<Env, WORDS>,
                    (Uint<64, Public>, Uint<64, Public>),
                    (Add, Max),
                >(s),
                raise_delta(height),
            ),
        ),
        <(Add, Max) as Primitive<(Uint<64, Public>, Uint<64, Public>)>>::combine_effect(
            acc_of::<
                OutboxSpec<Env, WORDS>,
                (Uint<64, Public>, Uint<64, Public>),
                (Add, Max),
            >(s),
            raise_delta(height),
        )(state) matches Some(next) && stands(
            s,
            next,
            nonce,
            if seen < height.value@ {
                height.value@ as u64
            } else {
                seen
            },
        ) && lookup(next, s.at(0).keys()) == lookup(state, s.at(0).keys()),
{
    let acc = acc_of::<
        OutboxSpec<Env, WORDS>,
        (Uint<64, Public>, Uint<64, Public>),
        (Add, Max),
    >(s);
    let snapshot = snapshot_of::<
        OutboxSpec<Env, WORDS>,
        (Uint<64, Public>, Uint<64, Public>),
        (Add, Max),
    >(s);
    <(Add, Max) as Primitive<(Uint<64, Public>, Uint<64, Public>)>>::law_blind_step(
        acc,
        snapshot,
        raise_delta(height),
        number(0, 1),
    );
    law_bits_fit_their_bytes(64);
    lemma_steps(s, state, nonce, seen, raise_delta(height));
}

/// The state of a call's snapshot.
pub open spec fn snapshot_state(nonce: u64, seen: u64) -> (Uint<64, Public>, Uint<64, Public>) {
    (Uint::word(nonce), Uint::word(seen))
}

/// The ops of an emit that finds this entry and this snapshot.
pub open spec fn emit_ops<Env: LedgerRepr, const WORDS: usize>(
    s: Stream<OutboxSpec<Env, WORDS>>,
    handle: Handle<Public>,
    entry: QueueEntry<Env, WORDS>,
    nonce: u64,
    seen: u64,
) -> Seq<Op> {
    take_ops::<
        OutboxSpec<Env, WORDS>,
        (Uint<64, Public>, Uint<64, Public>),
        (Add, Max),
    >(s, handle, entry, snapshot_state(nonce, seen))
}

/// What landing them does to the ledger: a failure where it holds something
/// else.
pub open spec fn emit_landed<Env: LedgerRepr, const WORDS: usize>(
    s: Stream<OutboxSpec<Env, WORDS>>,
    handle: Handle<Public>,
    entry: QueueEntry<Env, WORDS>,
    nonce: u64,
    seen: u64,
) -> Effect {
    take_landed::<
        OutboxSpec<Env, WORDS>,
        (Uint<64, Public>, Uint<64, Public>),
        (Add, Max),
    >(s, handle, entry, snapshot_state(nonce, seen))
}

proof fn lemma_snapshot_values<Env: LedgerRepr, const WORDS: usize>(
    s: Stream<OutboxSpec<Env, WORDS>>,
    nonce: u64,
    seen: u64,
)
    ensures
        <(Add, Max) as Primitive<(Uint<64, Public>, Uint<64, Public>)>>::entry_values(
            snapshot_state(nonce, seen),
        ) == seq![number(nonce as nat, 8), number(seen as nat, 8)],
        stored(snapshot_state(nonce, seen).0) == number(nonce as nat, 8),
        stored(snapshot_state(nonce, seen).1) == number(seen as nat, 8),
        <(Add, Max) as Primitive<(Uint<64, Public>, Uint<64, Public>)>>::entry_storable(
            snapshot_state(nonce, seen),
        ),
        <(Add, Max) as Primitive<(Uint<64, Public>, Uint<64, Public>)>>::copies(
            snapshot_of::<
                OutboxSpec<Env, WORDS>,
                (Uint<64, Public>, Uint<64, Public>),
                (Add, Max),
            >(s),
        ) == seq![s.at(3), s.at(4)],
{
    let state = snapshot_state(nonce, seen);
    law_bits_fit_their_bytes(64);
    assert(stored(state.0) =~= number(nonce as nat, 8));
    assert(stored(state.1) =~= number(seen as nat, 8));
    assert(<(Add, Max) as Primitive<(Uint<64, Public>, Uint<64, Public>)>>::entry_values(state)
        =~= seq![number(nonce as nat, 8), number(seen as nat, 8)]);
    let snapshot = snapshot_of::<
        OutboxSpec<Env, WORDS>,
        (Uint<64, Public>, Uint<64, Public>),
        (Add, Max),
    >(s);
    assert(<(Add, Max) as Primitive<(Uint<64, Public>, Uint<64, Public>)>>::copies(snapshot)
        =~= seq![s.at(3), s.at(4)]);
}

/// An emit takes what its call left: run against what the ledger holds under the
/// handle, it gives the call's entry with the nonce and the height of its
/// snapshot, nothing unmet, and emits the program that takes them.
pub proof fn law_an_emit_takes_what_its_call_left<
    F: Filing,
    Env: LedgerRepr + ProofWires,
    const WORDS: usize,
>(
    s: Stream<OutboxSpec<Env, WORDS>>,
    run: Run,
    handle: Handle<Public>,
    entry: QueueEntry<Env, WORDS>,
    nonce: u64,
    seen: u64,
    more: Seq<Seq<Seq<u8>>>,
)
    requires
        run.guard,
        entry.storable(),
        run.supplied == seq![
            truth(true)->Cell_0.value,
            stored(entry).value,
            number(nonce as nat, 8).value,
            number(seen as nat, 8).value,
        ] + more,
    ensures
        ({
            let (after, emission) = emitted::<F, Env, WORDS>(s, run, handle);
            &&& emission.pre == entry.pre
            &&& emission.outstanding.env == entry.env
            &&& emission.nonce.value@ == nonce
            &&& emission.outstanding.seen.value@ == seen
            &&& emission.gas_limit == F::GAS_LIMIT
            &&& emission.kind == F::KIND
            &&& after.disclosed == run.disclosed.push("emitted handle"@)
            &&& after.acknowledged == run.acknowledged + stored(entry).value + number(
                nonce as nat,
                8,
            ).value + number(seen as nat, 8).value
            &&& after.ops == run.ops + emit_ops(s, handle, entry, nonce, seen)
            &&& after.deferred == run.deferred
            &&& after.unmet == run.unmet
            &&& after.supplied == more
        }),
        performs(
            emit_ops(s, handle, entry, nonce, seen),
            emit_landed(s, handle, entry, nonce, seen),
        ),
{
    let state = snapshot_state(nonce, seen);
    lemma_snapshot_values(s, nonce, seen);
    assert(run.supplied =~= seq![truth(true)->Cell_0.value, stored(entry).value] + limbs_of(
        seq![number(nonce as nat, 8), number(seen as nat, 8)],
    ) + more);
    law_take_gives_back_what_is_stored::<
        OutboxSpec<Env, WORDS>,
        (Uint<64, Public>, Uint<64, Public>),
        (Add, Max),
    >(s, run.disclose("emitted handle"@), handle, entry, state, more);
    law_take_lands::<
        OutboxSpec<Env, WORDS>,
        (Uint<64, Public>, Uint<64, Public>),
        (Add, Max),
    >(s, handle, entry, state);
    let after = emitted::<F, Env, WORDS>(s, run, handle).0;
    assert(stored(state.0) == number(nonce as nat, 8));
    assert(stored(state.1) == number(seen as nat, 8));
    assert(state.wires() =~= number(nonce as nat, 8).value + number(seen as nat, 8).value);
    assert(after.acknowledged =~= run.acknowledged + stored(entry).value + number(
        nonce as nat,
        8,
    ).value + number(seen as nat, 8).value);
}

/// What a call left is there until its emit, and gone after: the emit lands
/// wherever the ledger holds the handle's entry and snapshot, the handle is in
/// none of the three maps afterwards, so a call of the same content lands again,
/// and every other handle's entries, the last nonce and the last height seen are
/// as they were.
pub proof fn law_an_emit_clears_its_handle<Env: LedgerRepr, const WORDS: usize>(
    s: Stream<OutboxSpec<Env, WORDS>>,
    handle: Handle<Public>,
    entry: QueueEntry<Env, WORDS>,
    state: Tree,
    last_nonce: u64,
    last_seen: u64,
    nonce: u64,
    seen: u64,
)
    requires
        s.has_room(4),
        stands(s, state, last_nonce, last_seen),
        lookup(state, s.at(0).keys().push(stored(handle))) == Some(Tree::Cell(stored(entry))),
        holds_number(state, s.at(3).keys().push(stored(handle)), nonce),
        holds_number(state, s.at(4).keys().push(stored(handle)), seen),
    ensures
        emit_landed(s, handle, entry, nonce, seen)(state) matches Some(next) && stands(
            s,
            next,
            last_nonce,
            last_seen,
        ) && forall|i: nat|
            i == 0 || i == 3 || i == 4 ==> lookup(next, #[trigger] s.at(i).keys()) == Some(
                Tree::Mapping(lookup(state, s.at(i).keys())->0->Mapping_0.remove(stored(handle))),
            ),
{
    let kept = snapshot_state(nonce, seen);
    lemma_snapshot_values(s, nonce, seen);
    let copies = seq![s.at(3), s.at(4)];
    assert(copies[0] == s.at(3) && copies[1] == s.at(4));
    law_take_clears_its_key::<
        OutboxSpec<Env, WORDS>,
        (Uint<64, Public>, Uint<64, Public>),
        (Add, Max),
    >(s, handle, entry, kept, state);
    let next = emit_landed(s, handle, entry, nonce, seen)(state)->0;
    assert forall|i: nat| i <= 4 implies #[trigger] s.at(i) == s.layout().field(s.start() + i) by {}
    assert forall|i: nat, j: nat| i <= 4 && j <= 4 && i != j implies #[trigger] s.at(i)
        != #[trigger] s.at(j) by {
        law_fields_part(s.layout(), s.start() + i, s.start() + j, Seq::empty(), Seq::empty());
        assert(s.at(i).keys() + Seq::<Aligned>::empty() =~= s.at(i).keys());
        assert(s.at(j).keys() + Seq::<Aligned>::empty() =~= s.at(j).keys());
    }
    assert forall|i: nat| i <= 4 implies copies.contains(#[trigger] s.at(i)) == (i == 3 || i
        == 4) by {
        if i == 3 {
            assert(copies[0] == s.at(i));
        } else if i == 4 {
            assert(copies[1] == s.at(i));
        } else {
            assert(s.at(i) != s.at(3) && s.at(i) != s.at(4));
        }
    }
    assert forall|i: nat| i <= 4 implies lookup(next, #[trigger] s.at(i).keys()) == if i == 0 || i
        == 3 || i == 4 {
        Some(Tree::Mapping(lookup(state, s.at(i).keys())->0->Mapping_0.remove(stored(handle))))
    } else {
        lookup(state, s.at(i).keys())
    } by {
        assert(s.at(i) == s.layout().field(s.start() + i));
        assert(copies.contains(s.at(i)) == (i == 3 || i == 4));
    }
    assert(lookup(next, s.at(0).keys()) is Some);
    assert(lookup(next, s.at(1).keys()) == lookup(state, s.at(1).keys()));
    assert(lookup(next, s.at(2).keys()) == lookup(state, s.at(2).keys()));
    assert(lookup(next, s.at(3).keys()) is Some);
    assert(lookup(next, s.at(4).keys()) is Some);
}

/// How an outstanding request is stored: the environment, then the last height
/// seen.
pub proof fn law_stored_outstanding<Env: LedgerRepr + ProofWires>(outstanding: Outstanding<Env>)
    ensures
        stored(outstanding).value == stored(outstanding.env).value + stored(outstanding.seen).value,
        stored(outstanding).alignment == stored(outstanding.env).alignment + stored(
            outstanding.seen,
        ).alignment,
        outstanding.wires() == outstanding.env.wires() + stored(outstanding.seen).value,
{
    law_stored_pair(outstanding.env, outstanding.seen);
}

/// What an outbox starts as: no records, nothing outstanding, and its stream's
/// five fields; it settles under its own kind alone.
pub proof fn law_an_outbox_starts_empty<F: Filing, Env: LedgerRepr, const WORDS: usize>(
    outbox: Outbox<F, Env, WORDS>,
    kind: u8,
)
    ensures
        outbox.contributions() == seq![
            Contribution {
                path: outbox.records()@,
                value: Tree::Mapping(Map::empty()),
                sealed: false,
            },
            Contribution {
                path: outbox.outstanding()@,
                value: Tree::Mapping(Map::empty()),
                sealed: false,
            },
        ] + outbox.stream().contributions(),
        <Outbox<F, Env, WORDS> as LedgerWidth>::settles(kind) <==> kind == F::KIND,
{
    let (records, outstanding) = (
        one_slot(outbox.records(), Tree::Mapping(Map::empty())),
        one_slot(outbox.outstanding(), Tree::Mapping(Map::empty())),
    );
    assert(records + outstanding =~= seq![
        Contribution {
            path: outbox.records()@,
            value: Tree::Mapping(Map::empty()),
            sealed: false,
        },
        Contribution {
            path: outbox.outstanding()@,
            value: Tree::Mapping(Map::empty()),
            sealed: false,
        },
    ]);
}

} // verus!
