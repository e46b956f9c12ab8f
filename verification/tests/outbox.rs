//! The outbox, run on the ledger's own machine.
#![allow(dead_code)]

use midnight_base_crypto::fab;
use midnight_onchain_state::state::StateValue as LedgerState;
use midnight_onchain_vm::cost_model::INITIAL_COST_MODEL;
use midnight_onchain_vm::ops::{expect_checked, expect_checked_state_value, Key, Op};
use midnight_onchain_vm::result_mode::{
    GatherEvent, ResultMode, ResultModeGather, ResultModeVerify,
};
use midnight_onchain_vm::vm::run_program;
use midnight_onchain_vm::vm_value::{ValueStrength, VmValue};
use midnight_storage::arena::Sp;
use midnight_storage::db::InMemoryDB;
use midnight_storage::storage::{Array, HashMap as StorageMap};
use minocrab_std::abi::{constrain, CircuitArg, Disclose, DisclosureLabel};
use minocrab_std::circuit::Circuit3;
use minocrab_std::fab::{AlignedValue, AlignmentAtom, AlignmentSegment};
use minocrab_std::impact::ImpactOp;
use minocrab_std::ledger::LedgerKey;
use minocrab_std::wire::{Private, Public, Uint, Vis3};
use minocrab_std::abi::{CircuitAbi, Prim};
use minocrab_std::assumed::Assumed;
use minocrab_std::circuit::CircuitRefusal;
use minocrab_std::header::LedgerWidth;
use minocrab_std::layout::{BlockLayout, FieldPath};
use minocrab_std::outbox::{Filing, Outbox, Outcome, Outstanding};
use minocrab_std::record::{Address, Handle, HandleOwned, PreRecord, Words};
use minocrab_std::state::{InitialState, StateBuilder};
use minocrab_std::value::StateValue;
use minocrab_std::wire::B32;

// ---- the ledger's own machine ---------------------------------------------------------------

type Db = InMemoryDB;
type State = LedgerState<Db>;
type U64 = Uint<64, Public>;

fn outside(v: &AlignedValue) -> fab::AlignedValue {
    let atoms = v.value.iter().map(|bytes| fab::ValueAtom(bytes.clone())).collect();
    let segments = v
        .alignment
        .iter()
        .map(|segment| match segment {
            AlignmentSegment::Atom(AlignmentAtom::Compress) => {
                fab::AlignmentSegment::Atom(fab::AlignmentAtom::Compress)
            }
            AlignmentSegment::Atom(AlignmentAtom::Field) => {
                fab::AlignmentSegment::Atom(fab::AlignmentAtom::Field)
            }
            AlignmentSegment::Atom(AlignmentAtom::Bytes { length }) => {
                fab::AlignmentSegment::Atom(fab::AlignmentAtom::Bytes { length: *length })
            }
            AlignmentSegment::Choice(_) => panic!("no stored type here has a choice"),
        })
        .collect();
    fab::AlignedValue::new(fab::Value(atoms), fab::Alignment(segments))
        .expect("the bytes fit their atoms")
}

fn key_of(key: &LedgerKey) -> Key {
    match key {
        LedgerKey::Field(i) => Key::Value(expect_checked(bytes_value(1, &[*i]))),
        LedgerKey::Value(v) => Key::Value(expect_checked(outside(v))),
    }
}

/// The machine's op, a read carrying `read`.
fn op_of<M: ResultMode<Db>>(op: &ImpactOp, read: impl Fn(fab::AlignedValue) -> M::ReadResult) -> Op<M, Db> {
    match op {
        ImpactOp::Dup { n } => Op::Dup { n: *n },
        ImpactOp::Swap { n } => Op::Swap { n: *n },
        ImpactOp::Pop => Op::Pop,
        ImpactOp::Push { storage, value } => Op::Push {
            storage: *storage,
            value: expect_checked_state_value(LedgerState::Cell(Sp::new(outside(value)))),
        },
        ImpactOp::Idx { cached, push_path, path } => Op::Idx {
            cached: *cached,
            push_path: *push_path,
            path: Array::from(path.iter().map(key_of).collect::<Vec<_>>()),
        },
        ImpactOp::Ins { cached, n } => Op::Ins { cached: *cached, n: *n },
        ImpactOp::Add => Op::Add,
        ImpactOp::Sub => Op::Sub,
        ImpactOp::Lt => Op::Lt,
        ImpactOp::Neg => Op::Neg,
        ImpactOp::And => Op::And,
        ImpactOp::Or => Op::Or,
        ImpactOp::Member => Op::Member,
        ImpactOp::Rem { cached } => Op::Rem { cached: *cached },
        ImpactOp::Branch { skip } => Op::Branch { skip: *skip },
        ImpactOp::Jmp { skip } => Op::Jmp { skip: *skip },
        ImpactOp::Popeq { value } => Op::Popeq { cached: false, result: read(outside(value)) },
    }
}

fn strong(state: &State) -> VmValue<Db> {
    VmValue::new(ValueStrength::Strong, state.clone())
}

/// What the last read of `ops` finds.
fn gather(ops: &[ImpactOp], state: &State) -> Option<Vec<Vec<u8>>> {
    let ops: Vec<Op<ResultModeGather, Db>> = ops.iter().map(|op| op_of(op, |_| ())).collect();
    let out = run_program(&[strong(state)], &ops, None, &INITIAL_COST_MODEL).ok()?;
    match out.events.last() {
        Some(GatherEvent::Read(v)) => Some(v.value.0.iter().map(|atom| atom.0.clone()).collect()),
        _ => None,
    }
}

/// The state after `ops`, where they apply.
fn land(ops: &[ImpactOp], state: &State) -> Option<State> {
    let ops: Vec<Op<ResultModeVerify, Db>> = ops.iter().map(|op| op_of(op, |v| v)).collect();
    let out = run_program(&[strong(state)], &ops, None, &INITIAL_COST_MODEL).ok()?;
    assert_eq!(out.stack.len(), 1, "a program leaves the state and nothing else");
    Some(out.stack[0].value.clone())
}

#[derive(Debug)]
struct Executed {
    post: State,
    ops: Vec<ImpactOp>,
    reads: usize,
    disclosed: Vec<String>,
    acknowledged: usize,
}

#[derive(Debug)]
enum Failure {
    /// An assertion of the circuit does not hold.
    Rejected(String),
    /// The ledger refuses the program.
    NotApplied,
}

const NO_VALUE: &str = "a read found no value of its shape supplied";

/// Runs a circuit against a state: each read returns what the ledger holds.
fn execute(body: impl Fn(&mut Circuit3), state: &State, inputs: &[Vec<u8>]) -> Result<Executed, Failure> {
    let mut supplied: Vec<Vec<Vec<u8>>> = Vec::new();
    loop {
        let mut c = Circuit3::with(inputs.to_vec(), supplied.clone());
        body(&mut c);
        let unmet = c.unmet().clone();
        let disclosed = c.disclosed().clone();
        let acknowledged = c.acknowledged().len();
        let ops = c.finish();
        match unmet {
            None => {
                let post = land(&ops, state).ok_or(Failure::NotApplied)?;
                return Ok(Executed { post, ops, reads: supplied.len(), disclosed, acknowledged });
            }
            Some(message) if message == NO_VALUE => {
                let mut left = supplied.len() + 1;
                let mut end = 0;
                while left > 0 {
                    if matches!(ops[end], ImpactOp::Popeq { .. }) {
                        left -= 1;
                    }
                    end += 1;
                }
                supplied.push(gather(&ops[..end], state).ok_or(Failure::NotApplied)?);
            }
            Some(message) => return Err(Failure::Rejected(message)),
        }
    }
}

fn le(v: u64) -> Vec<u8> {
    let mut bytes = v.to_le_bytes().to_vec();
    while bytes.last() == Some(&0) {
        bytes.pop();
    }
    bytes
}

fn args(inputs: &[u64]) -> Vec<Vec<u8>> {
    inputs.iter().map(|v| le(*v)).collect()
}

fn popeqs(ops: &[ImpactOp]) -> usize {
    ops.iter().filter(|op| matches!(op, ImpactOp::Popeq { .. })).count()
}

/// How many reads of `field`: an `idx [field]` with a `popeq` behind it.
fn reads_of(ops: &[ImpactOp], field: u8) -> usize {
    ops.windows(2)
        .filter(|w| {
            matches!(&w[1], ImpactOp::Popeq { .. })
                && matches!(&w[0], ImpactOp::Idx { path, .. }
                    if path.len() == 1 && matches!(path[0], LedgerKey::Field(i) if i == field))
        })
        .count()
}

// ---- states -------------------------------------------------------------------------------------

fn bytes_value(n: u32, bytes: &[u8]) -> fab::AlignedValue {
    fab::AlignedValue::new(
        fab::Value(vec![fab::ValueAtom(bytes.to_vec()).normalize()]),
        fab::Alignment(vec![fab::AlignmentSegment::Atom(fab::AlignmentAtom::Bytes { length: n })]),
    )
    .expect("the bytes fit the atom")
}

fn u64_value(v: u64) -> fab::AlignedValue {
    bytes_value(8, &v.to_le_bytes())
}

fn bool_value(v: bool) -> fab::AlignedValue {
    bytes_value(1, &[u8::from(v)])
}

fn cell(av: fab::AlignedValue) -> State {
    LedgerState::Cell(Sp::new(av))
}

fn map_of(entries: &[(u64, fab::AlignedValue)]) -> State {
    let mut m: StorageMap<fab::AlignedValue, State, Db> = StorageMap::new();
    for (k, v) in entries {
        m = m.insert(u64_value(*k), cell(v.clone()));
    }
    LedgerState::Map(m)
}

fn u64_map(entries: &[(u64, u64)]) -> State {
    map_of(&entries.iter().map(|(k, v)| (*k, u64_value(*v))).collect::<Vec<_>>())
}

fn block_of(fields: Vec<State>) -> State {
    LedgerState::Array(Array::from(fields))
}

fn field(state: &State, index: usize) -> State {
    let LedgerState::Array(fields) = state else {
        panic!("the state is the block's array");
    };
    fields.get(index).expect("field in range").clone()
}

fn first_atom(node: &State) -> Vec<u8> {
    let LedgerState::Cell(av) = node else {
        panic!("a cell, got {node:?}");
    };
    av.value.0.first().map(|a| a.0.clone()).unwrap_or_default()
}

fn decode(bytes: Vec<u8>) -> u64 {
    let mut le = [0u8; 8];
    le[..bytes.len()].copy_from_slice(&bytes);
    u64::from_le_bytes(le)
}

fn cell_u64(state: &State, index: usize) -> u64 {
    decode(first_atom(&field(state, index)))
}

fn cell_bool(state: &State, index: usize) -> bool {
    !first_atom(&field(state, index)).is_empty()
}

fn map_entry(state: &State, index: usize, key: fab::AlignedValue) -> Option<Vec<u8>> {
    let f = field(state, index);
    let LedgerState::Map(ref m) = f else {
        panic!("field {index} is a map");
    };
    m.get(&key).map(|entry| first_atom(&entry))
}

fn map_u64(state: &State, index: usize, key: u64) -> Option<u64> {
    map_entry(state, index, u64_value(key)).map(decode)
}

fn map_bool(state: &State, index: usize, key: u64) -> Option<bool> {
    map_entry(state, index, u64_value(key)).map(|bytes| !bytes.is_empty())
}

// ---- circuits -----------------------------------------------------------------------------------

/// Two public `Uint<64>` arguments, `k` then `d`.
fn two_args(c: &mut Circuit3) -> (U64, U64) {
    let k = <Uint<64, Private> as CircuitArg>::declare(c, "k");
    let d = <Uint<64, Private> as CircuitArg>::declare(c, "d");
    constrain(&k, c);
    constrain(&d, c);
    (k.disclose_as::<Shown>(c), d.disclose_as::<Shown>(c))
}

struct Shown;

impl DisclosureLabel for Shown {
    const LABEL: &'static str = "shown";
}

/// A number that is a machine word.
fn word<const BITS: u32, V: Vis3>(number: Uint<BITS, V>) -> u64 {
    number.to_word().expect("a machine word")
}

fn u64_of(value: u64) -> U64 {
    Uint::of(value)
}

// ---- the slot under test ------------------------------------------------------------------------------

/// A transfer: kind 1.
struct Filed;

impl Filing for Filed {
    const KIND: u8 = 1;
    const GAS_LIMIT: u64 = 100_000;
}

type Env = HandleOwned<U64>;
type Calls = Outbox<Filed, Env, 2>;

// Twelve fields: five of the protocol record, then the slot's seven: records,
// outstanding, bodies, the nonce cell, the last-seen cell, two snapshot maps.
const FIELDS: usize = 12;
const REQUEST_NONCE: u8 = 2;
const OUTSTANDING: usize = 6;
const BODIES: usize = 7;
const NONCE_CELL: usize = 8;
const SEEN_CELL: usize = 9;
const NONCES: usize = 10;
const SEENS: usize = 11;

fn calls() -> Calls {
    Outbox::at_block_with_signet(FIELDS, 5, 0)
}

struct Owner;

impl DisclosureLabel for Owner {
    const LABEL: &'static str = "the requester's refund commitment";
}

struct Recipient;

impl DisclosureLabel for Recipient {
    const LABEL: &'static str = "own public key as refund recipient";
}

struct Height;

impl DisclosureLabel for Height {
    const LABEL: &'static str = "the attested height";
}

fn state(nonce: u64, seen: u64) -> State {
    let mut fields = vec![LedgerState::Null; 5];
    fields.extend([u64_map(&[]), u64_map(&[]), u64_map(&[])]);
    fields.extend([cell(u64_value(nonce)), cell(u64_value(seen)), u64_map(&[]), u64_map(&[])]);
    block_of(fields)
}

fn pre() -> PreRecord<2> {
    PreRecord {
        callee: Address { bytes: [0xaa; 20] },
        key_version: Uint::of(3),
        words: Words { words: [B32::of([1; 32]), B32::of([2; 32])] },
    }
}

fn handle(tag: u8) -> Handle<Public> {
    let mut bytes = [0u8; 32];
    bytes[0] = tag;
    Handle::of(bytes)
}

fn handle_value(tag: u8) -> fab::AlignedValue {
    fab::AlignedValue::new(
        fab::Value(vec![fab::ValueAtom(vec![tag])]),
        fab::Alignment(vec![fab::AlignmentSegment::Atom(fab::AlignmentAtom::Field)]),
    )
    .expect("a small number is a field element")
}

fn handle_entry(state: &State, index: usize, tag: u8) -> Option<u64> {
    map_entry(state, index, handle_value(tag)).map(decode)
}

const COMMITMENT: [u8; 32] = [7; 32];

fn call(tag: u8) -> impl Fn(&mut Circuit3) {
    move |c: &mut Circuit3| {
        calls()
            .call_owned::<Owner>(c, pre(), handle(tag), B32::of(COMMITMENT), u64_of(500))
            .expect("not in a private guard");
    }
}

fn emit(tag: u8) -> impl Fn(&mut Circuit3) {
    move |c: &mut Circuit3| {
        let emission = calls().emit(c, Handle::of(handle(tag).bytes));
        calls().file(c, &B32::of([9; 32]), &emission.outstanding);
    }
}

fn outstanding(seen: u64) -> Outstanding<Env> {
    let env = HandleOwned { handle: handle(1), owner: B32::of(COMMITMENT), inner: u64_of(500) };
    Outstanding { env, seen: u64_of(seen) }
}

fn complete(seen: u64, height: u64) -> impl Fn(&mut Circuit3) {
    move |c: &mut Circuit3| {
        let height = Uint::<64, Private>::of(height);
        calls()
            .raise_seen::<Height>(c, &outstanding(seen), height)
            .expect("not in a private guard");
    }
}

fn refund(opening: [u8; 32], height: u64) -> impl Fn(&mut Circuit3) {
    move |c: &mut Circuit3| {
        let height = Uint::<64, Private>::of(height);
        let outcome = Outcome { env: Assumed::of_read(outstanding(5)), output: height };
        let (owner, entry, height) = calls().refund_to_owner::<Recipient, _>(
            c,
            outcome,
            B32::of(opening),
            B32::of([3; 32]),
        );
        assert_eq!(owner.bytes, [3; 32]);
        calls().raise_seen::<Height>(c, &entry, height).expect("not in a private guard");
    }
}

// ---- the layout ------------------------------------------------------------------------------------------

#[test]
fn the_block_is_laid_out_by_slot_width() {
    assert_eq!(calls().signet_start(), 0);
    assert_eq!(calls().record_path().to_vec(), vec![5]);
    assert_eq!(<Calls as LedgerWidth>::WIDTH, 7);
    assert_eq!(<Calls as LedgerWidth>::kinds(), vec![1]);
}

#[test]
fn under_a_standard_the_record_map_is_one_root_slot_along() {
    let headed: Calls = Outbox::at_layout_with_signet(BlockLayout::headed(FIELDS), 5, 0);
    assert_eq!(headed.record_path().to_vec(), vec![6]);
}

#[test]
fn the_deploy_state_is_empty_maps_and_zeros() {
    let mut builder = StateBuilder::new();
    calls().contribute(&mut builder).expect("the seven fields are free");
    let paths: Vec<u8> = (5..12).collect();
    for i in paths {
        let value = builder.get(FieldPath::Flat(i)).expect("declared");
        match value {
            StateValue::Mapping(entries) => {
                assert!(entries.is_empty() && i as usize != NONCE_CELL && i as usize != SEEN_CELL)
            }
            StateValue::Cell(v) => {
                assert!(i as usize == NONCE_CELL || i as usize == SEEN_CELL);
                assert!(v.value[0].is_empty());
            }
            other => panic!("field {i}: {other:?}"),
        }
    }
}

/// A handle is one field slot: the emit argument declares one wire.
#[test]
fn a_handle_is_one_field_slot() {
    assert_eq!(<Handle<Private> as CircuitAbi>::slots(), 1);
    let mut prims = Vec::new();
    <Handle<Private> as CircuitAbi>::push_prims(&mut prims);
    assert_eq!(prims, vec![Prim::Field]);
}

// ---- the circuits ----------------------------------------------------------------------------------------

/// No circuit reads an accumulator cell: no `idx [cell]` has a `popeq` behind
/// it.
#[test]
fn no_circuit_reads_the_accumulator() {
    let called = execute(call(1), &state(0, 0), &[]).expect("applies");
    let emitted = execute(emit(1), &called.post, &[]).expect("applies");
    let completed = execute(complete(5, 9), &state(0, 0), &[]).expect("applies");
    let refunded = execute(refund(COMMITMENT, 9), &state(0, 0), &[]).expect("applies");
    for (name, out) in [
        ("call", &called),
        ("emit", &emitted),
        ("complete", &completed),
        ("refund", &refunded),
    ] {
        assert_eq!(reads_of(&out.ops, NONCE_CELL as u8), 0, "{name} reads the nonce cell");
        assert_eq!(reads_of(&out.ops, SEEN_CELL as u8), 0, "{name} reads the last-seen cell");
    }
}

#[test]
fn the_reads_are_per_key() {
    let called = execute(call(1), &state(0, 0), &[]).expect("applies");
    assert_eq!(popeqs(&called.ops), 1, "call: the handle's not-member check");
    assert_eq!(reads_of(&called.ops, REQUEST_NONCE), 0, "call never touches the request nonce");
    // The same handle again, before its emit.
    match execute(call(1), &called.post, &[]) {
        Err(Failure::Rejected(message)) => assert_eq!(message, "Stream key already present"),
        other => panic!("a handle that is there is refused, got {other:?}"),
    }
    let emitted = execute(emit(1), &called.post, &[]).expect("applies");
    // Member and lookup of the body, the two snapshot lookups.
    assert_eq!(popeqs(&emitted.ops), 4);
    assert_eq!(reads_of(&emitted.ops, REQUEST_NONCE), 0, "the counter is read where the record is filed");
    match execute(emit(2), &called.post, &[]) {
        Err(Failure::Rejected(message)) => assert_eq!(message, "Stream key not present"),
        other => panic!("an absent handle is refused, got {other:?}"),
    }
    for settled in [
        execute(complete(5, 9), &state(0, 0), &[]).expect("applies"),
        execute(refund(COMMITMENT, 9), &state(0, 0), &[]).expect("applies"),
    ] {
        assert_eq!(popeqs(&settled.ops), 0);
        assert_eq!(reads_of(&settled.ops, REQUEST_NONCE), 0);
    }
    match execute(refund(COMMITMENT, 5), &state(0, 0), &[]) {
        Err(Failure::Rejected(message)) => assert_eq!(message, "Response not after the call"),
        other => panic!("an equal height is refused, got {other:?}"),
    }
}

#[test]
fn a_call_is_assigned_the_next_nonce_and_an_emit_takes_it() {
    let called = execute(call(1), &state(6, 100), &[]).expect("applies");
    assert_eq!(called.disclosed, vec!["the requester's refund commitment"]);
    assert_eq!(cell_u64(&called.post, NONCE_CELL), 7);
    assert_eq!(cell_u64(&called.post, SEEN_CELL), 100, "a call raises no height");
    assert_eq!(handle_entry(&called.post, NONCES, 1), Some(7));
    assert_eq!(handle_entry(&called.post, SEENS, 1), Some(100));

    let emitted = execute(
        |c: &mut Circuit3| {
            let emission = calls().emit(c, Handle::of(handle(1).bytes));
            if c.unmet().is_none() {
                assert_eq!(word(emission.nonce), 7);
                assert_eq!(emission.gas_limit, 100_000);
                assert_eq!(emission.kind, 1);
                assert_eq!(emission.pre.callee.bytes, [0xaa; 20]);
                assert_eq!(word(emission.pre.key_version), 3);
                assert_eq!(emission.pre.words.words[0].bytes, [1; 32]);
                assert_eq!(emission.pre.words.words[1].bytes, [2; 32]);
                assert_eq!(word(emission.outstanding.seen), 100);
                assert_eq!(emission.outstanding.env.owner.bytes, COMMITMENT);
                assert_eq!(word(emission.outstanding.env.inner), 500);
            }
            calls().file(c, &B32::of([9; 32]), &emission.outstanding);
        },
        &called.post,
        &[],
    )
    .expect("applies");
    assert_eq!(emitted.disclosed, vec!["emitted handle"]);
    for index in [BODIES, NONCES, SEENS] {
        assert_eq!(map_entry(&emitted.post, index, handle_value(1)), None, "taken from {index}");
    }
    let filed = map_entry(&emitted.post, OUTSTANDING, bytes_value(32, &[9; 32]));
    assert_eq!(filed, Some(vec![1]), "outstanding under the request's id");
    assert_eq!(cell_u64(&emitted.post, NONCE_CELL), 7, "the accumulator is untouched by an emit");
}

#[test]
fn two_calls_proven_against_one_state_get_two_nonces() {
    let before = state(0, 0);
    let first = execute(call(1), &before, &[]).expect("applies").ops;
    let second = execute(call(2), &before, &[]).expect("applies").ops;
    let post = land(&second, &land(&first, &before).expect("lands")).expect("lands too");
    assert_eq!(handle_entry(&post, NONCES, 1), Some(1));
    assert_eq!(handle_entry(&post, NONCES, 2), Some(2));
    let post = land(&first, &land(&second, &before).expect("lands")).expect("lands too");
    assert_eq!(handle_entry(&post, NONCES, 2), Some(1));
    assert_eq!(handle_entry(&post, NONCES, 1), Some(2));
}

#[test]
fn a_response_is_after_the_call_and_raises_the_height() {
    let out = execute(complete(5, 9), &state(3, 7), &[]).expect("applies");
    assert_eq!(out.disclosed, vec!["the attested height"]);
    assert_eq!(cell_u64(&out.post, NONCE_CELL), 3);
    assert_eq!(cell_u64(&out.post, SEEN_CELL), 9);
    let out = execute(complete(5, 6), &state(3, 7), &[]).expect("applies");
    assert_eq!(cell_u64(&out.post, SEEN_CELL), 7, "a later one was seen already");
    // An equal height is dropped.
    match execute(complete(5, 5), &state(3, 7), &[]) {
        Err(Failure::Rejected(message)) => assert_eq!(message, "Response not after the call"),
        other => panic!("an equal height is refused, got {other:?}"),
    }
}

#[test]
fn a_refund_opens_the_requesters_commitment() {
    let out = execute(refund(COMMITMENT, 9), &state(0, 0), &[]).expect("applies");
    assert_eq!(
        out.disclosed,
        vec!["own public key as refund recipient", "the attested height"]
    );
    match execute(refund([8; 32], 9), &state(0, 0), &[]) {
        Err(Failure::Rejected(message)) => assert_eq!(message, "Not the owner"),
        other => panic!("another's commitment is refused, got {other:?}"),
    }
    execute(complete(5, 9), &state(0, 0), &[]).expect("a completion has no owner to open for");
}

#[test]
fn a_private_guard_refuses_a_call_and_a_response() {
    let mut c = Circuit3::new();
    c.enter_private();
    let refused = calls().call_owned::<Owner>(
        &mut c,
        pre(),
        handle(1),
        B32::of(COMMITMENT),
        u64_of(1),
    );
    assert!(matches!(refused, Err(CircuitRefusal::PrivateHook)));
    let height = Uint::<64, Private>::of(9);
    let refused = calls().raise_seen::<Height>(&mut c, &outstanding(1), height);
    assert_eq!(refused, Err(CircuitRefusal::PrivateHook));
}

// ---- under a standard --------------------------------------------------------------------------------------

/// The same body behind one plain leading field.
#[test]
fn the_headed_outbox_is_its_compactc_twin_byte_for_byte() {
    assert_eq!(<Calls as LedgerWidth>::WIDTH, 7);
    let headed: Calls = Outbox::at_layout_with_signet(BlockLayout::headed(FIELDS), 5, 0);
    let leading: Calls = Outbox::at_layout_with_signet(BlockLayout::compactc(FIELDS + 1), 6, 1);
    assert_eq!(FieldPath::in_layout(BlockLayout::headed(FIELDS), 0).to_vec(), vec![1]);
    assert_eq!(headed.record_path().to_vec(), vec![6]);
    assert_eq!(FieldPath::in_layout(BlockLayout::compactc(FIELDS + 1), 0).to_vec(), vec![0]);
    assert_eq!(FieldPath::in_layout(BlockLayout::compactc(FIELDS + 1), 1).to_vec(), vec![1]);
    assert_eq!(leading.record_path().to_vec(), vec![6]);
    let call = |slot: &Calls| {
        let mut c = Circuit3::new();
        slot.call_owned::<Owner>(&mut c, pre(), handle(1), B32::of(COMMITMENT), u64_of(500))
            .expect("not in a private guard");
        format!("{:?}", c.finish())
    };
    assert_eq!(call(&headed), call(&leading), "call");
    assert_ne!(call(&headed), call(&calls()), "the header moved it");
    let emit = |slot: &Calls| {
        let mut c = Circuit3::new();
        let emission = slot.emit(&mut c, Handle::of(handle(1).bytes));
        slot.file(&mut c, &B32::of([9; 32]), &emission.outstanding);
        format!("{:?}", c.finish())
    };
    assert_eq!(emit(&headed), emit(&leading), "emit");
}
