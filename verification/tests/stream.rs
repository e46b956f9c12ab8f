//! Streams of both layouts, run on the ledger's own machine against a seeded state.
#![allow(dead_code)]

use midnight_base_crypto::fab;
use midnight_onchain_state::state::StateValue as LedgerState;
use midnight_onchain_vm::cost_model::INITIAL_COST_MODEL;
use midnight_onchain_vm::ops::{expect_checked, expect_checked_state_value, Key, Op};
use midnight_onchain_vm::result_mode::{
    GatherEvent, ResultMode, ResultModeGather, ResultModeVerify,
};
use midnight_onchain_vm::vm::run_program;
use midnight_onchain_vm::vm_value::{ValueStrength, VmValue};
use midnight_storage::arena::Sp;
use midnight_storage::db::InMemoryDB;
use midnight_storage::storage::{Array, HashMap as StorageMap};
use minocrab_std::abi::{constrain, CircuitArg, Disclose, DisclosureLabel};
use minocrab_std::circuit::Circuit3;
use minocrab_std::fab::{AlignedValue, AlignmentAtom, AlignmentSegment};
use minocrab_std::impact::ImpactOp;
use minocrab_std::ledger::LedgerKey;
use minocrab_std::wire::{Private, Public, Uint, Vis3};
use minocrab_std::blind::{Add, Max};
use minocrab_std::circuit::{CircuitRefusal, Run};
use minocrab_std::header::LedgerWidth;
use minocrab_std::layout::BlockLayout;
use minocrab_std::ledger::LedgerCell;
use minocrab_std::state::{InitialState, StateBuilder};
use minocrab_std::stream::{Fold, Serial, Stream, StreamSpec};
use minocrab_std::value::StateValue;
use minocrab_std::vector::NonEmpty;

// ---- the ledger's own machine ---------------------------------------------------------------

type Db = InMemoryDB;
type State = LedgerState<Db>;
type U64 = Uint<64, Public>;

fn outside(v: &AlignedValue) -> fab::AlignedValue {
    let atoms = v.value.iter().map(|bytes| fab::ValueAtom(bytes.clone())).collect();
    let segments = v
        .alignment
        .iter()
        .map(|segment| match segment {
            AlignmentSegment::Atom(AlignmentAtom::Compress) => {
                fab::AlignmentSegment::Atom(fab::AlignmentAtom::Compress)
            }
            AlignmentSegment::Atom(AlignmentAtom::Field) => {
                fab::AlignmentSegment::Atom(fab::AlignmentAtom::Field)
            }
            AlignmentSegment::Atom(AlignmentAtom::Bytes { length }) => {
                fab::AlignmentSegment::Atom(fab::AlignmentAtom::Bytes { length: *length })
            }
            AlignmentSegment::Choice(_) => panic!("no stored type here has a choice"),
        })
        .collect();
    fab::AlignedValue::new(fab::Value(atoms), fab::Alignment(segments))
        .expect("the bytes fit their atoms")
}

fn key_of(key: &LedgerKey) -> Key {
    match key {
        LedgerKey::Field(i) => Key::Value(expect_checked(bytes_value(1, &[*i]))),
        LedgerKey::Value(v) => Key::Value(expect_checked(outside(v))),
    }
}

/// The machine's op, a read carrying `read`.
fn op_of<M: ResultMode<Db>>(op: &ImpactOp, read: impl Fn(fab::AlignedValue) -> M::ReadResult) -> Op<M, Db> {
    match op {
        ImpactOp::Dup { n } => Op::Dup { n: *n },
        ImpactOp::Swap { n } => Op::Swap { n: *n },
        ImpactOp::Pop => Op::Pop,
        ImpactOp::Push { storage, value } => Op::Push {
            storage: *storage,
            value: expect_checked_state_value(LedgerState::Cell(Sp::new(outside(value)))),
        },
        ImpactOp::Idx { cached, push_path, path } => Op::Idx {
            cached: *cached,
            push_path: *push_path,
            path: Array::from(path.iter().map(key_of).collect::<Vec<_>>()),
        },
        ImpactOp::Ins { cached, n } => Op::Ins { cached: *cached, n: *n },
        ImpactOp::Add => Op::Add,
        ImpactOp::Sub => Op::Sub,
        ImpactOp::Lt => Op::Lt,
        ImpactOp::Neg => Op::Neg,
        ImpactOp::And => Op::And,
        ImpactOp::Or => Op::Or,
        ImpactOp::Member => Op::Member,
        ImpactOp::Rem { cached } => Op::Rem { cached: *cached },
        ImpactOp::Branch { skip } => Op::Branch { skip: *skip },
        ImpactOp::Jmp { skip } => Op::Jmp { skip: *skip },
        ImpactOp::Popeq { value } => Op::Popeq { cached: false, result: read(outside(value)) },
    }
}

fn strong(state: &State) -> VmValue<Db> {
    VmValue::new(ValueStrength::Strong, state.clone())
}

/// What the last read of `ops` finds.
fn gather(ops: &[ImpactOp], state: &State) -> Option<Vec<Vec<u8>>> {
    let ops: Vec<Op<ResultModeGather, Db>> = ops.iter().map(|op| op_of(op, |_| ())).collect();
    let out = run_program(&[strong(state)], &ops, None, &INITIAL_COST_MODEL).ok()?;
    match out.events.last() {
        Some(GatherEvent::Read(v)) => Some(v.value.0.iter().map(|atom| atom.0.clone()).collect()),
        _ => None,
    }
}

/// The state after `ops`, where they apply.
fn land(ops: &[ImpactOp], state: &State) -> Option<State> {
    let ops: Vec<Op<ResultModeVerify, Db>> = ops.iter().map(|op| op_of(op, |v| v)).collect();
    let out = run_program(&[strong(state)], &ops, None, &INITIAL_COST_MODEL).ok()?;
    assert_eq!(out.stack.len(), 1, "a program leaves the state and nothing else");
    Some(out.stack[0].value.clone())
}

#[derive(Debug)]
struct Executed {
    post: State,
    ops: Vec<ImpactOp>,
    reads: usize,
    disclosed: Vec<String>,
    acknowledged: usize,
}

#[derive(Debug)]
enum Failure {
    /// An assertion of the circuit does not hold.
    Rejected(String),
    /// The ledger refuses the program.
    NotApplied,
}

const NO_VALUE: &str = "a read found no value of its shape supplied";

/// Runs a circuit against a state: each read returns what the ledger holds.
fn execute(body: impl Fn(&mut Circuit3), state: &State, inputs: &[Vec<u8>]) -> Result<Executed, Failure> {
    let mut supplied: Vec<Vec<Vec<u8>>> = Vec::new();
    loop {
        let mut c = Circuit3::with(inputs.to_vec(), supplied.clone());
        body(&mut c);
        let unmet = c.unmet().clone();
        let disclosed = c.disclosed().clone();
        let acknowledged = c.acknowledged().len();
        let ops = c.finish();
        match unmet {
            None => {
                let post = land(&ops, state).ok_or(Failure::NotApplied)?;
                return Ok(Executed { post, ops, reads: supplied.len(), disclosed, acknowledged });
            }
            Some(message) if message == NO_VALUE => {
                let mut left = supplied.len() + 1;
                let mut end = 0;
                while left > 0 {
                    if matches!(ops[end], ImpactOp::Popeq { .. }) {
                        left -= 1;
                    }
                    end += 1;
                }
                supplied.push(gather(&ops[..end], state).ok_or(Failure::NotApplied)?);
            }
            Some(message) => return Err(Failure::Rejected(message)),
        }
    }
}

fn le(v: u64) -> Vec<u8> {
    let mut bytes = v.to_le_bytes().to_vec();
    while bytes.last() == Some(&0) {
        bytes.pop();
    }
    bytes
}

fn args(inputs: &[u64]) -> Vec<Vec<u8>> {
    inputs.iter().map(|v| le(*v)).collect()
}

fn popeqs(ops: &[ImpactOp]) -> usize {
    ops.iter().filter(|op| matches!(op, ImpactOp::Popeq { .. })).count()
}

/// How many reads of `field`: an `idx [field]` with a `popeq` behind it.
fn reads_of(ops: &[ImpactOp], field: u8) -> usize {
    ops.windows(2)
        .filter(|w| {
            matches!(&w[1], ImpactOp::Popeq { .. })
                && matches!(&w[0], ImpactOp::Idx { path, .. }
                    if path.len() == 1 && matches!(path[0], LedgerKey::Field(i) if i == field))
        })
        .count()
}

// ---- states -------------------------------------------------------------------------------------

fn bytes_value(n: u32, bytes: &[u8]) -> fab::AlignedValue {
    fab::AlignedValue::new(
        fab::Value(vec![fab::ValueAtom(bytes.to_vec()).normalize()]),
        fab::Alignment(vec![fab::AlignmentSegment::Atom(fab::AlignmentAtom::Bytes { length: n })]),
    )
    .expect("the bytes fit the atom")
}

fn u64_value(v: u64) -> fab::AlignedValue {
    bytes_value(8, &v.to_le_bytes())
}

fn bool_value(v: bool) -> fab::AlignedValue {
    bytes_value(1, &[u8::from(v)])
}

fn cell(av: fab::AlignedValue) -> State {
    LedgerState::Cell(Sp::new(av))
}

fn map_of(entries: &[(u64, fab::AlignedValue)]) -> State {
    let mut m: StorageMap<fab::AlignedValue, State, Db> = StorageMap::new();
    for (k, v) in entries {
        m = m.insert(u64_value(*k), cell(v.clone()));
    }
    LedgerState::Map(m)
}

fn u64_map(entries: &[(u64, u64)]) -> State {
    map_of(&entries.iter().map(|(k, v)| (*k, u64_value(*v))).collect::<Vec<_>>())
}

fn block_of(fields: Vec<State>) -> State {
    LedgerState::Array(Array::from(fields))
}

fn field(state: &State, index: usize) -> State {
    let LedgerState::Array(fields) = state else {
        panic!("the state is the block's array");
    };
    fields.get(index).expect("field in range").clone()
}

fn first_atom(node: &State) -> Vec<u8> {
    let LedgerState::Cell(av) = node else {
        panic!("a cell, got {node:?}");
    };
    av.value.0.first().map(|a| a.0.clone()).unwrap_or_default()
}

fn decode(bytes: Vec<u8>) -> u64 {
    let mut le = [0u8; 8];
    le[..bytes.len()].copy_from_slice(&bytes);
    u64::from_le_bytes(le)
}

fn cell_u64(state: &State, index: usize) -> u64 {
    decode(first_atom(&field(state, index)))
}

fn cell_bool(state: &State, index: usize) -> bool {
    !first_atom(&field(state, index)).is_empty()
}

fn map_entry(state: &State, index: usize, key: fab::AlignedValue) -> Option<Vec<u8>> {
    let f = field(state, index);
    let LedgerState::Map(ref m) = f else {
        panic!("field {index} is a map");
    };
    m.get(&key).map(|entry| first_atom(&entry))
}

fn map_u64(state: &State, index: usize, key: u64) -> Option<u64> {
    map_entry(state, index, u64_value(key)).map(decode)
}

fn map_bool(state: &State, index: usize, key: u64) -> Option<bool> {
    map_entry(state, index, u64_value(key)).map(|bytes| !bytes.is_empty())
}

// ---- circuits -----------------------------------------------------------------------------------

/// Two public `Uint<64>` arguments, `k` then `d`.
fn two_args(c: &mut Circuit3) -> (U64, U64) {
    let k = <Uint<64, Private> as CircuitArg>::declare(c, "k");
    let d = <Uint<64, Private> as CircuitArg>::declare(c, "d");
    constrain(&k, c);
    constrain(&d, c);
    (k.disclose_as::<Shown>(c), d.disclose_as::<Shown>(c))
}

struct Shown;

impl DisclosureLabel for Shown {
    const LABEL: &'static str = "shown";
}

/// A number that is a machine word.
fn word<const BITS: u32, V: Vis3>(number: Uint<BITS, V>) -> u64 {
    number.to_word().expect("a machine word")
}

fn u64_of(value: u64) -> U64 {
    Uint::of(value)
}

// ---- the two specs ----------------------------------------------------------------------------------

/// A primitive stream: the state `(nonce, last seen)` stepped by `(Add, Max)`
/// with the body's height as the maximum's delta.
struct Outbox;

impl StreamSpec for Outbox {
    type Key = U64;
    type Body = U64;
    type Head = U64;
    type State = (U64, U64);
    type Delta = (U64, U64);
    type Step = (Add, Max);

    fn head_of(_run: Run, _body: U64) -> (Run, U64) {
        unreachable!()
    }

    fn delta_of(_run: Run, _head: U64) -> (Run, (U64, U64)) {
        unreachable!()
    }

    fn law_guarded(_run: Run, _body: U64, _head: U64) {}

    fn head(_c: &mut Circuit3, body: &U64) -> U64 {
        *body
    }

    fn delta(_c: &mut Circuit3, head: &U64) -> (U64, U64) {
        (u64_of(1), *head)
    }
}

/// A serial stream: the last report above a threshold, else one more.
struct Reports;

struct AboveOrBump;

impl Fold<U64> for AboveOrBump {
    type Delta = U64;

    fn folds(_run: Run, _s: U64, _d: U64) -> (Run, U64) {
        unreachable!()
    }

    fn law_guarded(_run: Run, _s: U64, _d: U64) {}

    fn step(_c: &mut Circuit3, s: U64, d: U64) -> U64 {
        if word(d) > 100 {
            d
        } else {
            u64_of(word(s) + 1)
        }
    }
}

impl StreamSpec for Reports {
    type Key = U64;
    type Body = U64;
    type Head = U64;
    type State = U64;
    type Delta = U64;
    type Step = Serial<AboveOrBump, 2>;

    fn head_of(_run: Run, _body: U64) -> (Run, U64) {
        unreachable!()
    }

    fn delta_of(_run: Run, _head: U64) -> (Run, U64) {
        unreachable!()
    }

    fn law_guarded(_run: Run, _body: U64, _head: U64) {}

    fn head(_c: &mut Circuit3, body: &U64) -> U64 {
        *body
    }

    fn delta(_c: &mut Circuit3, head: &U64) -> U64 {
        *head
    }
}

struct Block {
    outbox: Stream<Outbox>,
    reports: Stream<Reports>,
    after: LedgerCell<U64>,
}

// Field map: outbox = bodies 0, nonce 1, seen 2, nonce snapshots 3, seen
// snapshots 4; reports = bodies 5, heads 6, acc 7, staged 8; after 9.
const FIELDS: usize = 10;

fn block() -> Block {
    let layout = BlockLayout::compactc(FIELDS);
    let reports = <Stream<Outbox> as LedgerWidth>::WIDTH;
    let after = reports + <Stream<Reports> as LedgerWidth>::WIDTH;
    Block {
        outbox: Stream::at_layout(layout, 0),
        reports: Stream::at_layout(layout, reports),
        after: LedgerCell::at_layout(layout, after),
    }
}

#[test]
fn the_derive_places_both_layouts_by_width() {
    assert_eq!(<Stream<Outbox> as LedgerWidth>::WIDTH, 5);
    assert_eq!(<Stream<Reports> as LedgerWidth>::WIDTH, 4);
    assert_eq!(block().after.field_path().to_vec(), vec![9]);
}

// ---- state --------------------------------------------------------------------------------------------

#[derive(Clone, Default)]
struct Seed {
    maps: [Vec<(u64, u64)>; FIELDS],
    cells: [u64; FIELDS],
}

const MAP_FIELDS: [usize; 6] = [0, 3, 4, 5, 6, 8];

impl Seed {
    fn state(&self) -> State {
        block_of(
            (0..FIELDS)
                .map(|i| {
                    if MAP_FIELDS.contains(&i) {
                        u64_map(&self.maps[i])
                    } else {
                        cell(u64_value(self.cells[i]))
                    }
                })
                .collect(),
        )
    }
}

/// The library's state as the ledger's.
fn ledger_state(state: &StateValue) -> State {
    match state {
        StateValue::Null => LedgerState::Null,
        StateValue::Cell(v) => cell(outside(v)),
        StateValue::Mapping(entries) => {
            let mut m: StorageMap<fab::AlignedValue, State, Db> = StorageMap::new();
            for (k, v) in entries {
                m = m.insert(outside(k), ledger_state(v));
            }
            LedgerState::Map(m)
        }
        StateValue::Array(items) => block_of(items.iter().map(ledger_state).collect()),
        StateValue::BoundedMerkleTree(_) => panic!("no tree in this block"),
    }
}

/// Both streams' maps empty and every cell at zero.
#[test]
fn the_derived_initial_state_is_the_default_seed() {
    let mut builder = StateBuilder::new();
    block().outbox.contribute(&mut builder).expect("the outbox's fields are free");
    block().reports.contribute(&mut builder).expect("the reports' fields are free");
    block().after.contribute(&mut builder).expect("the last field is free");
    let state = builder.build().expect("a flat block");
    assert!(ledger_state(&state) == Seed::default().state());
}

fn run(circuit: impl Fn(&mut Circuit3), seed: &Seed, inputs: &[u64]) -> Result<Executed, Failure> {
    execute(circuit, &seed.state(), &args(inputs))
}

// ---- the primitive stream -------------------------------------------------------------------------------

#[test]
fn a_primitive_stream_inserts_blind_and_takes_the_post_step_state() {
    let insert = |c: &mut Circuit3| {
        let (k, b) = two_args(c);
        block().outbox.insert(c, &k, &b).expect("not in a private guard");
    };
    let mut seed = Seed::default();
    seed.cells[1] = 6; // nonce
    seed.cells[2] = 100; // last seen
    let out = run(insert, &seed, &[9, 120]).expect("applies");
    assert_eq!(popeqs(&out.ops), 1, "the one read is the not-member check on the key");
    assert_eq!(out.reads, 1);
    assert_eq!(cell_u64(&out.post, 1), 7, "nonce advanced");
    assert_eq!(cell_u64(&out.post, 2), 120, "last seen raised");
    assert_eq!(map_u64(&out.post, 0, 9), Some(120), "the body");
    assert_eq!(map_u64(&out.post, 3, 9), Some(7), "the post-step nonce");
    assert_eq!(map_u64(&out.post, 4, 9), Some(120), "the post-step last seen");
    // A second insert with a lower height: the nonce advances, last seen stays.
    let mut seed2 = Seed::default();
    seed2.cells[1] = 7;
    seed2.cells[2] = 120;
    seed2.maps[0] = vec![(9, 120)];
    seed2.maps[3] = vec![(9, 7)];
    seed2.maps[4] = vec![(9, 120)];
    let out = run(insert, &seed2, &[10, 50]).expect("applies");
    assert_eq!(cell_u64(&out.post, 1), 8);
    assert_eq!(cell_u64(&out.post, 2), 120);
    assert_eq!(map_u64(&out.post, 3, 10), Some(8));
    assert_eq!(map_u64(&out.post, 4, 10), Some(120));
    // The same key again is refused by the circuit.
    match run(insert, &seed2, &[9, 1]) {
        Err(Failure::Rejected(message)) => assert_eq!(message, "Stream key already present"),
        other => panic!("a present key is refused, got {other:?}"),
    }

    // Take: the body and the pair, and everything read is removed.
    let take = |c: &mut Circuit3| {
        let (k, expect_nonce) = two_args(c);
        let (body, state) = block().outbox.take(c, &k);
        let (nonce, seen) = *state;
        c.check(nonce.value == expect_nonce.value, "nonce");
        c.check(word(*body) == 120, "body");
        c.check(word(seen) == 120, "seen");
    };
    let taken = run(take, &seed2, &[9, 7]).expect("the stable reads apply");
    assert_eq!(popeqs(&taken.ops), 4, "member + body + two components, all per-key");
    assert_eq!(map_u64(&taken.post, 0, 9), None);
    assert_eq!(map_u64(&taken.post, 3, 9), None);
    assert_eq!(map_u64(&taken.post, 4, 9), None);
    assert_eq!(cell_u64(&taken.post, 1), 7, "the accumulator is untouched by take");
    match run(take, &seed2, &[11, 0]) {
        Err(Failure::Rejected(message)) => assert_eq!(message, "Stream key not present"),
        other => panic!("an absent key is refused, got {other:?}"),
    }

    // Combine with no element: a blind maximum on last seen, nothing read.
    let combine = |c: &mut Circuit3| {
        let (_k, h) = two_args(c);
        block().outbox.combine(c, (u64_of(0), h)).expect("not in a private guard");
    };
    let out = run(combine, &seed2, &[0, 500]).expect("applies");
    assert_eq!(popeqs(&out.ops), 0, "combine reads nothing");
    assert_eq!(cell_u64(&out.post, 1), 7, "nonce + 0");
    assert_eq!(cell_u64(&out.post, 2), 500);
    assert_eq!(map_u64(&out.post, 0, 9), Some(120), "the body stays");
    assert_eq!(map_u64(&out.post, 3, 9), Some(7), "and the snapshots");
    assert_eq!(map_u64(&out.post, 4, 9), Some(120));
}

/// Two inserts proven against one state both land, in either order.
#[test]
fn two_inserts_proven_against_one_state_both_land() {
    let insert = |key: u64| {
        move |c: &mut Circuit3| {
            block().outbox.insert(c, &u64_of(key), &u64_of(50)).expect("not in a private guard");
        }
    };
    let state = Seed::default().state();
    let first = execute(insert(1), &state, &[]).expect("applies").ops;
    let second = execute(insert(2), &state, &[]).expect("applies").ops;
    for (a, b, keys) in [(&first, &second, [1, 2]), (&second, &first, [2, 1])] {
        let mid = land(a, &state).expect("the one lands");
        let post = land(b, &mid).expect("and then the other");
        assert_eq!(cell_u64(&post, 1), 2);
        assert_eq!(map_u64(&post, 3, keys[0]), Some(1));
        assert_eq!(map_u64(&post, 3, keys[1]), Some(2));
    }
}

#[test]
fn a_primitive_stream_refuses_a_private_guard() {
    let mut c = Circuit3::new();
    c.enter_private();
    let (k, b) = (u64_of(1), u64_of(2));
    assert_eq!(block().outbox.insert(&mut c, &k, &b), Err(CircuitRefusal::PrivateHook));
    assert_eq!(block().outbox.combine(&mut c, (k, b)), Err(CircuitRefusal::PrivateHook));
    assert!(c.ops().is_empty());
    assert_eq!(block().reports.insert(&mut c, &k, &b), Ok(()));
}

// ---- the serial stream --------------------------------------------------------------------------------

#[test]
fn a_serial_stream_sequences_a_short_flush_reading_the_accumulator_once() {
    let insert = |c: &mut Circuit3| {
        let (k, b) = two_args(c);
        block().reports.insert(c, &k, &b).expect("a serial insert attaches nothing");
    };
    let out = run(insert, &Seed::default(), &[1, 150]).expect("applies");
    assert_eq!(popeqs(&out.ops), 1, "insert: the not-member check only");
    assert_eq!(map_u64(&out.post, 5, 1), Some(150), "body");
    assert_eq!(map_u64(&out.post, 6, 1), Some(150), "head");
    assert_eq!(cell_u64(&out.post, 7), 0, "acc untouched");

    // Three queued reports; flush one, two, three of them.
    let mut seed = Seed::default();
    seed.cells[7] = 10; // acc
    seed.maps[5] = vec![(1, 150), (2, 30), (3, 200)];
    seed.maps[6] = seed.maps[5].clone();
    let sequence = |c: &mut Circuit3| {
        let keys = <NonEmpty<Uint<64, Private>, 2, Private> as CircuitArg>::declare(c, "keys");
        constrain(&keys, c);
        let keys = keys.disclose_as::<Shown>(c);
        block().reports.sequence(c, keys);
    };
    // The same fold over the live prefix.
    let native = |s: u64, d: u64| if d > 100 { d } else { s + 1 };
    for (inputs, order) in [
        (vec![2, 0, 0, 0], vec![2]),
        (vec![2, 1, 1, 0], vec![2, 1]),
        (vec![3, 2, 1, 2], vec![3, 1, 2]),
    ] {
        let out = run(sequence, &seed, &inputs).expect("applies");
        assert_eq!(reads_of(&out.ops, 7), 1, "{order:?}: the accumulator is read exactly once");
        assert_eq!(popeqs(&out.ops), 1 + 2 * order.len(), "{order:?}: acc + (member, head) per live key");
        let mut s = 10u64;
        for k in &order {
            let d = seed.maps[6].iter().find(|(kk, _)| kk == k).expect("queued").1;
            s = native(s, d);
            assert_eq!(map_u64(&out.post, 8, *k), Some(s), "{order:?}: staged[{k}] is the post-step state");
            assert_eq!(map_u64(&out.post, 6, *k), None, "{order:?}: head removed");
        }
        assert_eq!(cell_u64(&out.post, 7), s, "{order:?}: acc written once with the final state");
        assert_eq!(out.acknowledged, 1 + order.len(), "{order:?}: the reads named as assumed");
        // Unflushed heads stay.
        for (k, d) in &seed.maps[6] {
            if !order.contains(k) {
                assert_eq!(map_u64(&out.post, 6, *k), Some(*d));
            }
        }
    }
    // A key that is not queued is the circuit's rejection; a dead slot's is not.
    match run(sequence, &seed, &[9, 0, 0, 0]) {
        Err(Failure::Rejected(message)) => assert_eq!(message, "Stream key not queued"),
        other => panic!("an unqueued key is refused, got {other:?}"),
    }
    run(sequence, &seed, &[1, 0, 9, 9]).expect("dead slots are not checked");

    // Take after a flush: the body and the staged state.
    let mut flushed = seed.clone();
    flushed.maps[6] = vec![(2, 30), (3, 200)];
    flushed.maps[8] = vec![(1, 150)];
    flushed.cells[7] = 150;
    let take = |c: &mut Circuit3| {
        let (k, expected) = two_args(c);
        let (body, state) = block().reports.take(c, &k);
        c.check(state.value == expected.value, "state");
        c.check(word(*body) == 150, "body");
    };
    let out = run(take, &flushed, &[1, 150]).expect("applies");
    assert_eq!(popeqs(&out.ops), 3, "member + staged + body");
    assert_eq!(map_u64(&out.post, 8, 1), None);
    assert_eq!(map_u64(&out.post, 5, 1), None);
    // Not yet sequenced: refused.
    match run(take, &flushed, &[2, 0]) {
        Err(Failure::Rejected(message)) => assert_eq!(message, "Stream key not sequenced"),
        other => panic!("an unsequenced key is refused, got {other:?}"),
    }

    // Combine on a serial stream: read, step, write.
    let combine = |c: &mut Circuit3| {
        let (_k, d) = two_args(c);
        block().reports.combine(c, d).expect("a serial combine attaches nothing");
    };
    let out = run(combine, &flushed, &[0, 7]).expect("applies");
    assert_eq!(popeqs(&out.ops), 1, "the contended read");
    assert_eq!(cell_u64(&out.post, 7), 151, "150 bumped");
    let out = run(combine, &flushed, &[0, 700]).expect("applies");
    assert_eq!(cell_u64(&out.post, 7), 700);
}

// ---- a moving average, behind the accumulator's read -----------------------------------------------------

struct Ema;

impl Fold<U64> for Ema {
    type Delta = U64;

    fn folds(_run: Run, _s: U64, _d: U64) -> (Run, U64) {
        unreachable!()
    }

    fn law_guarded(_run: Run, _s: U64, _d: U64) {}

    fn step(_c: &mut Circuit3, s: U64, d: U64) -> U64 {
        u64_of(native_ema(word(s), word(d)))
    }
}

struct Fees;

/// A report: the gas used.
type Report = (U64, ());

impl StreamSpec for Fees {
    type Key = U64;
    type Body = Report;
    type Head = U64;
    type State = U64;
    type Delta = U64;
    /// Flushed one to four at a time.
    type Step = Serial<Ema, 3>;

    fn head_of(_run: Run, _body: Report) -> (Run, U64) {
        unreachable!()
    }

    fn delta_of(_run: Run, _head: U64) -> (Run, U64) {
        unreachable!()
    }

    fn law_guarded(_run: Run, _body: Report, _head: U64) {}

    fn head(_c: &mut Circuit3, body: &Report) -> U64 {
        body.0
    }

    fn delta(_c: &mut Circuit3, head: &U64) -> U64 {
        *head
    }
}

fn fees() -> Stream<Fees> {
    Stream::at_block(4, 0)
}

// Field map: bodies 0, heads 1, acc 2, staged 3.
const ACC: usize = 2;

fn report(c: &mut Circuit3) {
    let (id, gas_used) = two_args(c);
    fees().insert(c, &id, &(gas_used, ())).expect("a serial insert attaches nothing");
}

fn sequence(c: &mut Circuit3) {
    let keys = <NonEmpty<Uint<64, Private>, 3, Private> as CircuitArg>::declare(c, "keys");
    constrain(&keys, c);
    let keys = keys.disclose_as::<Shown>(c);
    fees().sequence(c, keys);
}

fn settle(c: &mut Circuit3) {
    let id = <Uint<64, Private> as CircuitArg>::declare(c, "id");
    let id = id.disclose_as::<Shown>(c);
    let (_report, _ema) = fees().take(c, &id);
}

fn fee_state(reports: &[(u64, u64)], acc: u64, staged: &[(u64, u64)]) -> State {
    block_of(vec![u64_map(reports), u64_map(reports), cell(u64_value(acc)), u64_map(staged)])
}

const REPORTS: [(u64, u64); 4] = [(1, 100), (2, 300), (3, 50), (4, 1000)];

fn native_ema(s: u64, d: u64) -> u64 {
    (7 * s + d) / 8
}

#[test]
fn a_report_is_a_pure_insert() {
    let out = execute(report, &fee_state(&[], 200, &[]), &args(&[9, 123])).expect("applies");
    assert_eq!(popeqs(&out.ops), 1, "the not-member check");
    assert_eq!(map_u64(&out.post, 0, 9), Some(123));
    assert_eq!(map_u64(&out.post, 1, 9), Some(123));
    assert_eq!(cell_u64(&out.post, ACC), 200, "acc untouched");
    // Twice is refused.
    assert!(matches!(execute(report, &out.post, &args(&[9, 1])), Err(Failure::Rejected(_))));
}

#[test]
fn short_flushes_of_one_to_four_match_the_native_fold() {
    let orders: [Vec<u64>; 4] = [vec![2], vec![3, 1], vec![4, 2, 1], vec![1, 2, 3, 4]];
    for order in orders {
        // Inputs: head, tail length, three tail slots.
        let mut inputs = vec![order[0], (order.len() - 1) as u64];
        for i in 1..4 {
            inputs.push(order.get(i).copied().unwrap_or(0));
        }
        let out = execute(sequence, &fee_state(&REPORTS, 200, &[]), &args(&inputs))
            .unwrap_or_else(|e| panic!("{order:?}: {e:?}"));
        assert_eq!(reads_of(&out.ops, 2), 1, "{order:?}: the accumulator is read once");
        assert_eq!(popeqs(&out.ops), 1 + 2 * order.len(), "{order:?}: acc + (member, head) per report");
        let mut s = 200u64;
        for k in &order {
            let gas = REPORTS.iter().find(|(id, _)| id == k).expect("known").1;
            s = native_ema(s, gas);
            assert_eq!(map_u64(&out.post, 3, *k), Some(s), "{order:?}: staged[{k}]");
            assert_eq!(map_u64(&out.post, 1, *k), None, "{order:?}: head removed");
            assert_eq!(map_u64(&out.post, 0, *k), Some(gas), "{order:?}: body kept for settle");
        }
        assert_eq!(cell_u64(&out.post, ACC), s, "{order:?}: acc written once");
    }
    // An unqueued key in a live slot is refused; in a dead slot it is not.
    let state = fee_state(&REPORTS, 200, &[]);
    assert!(matches!(execute(sequence, &state, &args(&[9, 0, 0, 0, 0])), Err(Failure::Rejected(_))));
    execute(sequence, &state, &args(&[1, 0, 9, 9, 9])).expect("dead slots are unchecked");
    // A tail length past three is refused by the argument constraint.
    assert!(execute(sequence, &state, &args(&[1, 4, 2, 3, 4])).is_err());
}

#[test]
fn a_settle_takes_the_report_and_its_state() {
    let st = fee_state(&[(2, 300)], 212, &[(2, 212)]);
    let out = execute(settle, &st, &args(&[2])).expect("applies");
    assert_eq!(popeqs(&out.ops), 3, "member + staged + body");
    assert_eq!(map_u64(&out.post, 3, 2), None);
    assert_eq!(map_u64(&out.post, 0, 2), None);
    // Unsequenced: refused.
    let st = fee_state(&[(5, 1)], 0, &[]);
    assert!(matches!(execute(settle, &st, &args(&[5])), Err(Failure::Rejected(_))));
}

/// What a serial program read has to hold where it lands.
#[test]
fn a_serial_program_lands_only_where_what_it_read_still_holds() {
    let empty = fee_state(&[], 200, &[]);
    let insert = execute(report, &empty, &args(&[9, 123])).expect("applies").ops;
    let beside = land(&insert, &fee_state(&REPORTS, 7, &[(8, 1)])).expect("other keys do not matter");
    assert_eq!(map_u64(&beside, 0, 9), Some(123));
    assert_eq!(map_u64(&beside, 1, 9), Some(123));
    assert_eq!(map_u64(&beside, 0, 4), Some(1000));
    assert_eq!(map_u64(&beside, 3, 8), Some(1));
    assert_eq!(cell_u64(&beside, ACC), 7);
    assert!(land(&insert, &beside).is_none(), "the key is there");

    let state = fee_state(&REPORTS, 200, &[]);
    let flush = execute(sequence, &state, &args(&[3, 1, 1, 0, 0])).expect("applies").ops;
    let more = fee_state(&[(1, 100), (3, 50), (5, 5)], 200, &[(7, 70)]);
    let post = land(&flush, &more).expect("the two keys are queued");
    assert_eq!(map_u64(&post, 3, 3), Some(native_ema(200, 50)));
    assert_eq!(map_u64(&post, 3, 1), Some(native_ema(native_ema(200, 50), 100)));
    assert_eq!(map_u64(&post, 3, 7), Some(70), "staged before");
    assert_eq!(map_u64(&post, 1, 5), Some(5), "not flushed");
    assert_eq!(map_u64(&post, 0, 3), Some(50), "the body");
    assert!(land(&flush, &fee_state(&REPORTS, 201, &[])).is_none(), "another accumulator");
    assert!(land(&flush, &fee_state(&[(1, 100)], 200, &[])).is_none(), "a key is not queued");
    assert!(land(&flush, &post).is_none(), "flushed already");
    // One key twice is not queued the second time.
    assert!(matches!(execute(sequence, &state, &args(&[1, 1, 1, 0, 0])), Err(Failure::Rejected(_))));

    let taken = execute(settle, &fee_state(&[(2, 300)], 0, &[(2, 212)]), &args(&[2])).expect("applies").ops;
    assert!(land(&taken, &fee_state(&[(2, 300)], 0, &[(2, 213)])).is_none(), "another state");
    assert!(land(&taken, &fee_state(&[(2, 301)], 0, &[(2, 212)])).is_none(), "another body");
    let left = land(&taken, &fee_state(&[(2, 300), (3, 1)], 9, &[(2, 212), (3, 4)])).expect("lands");
    assert_eq!(map_u64(&left, 0, 2), None);
    assert_eq!(map_u64(&left, 3, 2), None);
    assert_eq!((map_u64(&left, 0, 3), map_u64(&left, 3, 3)), (Some(1), Some(4)));

    let step = |c: &mut Circuit3| {
        let (_, gas) = two_args(c);
        fees().combine(c, gas).expect("a serial combine attaches nothing");
    };
    let combined = execute(step, &empty, &args(&[0, 40])).expect("applies").ops;
    let stepped = land(&combined, &fee_state(&[(2, 300)], 200, &[(3, 4)])).expect("the accumulator is the same");
    assert_eq!(cell_u64(&stepped, ACC), native_ema(200, 40));
    assert_eq!((map_u64(&stepped, 0, 2), map_u64(&stepped, 1, 2)), (Some(300), Some(300)));
    assert_eq!(map_u64(&stepped, 3, 3), Some(4));
    assert!(land(&combined, &stepped).is_none(), "another accumulator");
}

/// A stream whose head is checked and whose delta is disclosed.
struct Capped;

impl StreamSpec for Capped {
    type Key = U64;
    type Body = U64;
    type Head = U64;
    type State = U64;
    type Delta = U64;
    type Step = Add;

    fn head_of(_run: Run, _body: U64) -> (Run, U64) {
        unreachable!()
    }

    fn delta_of(_run: Run, _head: U64) -> (Run, U64) {
        unreachable!()
    }

    fn law_guarded(_run: Run, _body: U64, _head: U64) {}

    fn head(c: &mut Circuit3, body: &U64) -> U64 {
        c.check(word(*body) <= 1000, "over the cap");
        *body
    }

    fn delta(c: &mut Circuit3, head: &U64) -> U64 {
        c.disclose("the delta");
        *head
    }
}

#[test]
fn a_head_and_a_delta_may_act_on_the_circuit() {
    let insert = |c: &mut Circuit3| {
        let (k, b) = two_args(c);
        let capped: Stream<Capped> = Stream::at_block(3, 0);
        capped.insert(c, &k, &b).expect("not in a private guard");
    };
    let state = block_of(vec![u64_map(&[]), cell(u64_value(5)), u64_map(&[])]);
    let out = execute(insert, &state, &args(&[4, 1000])).expect("applies");
    assert_eq!(cell_u64(&out.post, 1), 1005);
    assert_eq!(map_u64(&out.post, 2, 4), Some(1005));
    assert!(out.disclosed.contains(&"the delta".to_string()));
    match execute(insert, &state, &args(&[4, 1001])) {
        Err(Failure::Rejected(message)) => assert_eq!(message, "over the cap"),
        other => panic!("a body over the cap is refused, got {other:?}"),
    }
}

// ---- under a standard --------------------------------------------------------------------------------------

/// The same body behind one plain leading field: for a flat body, exactly the
/// headed layout.
#[test]
fn a_headed_stream_is_its_compactc_twin_byte_for_byte() {
    let headed = BlockLayout::headed(6);
    let leading = BlockLayout::compactc(7);
    let h: Stream<Outbox> = Stream::at_layout(headed, 1);
    let l: Stream<Outbox> = Stream::at_layout(leading, 2);
    let h_before: LedgerCell<U64> = LedgerCell::at_layout(headed, 0);
    let l_before: LedgerCell<U64> = LedgerCell::at_layout(leading, 1);
    assert_eq!(h_before.field_path().to_vec(), vec![1]);
    assert_eq!(l_before.field_path().to_vec(), vec![1]);
    let ops = |circuit: &dyn Fn(&mut Circuit3)| {
        let one_of_each = vec![vec![vec![5]]; 3];
        let mut c = Circuit3::with(args(&[7, 9]), one_of_each);
        circuit(&mut c);
        format!("{:?}", c.finish())
    };
    let insert = |s: &Stream<Outbox>| {
        ops(&|c: &mut Circuit3| {
            let (k, b) = two_args(c);
            s.insert(c, &k, &b).expect("no private guard");
        })
    };
    assert_eq!(insert(&h), insert(&l), "insert");
    let take = |s: &Stream<Outbox>| {
        ops(&|c: &mut Circuit3| {
            let (k, _) = two_args(c);
            let _ = s.take(c, &k);
        })
    };
    assert_eq!(take(&h), take(&l), "take");
    let combine = |s: &Stream<Outbox>| {
        ops(&|c: &mut Circuit3| {
            let (_k, h) = two_args(c);
            s.combine(c, (u64_of(0), h)).expect("no private guard");
        })
    };
    assert_eq!(combine(&h), combine(&l), "combine");
    // The headed stream is not where an unheaded one would be.
    let plain: Stream<Outbox> = Stream::at_block(6, 1);
    assert_ne!(insert(&h), insert(&plain), "the header moved it");
}
