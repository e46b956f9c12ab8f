//! Blind accumulators, run on the ledger's own machine against a seeded state.
#![allow(dead_code)]

use midnight_base_crypto::fab;
use midnight_onchain_state::state::StateValue as LedgerState;
use midnight_onchain_vm::cost_model::INITIAL_COST_MODEL;
use midnight_onchain_vm::ops::{expect_checked, expect_checked_state_value, Key, Op};
use midnight_onchain_vm::result_mode::{
    GatherEvent, ResultMode, ResultModeGather, ResultModeVerify,
};
use midnight_onchain_vm::vm::run_program;
use midnight_onchain_vm::vm_value::{ValueStrength, VmValue};
use midnight_storage::arena::Sp;
use midnight_storage::db::InMemoryDB;
use midnight_storage::storage::{Array, HashMap as StorageMap};
use minocrab_std::abi::{constrain, CircuitArg, Disclose, DisclosureLabel};
use minocrab_std::circuit::Circuit3;
use minocrab_std::fab::{AlignedValue, AlignmentAtom, AlignmentSegment};
use minocrab_std::impact::ImpactOp;
use minocrab_std::ledger::LedgerKey;
use minocrab_std::wire::{Private, Public, Uint, Vis3};
use minocrab_std::blind::{
    Add, And, First, FirstAcc, Last, Max, Min, Monoid, Or, Primitive, SnapshotMap,
};
use minocrab_std::fab::store_number;
use minocrab_std::impact::{
    cell_add_at, cell_and_at, cell_max_at, cell_min_at, cell_or_at, cell_snapshot_into_map_at,
    cell_write_at,
};
use minocrab_std::layout::BlockLayout;
use minocrab_std::ledger::LedgerCell;
use minocrab_std::wire::Bool;

// ---- the ledger's own machine ---------------------------------------------------------------

type Db = InMemoryDB;
type State = LedgerState<Db>;
type U64 = Uint<64, Public>;

fn outside(v: &AlignedValue) -> fab::AlignedValue {
    let atoms = v.value.iter().map(|bytes| fab::ValueAtom(bytes.clone())).collect();
    let segments = v
        .alignment
        .iter()
        .map(|segment| match segment {
            AlignmentSegment::Atom(AlignmentAtom::Compress) => {
                fab::AlignmentSegment::Atom(fab::AlignmentAtom::Compress)
            }
            AlignmentSegment::Atom(AlignmentAtom::Field) => {
                fab::AlignmentSegment::Atom(fab::AlignmentAtom::Field)
            }
            AlignmentSegment::Atom(AlignmentAtom::Bytes { length }) => {
                fab::AlignmentSegment::Atom(fab::AlignmentAtom::Bytes { length: *length })
            }
            AlignmentSegment::Choice(_) => panic!("no stored type here has a choice"),
        })
        .collect();
    fab::AlignedValue::new(fab::Value(atoms), fab::Alignment(segments))
        .expect("the bytes fit their atoms")
}

fn key_of(key: &LedgerKey) -> Key {
    match key {
        LedgerKey::Field(i) => Key::Value(expect_checked(bytes_value(1, &[*i]))),
        LedgerKey::Value(v) => Key::Value(expect_checked(outside(v))),
    }
}

/// The machine's op, a read carrying `read`.
fn op_of<M: ResultMode<Db>>(op: &ImpactOp, read: impl Fn(fab::AlignedValue) -> M::ReadResult) -> Op<M, Db> {
    match op {
        ImpactOp::Dup { n } => Op::Dup { n: *n },
        ImpactOp::Swap { n } => Op::Swap { n: *n },
        ImpactOp::Pop => Op::Pop,
        ImpactOp::Push { storage, value } => Op::Push {
            storage: *storage,
            value: expect_checked_state_value(LedgerState::Cell(Sp::new(outside(value)))),
        },
        ImpactOp::Idx { cached, push_path, path } => Op::Idx {
            cached: *cached,
            push_path: *push_path,
            path: Array::from(path.iter().map(key_of).collect::<Vec<_>>()),
        },
        ImpactOp::Ins { cached, n } => Op::Ins { cached: *cached, n: *n },
        ImpactOp::Add => Op::Add,
        ImpactOp::Sub => Op::Sub,
        ImpactOp::Lt => Op::Lt,
        ImpactOp::Neg => Op::Neg,
        ImpactOp::And => Op::And,
        ImpactOp::Or => Op::Or,
        ImpactOp::Member => Op::Member,
        ImpactOp::Rem { cached } => Op::Rem { cached: *cached },
        ImpactOp::Branch { skip } => Op::Branch { skip: *skip },
        ImpactOp::Jmp { skip } => Op::Jmp { skip: *skip },
        ImpactOp::Popeq { value } => Op::Popeq { cached: false, result: read(outside(value)) },
    }
}

fn strong(state: &State) -> VmValue<Db> {
    VmValue::new(ValueStrength::Strong, state.clone())
}

/// What the last read of `ops` finds.
fn gather(ops: &[ImpactOp], state: &State) -> Option<Vec<Vec<u8>>> {
    let ops: Vec<Op<ResultModeGather, Db>> = ops.iter().map(|op| op_of(op, |_| ())).collect();
    let out = run_program(&[strong(state)], &ops, None, &INITIAL_COST_MODEL).ok()?;
    match out.events.last() {
        Some(GatherEvent::Read(v)) => Some(v.value.0.iter().map(|atom| atom.0.clone()).collect()),
        _ => None,
    }
}

/// The state after `ops`, where they apply.
fn land(ops: &[ImpactOp], state: &State) -> Option<State> {
    let ops: Vec<Op<ResultModeVerify, Db>> = ops.iter().map(|op| op_of(op, |v| v)).collect();
    let out = run_program(&[strong(state)], &ops, None, &INITIAL_COST_MODEL).ok()?;
    assert_eq!(out.stack.len(), 1, "a program leaves the state and nothing else");
    Some(out.stack[0].value.clone())
}

#[derive(Debug)]
struct Executed {
    post: State,
    ops: Vec<ImpactOp>,
    reads: usize,
    disclosed: Vec<String>,
    acknowledged: usize,
}

#[derive(Debug)]
enum Failure {
    /// An assertion of the circuit does not hold.
    Rejected(String),
    /// The ledger refuses the program.
    NotApplied,
}

const NO_VALUE: &str = "a read found no value of its shape supplied";

/// Runs a circuit against a state: each read returns what the ledger holds.
fn execute(body: impl Fn(&mut Circuit3), state: &State, inputs: &[Vec<u8>]) -> Result<Executed, Failure> {
    let mut supplied: Vec<Vec<Vec<u8>>> = Vec::new();
    loop {
        let mut c = Circuit3::with(inputs.to_vec(), supplied.clone());
        body(&mut c);
        let unmet = c.unmet().clone();
        let disclosed = c.disclosed().clone();
        let acknowledged = c.acknowledged().len();
        let ops = c.finish();
        match unmet {
            None => {
                let post = land(&ops, state).ok_or(Failure::NotApplied)?;
                return Ok(Executed { post, ops, reads: supplied.len(), disclosed, acknowledged });
            }
            Some(message) if message == NO_VALUE => {
                let mut left = supplied.len() + 1;
                let mut end = 0;
                while left > 0 {
                    if matches!(ops[end], ImpactOp::Popeq { .. }) {
                        left -= 1;
                    }
                    end += 1;
                }
                supplied.push(gather(&ops[..end], state).ok_or(Failure::NotApplied)?);
            }
            Some(message) => return Err(Failure::Rejected(message)),
        }
    }
}

fn le(v: u64) -> Vec<u8> {
    let mut bytes = v.to_le_bytes().to_vec();
    while bytes.last() == Some(&0) {
        bytes.pop();
    }
    bytes
}

fn args(inputs: &[u64]) -> Vec<Vec<u8>> {
    inputs.iter().map(|v| le(*v)).collect()
}

fn popeqs(ops: &[ImpactOp]) -> usize {
    ops.iter().filter(|op| matches!(op, ImpactOp::Popeq { .. })).count()
}

/// How many reads of `field`: an `idx [field]` with a `popeq` behind it.
fn reads_of(ops: &[ImpactOp], field: u8) -> usize {
    ops.windows(2)
        .filter(|w| {
            matches!(&w[1], ImpactOp::Popeq { .. })
                && matches!(&w[0], ImpactOp::Idx { path, .. }
                    if path.len() == 1 && matches!(path[0], LedgerKey::Field(i) if i == field))
        })
        .count()
}

// ---- states -------------------------------------------------------------------------------------

fn bytes_value(n: u32, bytes: &[u8]) -> fab::AlignedValue {
    fab::AlignedValue::new(
        fab::Value(vec![fab::ValueAtom(bytes.to_vec()).normalize()]),
        fab::Alignment(vec![fab::AlignmentSegment::Atom(fab::AlignmentAtom::Bytes { length: n })]),
    )
    .expect("the bytes fit the atom")
}

fn u64_value(v: u64) -> fab::AlignedValue {
    bytes_value(8, &v.to_le_bytes())
}

fn bool_value(v: bool) -> fab::AlignedValue {
    bytes_value(1, &[u8::from(v)])
}

fn cell(av: fab::AlignedValue) -> State {
    LedgerState::Cell(Sp::new(av))
}

fn map_of(entries: &[(u64, fab::AlignedValue)]) -> State {
    let mut m: StorageMap<fab::AlignedValue, State, Db> = StorageMap::new();
    for (k, v) in entries {
        m = m.insert(u64_value(*k), cell(v.clone()));
    }
    LedgerState::Map(m)
}

fn u64_map(entries: &[(u64, u64)]) -> State {
    map_of(&entries.iter().map(|(k, v)| (*k, u64_value(*v))).collect::<Vec<_>>())
}

fn block_of(fields: Vec<State>) -> State {
    LedgerState::Array(Array::from(fields))
}

fn field(state: &State, index: usize) -> State {
    let LedgerState::Array(fields) = state else {
        panic!("the state is the block's array");
    };
    fields.get(index).expect("field in range").clone()
}

fn first_atom(node: &State) -> Vec<u8> {
    let LedgerState::Cell(av) = node else {
        panic!("a cell, got {node:?}");
    };
    av.value.0.first().map(|a| a.0.clone()).unwrap_or_default()
}

fn decode(bytes: Vec<u8>) -> u64 {
    let mut le = [0u8; 8];
    le[..bytes.len()].copy_from_slice(&bytes);
    u64::from_le_bytes(le)
}

fn cell_u64(state: &State, index: usize) -> u64 {
    decode(first_atom(&field(state, index)))
}

fn cell_bool(state: &State, index: usize) -> bool {
    !first_atom(&field(state, index)).is_empty()
}

fn map_entry(state: &State, index: usize, key: fab::AlignedValue) -> Option<Vec<u8>> {
    let f = field(state, index);
    let LedgerState::Map(ref m) = f else {
        panic!("field {index} is a map");
    };
    m.get(&key).map(|entry| first_atom(&entry))
}

fn map_u64(state: &State, index: usize, key: u64) -> Option<u64> {
    map_entry(state, index, u64_value(key)).map(decode)
}

fn map_bool(state: &State, index: usize, key: u64) -> Option<bool> {
    map_entry(state, index, u64_value(key)).map(|bytes| !bytes.is_empty())
}

// ---- circuits -----------------------------------------------------------------------------------

/// Two public `Uint<64>` arguments, `k` then `d`.
fn two_args(c: &mut Circuit3) -> (U64, U64) {
    let k = <Uint<64, Private> as CircuitArg>::declare(c, "k");
    let d = <Uint<64, Private> as CircuitArg>::declare(c, "d");
    constrain(&k, c);
    constrain(&d, c);
    (k.disclose_as::<Shown>(c), d.disclose_as::<Shown>(c))
}

struct Shown;

impl DisclosureLabel for Shown {
    const LABEL: &'static str = "shown";
}

/// A number that is a machine word.
fn word<const BITS: u32, V: Vis3>(number: Uint<BITS, V>) -> u64 {
    number.to_word().expect("a machine word")
}

fn u64_of(value: u64) -> U64 {
    Uint::of(value)
}

// ---- the block under test -----------------------------------------------------------------------

struct Block {
    n: LedgerCell<U64>,
    n_snap: SnapshotMap<U64>,
    b: LedgerCell<Bool<Public>>,
    b_snap: SnapshotMap<Bool<Public>>,
    first: LedgerCell<U64>,
    written: LedgerCell<Bool<Public>>,
}

const FIELDS: usize = 6;

fn block() -> Block {
    let layout = BlockLayout::compactc(FIELDS);
    Block {
        n: LedgerCell::at_layout(layout, 0),
        n_snap: SnapshotMap::at_layout(layout, 1),
        b: LedgerCell::at_layout(layout, 2),
        b_snap: SnapshotMap::at_layout(layout, 3),
        first: LedgerCell::at_layout(layout, 4),
        written: LedgerCell::at_layout(layout, 5),
    }
}

fn first_acc() -> FirstAcc<U64> {
    FirstAcc { value: block().first, written: block().written }
}

#[derive(Clone, Default)]
struct Seed {
    n: u64,
    n_snap: Vec<(u64, u64)>,
    b: bool,
    b_snap: Vec<(u64, bool)>,
    first: u64,
    written: bool,
}

impl Seed {
    fn state(&self) -> State {
        block_of(vec![
            cell(u64_value(self.n)),
            u64_map(&self.n_snap),
            cell(bool_value(self.b)),
            map_of(&self.b_snap.iter().map(|(k, v)| (*k, bool_value(*v))).collect::<Vec<_>>()),
            cell(u64_value(self.first)),
            cell(bool_value(self.written)),
        ])
    }
}

fn run(circuit: impl Fn(&mut Circuit3), seed: &Seed, inputs: &[u64]) -> Result<Executed, Failure> {
    execute(circuit, &seed.state(), &args(inputs))
}

/// The program read nothing.
fn assert_blind(out: &Executed) {
    assert_eq!(out.reads, 0, "a blind op performs no read");
    assert_eq!(popeqs(&out.ops), 0);
}

// ---- snapshot -------------------------------------------------------------------------------------

#[test]
fn snapshot_copies_the_cell_into_the_map_entry_without_reading_it() {
    let circuit = |c: &mut Circuit3| {
        let (k, _d) = two_args(c);
        <Last as Primitive<U64>>::snapshot(c, &block().n, &block().n_snap, &k);
    };
    let seed = Seed { n: 4242, ..Seed::default() };
    let out = run(circuit, &seed, &[9, 0]).expect("the snapshot applies");
    assert_blind(&out);
    assert_eq!(map_u64(&out.post, 1, 9), Some(4242), "n_snap[9] = n");
    assert_eq!(cell_u64(&out.post, 0), 4242, "the cell is untouched");
    // Overwrites an existing entry, as an insert does.
    let seed = Seed { n: 1, n_snap: vec![(9, 77)], ..Seed::default() };
    let out = run(circuit, &seed, &[9, 0]).expect("applies over an existing entry");
    assert_eq!(map_u64(&out.post, 1, 9), Some(1));
}

#[test]
fn snapshot_of_a_boolean_cell() {
    let circuit = |c: &mut Circuit3| {
        let (k, _d) = two_args(c);
        <And as Primitive<Bool<Public>>>::snapshot(c, &block().b, &block().b_snap, &k);
    };
    let seed = Seed { b: true, ..Seed::default() };
    let out = run(circuit, &seed, &[3, 0]).expect("applies");
    assert_blind(&out);
    assert_eq!(map_bool(&out.post, 3, 3), Some(true));
}

// ---- the combines ---------------------------------------------------------------------------------

#[test]
fn add_combines_blind_and_overflow_fails_the_transaction() {
    let circuit = |c: &mut Circuit3| {
        let (_k, d) = two_args(c);
        <Add as Primitive<U64>>::combine_blind(c, &block().n, &d);
    };
    let seed = Seed { n: 40, ..Seed::default() };
    let out = run(circuit, &seed, &[0, 2]).expect("applies");
    assert_blind(&out);
    assert_eq!(cell_u64(&out.post, 0), 42);
    // The circuit is satisfied, the state has no room.
    let seed = Seed { n: u64::MAX, ..Seed::default() };
    match run(circuit, &seed, &[0, 1]) {
        Err(Failure::NotApplied) => {}
        other => panic!("an overflowing add is refused by the ledger, got {other:?}"),
    }
}

#[test]
fn max_keeps_the_larger_on_both_arms() {
    let circuit = |c: &mut Circuit3| {
        let (_k, d) = two_args(c);
        <Max as Primitive<U64>>::combine_blind(c, &block().n, &d);
    };
    // The delta wins.
    let out = run(circuit, &Seed { n: 10, ..Seed::default() }, &[0, 25]).expect("applies");
    assert_blind(&out);
    assert_eq!(cell_u64(&out.post, 0), 25);
    // The cell wins.
    let out = run(circuit, &Seed { n: 30, ..Seed::default() }, &[0, 25]).expect("applies");
    assert_eq!(cell_u64(&out.post, 0), 30);
    // Equal: either arm leaves the same value.
    let out = run(circuit, &Seed { n: 25, ..Seed::default() }, &[0, 25]).expect("applies");
    assert_eq!(cell_u64(&out.post, 0), 25);
    // From the identity.
    let out = run(circuit, &Seed::default(), &[0, 1]).expect("applies");
    assert_eq!(cell_u64(&out.post, 0), 1);
}

#[test]
fn min_keeps_the_smaller_on_both_arms() {
    let circuit = |c: &mut Circuit3| {
        let (_k, d) = two_args(c);
        <Min as Primitive<U64>>::combine_blind(c, &block().n, &d);
    };
    let out = run(circuit, &Seed { n: 10, ..Seed::default() }, &[0, 25]).expect("applies");
    assert_blind(&out);
    assert_eq!(cell_u64(&out.post, 0), 10);
    let out = run(circuit, &Seed { n: 30, ..Seed::default() }, &[0, 25]).expect("applies");
    assert_eq!(cell_u64(&out.post, 0), 25);
    let out = run(circuit, &Seed { n: 25, ..Seed::default() }, &[0, 25]).expect("applies");
    assert_eq!(cell_u64(&out.post, 0), 25);
}

#[test]
fn and_or_combine_blind() {
    let and = |c: &mut Circuit3| {
        let (_k, d) = two_args(c);
        <And as Primitive<Bool<Public>>>::combine_blind(c, &block().b, &Bool::of(word(d) == 1));
    };
    let or = |c: &mut Circuit3| {
        let (_k, d) = two_args(c);
        <Or as Primitive<Bool<Public>>>::combine_blind(c, &block().b, &Bool::of(word(d) == 1));
    };
    for (a, d) in [(false, false), (false, true), (true, false), (true, true)] {
        let seed = Seed { b: a, ..Seed::default() };
        let out = run(and, &seed, &[0, u64::from(d)]).expect("and applies");
        assert_blind(&out);
        assert_eq!(cell_bool(&out.post, 2), a && d, "and {a} {d}");
        let out = run(or, &seed, &[0, u64::from(d)]).expect("or applies");
        assert_blind(&out);
        assert_eq!(cell_bool(&out.post, 2), a || d, "or {a} {d}");
    }
}

#[test]
fn last_overwrites_and_first_writes_once() {
    let last = |c: &mut Circuit3| {
        let (_k, d) = two_args(c);
        <Last as Primitive<U64>>::combine_blind(c, &block().n, &d);
    };
    let out = run(last, &Seed { n: 5, ..Seed::default() }, &[0, 9]).expect("applies");
    assert_blind(&out);
    assert_eq!(cell_u64(&out.post, 0), 9);

    let first = |c: &mut Circuit3| {
        let (_k, d) = two_args(c);
        <First as Primitive<U64>>::combine_blind(c, &first_acc(), &d);
    };
    // Nothing written yet: the value lands and the flag is set.
    let out = run(first, &Seed::default(), &[0, 9]).expect("applies");
    assert_blind(&out);
    assert_eq!(cell_u64(&out.post, 4), 9);
    assert!(cell_bool(&out.post, 5));
    // Already written: both writes are skipped.
    let seed = Seed { first: 3, written: true, ..Seed::default() };
    let out = run(first, &seed, &[0, 9]).expect("applies");
    assert_blind(&out);
    assert_eq!(cell_u64(&out.post, 4), 3);
    assert!(cell_bool(&out.post, 5));
}

// ---- reading the snapshot back --------------------------------------------------------------------

#[test]
fn take_reads_the_snapshot_and_removes_it_and_an_absent_key_is_refused() {
    let circuit = |c: &mut Circuit3| {
        let (k, d) = two_args(c);
        let got = <Add as Primitive<U64>>::take(c, &block().n_snap, &k);
        c.check(got.value == d.value, "the entry is the expected one");
    };
    let seed = Seed { n_snap: vec![(9, 4242), (10, 1)], ..Seed::default() };
    let out = run(circuit, &seed, &[9, 4242]).expect("the stable read applies");
    assert_eq!(out.reads, 1, "one read: the snapshot entry");
    assert_eq!(map_u64(&out.post, 1, 9), None, "taken");
    assert_eq!(map_u64(&out.post, 1, 10), Some(1), "the other entry stays");
    // A wrong expectation is the circuit's rejection...
    assert!(matches!(run(circuit, &seed, &[9, 1]), Err(Failure::Rejected(_))));
    // ...and an absent key is the machine's.
    assert!(run(circuit, &seed, &[11, 0]).is_err(), "an absent key does not apply");
}

// ---- tuples -----------------------------------------------------------------------------------------

type Pair = (Add, Max);
type PairState = (U64, U64);

struct PairBlock {
    acc: <Pair as Primitive<PairState>>::Acc,
    snap: <Pair as Primitive<PairState>>::Snapshot,
}

const PAIR_FIELDS: usize = 4;

fn pair_block() -> PairBlock {
    PairBlock {
        acc: <Pair as Primitive<PairState>>::acc_at_block(PAIR_FIELDS, 0),
        snap: <Pair as Primitive<PairState>>::snapshot_at_block(PAIR_FIELDS, 2),
    }
}

fn pair_state(nonce: u64, seen: u64, snaps: &[(u64, u64, u64)]) -> State {
    block_of(vec![
        cell(u64_value(nonce)),
        cell(u64_value(seen)),
        u64_map(&snaps.iter().map(|(k, n, _)| (*k, *n)).collect::<Vec<_>>()),
        u64_map(&snaps.iter().map(|(k, _, s)| (*k, *s)).collect::<Vec<_>>()),
    ])
}

#[test]
fn the_tuple_lays_out_one_cell_and_one_map_per_component() {
    assert_eq!(<Pair as Primitive<PairState>>::ACC_FIELDS, 2);
    assert_eq!(<Pair as Primitive<PairState>>::SNAPSHOT_FIELDS, 2);
    assert_eq!(<(Add, Max, First) as Primitive<(U64, U64, U64)>>::ACC_FIELDS, 4);
    assert_eq!(<(Add, Max, First) as Primitive<(U64, U64, U64)>>::SNAPSHOT_FIELDS, 3);
    let block = pair_block();
    assert_eq!(block.acc.0.field_path().to_vec(), vec![0]);
    assert_eq!(block.acc.1.field_path().to_vec(), vec![1]);
    assert_eq!(block.snap.0.path.to_vec(), vec![2]);
    assert_eq!(block.snap.1.path.to_vec(), vec![3]);
}

#[test]
fn the_pair_round_trips_through_the_ledger() {
    // Combine (1, h) blind and then snapshot: the stored state is the one
    // after the step.
    let insert = |c: &mut Circuit3| {
        let block = pair_block();
        let (k, h) = two_args(c);
        <Pair as Primitive<PairState>>::combine_blind(c, &block.acc, &(u64_of(1), h));
        <Pair as Primitive<PairState>>::snapshot(c, &block.acc, &block.snap, &k);
    };
    let out = execute(insert, &pair_state(6, 100, &[]), &args(&[9, 120])).expect("applies");
    assert_blind(&out);
    assert_eq!(cell_u64(&out.post, 0), 7, "nonce advanced");
    assert_eq!(cell_u64(&out.post, 1), 120, "last seen raised");
    assert_eq!(map_u64(&out.post, 2, 9), Some(7), "snapshot holds the post-step nonce");
    assert_eq!(map_u64(&out.post, 3, 9), Some(120), "and the post-step last seen");

    // Take, and the two components come back together.
    let take = |c: &mut Circuit3| {
        let block = pair_block();
        let (k, expect_nonce) = two_args(c);
        let state = <Pair as Primitive<PairState>>::take(c, &block.snap, &k);
        let (nonce, seen) = *state;
        c.check(nonce.value == expect_nonce.value, "nonce");
        c.check(word(seen) == 120, "seen");
    };
    let taken = execute(take, &out.post, &args(&[9, 7])).expect("the stable reads apply");
    assert_eq!(taken.reads, 2, "one read per component");
    assert_eq!(map_u64(&taken.post, 2, 9), None);
    assert_eq!(map_u64(&taken.post, 3, 9), None);
}

#[test]
fn the_tuple_monoid_is_componentwise() {
    let circuit = |c: &mut Circuit3| {
        let (a, b) = two_args(c);
        let id = <Pair as Monoid<PairState>>::identity(c);
        let x = <Pair as Monoid<PairState>>::combine(c, id, (a, b));
        let y = <Pair as Monoid<PairState>>::combine(c, x, (a, b));
        // (a + a, max(b, b)) == (2a, b)
        c.check(word(y.0) == word(a) + word(a), "the sum");
        c.check(y.1.value == b.value, "the maximum");
    };
    execute(circuit, &pair_state(0, 0, &[]), &args(&[21, 5])).expect("the identity and combine agree");
}

#[test]
fn the_identities_and_sums_of_each_monoid() {
    let mut c = Circuit3::new();
    let n = |v: u64| u64_of(v);
    assert_eq!(word(<Add as Monoid<U64>>::identity(&mut c)), 0);
    assert_eq!(word(<Add as Monoid<U64>>::combine(&mut c, n(40), n(2))), 42);
    assert_eq!(word(<Max as Monoid<U64>>::identity(&mut c)), 0);
    assert_eq!(word(<Max as Monoid<U64>>::combine(&mut c, n(40), n(2))), 40);
    assert_eq!(word(<Max as Monoid<U64>>::combine(&mut c, n(2), n(40))), 40);
    assert_eq!(word(<Min as Monoid<U64>>::combine(&mut c, n(40), n(2))), 2);
    assert_eq!(word(<Min as Monoid<Uint<8, Public>>>::identity(&mut c)), 0xff);
    assert_eq!(word(<Min as Monoid<Uint<16, Public>>>::identity(&mut c)), 0xffff);
    assert_eq!(word(<Min as Monoid<Uint<32, Public>>>::identity(&mut c)), 0xffff_ffff);
    assert_eq!(word(<Min as Monoid<U64>>::identity(&mut c)), u64::MAX);
    assert!(<And as Monoid<Bool<Public>>>::identity(&mut c).value);
    assert!(!<Or as Monoid<Bool<Public>>>::identity(&mut c).value);
    for (a, b) in [(false, false), (false, true), (true, false), (true, true)] {
        let and = <And as Monoid<Bool<Public>>>::combine(&mut c, Bool::of(a), Bool::of(b));
        let or = <Or as Monoid<Bool<Public>>>::combine(&mut c, Bool::of(a), Bool::of(b));
        assert_eq!((and.value, or.value), (a && b, a || b));
    }
    assert!(c.finish().is_empty(), "circuit values leave nothing for the ledger");
}

#[test]
fn four_components_step_and_snapshot_together() {
    type Four = (Add, Max, Min, First);
    type FourState = (U64, U64, U64, U64);
    let layout = BlockLayout::compactc(9);
    let acc = <Four as Primitive<FourState>>::acc_at_layout(layout, 0);
    let snap = <Four as Primitive<FourState>>::snapshot_at_layout(layout, 5);
    let step = |c: &mut Circuit3| {
        let (k, d) = two_args(c);
        <Four as Primitive<FourState>>::combine_blind(c, &acc, &(d, d, d, d));
        <Four as Primitive<FourState>>::snapshot(c, &acc, &snap, &k);
    };
    let none: [(u64, u64); 0] = [];
    let state = block_of(vec![
        cell(u64_value(10)),
        cell(u64_value(10)),
        cell(u64_value(10)),
        cell(u64_value(0)),
        cell(bool_value(false)),
        u64_map(&none),
        u64_map(&none),
        u64_map(&none),
        u64_map(&none),
    ]);
    let out = execute(step, &state, &args(&[3, 7])).expect("applies");
    assert_eq!([0, 1, 2, 3].map(|i| cell_u64(&out.post, i)), [17, 10, 7, 7]);
    assert_eq!([5, 6, 7, 8].map(|i| map_u64(&out.post, i, 3)), [17, 10, 7, 7].map(Some));
    let out = execute(step, &out.post, &args(&[4, 30])).expect("applies");
    assert_eq!([0, 1, 2, 3].map(|i| cell_u64(&out.post, i)), [47, 30, 7, 7]);
    assert_eq!([5, 6, 7, 8].map(|i| map_u64(&out.post, i, 3)), [17, 10, 7, 7].map(Some));
    assert_eq!([5, 6, 7, 8].map(|i| map_u64(&out.post, i, 4)), [47, 30, 7, 7].map(Some));
}

// ---- no hidden ops ------------------------------------------------------------------------------------

#[test]
fn the_typed_spellings_are_the_explicit_ops() {
    let (k, d) = (u64_of(9), u64_of(1));
    let mut c = Circuit3::new();
    <Add as Primitive<U64>>::snapshot(&mut c, &block().n, &block().n_snap, &k);
    <Add as Primitive<U64>>::combine_blind(&mut c, &block().n, &d);
    <Max as Primitive<U64>>::combine_blind(&mut c, &block().n, &d);
    <Min as Primitive<U64>>::combine_blind(&mut c, &block().n, &d);
    <And as Primitive<Bool<Public>>>::combine_blind(&mut c, &block().b, &Bool::of(true));
    <Or as Primitive<Bool<Public>>>::combine_blind(&mut c, &block().b, &Bool::of(true));
    <Last as Primitive<U64>>::combine_blind(&mut c, &block().n, &d);
    <First as Primitive<U64>>::combine_blind(&mut c, &first_acc(), &d);

    let n = vec![LedgerKey::Field(0)];
    let n_snap = vec![LedgerKey::Field(1)];
    let b = vec![LedgerKey::Field(2)];
    let (k, d, bd) = (store_number(9, 8), store_number(1, 8), store_number(1, 1));
    let mut explicit = cell_snapshot_into_map_at(&n, &n_snap, &k);
    explicit.extend(cell_add_at(&n, &d));
    explicit.extend(cell_max_at(&n, &d));
    explicit.extend(cell_min_at(&n, &d));
    explicit.extend(cell_and_at(&b, &bd));
    explicit.extend(cell_or_at(&b, &bd));
    explicit.extend(cell_write_at(&n, &d));
    let mut arm = cell_write_at(&vec![LedgerKey::Field(4)], &d);
    arm.extend(cell_write_at(&vec![LedgerKey::Field(5)], &bd));
    explicit.extend([
        ImpactOp::Dup { n: 0 },
        ImpactOp::Idx { cached: false, push_path: false, path: vec![LedgerKey::Field(5)] },
        ImpactOp::Branch { skip: arm.len() as u32 },
    ]);
    explicit.extend(arm);
    assert_eq!(format!("{:?}", c.finish()), format!("{explicit:?}"));
}
