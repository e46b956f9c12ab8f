//! Hooks, run on the ledger's own machine against a seeded state.
#![allow(dead_code)]

use midnight_base_crypto::fab;
use midnight_onchain_state::state::StateValue as LedgerState;
use midnight_onchain_vm::cost_model::INITIAL_COST_MODEL;
use midnight_onchain_vm::ops::{expect_checked, expect_checked_state_value, Key, Op};
use midnight_onchain_vm::result_mode::{
    GatherEvent, ResultMode, ResultModeGather, ResultModeVerify,
};
use midnight_onchain_vm::vm::run_program;
use midnight_onchain_vm::vm_value::{ValueStrength, VmValue};
use midnight_storage::arena::Sp;
use midnight_storage::db::InMemoryDB;
use midnight_storage::storage::{Array, HashMap as StorageMap};
use minocrab_std::abi::{constrain, CircuitArg, Disclose, DisclosureLabel};
use minocrab_std::circuit::Circuit3;
use minocrab_std::fab::{AlignedValue, AlignmentAtom, AlignmentSegment};
use minocrab_std::impact::ImpactOp;
use minocrab_std::ledger::LedgerKey;
use minocrab_std::wire::{Private, Public, Uint, Vis3};
use minocrab_std::circuit::CircuitRefusal;
use minocrab_std::fab::store_number;
use minocrab_std::hook::{Hook, HookValue};
use minocrab_std::impact::{cell_add_at, cell_snapshot_into_map_at};
use minocrab_std::layout::{BlockLayout, FieldPath};
use minocrab_std::ledger::{LedgerCell, LedgerMap};
use minocrab_std::wire::Bool;

// ---- the ledger's own machine ---------------------------------------------------------------

type Db = InMemoryDB;
type State = LedgerState<Db>;
type U64 = Uint<64, Public>;

fn outside(v: &AlignedValue) -> fab::AlignedValue {
    let atoms = v.value.iter().map(|bytes| fab::ValueAtom(bytes.clone())).collect();
    let segments = v
        .alignment
        .iter()
        .map(|segment| match segment {
            AlignmentSegment::Atom(AlignmentAtom::Compress) => {
                fab::AlignmentSegment::Atom(fab::AlignmentAtom::Compress)
            }
            AlignmentSegment::Atom(AlignmentAtom::Field) => {
                fab::AlignmentSegment::Atom(fab::AlignmentAtom::Field)
            }
            AlignmentSegment::Atom(AlignmentAtom::Bytes { length }) => {
                fab::AlignmentSegment::Atom(fab::AlignmentAtom::Bytes { length: *length })
            }
            AlignmentSegment::Choice(_) => panic!("no stored type here has a choice"),
        })
        .collect();
    fab::AlignedValue::new(fab::Value(atoms), fab::Alignment(segments))
        .expect("the bytes fit their atoms")
}

fn key_of(key: &LedgerKey) -> Key {
    match key {
        LedgerKey::Field(i) => Key::Value(expect_checked(bytes_value(1, &[*i]))),
        LedgerKey::Value(v) => Key::Value(expect_checked(outside(v))),
    }
}

/// The machine's op, a read carrying `read`.
fn op_of<M: ResultMode<Db>>(op: &ImpactOp, read: impl Fn(fab::AlignedValue) -> M::ReadResult) -> Op<M, Db> {
    match op {
        ImpactOp::Dup { n } => Op::Dup { n: *n },
        ImpactOp::Swap { n } => Op::Swap { n: *n },
        ImpactOp::Pop => Op::Pop,
        ImpactOp::Push { storage, value } => Op::Push {
            storage: *storage,
            value: expect_checked_state_value(LedgerState::Cell(Sp::new(outside(value)))),
        },
        ImpactOp::Idx { cached, push_path, path } => Op::Idx {
            cached: *cached,
            push_path: *push_path,
            path: Array::from(path.iter().map(key_of).collect::<Vec<_>>()),
        },
        ImpactOp::Ins { cached, n } => Op::Ins { cached: *cached, n: *n },
        ImpactOp::Add => Op::Add,
        ImpactOp::Sub => Op::Sub,
        ImpactOp::Lt => Op::Lt,
        ImpactOp::Neg => Op::Neg,
        ImpactOp::And => Op::And,
        ImpactOp::Or => Op::Or,
        ImpactOp::Member => Op::Member,
        ImpactOp::Rem { cached } => Op::Rem { cached: *cached },
        ImpactOp::Branch { skip } => Op::Branch { skip: *skip },
        ImpactOp::Jmp { skip } => Op::Jmp { skip: *skip },
        ImpactOp::Popeq { value } => Op::Popeq { cached: false, result: read(outside(value)) },
    }
}

fn strong(state: &State) -> VmValue<Db> {
    VmValue::new(ValueStrength::Strong, state.clone())
}

/// What the last read of `ops` finds.
fn gather(ops: &[ImpactOp], state: &State) -> Option<Vec<Vec<u8>>> {
    let ops: Vec<Op<ResultModeGather, Db>> = ops.iter().map(|op| op_of(op, |_| ())).collect();
    let out = run_program(&[strong(state)], &ops, None, &INITIAL_COST_MODEL).ok()?;
    match out.events.last() {
        Some(GatherEvent::Read(v)) => Some(v.value.0.iter().map(|atom| atom.0.clone()).collect()),
        _ => None,
    }
}

/// The state after `ops`, where they apply.
fn land(ops: &[ImpactOp], state: &State) -> Option<State> {
    let ops: Vec<Op<ResultModeVerify, Db>> = ops.iter().map(|op| op_of(op, |v| v)).collect();
    let out = run_program(&[strong(state)], &ops, None, &INITIAL_COST_MODEL).ok()?;
    assert_eq!(out.stack.len(), 1, "a program leaves the state and nothing else");
    Some(out.stack[0].value.clone())
}

#[derive(Debug)]
struct Executed {
    post: State,
    ops: Vec<ImpactOp>,
    reads: usize,
    disclosed: Vec<String>,
    acknowledged: usize,
}

#[derive(Debug)]
enum Failure {
    /// An assertion of the circuit does not hold.
    Rejected(String),
    /// The ledger refuses the program.
    NotApplied,
}

const NO_VALUE: &str = "a read found no value of its shape supplied";

/// Runs a circuit against a state: each read returns what the ledger holds.
fn execute(body: impl Fn(&mut Circuit3), state: &State, inputs: &[Vec<u8>]) -> Result<Executed, Failure> {
    let mut supplied: Vec<Vec<Vec<u8>>> = Vec::new();
    loop {
        let mut c = Circuit3::with(inputs.to_vec(), supplied.clone());
        body(&mut c);
        let unmet = c.unmet().clone();
        let disclosed = c.disclosed().clone();
        let acknowledged = c.acknowledged().len();
        let ops = c.finish();
        match unmet {
            None => {
                let post = land(&ops, state).ok_or(Failure::NotApplied)?;
                return Ok(Executed { post, ops, reads: supplied.len(), disclosed, acknowledged });
            }
            Some(message) if message == NO_VALUE => {
                let mut left = supplied.len() + 1;
                let mut end = 0;
                while left > 0 {
                    if matches!(ops[end], ImpactOp::Popeq { .. }) {
                        left -= 1;
                    }
                    end += 1;
                }
                supplied.push(gather(&ops[..end], state).ok_or(Failure::NotApplied)?);
            }
            Some(message) => return Err(Failure::Rejected(message)),
        }
    }
}

fn le(v: u64) -> Vec<u8> {
    let mut bytes = v.to_le_bytes().to_vec();
    while bytes.last() == Some(&0) {
        bytes.pop();
    }
    bytes
}

fn args(inputs: &[u64]) -> Vec<Vec<u8>> {
    inputs.iter().map(|v| le(*v)).collect()
}

fn popeqs(ops: &[ImpactOp]) -> usize {
    ops.iter().filter(|op| matches!(op, ImpactOp::Popeq { .. })).count()
}

/// How many reads of `field`: an `idx [field]` with a `popeq` behind it.
fn reads_of(ops: &[ImpactOp], field: u8) -> usize {
    ops.windows(2)
        .filter(|w| {
            matches!(&w[1], ImpactOp::Popeq { .. })
                && matches!(&w[0], ImpactOp::Idx { path, .. }
                    if path.len() == 1 && matches!(path[0], LedgerKey::Field(i) if i == field))
        })
        .count()
}

// ---- states -------------------------------------------------------------------------------------

fn bytes_value(n: u32, bytes: &[u8]) -> fab::AlignedValue {
    fab::AlignedValue::new(
        fab::Value(vec![fab::ValueAtom(bytes.to_vec()).normalize()]),
        fab::Alignment(vec![fab::AlignmentSegment::Atom(fab::AlignmentAtom::Bytes { length: n })]),
    )
    .expect("the bytes fit the atom")
}

fn u64_value(v: u64) -> fab::AlignedValue {
    bytes_value(8, &v.to_le_bytes())
}

fn bool_value(v: bool) -> fab::AlignedValue {
    bytes_value(1, &[u8::from(v)])
}

fn cell(av: fab::AlignedValue) -> State {
    LedgerState::Cell(Sp::new(av))
}

fn map_of(entries: &[(u64, fab::AlignedValue)]) -> State {
    let mut m: StorageMap<fab::AlignedValue, State, Db> = StorageMap::new();
    for (k, v) in entries {
        m = m.insert(u64_value(*k), cell(v.clone()));
    }
    LedgerState::Map(m)
}

fn u64_map(entries: &[(u64, u64)]) -> State {
    map_of(&entries.iter().map(|(k, v)| (*k, u64_value(*v))).collect::<Vec<_>>())
}

fn block_of(fields: Vec<State>) -> State {
    LedgerState::Array(Array::from(fields))
}

fn field(state: &State, index: usize) -> State {
    let LedgerState::Array(fields) = state else {
        panic!("the state is the block's array");
    };
    fields.get(index).expect("field in range").clone()
}

fn first_atom(node: &State) -> Vec<u8> {
    let LedgerState::Cell(av) = node else {
        panic!("a cell, got {node:?}");
    };
    av.value.0.first().map(|a| a.0.clone()).unwrap_or_default()
}

fn decode(bytes: Vec<u8>) -> u64 {
    let mut le = [0u8; 8];
    le[..bytes.len()].copy_from_slice(&bytes);
    u64::from_le_bytes(le)
}

fn cell_u64(state: &State, index: usize) -> u64 {
    decode(first_atom(&field(state, index)))
}

fn cell_bool(state: &State, index: usize) -> bool {
    !first_atom(&field(state, index)).is_empty()
}

fn map_entry(state: &State, index: usize, key: fab::AlignedValue) -> Option<Vec<u8>> {
    let f = field(state, index);
    let LedgerState::Map(ref m) = f else {
        panic!("field {index} is a map");
    };
    m.get(&key).map(|entry| first_atom(&entry))
}

fn map_u64(state: &State, index: usize, key: u64) -> Option<u64> {
    map_entry(state, index, u64_value(key)).map(decode)
}

fn map_bool(state: &State, index: usize, key: u64) -> Option<bool> {
    map_entry(state, index, u64_value(key)).map(|bytes| !bytes.is_empty())
}

// ---- circuits -----------------------------------------------------------------------------------

/// Two public `Uint<64>` arguments, `k` then `d`.
fn two_args(c: &mut Circuit3) -> (U64, U64) {
    let k = <Uint<64, Private> as CircuitArg>::declare(c, "k");
    let d = <Uint<64, Private> as CircuitArg>::declare(c, "d");
    constrain(&k, c);
    constrain(&d, c);
    (k.disclose_as::<Shown>(c), d.disclose_as::<Shown>(c))
}

struct Shown;

impl DisclosureLabel for Shown {
    const LABEL: &'static str = "shown";
}

/// A number that is a machine word.
fn word<const BITS: u32, V: Vis3>(number: Uint<BITS, V>) -> u64 {
    number.to_word().expect("a machine word")
}

fn u64_of(value: u64) -> U64 {
    Uint::of(value)
}

// ---- the block under test -----------------------------------------------------------------------

struct Block {
    n: LedgerCell<U64>,
    m: LedgerCell<U64>,
    snap: LedgerMap<U64, U64, FieldPath>,
    b: LedgerCell<Bool<Public>>,
    flag: LedgerCell<Bool<Public>>,
    first: LedgerCell<U64>,
}

fn block() -> Block {
    let layout = BlockLayout::compactc(FIELDS);
    Block {
        n: LedgerCell::at_layout(layout, 0),
        m: LedgerCell::at_layout(layout, 1),
        snap: LedgerMap::at_layout(layout, 2),
        b: LedgerCell::at_layout(layout, 3),
        flag: LedgerCell::at_layout(layout, 4),
        first: LedgerCell::at_layout(layout, 5),
    }
}

const FIELDS: usize = 6;
const N: usize = 0;
const M: usize = 1;
const SNAP: usize = 2;
const B: usize = 3;
const FLAG: usize = 4;
const FIRST: usize = 5;

#[derive(Clone, Default)]
struct Seed {
    n: u64,
    m: u64,
    snap: Vec<(u64, u64)>,
    b: bool,
    flag: bool,
    first: u64,
}

impl Seed {
    fn state(&self) -> State {
        block_of(vec![
            cell(u64_value(self.n)),
            cell(u64_value(self.m)),
            u64_map(&self.snap),
            cell(bool_value(self.b)),
            cell(bool_value(self.flag)),
            cell(u64_value(self.first)),
        ])
    }
}

fn run(circuit: impl Fn(&mut Circuit3), seed: &Seed, inputs: &[u64]) -> Result<Executed, Failure> {
    execute(circuit, &seed.state(), &args(inputs))
}

/// Apply and require success; the program reads nothing.
fn apply(circuit: impl Fn(&mut Circuit3), seed: &Seed, inputs: &[u64]) -> Executed {
    let out = run(circuit, seed, inputs).expect("the hook applies");
    assert_eq!(out.reads, 0, "a hook performs no read");
    assert_eq!(popeqs(&out.ops), 0);
    out
}

/// Apply and require the ledger to refuse it; the circuit was satisfied.
fn refused(circuit: impl Fn(&mut Circuit3), seed: &Seed, inputs: &[u64]) {
    match run(circuit, seed, inputs) {
        Err(Failure::NotApplied) => {}
        other => panic!("the ledger refuses this program, got {other:?}"),
    }
}

fn attach(c: &mut Circuit3, hook: Hook) {
    match c.attach(hook) {
        Ok(()) => {}
        Err(refusal) => panic!("{}", refusal.message()),
    }
}

// ---- the read-modify-writes ------------------------------------------------------------------

#[test]
fn add_and_sub_blind_with_overflow_and_underflow_refused() {
    let add = |c: &mut Circuit3| {
        let (_k, d) = two_args(c);
        attach(c, Hook::new().add(&block().n, d));
    };
    let out = apply(add, &Seed { n: 40, ..Seed::default() }, &[0, 2]);
    assert_eq!(cell_u64(&out.post, N), 42);
    refused(add, &Seed { n: u64::MAX, ..Seed::default() }, &[0, 1]);

    let sub = |c: &mut Circuit3| {
        let (_k, d) = two_args(c);
        attach(c, Hook::new().sub(&block().n, d));
    };
    let out = apply(sub, &Seed { n: 40, ..Seed::default() }, &[0, 2]);
    assert_eq!(cell_u64(&out.post, N), 38);
    refused(sub, &Seed { n: 1, ..Seed::default() }, &[0, 2]);
}

#[test]
fn a_literal_delta_is_an_immediate() {
    let add = |c: &mut Circuit3| {
        let (_k, _d) = two_args(c);
        attach(c, Hook::new().add(&block().n, 1u64).sub(&block().m, 3u64));
    };
    let out = apply(add, &Seed { n: 4, m: 10, ..Seed::default() }, &[0, 0]);
    let wires = out.disclosed.iter().filter(|label| *label == "impact public input").count();
    assert_eq!(wires, 0, "a literal delta names no wire");
    assert_eq!(cell_u64(&out.post, N), 5);
    assert_eq!(cell_u64(&out.post, M), 7);
}

#[test]
fn max_and_min_keep_the_right_arm() {
    let max = |c: &mut Circuit3| {
        let (_k, d) = two_args(c);
        attach(c, Hook::new().max(&block().n, d));
    };
    assert_eq!(cell_u64(&apply(max, &Seed { n: 10, ..Seed::default() }, &[0, 25]).post, N), 25);
    assert_eq!(cell_u64(&apply(max, &Seed { n: 30, ..Seed::default() }, &[0, 25]).post, N), 30);
    assert_eq!(cell_u64(&apply(max, &Seed { n: 25, ..Seed::default() }, &[0, 25]).post, N), 25);

    let min = |c: &mut Circuit3| {
        let (_k, d) = two_args(c);
        attach(c, Hook::new().min(&block().n, d));
    };
    assert_eq!(cell_u64(&apply(min, &Seed { n: 10, ..Seed::default() }, &[0, 25]).post, N), 10);
    assert_eq!(cell_u64(&apply(min, &Seed { n: 30, ..Seed::default() }, &[0, 25]).post, N), 25);
}

#[test]
fn and_and_or_on_a_boolean_cell() {
    let and = |c: &mut Circuit3| {
        let (_k, d) = two_args(c);
        attach(c, Hook::new().and(&block().b, Bool::<Public>::of(word(d) == 1)));
    };
    let or = |c: &mut Circuit3| {
        let (_k, d) = two_args(c);
        attach(c, Hook::new().or(&block().b, Bool::<Public>::of(word(d) == 1)));
    };
    for (a, d) in [(false, false), (false, true), (true, false), (true, true)] {
        let seed = Seed { b: a, ..Seed::default() };
        assert_eq!(cell_bool(&apply(and, &seed, &[0, u64::from(d)]).post, B), a && d, "and {a} {d}");
        assert_eq!(cell_bool(&apply(or, &seed, &[0, u64::from(d)]).post, B), a || d, "or {a} {d}");
    }
    // Literals too.
    let lit = |c: &mut Circuit3| {
        let (_k, _d) = two_args(c);
        attach(c, Hook::new().or(&block().b, true));
    };
    assert!(cell_bool(&apply(lit, &Seed::default(), &[0, 0]).post, B));
}

// ---- the plain writes -----------------------------------------------------------------------

#[test]
fn write_insert_and_remove_as_effects() {
    let circuit = |c: &mut Circuit3| {
        let (k, d) = two_args(c);
        attach(
            c,
            Hook::new()
                .write(&block().n, d)
                .insert(&block().snap, k, d)
                .remove(&block().snap, 77u64),
        );
    };
    let seed = Seed { n: 1, snap: vec![(77, 5)], ..Seed::default() };
    let out = apply(circuit, &seed, &[9, 42]);
    assert_eq!(cell_u64(&out.post, N), 42);
    assert_eq!(map_u64(&out.post, SNAP, 9), Some(42));
    assert_eq!(map_u64(&out.post, SNAP, 77), None, "removed");
    // Removing an absent key is a no-op, never a failure.
    let out = apply(circuit, &Seed::default(), &[9, 42]);
    assert_eq!(map_u64(&out.post, SNAP, 77), None);
}

// ---- slot to slot ---------------------------------------------------------------------------

#[test]
fn copy_snapshots_a_cell_into_a_map_and_copy_cell_between_cells() {
    let circuit = |c: &mut Circuit3| {
        let (k, _d) = two_args(c);
        attach(c, Hook::new().copy(&block().n, &block().snap, k).copy_cell(&block().n, &block().m));
    };
    let out = apply(circuit, &Seed { n: 4242, m: 1, ..Seed::default() }, &[9, 0]);
    assert_eq!(map_u64(&out.post, SNAP, 9), Some(4242), "snap[9] = n");
    assert_eq!(cell_u64(&out.post, M), 4242, "m = n");
    assert_eq!(cell_u64(&out.post, N), 4242, "n untouched");
}

#[test]
fn move_entry_moves_a_present_entry_and_refuses_an_absent_source() {
    let circuit = |c: &mut Circuit3| {
        let (k, d) = two_args(c);
        attach(c, Hook::new().move_entry(&block().snap, k, d));
    };
    let seed = Seed { snap: vec![(5, 77), (6, 1)], ..Seed::default() };
    let out = apply(circuit, &seed, &[5, 9]);
    assert_eq!(map_u64(&out.post, SNAP, 9), Some(77), "moved to 9");
    assert_eq!(map_u64(&out.post, SNAP, 5), None, "gone from 5");
    assert_eq!(map_u64(&out.post, SNAP, 6), Some(1), "others untouched");
    // Overwrites an existing destination, as `insert` does.
    let out = apply(circuit, &seed, &[5, 6]);
    assert_eq!(map_u64(&out.post, SNAP, 6), Some(77));
    // An absent source fails the transaction and plants no Null.
    refused(circuit, &seed, &[8, 9]);
}

// ---- the branches ---------------------------------------------------------------------------

#[test]
fn if_absent_runs_the_arm_only_when_the_key_is_absent() {
    let circuit = |c: &mut Circuit3| {
        let (k, d) = two_args(c);
        attach(
            c,
            Hook::new().if_absent(&block().snap, k, |h| {
                h.insert(&block().snap, k, d).add(&block().n, 1u64)
            }),
        );
    };
    let out = apply(circuit, &Seed { n: 1, ..Seed::default() }, &[9, 42]);
    assert_eq!(map_u64(&out.post, SNAP, 9), Some(42), "absent: inserted");
    assert_eq!(cell_u64(&out.post, N), 2, "absent: the arm ran");
    let seed = Seed { n: 1, snap: vec![(9, 7)], ..Seed::default() };
    let out = apply(circuit, &seed, &[9, 42]);
    assert_eq!(map_u64(&out.post, SNAP, 9), Some(7), "present: untouched");
    assert_eq!(cell_u64(&out.post, N), 1, "present: the arm was skipped");
    // A failure inside the arm fails only when the arm runs.
    refused(circuit, &Seed { n: u64::MAX, ..Seed::default() }, &[9, 42]);
    let seed = Seed { n: u64::MAX, snap: vec![(9, 7)], ..Seed::default() };
    apply(circuit, &seed, &[9, 42]);
}

#[test]
fn if_below_runs_the_arm_only_when_the_cell_is_below_the_bound() {
    let circuit = |c: &mut Circuit3| {
        let (_k, d) = two_args(c);
        attach(c, Hook::new().if_below(&block().n, d, |h| h.write(&block().m, 1u64)));
    };
    assert_eq!(cell_u64(&apply(circuit, &Seed { n: 3, ..Seed::default() }, &[0, 5]).post, M), 1);
    assert_eq!(cell_u64(&apply(circuit, &Seed { n: 5, ..Seed::default() }, &[0, 5]).post, M), 0);
    assert_eq!(cell_u64(&apply(circuit, &Seed { n: 9, ..Seed::default() }, &[0, 5]).post, M), 0);
}

#[test]
fn if_unset_is_the_first_write() {
    let circuit = |c: &mut Circuit3| {
        let (_k, d) = two_args(c);
        attach(
            c,
            Hook::new().if_unset(&block().flag, |h| {
                h.write(&block().first, d).write(&block().flag, true)
            }),
        );
    };
    let out = apply(circuit, &Seed::default(), &[0, 9]);
    assert_eq!(cell_u64(&out.post, FIRST), 9);
    assert!(cell_bool(&out.post, FLAG));
    // A second first-write is skipped.
    let seed = Seed { first: 9, flag: true, ..Seed::default() };
    let out = apply(circuit, &seed, &[0, 11]);
    assert_eq!(cell_u64(&out.post, FIRST), 9);
    assert!(cell_bool(&out.post, FLAG));
}

// ---- composition and attachment -----------------------------------------------------------------

#[test]
fn then_concatenates_and_hooks_run_in_attachment_order() {
    let concat = |c: &mut Circuit3| {
        let (_k, _d) = two_args(c);
        let second = Hook::new().write(&block().n, 2u64);
        attach(c, Hook::new().write(&block().n, 1u64).and_then(second));
    };
    assert_eq!(cell_u64(&apply(concat, &Seed::default(), &[0, 0]).post, N), 2);

    let ordered = |c: &mut Circuit3| {
        let (_k, _d) = two_args(c);
        attach(c, Hook::new().write(&block().n, 1u64));
        attach(c, Hook::new().write(&block().n, 2u64));
    };
    assert_eq!(cell_u64(&apply(ordered, &Seed::default(), &[0, 0]).post, N), 2);
    let reversed = |c: &mut Circuit3| {
        let (_k, _d) = two_args(c);
        attach(c, Hook::new().write(&block().n, 2u64));
        attach(c, Hook::new().write(&block().n, 1u64));
    };
    assert_eq!(cell_u64(&apply(reversed, &Seed::default(), &[0, 0]).post, N), 1);
}

#[test]
fn a_hook_runs_after_the_whole_body_whatever_the_position_of_then() {
    let circuit = |c: &mut Circuit3| {
        let (_k, d) = two_args(c);
        attach(c, Hook::new().add(&block().n, 1u64));
        // An inline write that comes later still lands first.
        block().n.write(c, &d);
    };
    let out = run(circuit, &Seed { n: 100, ..Seed::default() }, &[0, 10]).expect("applies");
    assert_eq!(cell_u64(&out.post, N), 11, "write 10, then += 1");
    assert_eq!(circuit_deferred_is_flushed(), 0);
}

fn circuit_deferred_is_flushed() -> usize {
    let mut c = Circuit3::new();
    attach(&mut c, Hook::new().add(&block().n, 1u64));
    assert_eq!(c.deferred_count(), 1);
    c.flush_deferred();
    c.deferred_count()
}

#[test]
fn entry_flushes_the_hooks_before_the_outputs() {
    let circuit = |c: &mut Circuit3| {
        attach(c, Hook::new().add(&block().n, 1u64));
        block().n.write(c, &u64_of(10));
    };
    let out = run(circuit, &Seed { n: 100, ..Seed::default() }, &[]).expect("applies");
    assert_eq!(cell_u64(&out.post, N), 11);
}

#[test]
fn a_hook_attached_inside_when_is_emitted_under_that_guard() {
    let circuit = |c: &mut Circuit3| {
        let (g, _d) = two_args(c);
        let outer = c.enter(word(g) == 1);
        attach(c, Hook::new().add(&block().n, 1u64));
        c.leave(outer);
        // And a hook attached outside runs regardless.
        attach(c, Hook::new().add(&block().m, 1u64));
    };
    let seed = Seed { n: 5, m: 5, ..Seed::default() };
    let on = apply(circuit, &seed, &[1, 0]);
    assert_eq!(cell_u64(&on.post, N), 6, "guard on: the hook ran");
    assert_eq!(cell_u64(&on.post, M), 6);
    let off = apply(circuit, &seed, &[0, 0]);
    assert_eq!(cell_u64(&off.post, N), 5, "guard off: absent from the transcript");
    assert_eq!(cell_u64(&off.post, M), 6, "the unguarded hook still ran");
    // The skipped hook's ops are not there at all.
    assert_eq!(on.ops.len(), off.ops.len() + 4);
}

#[test]
#[should_panic(expected = "inside `when_private`")]
fn a_hook_inside_when_private_is_refused_at_build_time() {
    let mut c = Circuit3::new();
    let outer = c.enter_private();
    attach(&mut c, Hook::new().add(&block().n, 1u64));
    c.leave_private(outer);
}

#[test]
fn a_refused_hook_leaves_the_run_as_it_was() {
    let mut c = Circuit3::new();
    let outer = c.enter_private();
    assert_eq!(c.attach(Hook::new().add(&block().n, 1u64)), Err(CircuitRefusal::PrivateHook));
    c.leave_private(outer);
    assert_eq!(c.deferred_count(), 0);
    assert_eq!(c.attach(Hook::new().add(&block().n, 1u64)), Ok(()));
    assert_eq!(c.deferred_count(), 1);
    assert_eq!(c.finish().len(), 4);
}

type Deeper<V> = LedgerMap<U64, V, FieldPath>;

/// Four keys down is the deepest copy destination.
#[test]
fn a_copy_reaches_four_keys_down() {
    let k = u64_of(1);
    let deep: LedgerMap<
        U64,
        Deeper<Deeper<Deeper<Deeper<U64>>>>,
        FieldPath,
    > = LedgerMap::at_layout(BlockLayout::compactc(2), 1);
    let four = deep.at_key(&k).at_key(&k).at_key(&k).at_key(&k);
    let copied = Hook::new().copy(&block().n, &four, k).move_entry(&four, k, k);
    assert!(copied.into_ops().len() > 4);
}

// ---- no hidden ops ----------------------------------------------------------------------------

fn text(ops: Vec<ImpactOp>) -> String {
    format!("{ops:?}")
}

#[test]
fn a_hook_lowers_to_the_explicit_op_lists_byte_for_byte() {
    let (k, d) = (u64_of(9), u64_of(42));
    let hook = Hook::new()
        .add(&block().n, d)
        .copy(&block().n, &block().snap, k)
        .if_absent(&block().snap, 3u64, |h| h.add(&block().m, 1u64));

    let n = vec![LedgerKey::Field(0)];
    let m = vec![LedgerKey::Field(1)];
    let snap = vec![LedgerKey::Field(2)];
    let mut explicit = cell_add_at(&n, &store_number(42, 8));
    explicit.extend(cell_snapshot_into_map_at(&n, &snap, &store_number(9, 8)));
    let arm = cell_add_at(&m, &store_number(1, 8));
    explicit.extend([
        ImpactOp::Dup { n: 0 },
        ImpactOp::Idx { cached: false, push_path: false, path: snap },
        ImpactOp::Push { storage: false, value: store_number(3, 8) },
        ImpactOp::Member,
        ImpactOp::Branch { skip: arm.len() as u32 },
    ]);
    explicit.extend(arm);
    assert_eq!(text(hook.into_ops()), text(explicit));
}

/// A plain write needs no reach: five maps down is fine.
#[test]
fn a_write_goes_five_keys_down() {
    let deep: Deeper<Deeper<Deeper<Deeper<Deeper<Deeper<U64>>>>>> =
        LedgerMap::at_layout(BlockLayout::compactc(2), 1);
    let k = u64_of(1);
    let five = deep.at_key(&k).at_key(&k).at_key(&k).at_key(&k).at_key(&k);
    let ops = Hook::new().insert(&five, k, u64_of(9)).into_ops();
    assert!(matches!(ops.last(), Some(ImpactOp::Ins { cached: true, n: 6 })));
    let nest = |leaf: State| (0..5).fold(leaf, |inner, _| {
        let m: StorageMap<fab::AlignedValue, State, Db> = StorageMap::new();
        LedgerState::Map(m.insert(u64_value(1), inner))
    });
    let before = block_of(vec![LedgerState::Null, nest(u64_map(&[]))]);
    let after = block_of(vec![LedgerState::Null, nest(u64_map(&[(1, 9)]))]);
    assert!(land(&ops, &before) == Some(after));
}

/// A narrow cell takes literals of its own width.
#[test]
fn literals_are_stored_at_the_cells_width() {
    let bytes_of = |value: AlignedValue| {
        let AlignmentSegment::Atom(AlignmentAtom::Bytes { length }) = value.alignment[0] else {
            panic!("one byte string");
        };
        length
    };
    assert_eq!(bytes_of(HookValue::<Uint<8, Public>>::hook_value(255u64)), 1);
    assert_eq!(bytes_of(HookValue::<Uint<16, Public>>::hook_value(1u64)), 2);
    assert_eq!(bytes_of(HookValue::<Uint<64, Public>>::hook_value(1u64)), 8);
    assert_eq!(bytes_of(HookValue::<Uint<9, Public>>::hook_value(511u64)), 2);
    assert_eq!(bytes_of(HookValue::<Bool<Public>>::hook_value(true)), 1);
}
