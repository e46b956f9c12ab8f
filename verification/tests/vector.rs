//! Bounded and non-empty vectors, their folds run on the ledger's own machine.
#![allow(dead_code)]

use midnight_base_crypto::fab;
use midnight_onchain_state::state::StateValue as LedgerState;
use midnight_onchain_vm::cost_model::INITIAL_COST_MODEL;
use midnight_onchain_vm::ops::{expect_checked, expect_checked_state_value, Key, Op};
use midnight_onchain_vm::result_mode::{
    GatherEvent, ResultMode, ResultModeGather, ResultModeVerify,
};
use midnight_onchain_vm::vm::run_program;
use midnight_onchain_vm::vm_value::{ValueStrength, VmValue};
use midnight_storage::arena::Sp;
use midnight_storage::db::InMemoryDB;
use midnight_storage::storage::{Array, HashMap as StorageMap};
use minocrab_std::abi::{constrain, CircuitArg, Disclose, DisclosureLabel};
use minocrab_std::circuit::Circuit3;
use minocrab_std::fab::{AlignedValue, AlignmentAtom, AlignmentSegment};
use minocrab_std::impact::ImpactOp;
use minocrab_std::ledger::LedgerKey;
use minocrab_std::wire::{Private, Public, Uint, Vis3};
use minocrab_std::abi::{CircuitAbi, Prim};
use minocrab_std::circuit::Run;
use minocrab_std::layout::{BlockLayout, FieldPath};
use minocrab_std::ledger::{LedgerCell, LedgerMap};
use minocrab_std::vector::{Bounded, NonEmpty, SlotMap, SlotStep, VectorRefusal};

// ---- the ledger's own machine ---------------------------------------------------------------

type Db = InMemoryDB;
type State = LedgerState<Db>;
type U64 = Uint<64, Public>;

fn outside(v: &AlignedValue) -> fab::AlignedValue {
    let atoms = v.value.iter().map(|bytes| fab::ValueAtom(bytes.clone())).collect();
    let segments = v
        .alignment
        .iter()
        .map(|segment| match segment {
            AlignmentSegment::Atom(AlignmentAtom::Compress) => {
                fab::AlignmentSegment::Atom(fab::AlignmentAtom::Compress)
            }
            AlignmentSegment::Atom(AlignmentAtom::Field) => {
                fab::AlignmentSegment::Atom(fab::AlignmentAtom::Field)
            }
            AlignmentSegment::Atom(AlignmentAtom::Bytes { length }) => {
                fab::AlignmentSegment::Atom(fab::AlignmentAtom::Bytes { length: *length })
            }
            AlignmentSegment::Choice(_) => panic!("no stored type here has a choice"),
        })
        .collect();
    fab::AlignedValue::new(fab::Value(atoms), fab::Alignment(segments))
        .expect("the bytes fit their atoms")
}

fn key_of(key: &LedgerKey) -> Key {
    match key {
        LedgerKey::Field(i) => Key::Value(expect_checked(bytes_value(1, &[*i]))),
        LedgerKey::Value(v) => Key::Value(expect_checked(outside(v))),
    }
}

/// The machine's op, a read carrying `read`.
fn op_of<M: ResultMode<Db>>(op: &ImpactOp, read: impl Fn(fab::AlignedValue) -> M::ReadResult) -> Op<M, Db> {
    match op {
        ImpactOp::Dup { n } => Op::Dup { n: *n },
        ImpactOp::Swap { n } => Op::Swap { n: *n },
        ImpactOp::Pop => Op::Pop,
        ImpactOp::Push { storage, value } => Op::Push {
            storage: *storage,
            value: expect_checked_state_value(LedgerState::Cell(Sp::new(outside(value)))),
        },
        ImpactOp::Idx { cached, push_path, path } => Op::Idx {
            cached: *cached,
            push_path: *push_path,
            path: Array::from(path.iter().map(key_of).collect::<Vec<_>>()),
        },
        ImpactOp::Ins { cached, n } => Op::Ins { cached: *cached, n: *n },
        ImpactOp::Add => Op::Add,
        ImpactOp::Sub => Op::Sub,
        ImpactOp::Lt => Op::Lt,
        ImpactOp::Neg => Op::Neg,
        ImpactOp::And => Op::And,
        ImpactOp::Or => Op::Or,
        ImpactOp::Member => Op::Member,
        ImpactOp::Rem { cached } => Op::Rem { cached: *cached },
        ImpactOp::Branch { skip } => Op::Branch { skip: *skip },
        ImpactOp::Jmp { skip } => Op::Jmp { skip: *skip },
        ImpactOp::Popeq { value } => Op::Popeq { cached: false, result: read(outside(value)) },
    }
}

fn strong(state: &State) -> VmValue<Db> {
    VmValue::new(ValueStrength::Strong, state.clone())
}

/// What the last read of `ops` finds.
fn gather(ops: &[ImpactOp], state: &State) -> Option<Vec<Vec<u8>>> {
    let ops: Vec<Op<ResultModeGather, Db>> = ops.iter().map(|op| op_of(op, |_| ())).collect();
    let out = run_program(&[strong(state)], &ops, None, &INITIAL_COST_MODEL).ok()?;
    match out.events.last() {
        Some(GatherEvent::Read(v)) => Some(v.value.0.iter().map(|atom| atom.0.clone()).collect()),
        _ => None,
    }
}

/// The state after `ops`, where they apply.
fn land(ops: &[ImpactOp], state: &State) -> Option<State> {
    let ops: Vec<Op<ResultModeVerify, Db>> = ops.iter().map(|op| op_of(op, |v| v)).collect();
    let out = run_program(&[strong(state)], &ops, None, &INITIAL_COST_MODEL).ok()?;
    assert_eq!(out.stack.len(), 1, "a program leaves the state and nothing else");
    Some(out.stack[0].value.clone())
}

#[derive(Debug)]
struct Executed {
    post: State,
    ops: Vec<ImpactOp>,
    reads: usize,
    disclosed: Vec<String>,
    acknowledged: usize,
}

#[derive(Debug)]
enum Failure {
    /// An assertion of the circuit does not hold.
    Rejected(String),
    /// The ledger refuses the program.
    NotApplied,
}

const NO_VALUE: &str = "a read found no value of its shape supplied";

/// Runs a circuit against a state: each read returns what the ledger holds.
fn execute(body: impl Fn(&mut Circuit3), state: &State, inputs: &[Vec<u8>]) -> Result<Executed, Failure> {
    let mut supplied: Vec<Vec<Vec<u8>>> = Vec::new();
    loop {
        let mut c = Circuit3::with(inputs.to_vec(), supplied.clone());
        body(&mut c);
        let unmet = c.unmet().clone();
        let disclosed = c.disclosed().clone();
        let acknowledged = c.acknowledged().len();
        let ops = c.finish();
        match unmet {
            None => {
                let post = land(&ops, state).ok_or(Failure::NotApplied)?;
                return Ok(Executed { post, ops, reads: supplied.len(), disclosed, acknowledged });
            }
            Some(message) if message == NO_VALUE => {
                let mut left = supplied.len() + 1;
                let mut end = 0;
                while left > 0 {
                    if matches!(ops[end], ImpactOp::Popeq { .. }) {
                        left -= 1;
                    }
                    end += 1;
                }
                supplied.push(gather(&ops[..end], state).ok_or(Failure::NotApplied)?);
            }
            Some(message) => return Err(Failure::Rejected(message)),
        }
    }
}

fn le(v: u64) -> Vec<u8> {
    let mut bytes = v.to_le_bytes().to_vec();
    while bytes.last() == Some(&0) {
        bytes.pop();
    }
    bytes
}

fn args(inputs: &[u64]) -> Vec<Vec<u8>> {
    inputs.iter().map(|v| le(*v)).collect()
}

fn popeqs(ops: &[ImpactOp]) -> usize {
    ops.iter().filter(|op| matches!(op, ImpactOp::Popeq { .. })).count()
}

/// How many reads of `field`: an `idx [field]` with a `popeq` behind it.
fn reads_of(ops: &[ImpactOp], field: u8) -> usize {
    ops.windows(2)
        .filter(|w| {
            matches!(&w[1], ImpactOp::Popeq { .. })
                && matches!(&w[0], ImpactOp::Idx { path, .. }
                    if path.len() == 1 && matches!(path[0], LedgerKey::Field(i) if i == field))
        })
        .count()
}

// ---- states -------------------------------------------------------------------------------------

fn bytes_value(n: u32, bytes: &[u8]) -> fab::AlignedValue {
    fab::AlignedValue::new(
        fab::Value(vec![fab::ValueAtom(bytes.to_vec()).normalize()]),
        fab::Alignment(vec![fab::AlignmentSegment::Atom(fab::AlignmentAtom::Bytes { length: n })]),
    )
    .expect("the bytes fit the atom")
}

fn u64_value(v: u64) -> fab::AlignedValue {
    bytes_value(8, &v.to_le_bytes())
}

fn bool_value(v: bool) -> fab::AlignedValue {
    bytes_value(1, &[u8::from(v)])
}

fn cell(av: fab::AlignedValue) -> State {
    LedgerState::Cell(Sp::new(av))
}

fn map_of(entries: &[(u64, fab::AlignedValue)]) -> State {
    let mut m: StorageMap<fab::AlignedValue, State, Db> = StorageMap::new();
    for (k, v) in entries {
        m = m.insert(u64_value(*k), cell(v.clone()));
    }
    LedgerState::Map(m)
}

fn u64_map(entries: &[(u64, u64)]) -> State {
    map_of(&entries.iter().map(|(k, v)| (*k, u64_value(*v))).collect::<Vec<_>>())
}

fn block_of(fields: Vec<State>) -> State {
    LedgerState::Array(Array::from(fields))
}

fn field(state: &State, index: usize) -> State {
    let LedgerState::Array(fields) = state else {
        panic!("the state is the block's array");
    };
    fields.get(index).expect("field in range").clone()
}

fn first_atom(node: &State) -> Vec<u8> {
    let LedgerState::Cell(av) = node else {
        panic!("a cell, got {node:?}");
    };
    av.value.0.first().map(|a| a.0.clone()).unwrap_or_default()
}

fn decode(bytes: Vec<u8>) -> u64 {
    let mut le = [0u8; 8];
    le[..bytes.len()].copy_from_slice(&bytes);
    u64::from_le_bytes(le)
}

fn cell_u64(state: &State, index: usize) -> u64 {
    decode(first_atom(&field(state, index)))
}

fn cell_bool(state: &State, index: usize) -> bool {
    !first_atom(&field(state, index)).is_empty()
}

fn map_entry(state: &State, index: usize, key: fab::AlignedValue) -> Option<Vec<u8>> {
    let f = field(state, index);
    let LedgerState::Map(ref m) = f else {
        panic!("field {index} is a map");
    };
    m.get(&key).map(|entry| first_atom(&entry))
}

fn map_u64(state: &State, index: usize, key: u64) -> Option<u64> {
    map_entry(state, index, u64_value(key)).map(decode)
}

fn map_bool(state: &State, index: usize, key: u64) -> Option<bool> {
    map_entry(state, index, u64_value(key)).map(|bytes| !bytes.is_empty())
}

// ---- circuits -----------------------------------------------------------------------------------

/// Two public `Uint<64>` arguments, `k` then `d`.
fn two_args(c: &mut Circuit3) -> (U64, U64) {
    let k = <Uint<64, Private> as CircuitArg>::declare(c, "k");
    let d = <Uint<64, Private> as CircuitArg>::declare(c, "d");
    constrain(&k, c);
    constrain(&d, c);
    (k.disclose_as::<Shown>(c), d.disclose_as::<Shown>(c))
}

struct Shown;

impl DisclosureLabel for Shown {
    const LABEL: &'static str = "shown";
}

/// A number that is a machine word.
fn word<const BITS: u32, V: Vis3>(number: Uint<BITS, V>) -> u64 {
    number.to_word().expect("a machine word")
}

fn u64_of(value: u64) -> U64 {
    Uint::of(value)
}

// ---- the block under test -----------------------------------------------------------------------------

struct Block {
    seen: LedgerMap<U64, U64, FieldPath>,
    total: LedgerCell<U64>,
}

fn block() -> Block {
    let layout = BlockLayout::compactc(2);
    Block { seen: LedgerMap::at_layout(layout, 0), total: LedgerCell::at_layout(layout, 1) }
}

fn empty_state() -> State {
    block_of(vec![u64_map(&[]), cell(u64_value(0))])
}

fn map_keys(state: &State) -> Vec<u64> {
    let f = field(state, 0);
    let LedgerState::Map(ref m) = f else {
        panic!("field 0 is the map");
    };
    let mut keys: Vec<u64> =
        m.iter().map(|entry| decode(entry.0.value.0[0].0.clone())).collect();
    keys.sort_unstable();
    keys
}

fn map_value(state: &State, key: u64) -> Option<u64> {
    map_u64(state, 0, key)
}

fn run(circuit: impl Fn(&mut Circuit3), inputs: &[u64]) -> Result<Executed, Failure> {
    execute(circuit, &empty_state(), &args(inputs))
}

type Arg = Uint<64, Private>;

// ---- the slots ----------------------------------------------------------------------------------------

fn prims_of<T: CircuitAbi>() -> Vec<Prim> {
    let mut prims = Vec::new();
    T::push_prims(&mut prims);
    prims
}

fn atoms_of<T: CircuitAbi>() -> Vec<AlignmentAtom> {
    let mut atoms = Vec::new();
    T::push_atoms(&mut atoms);
    atoms
}

#[test]
fn the_length_is_one_limb_typed_as_uint_0_to_max_plus_one() {
    assert_eq!(<Bounded<Arg, 4, Private> as CircuitAbi>::slots(), 5);
    assert_eq!(<NonEmpty<Arg, 3, Private> as CircuitAbi>::slots(), 5);
    let prims = prims_of::<Bounded<Arg, 4, Private>>();
    assert_eq!(prims[0], Prim::UintMax { maxval: 4 }, "0..=4: less_than 5 + assert");
    assert_eq!(prims.len(), 5);
    let prims = prims_of::<Bounded<Arg, 255, Private>>();
    assert_eq!(prims[0], Prim::Uint { bits: 8 }, "0..=255: a bit constraint");
    let prims = prims_of::<Bounded<Arg, 1, Private>>();
    assert_eq!(prims[0], Prim::Uint { bits: 1 }, "0..=1: boolean");
    let atoms = atoms_of::<NonEmpty<Arg, 2, Private>>();
    assert_eq!(atoms.len(), 4, "head, len, two slots");
    assert_eq!(atoms[1], AlignmentAtom::Bytes { length: 1 });
}

// ---- the fold with ledger ops ---------------------------------------------------------------------------

/// Inserts each key under its running index.
struct InsertEach;

impl SlotStep<U64, U64> for InsertEach {
    fn stepped(&self, _run: Run, _state: U64, _item: U64) -> (Run, U64) {
        unreachable!()
    }

    fn law_guarded(&self, _run: Run, _state: U64, _item: U64) {}

    fn step(&self, c: &mut Circuit3, n: U64, k: &U64) -> U64 {
        block().seen.insert(c, k, &n);
        u64_of(word(n) + 1)
    }
}

/// Inserts each key under itself.
struct InsertSelf;

impl SlotStep<(), U64> for InsertSelf {
    fn stepped(&self, _run: Run, _state: (), _item: U64) -> (Run, ()) {
        unreachable!()
    }

    fn law_guarded(&self, _run: Run, _state: (), _item: U64) {}

    fn step(&self, c: &mut Circuit3, _state: (), k: &U64) {
        block().seen.insert(c, k, k);
    }
}

/// The sum and the maximum.
struct SumAndMax;

impl SlotStep<(U64, U64), U64> for SumAndMax {
    fn stepped(&self, _run: Run, _state: (U64, U64), _item: U64) -> (Run, (U64, U64)) {
        unreachable!()
    }

    fn law_guarded(&self, _run: Run, _state: (U64, U64), _item: U64) {}

    fn step(&self, _c: &mut Circuit3, (s, m): (U64, U64), k: &U64) -> (U64, U64) {
        (u64_of(word(s) + word(*k)), if word(m) < word(*k) { *k } else { m })
    }
}

/// Each live key is inserted with its running index and the count is written.
fn insert_each(c: &mut Circuit3) {
    let keys = <NonEmpty<Arg, 3, Private> as CircuitArg>::declare(c, "keys");
    constrain(&keys, c);
    let keys = keys.disclose_as::<Shown>(c);
    let count = keys.fold(c, u64_of(0), &InsertEach);
    block().total.write(c, &count);
}

fn for_each_of_four(c: &mut Circuit3) {
    let keys = <Bounded<Arg, 4, Private> as CircuitArg>::declare(c, "keys");
    constrain(&keys, c);
    let keys = keys.disclose_as::<Shown>(c);
    keys.for_each(c, &InsertSelf);
}

#[test]
fn a_fold_emits_the_live_slots_ops_only() {
    // Inputs: head, tail length, tail slots 0..3.
    for len in 0..=3u64 {
        let out = run(insert_each, &[100, len, 101, 102, 103]).expect("applies");
        let live: Vec<u64> = (0..=len).map(|i| 100 + i).collect();
        assert_eq!(map_keys(&out.post), live, "len {len}: exactly the live keys");
        for (i, k) in live.iter().enumerate() {
            assert_eq!(map_value(&out.post, *k), Some(i as u64), "the running index");
        }
        // One 5-op insert per live key, plus the 3-op cell write.
        assert_eq!(out.ops.len(), 5 * (len as usize + 1) + 3, "len {len}");
        assert_eq!(map_value(&out.post, 0), None);
    }
}

#[test]
fn a_length_past_max_is_rejected_by_the_argument_constraint() {
    // The length's type is `0..=3`, a 2-bit constraint.
    match run(insert_each, &[100, 4, 101, 102, 103]) {
        Err(Failure::Rejected(message)) => {
            assert_eq!(message, "an argument is out of its type's range")
        }
        other => panic!("tail len 4 on REST = 3 must be refused by the constraint, got {other:?}"),
    }
    // `0..=4` takes the other constraint shape.
    match run(for_each_of_four, &[5, 1, 2, 3, 4]) {
        Err(Failure::Rejected(_)) => {}
        other => panic!("len 5 on MAX = 4 must be rejected, got {other:?}"),
    }
}

#[test]
fn a_bounded_of_length_zero_folds_nothing() {
    // Inputs: length, four slots.
    let out = run(for_each_of_four, &[0, 1, 2, 3, 4]).expect("applies");
    assert!(map_keys(&out.post).is_empty());
    assert_eq!(out.ops.len(), 0, "no live slot, no op");
    let out = run(for_each_of_four, &[4, 1, 2, 3, 4]).expect("applies");
    assert_eq!(map_keys(&out.post), vec![1, 2, 3, 4]);
    assert_eq!(out.ops.len(), 20);
}

#[test]
fn the_fold_applies_the_step_on_live_slots_only() {
    let circuit = |c: &mut Circuit3| {
        let keys = <Bounded<Arg, 4, Private> as CircuitArg>::declare(c, "keys");
        let expected_sum = <Arg as CircuitArg>::declare(c, "sum");
        let expected_max = <Arg as CircuitArg>::declare(c, "max");
        constrain(&keys, c);
        let keys = keys.disclose_as::<Shown>(c);
        let (sum, max) = keys.fold(c, (u64_of(0), u64_of(0)), &SumAndMax);
        c.check(sum.value == expected_sum.value, "the sum");
        c.check(max.value == expected_max.value, "the maximum");
    };
    let slots = [5u64, 9, 2, 7];
    for len in 0..=4usize {
        let live = &slots[..len];
        let sum: u64 = live.iter().sum();
        let max: u64 = live.iter().copied().max().unwrap_or(0);
        let mut inputs = vec![len as u64];
        inputs.extend_from_slice(&slots);
        inputs.push(sum);
        inputs.push(max);
        run(circuit, &inputs).unwrap_or_else(|e| panic!("len {len}: {e:?}"));
        // And a wrong expectation is rejected.
        let mut wrong = inputs.clone();
        wrong[5] += 1;
        assert!(matches!(run(circuit, &wrong), Err(Failure::Rejected(_))), "len {len}");
    }
}

#[test]
fn iter_yields_the_live_bits() {
    let circuit = |c: &mut Circuit3| {
        let keys = <Bounded<Arg, 3, Private> as CircuitArg>::declare(c, "keys");
        let expected = <Arg as CircuitArg>::declare(c, "n");
        constrain(&keys, c);
        let keys = keys.disclose_as::<Shown>(c);
        let n = keys.iter().iter().filter(|(live, _)| live.value).count();
        c.check(n as u64 == word(expected), "the live count");
    };
    for len in 0..=3u64 {
        run(circuit, &[len, 1, 2, 3, len]).expect("the live count is the length");
    }
}

#[test]
fn the_head_always_folds() {
    let out = run(insert_each, &[42, 0, 0, 0, 0]).expect("applies");
    assert_eq!(map_keys(&out.post), vec![42]);
    assert_eq!(map_value(&out.post, 42), Some(0));
}

#[test]
fn the_witness_side_pads_and_splits_and_refuses_the_empty_case() {
    let (len, slots) = Bounded::<u64, 4, Private>::pad(&[1, 2], 0).expect("two fit four");
    assert_eq!((len, slots), (2, [1, 2, 0, 0]));
    let (head, len, tail) = NonEmpty::<u64, 3, Private>::split(&[9, 8], 0).expect("two fit four");
    assert_eq!((head, len, tail), (9, 1, [8, 0, 0]));
    assert_eq!(NonEmpty::<u64, 3, Private>::split(&[], 0), Err(VectorRefusal::Empty));
    assert_eq!(Bounded::<u64, 2, Private>::pad(&[1, 2, 3], 0), Err(VectorRefusal::TooMany));
    assert_eq!(NonEmpty::<u64, 1, Private>::split(&[1, 2, 3], 0), Err(VectorRefusal::TooMany));
    assert_eq!(Bounded::<u64, 256, Private>::pad(&[1], 0), Err(VectorRefusal::TooWide));
}

#[test]
fn the_slots_are_labelled_head_then_tail() {
    let mut c = Circuit3::new();
    let keys = <NonEmpty<Arg, 2, Private> as CircuitArg>::declare(&mut c, "keys");
    let _ = c.arg("after");
    constrain(&keys, &mut c);
    assert_eq!(
        c.args(),
        &["keys_head", "keys_tail_len", "keys_tail_0", "keys_tail_1", "after"],
        "declared in order"
    );
}

#[test]
fn mapping_keeps_the_length_and_applies_to_every_slot() {
    let keys = Bounded::<u64, 3, Private>::from_parts_unchecked(Uint::of(2), [1, 2, 3]);
    let mut c = Circuit3::new();
    let doubled = keys.map(&mut c, &Shows { by: 2, plus: 0 });
    assert_eq!(word(doubled.len()), 2);
    assert_eq!(doubled.slots(), &[2, 4, 6]);
    let more = NonEmpty::from_parts(9u64, keys).map(&mut c, &Shows { by: 1, plus: 1 });
    assert_eq!(more.head(), &10);
    assert_eq!(more.tail().slots(), &[2, 3, 4]);
    assert_eq!(c.disclosed().len(), 3 + 4, "once for each slot, live or not");
}

/// Multiplies and adds, and discloses under a label.
struct Shows {
    by: u64,
    plus: u64,
}

impl SlotMap<u64, u64> for Shows {
    fn mapped(&self, _run: Run, _item: u64) -> (Run, u64) {
        unreachable!()
    }

    fn apply(&self, c: &mut Circuit3, item: &u64) -> u64 {
        c.disclose(Shown::LABEL);
        item * self.by + self.plus
    }
}

/// Items need not be copies of plain memory.
#[test]
fn padding_takes_any_clonable_item() {
    let items = ["a".to_string(), "b".to_string()];
    let (len, slots) = Bounded::<String, 3, Private>::pad(&items, "-".to_string()).expect("fits");
    assert_eq!((len, slots), (2, ["a".to_string(), "b".to_string(), "-".to_string()]));
    let (head, len, tail) =
        NonEmpty::<String, 2, Private>::split(&items, "-".to_string()).expect("fits");
    assert_eq!((head.as_str(), len), ("a", 1));
    assert_eq!(tail, ["b".to_string(), "-".to_string()]);
}

/// Inserts each key under itself, and discloses that it did.
struct InsertShown;

impl SlotStep<(), U64> for InsertShown {
    fn stepped(&self, _run: Run, _state: (), _item: U64) -> (Run, ()) {
        unreachable!()
    }

    fn law_guarded(&self, _run: Run, _state: (), _item: U64) {}

    fn step(&self, c: &mut Circuit3, _state: (), k: &U64) {
        c.disclose("a step");
        block().seen.insert(c, k, k);
    }
}

/// A step may disclose: a dead slot's disclosure is noted, and nothing else of it.
#[test]
fn a_step_that_discloses_leaves_no_other_trace_of_a_dead_slot() {
    let circuit = |c: &mut Circuit3| {
        let keys = <Bounded<Arg, 3, Private> as CircuitArg>::declare(c, "keys");
        constrain(&keys, c);
        let keys = keys.disclose_as::<Shown>(c);
        keys.for_each(c, &InsertShown);
    };
    for len in 0..=3u64 {
        let out = run(circuit, &[len, 11, 12, 13]).expect("applies");
        let live: Vec<u64> = (11..11 + len).collect();
        assert_eq!(map_keys(&out.post), live, "len {len}");
        let steps = out.disclosed.iter().filter(|label| *label == "a step").count();
        assert_eq!(steps, 3, "len {len}: every slot's step is evaluated");
    }
}
