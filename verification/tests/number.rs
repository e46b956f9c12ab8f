//! Numbers wider than a machine word, in reads, writes and arguments.
#![allow(dead_code)]

use midnight_base_crypto::fab;
use midnight_onchain_state::state::StateValue as LedgerState;
use midnight_onchain_vm::cost_model::INITIAL_COST_MODEL;
use midnight_onchain_vm::ops::{expect_checked, expect_checked_state_value, Key, Op};
use midnight_onchain_vm::result_mode::{
    GatherEvent, ResultMode, ResultModeGather, ResultModeVerify,
};
use midnight_onchain_vm::vm::run_program;
use midnight_onchain_vm::vm_value::{ValueStrength, VmValue};
use midnight_storage::arena::Sp;
use midnight_storage::db::InMemoryDB;
use midnight_storage::storage::{Array, HashMap as StorageMap};
use minocrab_std::abi::{constrain, CircuitArg, Disclose, DisclosureLabel};
use minocrab_std::circuit::Circuit3;
use minocrab_std::fab::{AlignedValue, AlignmentAtom, AlignmentSegment};
use minocrab_std::impact::ImpactOp;
use minocrab_std::ledger::LedgerKey;
use minocrab_std::wire::{Private, Public, Uint, Vis3};
use minocrab_std::blind::{Last, Primitive};
use minocrab_std::layout::BlockLayout;
use minocrab_std::ledger::LedgerCell;
use minocrab_std::number::Number;
use minocrab_std::wire::B32;

// ---- the ledger's own machine ---------------------------------------------------------------

type Db = InMemoryDB;
type State = LedgerState<Db>;
type U64 = Uint<64, Public>;

fn outside(v: &AlignedValue) -> fab::AlignedValue {
    let atoms = v.value.iter().map(|bytes| fab::ValueAtom(bytes.clone())).collect();
    let segments = v
        .alignment
        .iter()
        .map(|segment| match segment {
            AlignmentSegment::Atom(AlignmentAtom::Compress) => {
                fab::AlignmentSegment::Atom(fab::AlignmentAtom::Compress)
            }
            AlignmentSegment::Atom(AlignmentAtom::Field) => {
                fab::AlignmentSegment::Atom(fab::AlignmentAtom::Field)
            }
            AlignmentSegment::Atom(AlignmentAtom::Bytes { length }) => {
                fab::AlignmentSegment::Atom(fab::AlignmentAtom::Bytes { length: *length })
            }
            AlignmentSegment::Choice(_) => panic!("no stored type here has a choice"),
        })
        .collect();
    fab::AlignedValue::new(fab::Value(atoms), fab::Alignment(segments))
        .expect("the bytes fit their atoms")
}

fn key_of(key: &LedgerKey) -> Key {
    match key {
        LedgerKey::Field(i) => Key::Value(expect_checked(bytes_value(1, &[*i]))),
        LedgerKey::Value(v) => Key::Value(expect_checked(outside(v))),
    }
}

/// The machine's op, a read carrying `read`.
fn op_of<M: ResultMode<Db>>(op: &ImpactOp, read: impl Fn(fab::AlignedValue) -> M::ReadResult) -> Op<M, Db> {
    match op {
        ImpactOp::Dup { n } => Op::Dup { n: *n },
        ImpactOp::Swap { n } => Op::Swap { n: *n },
        ImpactOp::Pop => Op::Pop,
        ImpactOp::Push { storage, value } => Op::Push {
            storage: *storage,
            value: expect_checked_state_value(LedgerState::Cell(Sp::new(outside(value)))),
        },
        ImpactOp::Idx { cached, push_path, path } => Op::Idx {
            cached: *cached,
            push_path: *push_path,
            path: Array::from(path.iter().map(key_of).collect::<Vec<_>>()),
        },
        ImpactOp::Ins { cached, n } => Op::Ins { cached: *cached, n: *n },
        ImpactOp::Add => Op::Add,
        ImpactOp::Sub => Op::Sub,
        ImpactOp::Lt => Op::Lt,
        ImpactOp::Neg => Op::Neg,
        ImpactOp::And => Op::And,
        ImpactOp::Or => Op::Or,
        ImpactOp::Member => Op::Member,
        ImpactOp::Rem { cached } => Op::Rem { cached: *cached },
        ImpactOp::Branch { skip } => Op::Branch { skip: *skip },
        ImpactOp::Jmp { skip } => Op::Jmp { skip: *skip },
        ImpactOp::Popeq { value } => Op::Popeq { cached: false, result: read(outside(value)) },
    }
}

fn strong(state: &State) -> VmValue<Db> {
    VmValue::new(ValueStrength::Strong, state.clone())
}

/// What the last read of `ops` finds.
fn gather(ops: &[ImpactOp], state: &State) -> Option<Vec<Vec<u8>>> {
    let ops: Vec<Op<ResultModeGather, Db>> = ops.iter().map(|op| op_of(op, |_| ())).collect();
    let out = run_program(&[strong(state)], &ops, None, &INITIAL_COST_MODEL).ok()?;
    match out.events.last() {
        Some(GatherEvent::Read(v)) => Some(v.value.0.iter().map(|atom| atom.0.clone()).collect()),
        _ => None,
    }
}

/// The state after `ops`, where they apply.
fn land(ops: &[ImpactOp], state: &State) -> Option<State> {
    let ops: Vec<Op<ResultModeVerify, Db>> = ops.iter().map(|op| op_of(op, |v| v)).collect();
    let out = run_program(&[strong(state)], &ops, None, &INITIAL_COST_MODEL).ok()?;
    assert_eq!(out.stack.len(), 1, "a program leaves the state and nothing else");
    Some(out.stack[0].value.clone())
}

#[derive(Debug)]
struct Executed {
    post: State,
    ops: Vec<ImpactOp>,
    reads: usize,
    disclosed: Vec<String>,
    acknowledged: usize,
}

#[derive(Debug)]
enum Failure {
    /// An assertion of the circuit does not hold.
    Rejected(String),
    /// The ledger refuses the program.
    NotApplied,
}

const NO_VALUE: &str = "a read found no value of its shape supplied";

/// Runs a circuit against a state: each read returns what the ledger holds.
fn execute(body: impl Fn(&mut Circuit3), state: &State, inputs: &[Vec<u8>]) -> Result<Executed, Failure> {
    let mut supplied: Vec<Vec<Vec<u8>>> = Vec::new();
    loop {
        let mut c = Circuit3::with(inputs.to_vec(), supplied.clone());
        body(&mut c);
        let unmet = c.unmet().clone();
        let disclosed = c.disclosed().clone();
        let acknowledged = c.acknowledged().len();
        let ops = c.finish();
        match unmet {
            None => {
                let post = land(&ops, state).ok_or(Failure::NotApplied)?;
                return Ok(Executed { post, ops, reads: supplied.len(), disclosed, acknowledged });
            }
            Some(message) if message == NO_VALUE => {
                let mut left = supplied.len() + 1;
                let mut end = 0;
                while left > 0 {
                    if matches!(ops[end], ImpactOp::Popeq { .. }) {
                        left -= 1;
                    }
                    end += 1;
                }
                supplied.push(gather(&ops[..end], state).ok_or(Failure::NotApplied)?);
            }
            Some(message) => return Err(Failure::Rejected(message)),
        }
    }
}

fn le(v: u64) -> Vec<u8> {
    let mut bytes = v.to_le_bytes().to_vec();
    while bytes.last() == Some(&0) {
        bytes.pop();
    }
    bytes
}

fn args(inputs: &[u64]) -> Vec<Vec<u8>> {
    inputs.iter().map(|v| le(*v)).collect()
}

fn popeqs(ops: &[ImpactOp]) -> usize {
    ops.iter().filter(|op| matches!(op, ImpactOp::Popeq { .. })).count()
}

/// How many reads of `field`: an `idx [field]` with a `popeq` behind it.
fn reads_of(ops: &[ImpactOp], field: u8) -> usize {
    ops.windows(2)
        .filter(|w| {
            matches!(&w[1], ImpactOp::Popeq { .. })
                && matches!(&w[0], ImpactOp::Idx { path, .. }
                    if path.len() == 1 && matches!(path[0], LedgerKey::Field(i) if i == field))
        })
        .count()
}

// ---- states -------------------------------------------------------------------------------------

fn bytes_value(n: u32, bytes: &[u8]) -> fab::AlignedValue {
    fab::AlignedValue::new(
        fab::Value(vec![fab::ValueAtom(bytes.to_vec()).normalize()]),
        fab::Alignment(vec![fab::AlignmentSegment::Atom(fab::AlignmentAtom::Bytes { length: n })]),
    )
    .expect("the bytes fit the atom")
}

fn u64_value(v: u64) -> fab::AlignedValue {
    bytes_value(8, &v.to_le_bytes())
}

fn bool_value(v: bool) -> fab::AlignedValue {
    bytes_value(1, &[u8::from(v)])
}

fn cell(av: fab::AlignedValue) -> State {
    LedgerState::Cell(Sp::new(av))
}

fn map_of(entries: &[(u64, fab::AlignedValue)]) -> State {
    let mut m: StorageMap<fab::AlignedValue, State, Db> = StorageMap::new();
    for (k, v) in entries {
        m = m.insert(u64_value(*k), cell(v.clone()));
    }
    LedgerState::Map(m)
}

fn u64_map(entries: &[(u64, u64)]) -> State {
    map_of(&entries.iter().map(|(k, v)| (*k, u64_value(*v))).collect::<Vec<_>>())
}

fn block_of(fields: Vec<State>) -> State {
    LedgerState::Array(Array::from(fields))
}

fn field(state: &State, index: usize) -> State {
    let LedgerState::Array(fields) = state else {
        panic!("the state is the block's array");
    };
    fields.get(index).expect("field in range").clone()
}

fn first_atom(node: &State) -> Vec<u8> {
    let LedgerState::Cell(av) = node else {
        panic!("a cell, got {node:?}");
    };
    av.value.0.first().map(|a| a.0.clone()).unwrap_or_default()
}

fn decode(bytes: Vec<u8>) -> u64 {
    let mut le = [0u8; 8];
    le[..bytes.len()].copy_from_slice(&bytes);
    u64::from_le_bytes(le)
}

fn cell_u64(state: &State, index: usize) -> u64 {
    decode(first_atom(&field(state, index)))
}

fn cell_bool(state: &State, index: usize) -> bool {
    !first_atom(&field(state, index)).is_empty()
}

fn map_entry(state: &State, index: usize, key: fab::AlignedValue) -> Option<Vec<u8>> {
    let f = field(state, index);
    let LedgerState::Map(ref m) = f else {
        panic!("field {index} is a map");
    };
    m.get(&key).map(|entry| first_atom(&entry))
}

fn map_u64(state: &State, index: usize, key: u64) -> Option<u64> {
    map_entry(state, index, u64_value(key)).map(decode)
}

fn map_bool(state: &State, index: usize, key: u64) -> Option<bool> {
    map_entry(state, index, u64_value(key)).map(|bytes| !bytes.is_empty())
}

// ---- circuits -----------------------------------------------------------------------------------

/// Two public `Uint<64>` arguments, `k` then `d`.
fn two_args(c: &mut Circuit3) -> (U64, U64) {
    let k = <Uint<64, Private> as CircuitArg>::declare(c, "k");
    let d = <Uint<64, Private> as CircuitArg>::declare(c, "d");
    constrain(&k, c);
    constrain(&d, c);
    (k.disclose_as::<Shown>(c), d.disclose_as::<Shown>(c))
}

struct Shown;

impl DisclosureLabel for Shown {
    const LABEL: &'static str = "shown";
}

/// A number that is a machine word.
fn word<const BITS: u32, V: Vis3>(number: Uint<BITS, V>) -> u64 {
    number.to_word().expect("a machine word")
}

fn u64_of(value: u64) -> U64 {
    Uint::of(value)
}

// ---- numbers wider than a machine word ------------------------------------------------------

type U128 = Uint<128, Public>;
type U248 = Uint<248, Public>;

fn number(bytes: &[u8]) -> Number {
    Number::from_le(&bytes.to_vec()).expect("up to 256 bits")
}

/// `2^64`, little-endian and in normal form.
const ABOVE: [u8; 9] = [0, 0, 0, 0, 0, 0, 0, 0, 1];

#[test]
fn numbers_of_up_to_256_bits_are_exact() {
    let top = number(&[0xff; 32]);
    assert_eq!(top, Number { high: u128::MAX, low: u128::MAX });
    assert_eq!(top.to_word(), None);
    assert_eq!(top.to_le(32), vec![0xff; 32]);
    assert_eq!(number(&ABOVE), Number { high: 0, low: 1 << 64 });
    assert_eq!(number(&ABOVE).to_word(), None);
    assert_eq!(number(&[7]).to_word(), Some(7));
    assert_eq!(Number::from_le(&vec![0; 40]), Some(Number::of(0)));
    let mut over = vec![0; 32];
    over.push(1);
    assert_eq!(Number::from_le(&over), None, "2^256");
    let half = Number { high: 0, low: u128::MAX };
    assert_eq!(half.plus(&Number::of(1)), Number { high: 1, low: 0 });
    assert!(half.below(&Number { high: 1, low: 0 }));
    assert!(!top.below(&top));
    assert_eq!(Number::two_to_the(0), Number::of(1));
    assert_eq!(Number::two_to_the(128), Number { high: 1, low: 0 });
    assert_eq!(Number::two_to_the(255), Number { high: 1 << 127, low: 0 });
    let mut mixed = [0u8; 32];
    for (i, byte) in mixed.iter_mut().enumerate() {
        *byte = i as u8 + 1;
    }
    assert_eq!(number(&mixed).to_le(32), mixed.to_vec());
    assert_eq!(number(&mixed).to_le(3), vec![1, 2, 3]);
}

/// What a cell of 128 bits stores is read as the number it is, and written back as
/// it was.
#[test]
fn a_stored_number_above_64_bits_is_read_and_written_as_it_is() {
    let layout = BlockLayout::compactc(2);
    let from: LedgerCell<U128> = LedgerCell::at_layout(layout, 0);
    let to: LedgerCell<U128> = LedgerCell::at_layout(layout, 1);
    let state = block_of(vec![cell(bytes_value(16, &ABOVE)), cell(bytes_value(16, &[]))]);
    let copy = |c: &mut Circuit3| {
        let value = from.read(c).stale(c);
        to.write(c, &value);
    };
    let out = execute(copy, &state, &[]).expect("applies");
    assert_eq!(first_atom(&field(&out.post, 1)), ABOVE.to_vec());
    let mut c = Circuit3::with(vec![], vec![vec![ABOVE.to_vec()]]);
    assert_eq!(from.read(&mut c).value, number(&ABOVE));
    assert!(c.unmet().is_none());
    // The widest number of a type: thirty-one bytes.
    let wide: LedgerCell<U248> = LedgerCell::at_layout(layout, 0);
    let mut c = Circuit3::with(vec![], vec![vec![vec![0xee; 31]]]);
    let read = wide.read(&mut c).stale(&mut c);
    assert_eq!(read.value, number(&[0xee; 31]));
    assert_eq!(c.acknowledged(), &vec![vec![0xee; 31]]);
}

/// The last delta wins at any width, and its snapshot gives it back.
#[test]
fn an_accumulator_of_128_bits_keeps_its_last_delta() {
    let layout = BlockLayout::compactc(2);
    let acc = <Last as Primitive<U128>>::acc_at_layout(layout, 0);
    let snapshot = <Last as Primitive<U128>>::snapshot_at_layout(layout, 1);
    let state = block_of(vec![cell(bytes_value(16, &[9])), u64_map(&[])]);
    let delta: U128 = Uint::from_field_unchecked(number(&ABOVE));
    let stepped = execute(
        |c: &mut Circuit3| {
            <Last as Primitive<U128>>::combine_blind(c, &acc, &delta);
            <Last as Primitive<U128>>::snapshot(c, &acc, &snapshot, &u64_of(5));
        },
        &state,
        &[],
    )
    .expect("applies")
    .post;
    assert_eq!(first_atom(&field(&stepped, 0)), ABOVE.to_vec());
    let take = |c: &mut Circuit3| {
        let taken = <Last as Primitive<U128>>::take(c, &snapshot, &u64_of(5));
        c.check(taken.value == number(&ABOVE), "the last delta");
    };
    let taken = execute(take, &stepped, &[]).expect("the entry is the delta");
    assert_eq!(map_entry(&taken.post, 1, u64_value(5)), None);
}

#[test]
fn an_argument_above_64_bits_is_the_number_it_is() {
    let mut c = Circuit3::with(vec![ABOVE.to_vec(), ABOVE.to_vec(), vec![0xff; 32]], vec![]);
    let wide = <Uint<128, Private> as CircuitArg>::declare(&mut c, "wide");
    assert_eq!(wide.value, number(&ABOVE));
    constrain(&wide, &mut c);
    assert!(c.unmet().is_none());
    let mut slots = Vec::new();
    wide.push_slots(&mut slots);
    assert_eq!(slots, vec![ABOVE.to_vec()]);
    let narrow = <Uint<64, Private> as CircuitArg>::declare(&mut c, "narrow");
    assert!(c.unmet().is_none());
    constrain(&narrow, &mut c);
    assert_eq!(c.unmet().as_deref(), Some("an argument is out of its type's range"));
    let all = <Uint<256, Private> as CircuitArg>::declare(&mut c, "all");
    assert!(all.check_range());
    // What no wire holds is noted.
    let mut over = vec![0; 32];
    over.push(1);
    let mut c = Circuit3::with(vec![over], vec![]);
    let _ = <Uint<64, Private> as CircuitArg>::declare(&mut c, "over");
    assert_eq!(c.unmet().as_deref(), Some("an argument is no field element"));
}

/// A value that the cell could not store is none of its shape.
#[test]
fn a_read_takes_only_what_its_atoms_store() {
    let layout = BlockLayout::compactc(1);
    let small: LedgerCell<U64> = LedgerCell::at_layout(layout, 0);
    for (limb, fits) in [(vec![], true), (vec![1; 8], true), (vec![1; 9], false), (vec![1, 0], false)] {
        let mut c = Circuit3::with(vec![], vec![vec![limb.clone()]]);
        let _ = small.read(&mut c);
        assert_eq!(c.unmet().is_none(), fits, "{limb:?}");
    }
    let bytes: LedgerCell<B32<Public>> = LedgerCell::at_layout(layout, 0);
    for (length, fits) in [(32, true), (33, false)] {
        let mut c = Circuit3::with(vec![], vec![vec![vec![1; length]]]);
        let _ = bytes.read(&mut c);
        assert_eq!(c.unmet().is_none(), fits, "{length} bytes");
    }
}
