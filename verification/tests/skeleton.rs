//! A deploy state against the ledger's own machine: the skeleton with every reset run on it.
#![allow(dead_code)]

use midnight_base_crypto::fab;
use midnight_onchain_state::state::StateValue as LedgerState;
use midnight_onchain_vm::cost_model::INITIAL_COST_MODEL;
use midnight_onchain_vm::ops::{expect_checked, expect_checked_state_value, Key, Op};
use midnight_onchain_vm::result_mode::{
    GatherEvent, ResultMode, ResultModeGather, ResultModeVerify,
};
use midnight_onchain_vm::vm::run_program;
use midnight_onchain_vm::vm_value::{ValueStrength, VmValue};
use midnight_storage::arena::Sp;
use midnight_storage::db::InMemoryDB;
use midnight_storage::storage::{Array, HashMap as StorageMap};
use minocrab_std::abi::{constrain, CircuitArg, Disclose, DisclosureLabel};
use minocrab_std::circuit::Circuit3;
use minocrab_std::fab::{AlignedValue, AlignmentAtom, AlignmentSegment};
use minocrab_std::impact::ImpactOp;
use minocrab_std::ledger::LedgerKey;
use minocrab_std::wire::{Private, Public, Uint, Vis3};
use midnight_transient_crypto::merkle_tree::MerkleTree as LedgerTree;
use minocrab_std::header::{LedgerHeader, LedgerWidth, Magic, Placement};
use minocrab_std::layout::{BlockLayout, FieldPath};
use minocrab_std::ledger::{
    LedgerCell, LedgerCounter, LedgerField, LedgerHistoricMerkleTree, LedgerList, LedgerMap,
    LedgerMerkleTree, LedgerSet,
};
use minocrab_std::state::{InitialState, StateBuilder, StateRefusal};
use minocrab_std::value::StateValue;
use minocrab_std::wire::{Bool, LedgerRepr, B32};

// ---- the ledger's own machine ---------------------------------------------------------------

type Db = InMemoryDB;
type State = LedgerState<Db>;
type U64 = Uint<64, Public>;

fn outside(v: &AlignedValue) -> fab::AlignedValue {
    let atoms = v.value.iter().map(|bytes| fab::ValueAtom(bytes.clone())).collect();
    let segments = v
        .alignment
        .iter()
        .map(|segment| match segment {
            AlignmentSegment::Atom(AlignmentAtom::Compress) => {
                fab::AlignmentSegment::Atom(fab::AlignmentAtom::Compress)
            }
            AlignmentSegment::Atom(AlignmentAtom::Field) => {
                fab::AlignmentSegment::Atom(fab::AlignmentAtom::Field)
            }
            AlignmentSegment::Atom(AlignmentAtom::Bytes { length }) => {
                fab::AlignmentSegment::Atom(fab::AlignmentAtom::Bytes { length: *length })
            }
            AlignmentSegment::Choice(_) => panic!("no stored type here has a choice"),
        })
        .collect();
    fab::AlignedValue::new(fab::Value(atoms), fab::Alignment(segments))
        .expect("the bytes fit their atoms")
}

fn key_of(key: &LedgerKey) -> Key {
    match key {
        LedgerKey::Field(i) => Key::Value(expect_checked(bytes_value(1, &[*i]))),
        LedgerKey::Value(v) => Key::Value(expect_checked(outside(v))),
    }
}

/// The machine's op, a read carrying `read`.
fn op_of<M: ResultMode<Db>>(op: &ImpactOp, read: impl Fn(fab::AlignedValue) -> M::ReadResult) -> Op<M, Db> {
    match op {
        ImpactOp::Dup { n } => Op::Dup { n: *n },
        ImpactOp::Swap { n } => Op::Swap { n: *n },
        ImpactOp::Pop => Op::Pop,
        ImpactOp::Push { storage, value } => Op::Push {
            storage: *storage,
            value: expect_checked_state_value(LedgerState::Cell(Sp::new(outside(value)))),
        },
        ImpactOp::Idx { cached, push_path, path } => Op::Idx {
            cached: *cached,
            push_path: *push_path,
            path: Array::from(path.iter().map(key_of).collect::<Vec<_>>()),
        },
        ImpactOp::Ins { cached, n } => Op::Ins { cached: *cached, n: *n },
        ImpactOp::Add => Op::Add,
        ImpactOp::Sub => Op::Sub,
        ImpactOp::Lt => Op::Lt,
        ImpactOp::Neg => Op::Neg,
        ImpactOp::And => Op::And,
        ImpactOp::Or => Op::Or,
        ImpactOp::Member => Op::Member,
        ImpactOp::Rem { cached } => Op::Rem { cached: *cached },
        ImpactOp::Branch { skip } => Op::Branch { skip: *skip },
        ImpactOp::Jmp { skip } => Op::Jmp { skip: *skip },
        ImpactOp::Popeq { value } => Op::Popeq { cached: false, result: read(outside(value)) },
    }
}

fn strong(state: &State) -> VmValue<Db> {
    VmValue::new(ValueStrength::Strong, state.clone())
}

/// What the last read of `ops` finds.
fn gather(ops: &[ImpactOp], state: &State) -> Option<Vec<Vec<u8>>> {
    let ops: Vec<Op<ResultModeGather, Db>> = ops.iter().map(|op| op_of(op, |_| ())).collect();
    let out = run_program(&[strong(state)], &ops, None, &INITIAL_COST_MODEL).ok()?;
    match out.events.last() {
        Some(GatherEvent::Read(v)) => Some(v.value.0.iter().map(|atom| atom.0.clone()).collect()),
        _ => None,
    }
}

/// The state after `ops`, where they apply.
fn land(ops: &[ImpactOp], state: &State) -> Option<State> {
    let ops: Vec<Op<ResultModeVerify, Db>> = ops.iter().map(|op| op_of(op, |v| v)).collect();
    let out = run_program(&[strong(state)], &ops, None, &INITIAL_COST_MODEL).ok()?;
    assert_eq!(out.stack.len(), 1, "a program leaves the state and nothing else");
    Some(out.stack[0].value.clone())
}

#[derive(Debug)]
struct Executed {
    post: State,
    ops: Vec<ImpactOp>,
    reads: usize,
    disclosed: Vec<String>,
    acknowledged: usize,
}

#[derive(Debug)]
enum Failure {
    /// An assertion of the circuit does not hold.
    Rejected(String),
    /// The ledger refuses the program.
    NotApplied,
}

const NO_VALUE: &str = "a read found no value of its shape supplied";

/// Runs a circuit against a state: each read returns what the ledger holds.
fn execute(body: impl Fn(&mut Circuit3), state: &State, inputs: &[Vec<u8>]) -> Result<Executed, Failure> {
    let mut supplied: Vec<Vec<Vec<u8>>> = Vec::new();
    loop {
        let mut c = Circuit3::with(inputs.to_vec(), supplied.clone());
        body(&mut c);
        let unmet = c.unmet().clone();
        let disclosed = c.disclosed().clone();
        let acknowledged = c.acknowledged().len();
        let ops = c.finish();
        match unmet {
            None => {
                let post = land(&ops, state).ok_or(Failure::NotApplied)?;
                return Ok(Executed { post, ops, reads: supplied.len(), disclosed, acknowledged });
            }
            Some(message) if message == NO_VALUE => {
                let mut left = supplied.len() + 1;
                let mut end = 0;
                while left > 0 {
                    if matches!(ops[end], ImpactOp::Popeq { .. }) {
                        left -= 1;
                    }
                    end += 1;
                }
                supplied.push(gather(&ops[..end], state).ok_or(Failure::NotApplied)?);
            }
            Some(message) => return Err(Failure::Rejected(message)),
        }
    }
}

fn le(v: u64) -> Vec<u8> {
    let mut bytes = v.to_le_bytes().to_vec();
    while bytes.last() == Some(&0) {
        bytes.pop();
    }
    bytes
}

fn args(inputs: &[u64]) -> Vec<Vec<u8>> {
    inputs.iter().map(|v| le(*v)).collect()
}

fn popeqs(ops: &[ImpactOp]) -> usize {
    ops.iter().filter(|op| matches!(op, ImpactOp::Popeq { .. })).count()
}

/// How many reads of `field`: an `idx [field]` with a `popeq` behind it.
fn reads_of(ops: &[ImpactOp], field: u8) -> usize {
    ops.windows(2)
        .filter(|w| {
            matches!(&w[1], ImpactOp::Popeq { .. })
                && matches!(&w[0], ImpactOp::Idx { path, .. }
                    if path.len() == 1 && matches!(path[0], LedgerKey::Field(i) if i == field))
        })
        .count()
}

// ---- states -------------------------------------------------------------------------------------

fn bytes_value(n: u32, bytes: &[u8]) -> fab::AlignedValue {
    fab::AlignedValue::new(
        fab::Value(vec![fab::ValueAtom(bytes.to_vec()).normalize()]),
        fab::Alignment(vec![fab::AlignmentSegment::Atom(fab::AlignmentAtom::Bytes { length: n })]),
    )
    .expect("the bytes fit the atom")
}

fn u64_value(v: u64) -> fab::AlignedValue {
    bytes_value(8, &v.to_le_bytes())
}

fn bool_value(v: bool) -> fab::AlignedValue {
    bytes_value(1, &[u8::from(v)])
}

fn cell(av: fab::AlignedValue) -> State {
    LedgerState::Cell(Sp::new(av))
}

fn map_of(entries: &[(u64, fab::AlignedValue)]) -> State {
    let mut m: StorageMap<fab::AlignedValue, State, Db> = StorageMap::new();
    for (k, v) in entries {
        m = m.insert(u64_value(*k), cell(v.clone()));
    }
    LedgerState::Map(m)
}

fn u64_map(entries: &[(u64, u64)]) -> State {
    map_of(&entries.iter().map(|(k, v)| (*k, u64_value(*v))).collect::<Vec<_>>())
}

fn block_of(fields: Vec<State>) -> State {
    LedgerState::Array(Array::from(fields))
}

fn field(state: &State, index: usize) -> State {
    let LedgerState::Array(fields) = state else {
        panic!("the state is the block's array");
    };
    fields.get(index).expect("field in range").clone()
}

fn first_atom(node: &State) -> Vec<u8> {
    let LedgerState::Cell(av) = node else {
        panic!("a cell, got {node:?}");
    };
    av.value.0.first().map(|a| a.0.clone()).unwrap_or_default()
}

fn decode(bytes: Vec<u8>) -> u64 {
    let mut le = [0u8; 8];
    le[..bytes.len()].copy_from_slice(&bytes);
    u64::from_le_bytes(le)
}

fn cell_u64(state: &State, index: usize) -> u64 {
    decode(first_atom(&field(state, index)))
}

fn cell_bool(state: &State, index: usize) -> bool {
    !first_atom(&field(state, index)).is_empty()
}

fn map_entry(state: &State, index: usize, key: fab::AlignedValue) -> Option<Vec<u8>> {
    let f = field(state, index);
    let LedgerState::Map(ref m) = f else {
        panic!("field {index} is a map");
    };
    m.get(&key).map(|entry| first_atom(&entry))
}

fn map_u64(state: &State, index: usize, key: u64) -> Option<u64> {
    map_entry(state, index, u64_value(key)).map(decode)
}

fn map_bool(state: &State, index: usize, key: u64) -> Option<bool> {
    map_entry(state, index, u64_value(key)).map(|bytes| !bytes.is_empty())
}

// ---- circuits -----------------------------------------------------------------------------------

/// Two public `Uint<64>` arguments, `k` then `d`.
fn two_args(c: &mut Circuit3) -> (U64, U64) {
    let k = <Uint<64, Private> as CircuitArg>::declare(c, "k");
    let d = <Uint<64, Private> as CircuitArg>::declare(c, "d");
    constrain(&k, c);
    constrain(&d, c);
    (k.disclose_as::<Shown>(c), d.disclose_as::<Shown>(c))
}

struct Shown;

impl DisclosureLabel for Shown {
    const LABEL: &'static str = "shown";
}

/// A number that is a machine word.
fn word<const BITS: u32, V: Vis3>(number: Uint<BITS, V>) -> u64 {
    number.to_word().expect("a machine word")
}

fn u64_of(value: u64) -> U64 {
    Uint::of(value)
}

// ---- a block's resets, on the machine ---------------------------------------------------------

type U8 = Uint<8, Public>;
type B32P = B32<Public>;
type Program = Vec<Op<ResultModeVerify, Db>>;

fn index_value(i: u8) -> fab::AlignedValue {
    bytes_value(1, &[i])
}

/// The ops that put `value` at `path`.
fn reset(path: FieldPath, value: State) -> Program {
    let path = path.to_vec();
    let (last, lead) = path.split_last().expect("a path has a position");
    let mut ops: Program = Vec::new();
    if !lead.is_empty() {
        let keys: Vec<Key> =
            lead.iter().map(|i| Key::Value(expect_checked(index_value(*i)))).collect();
        ops.push(Op::Idx { cached: false, push_path: true, path: Array::from(keys) });
    }
    ops.push(Op::Push { storage: false, value: expect_checked_state_value(cell(index_value(*last))) });
    ops.push(Op::Push { storage: true, value: expect_checked_state_value(value) });
    ops.push(Op::Ins { cached: false, n: 1 });
    if !lead.is_empty() {
        ops.push(Op::Ins { cached: true, n: lead.len() as u8 });
    }
    ops
}

/// A cell's reset: the library's own write of its default.
fn reset_cell<T: LedgerRepr>(slot: &LedgerCell<T>, default: T) -> Program {
    let mut c = Circuit3::new();
    slot.write(&mut c, &default);
    c.finish().iter().map(|op| op_of(op, |v| v)).collect()
}

fn run_resets(start: &State, resets: Vec<Program>) -> State {
    let ops: Program = resets.concat();
    let out = run_program(&[strong(start)], &ops, None, &INITIAL_COST_MODEL)
        .expect("every reset applies to the skeleton");
    assert_eq!(out.stack.len(), 1);
    out.stack[0].value.clone()
}

/// The same tree with every leaf Null.
fn skeleton(state: &State) -> State {
    match state {
        LedgerState::Array(items) => {
            block_of(items.iter_deref().map(skeleton).collect::<Vec<State>>())
        }
        _ => LedgerState::Null,
    }
}

fn at(state: &State, path: &[u8]) -> State {
    path.iter().fold(state.clone(), |node, i| field(&node, usize::from(*i)))
}

fn array_len(state: &State) -> usize {
    match state {
        LedgerState::Array(items) => items.len(),
        other => panic!("not an Array: {other:?}"),
    }
}

/// The library's state as the ledger's.
fn ledger_state(state: &StateValue) -> State {
    match state {
        StateValue::Null => LedgerState::Null,
        StateValue::Cell(v) => cell(outside(v)),
        StateValue::Mapping(entries) => {
            let mut m: StorageMap<fab::AlignedValue, State, Db> = StorageMap::new();
            for (k, v) in entries {
                m = m.insert(outside(k), ledger_state(v));
            }
            LedgerState::Map(m)
        }
        StateValue::Array(items) => block_of(items.iter().map(ledger_state).collect()),
        StateValue::BoundedMerkleTree(tree) => {
            assert!(tree.leaves.is_empty(), "the blank tree");
            LedgerState::BoundedMerkleTree(LedgerTree::blank(tree.height))
        }
    }
}

fn agreed<T>(r: Result<T, StateRefusal>) -> T {
    match r {
        Ok(value) => value,
        Err(refusal) => panic!("{}", refusal.message()),
    }
}

// ---- the slots' defaults, as the ledger has them -----------------------------------------------

fn empty_map() -> State {
    LedgerState::Map(StorageMap::new())
}

fn zero() -> State {
    cell(u64_value(0))
}

fn blank_tree() -> LedgerTree<(), Db> {
    LedgerTree::blank(10)
}

fn tree_value() -> State {
    block_of(vec![LedgerState::BoundedMerkleTree(blank_tree()), zero()])
}

fn history_value() -> State {
    let root = blank_tree().root().expect("a blank tree has a root");
    let past: StorageMap<fab::AlignedValue, State, Db> =
        StorageMap::new().insert(fab::AlignedValue::from(root), LedgerState::Null);
    block_of(vec![LedgerState::BoundedMerkleTree(blank_tree()), zero(), LedgerState::Map(past)])
}

fn list_value() -> State {
    block_of(vec![LedgerState::Null, LedgerState::Null, zero()])
}

/// One of every slot type from body field `start`.
struct Every {
    num: LedgerCell<U64>,
    hash: LedgerCell<B32P>,
    flag: LedgerCell<Bool<Public>>,
    count: LedgerCounter,
    map: LedgerMap<B32P, U64, FieldPath>,
    set: LedgerSet<B32P>,
    list: LedgerList<U64>,
    tree: LedgerMerkleTree<10, B32P>,
    history: LedgerHistoricMerkleTree<10, B32P>,
    untyped: LedgerField,
}

impl Every {
    fn at(layout: BlockLayout, start: usize) -> Self {
        Every {
            num: LedgerCell::at_layout(layout, start),
            hash: LedgerCell::at_layout(layout, start + 1),
            flag: LedgerCell::at_layout(layout, start + 2),
            count: LedgerCounter::at_layout(layout, start + 3),
            map: LedgerMap::at_layout(layout, start + 4),
            set: LedgerSet::at_layout(layout, start + 5),
            list: LedgerList::at_layout(layout, start + 6),
            tree: LedgerMerkleTree::at_layout(layout, start + 7),
            history: LedgerHistoricMerkleTree::at_layout(layout, start + 8),
            untyped: LedgerField::at_layout(layout, start + 9),
        }
    }

    fn contribute(&self, state: &mut StateBuilder) {
        agreed(self.num.contribute(state));
        agreed(self.hash.contribute(state));
        agreed(self.flag.contribute(state));
        agreed(self.count.contribute(state));
        agreed(self.map.contribute(state));
        agreed(self.set.contribute(state));
        agreed(self.list.contribute(state));
        agreed(self.tree.contribute(state));
        agreed(self.history.contribute(state));
        agreed(self.untyped.contribute(state));
    }

    /// Every field's reset; an untyped field has none.
    fn resets(&self) -> Vec<Program> {
        vec![
            reset_cell(&self.num, u64_of(0)),
            reset_cell(&self.hash, B32::of([0; 32])),
            reset_cell(&self.flag, Bool::of(false)),
            reset(self.count.field_path(), zero()),
            reset(self.map.field_path(), empty_map()),
            reset(self.set.field_path(), empty_map()),
            reset(self.list.field_path(), list_value()),
            reset(self.tree.field_path(), tree_value()),
            reset(self.history.field_path(), history_value()),
        ]
    }
}

#[test]
fn a_flat_block_is_its_skeleton_with_every_reset_run_on_it() {
    let every = Every::at(BlockLayout::compactc(10), 0);
    let mut state = StateBuilder::new();
    every.contribute(&mut state);
    agreed(state.assert_standards(0));
    let built = ledger_state(&agreed(state.build()));
    assert_eq!(array_len(&built), 10);
    let vm = run_resets(&skeleton(&built), every.resets());
    assert!(vm == built, "builder:\n{built:?}\nVM:\n{vm:?}");
    assert!(at(&built, &[9]) == LedgerState::Null, "the untyped field");
}

#[test]
fn a_segmented_block_is_its_skeleton_with_every_reset_run_on_it() {
    let layout = BlockLayout::compactc(20);
    let every = Every::at(layout, 10);
    let mut state = StateBuilder::new();
    let mut resets = Vec::new();
    for i in 0..10 {
        match i {
            2 => {
                let p: LedgerCell<U8> = LedgerCell::at_layout(layout, i);
                agreed(p.contribute(&mut state));
                resets.push(reset_cell(&p, Uint::of(0)));
            }
            4 => {
                let p: LedgerCell<B32P> = LedgerCell::at_layout(layout, i);
                agreed(p.contribute(&mut state));
                resets.push(reset_cell(&p, B32::of([0; 32])));
            }
            _ => {
                let p: LedgerCell<U64> = LedgerCell::at_layout(layout, i);
                agreed(p.contribute(&mut state));
                resets.push(reset_cell(&p, u64_of(0)));
            }
        }
    }
    every.contribute(&mut state);
    resets.extend(every.resets());
    let built = ledger_state(&agreed(state.build()));
    assert_eq!(array_len(&built), 2, "the remainder segment and one full one");
    assert_eq!(array_len(&at(&built, &[0])), 5);
    assert_eq!(array_len(&at(&built, &[1])), 15);
    let vm = run_resets(&skeleton(&built), resets);
    assert!(vm == built, "builder:\n{built:?}\nVM:\n{vm:?}");
    assert!(at(&built, &[1, 14]) == LedgerState::Null, "the untyped field");
}

/// A standard that owns a version, an admin key and a counter besides its magic.
struct Versioned {
    version: LedgerCell<U8>,
    admin: LedgerCell<B32P>,
    uses: LedgerCounter,
}

impl LedgerWidth for Versioned {
    const WIDTH: usize = 0;
    const PLACEMENT: Placement = Placement::RootHeader;

    fn settles(_kind: u8) -> bool {
        unreachable!()
    }

    fn kinds() -> Vec<u8> {
        vec![]
    }
}

impl LedgerHeader for Versioned {
    const MAGIC: [u8; 32] = *b"mip-0099:versioned[v1]\0\0\0\0\0\0\0\0\0\0";
}

/// The magic is the deploy state's alone, so the resets start from it.
#[test]
fn a_headed_block_is_its_skeleton_with_every_reset_run_on_it() {
    let layout = BlockLayout::headed(2);
    let a: LedgerCell<U64> = LedgerCell::at_layout(layout, 0);
    let b: LedgerMap<U64, U64, FieldPath> = LedgerMap::at_layout(layout, 1);
    let std = Versioned {
        version: LedgerCell::at_path(FieldPath::of(&[0, 1])),
        admin: LedgerCell::at_path(FieldPath::of(&[0, 2])),
        uses: LedgerCounter::at_path(FieldPath::of(&[0, 3])),
    };
    let magic = Magic::at_path(&[0, 0]).expect("a magic's path");
    let mut state = StateBuilder::new();
    agreed(a.contribute(&mut state));
    agreed(b.contribute(&mut state));
    agreed(state.magic::<Versioned>(magic));
    agreed(std.version.contribute(&mut state));
    agreed(std.admin.contribute(&mut state));
    agreed(std.uses.contribute(&mut state));
    agreed(state.assert_standards(1));
    let built = ledger_state(&agreed(state.build()));
    assert_eq!(array_len(&built), 3, "the standard at [0], a and b at [1], [2]");
    assert_eq!(array_len(&at(&built, &[0])), 4, "magic, version, admin, uses");
    // The skeleton, and the magic as the deploy state carries it.
    let start = block_of(vec![
        block_of(vec![at(&built, &[0, 0]), LedgerState::Null, LedgerState::Null, LedgerState::Null]),
        LedgerState::Null,
        LedgerState::Null,
    ]);
    let vm = run_resets(
        &start,
        vec![
            reset_cell(&a, u64_of(0)),
            reset(b.field_path(), empty_map()),
            reset_cell(&std.version, Uint::of(0)),
            reset_cell(&std.admin, B32::of([0; 32])),
            reset(std.uses.field_path(), zero()),
        ],
    );
    assert!(vm == built, "builder:\n{built:?}\nVM:\n{vm:?}");
}
