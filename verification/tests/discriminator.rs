//! The reader, on states built here and on their serialized form.
#![allow(dead_code)]

use midnight_base_crypto::fab;
use midnight_onchain_state::state::StateValue as LedgerState;
use midnight_storage::arena::Sp;
use midnight_storage::db::InMemoryDB;
use midnight_storage::storage::{Array, HashMap as StorageMap};
use midnight_transient_crypto::merkle_tree::MerkleTree as LedgerTree;
use minocrab_std::fab::{AlignedValue, AlignmentAtom, AlignmentSegment};
use minocrab_std::header::{LedgerHeader, LedgerWidth, Magic, Placement};
use minocrab_std::layout::{BlockLayout, FieldPath};
use minocrab_std::ledger::{
    LedgerCell, LedgerCounter, LedgerField, LedgerHistoricMerkleTree, LedgerList, LedgerMap,
    LedgerMerkleTree, LedgerSet,
};
use minocrab_std::state::{InitialState, StateBuilder, StateRefusal};
use minocrab_std::value::StateValue;
use minocrab_std::wire::{Bool, Public, Uint, B32};
use midnight_onchain_state::state::{ChargedState, ContractState};
use minocrab_std::circuit::Circuit3;
use minocrab_std::discriminator::{contract_state_discriminator, discriminator, implements};
use minocrab_std::header::pad32;
use minocrab_std::impact::ImpactOp;
use minocrab_std::ledger::{empty_list, empty_map};

// ---- the ledger's own states ----------------------------------------------------------------

type State = LedgerState<InMemoryDB>;
type U64 = Uint<64, Public>;
type U8 = Uint<8, Public>;
type B32P = B32<Public>;

fn outside(v: &AlignedValue) -> fab::AlignedValue {
    let atoms = v.value.iter().map(|bytes| fab::ValueAtom(bytes.clone())).collect();
    let segments = v
        .alignment
        .iter()
        .map(|segment| {
            fab::AlignmentSegment::Atom(match segment {
                AlignmentSegment::Atom(AlignmentAtom::Compress) => fab::AlignmentAtom::Compress,
                AlignmentSegment::Atom(AlignmentAtom::Field) => fab::AlignmentAtom::Field,
                AlignmentSegment::Atom(AlignmentAtom::Bytes { length }) => {
                    fab::AlignmentAtom::Bytes { length: *length }
                }
                AlignmentSegment::Choice(_) => panic!("no stored type here has a choice"),
            })
        })
        .collect();
    fab::AlignedValue { value: fab::Value(atoms), alignment: fab::Alignment(segments) }
}

/// The library's state as the ledger's.
fn ledger_state(state: &StateValue) -> State {
    match state {
        StateValue::Null => LedgerState::Null,
        StateValue::Cell(v) => LedgerState::Cell(Sp::new(outside(v))),
        StateValue::Mapping(entries) => {
            let mut m: StorageMap<fab::AlignedValue, State, InMemoryDB> = StorageMap::new();
            for (k, v) in entries {
                m = m.insert(outside(k), ledger_state(v));
            }
            LedgerState::Map(m)
        }
        StateValue::Array(items) => array(items.iter().map(ledger_state).collect()),
        StateValue::BoundedMerkleTree(tree) => {
            assert!(tree.leaves.is_empty(), "the blank tree");
            LedgerState::BoundedMerkleTree(LedgerTree::blank(tree.height))
        }
    }
}

fn array(items: Vec<State>) -> State {
    LedgerState::Array(Array::from(items))
}

fn stored(length: u32, bytes: &[u8]) -> AlignedValue {
    let mut bytes = bytes.to_vec();
    while bytes.last() == Some(&0) {
        bytes.pop();
    }
    AlignedValue {
        value: vec![bytes],
        alignment: vec![AlignmentSegment::Atom(AlignmentAtom::Bytes { length })],
    }
}

fn b32_cell(bytes: &[u8]) -> StateValue {
    StateValue::Cell(stored(32, bytes))
}

fn u64_cell(v: u64) -> StateValue {
    StateValue::Cell(stored(8, &v.to_le_bytes()))
}

fn at<'a>(state: &'a StateValue, path: &[u8]) -> &'a StateValue {
    let mut node = state;
    for i in path {
        let StateValue::Array(items) = node else {
            panic!("{path:?} walks through a non-Array");
        };
        node = &items[usize::from(*i)];
    }
    node
}

fn array_len(state: &StateValue) -> usize {
    match state {
        StateValue::Array(items) => items.len(),
        other => panic!("not an Array: {other:?}"),
    }
}

fn same(a: &StateValue, b: &StateValue) -> bool {
    ledger_state(a) == ledger_state(b)
}

fn agreed<T>(r: Result<T, StateRefusal>) -> T {
    match r {
        Ok(value) => value,
        Err(refusal) => panic!("{}", refusal.message()),
    }
}

fn magic_at(path: &[u8]) -> Magic {
    match Magic::at_path(path) {
        Ok(magic) => magic,
        Err(refusal) => panic!("{}", refusal.message()),
    }
}

/// The placeholder magic: 26 bytes, then six zero bytes the ledger trims.
const PLACEHOLDER: [u8; 32] = *b"mip-0099:ledger-header[v1]\0\0\0\0\0\0";

// ---- the standards ------------------------------------------------------------------------------

struct Mip0099;

impl LedgerWidth for Mip0099 {
    const WIDTH: usize = 0;
    const PLACEMENT: Placement = Placement::RootHeader;

    fn settles(_kind: u8) -> bool {
        unreachable!()
    }

    fn kinds() -> Vec<u8> {
        vec![]
    }
}

impl LedgerHeader for Mip0099 {
    const MAGIC: [u8; 32] = PLACEHOLDER;
}

struct Versioned;

impl LedgerWidth for Versioned {
    const WIDTH: usize = 0;
    const PLACEMENT: Placement = Placement::RootHeader;

    fn settles(_kind: u8) -> bool {
        unreachable!()
    }

    fn kinds() -> Vec<u8> {
        vec![]
    }
}

impl LedgerHeader for Versioned {
    const MAGIC: [u8; 32] = *b"mip-0099:versioned[v1]\0\0\0\0\0\0\0\0\0\0";
}

/// A magic that fills all 32 bytes.
struct Full;

impl LedgerWidth for Full {
    const WIDTH: usize = 0;
    const PLACEMENT: Placement = Placement::RootHeader;

    fn settles(_kind: u8) -> bool {
        unreachable!()
    }

    fn kinds() -> Vec<u8> {
        vec![]
    }
}

impl LedgerHeader for Full {
    const MAGIC: [u8; 32] = *b"mip-0099:the-full-width-magic[1]";
}

/// Zero bytes inside the magic: only the trailing ones are trimmed.
struct Gappy;

impl LedgerWidth for Gappy {
    const WIDTH: usize = 0;
    const PLACEMENT: Placement = Placement::RootHeader;

    fn settles(_kind: u8) -> bool {
        unreachable!()
    }

    fn kinds() -> Vec<u8> {
        vec![]
    }
}

impl LedgerHeader for Gappy {
    const MAGIC: [u8; 32] = *b"mip\0-0099\0\0:gap\0\0\0\0\0\0\0\0\0\0\0\0\0\0\0\0\0";
}

/// A magic the placeholder is a prefix of.
struct Longer;

impl LedgerWidth for Longer {
    const WIDTH: usize = 0;
    const PLACEMENT: Placement = Placement::RootHeader;

    fn settles(_kind: u8) -> bool {
        unreachable!()
    }

    fn kinds() -> Vec<u8> {
        vec![]
    }
}

impl LedgerHeader for Longer {
    const MAGIC: [u8; 32] = *b"mip-0099:ledger-header[v1]x\0\0\0\0\0";
}

// ---- the states -----------------------------------------------------------------------------------

/// A block of `S` alone with one counter.
fn headed<S: LedgerHeader>() -> StateValue {
    let mut state = StateBuilder::new();
    agreed(state.magic::<S>(magic_at(&[0])));
    agreed(LedgerCounter::at_layout(BlockLayout::headed(1), 0).contribute(&mut state));
    agreed(state.build())
}

fn headed_fields() -> StateValue {
    let layout = BlockLayout::headed(1);
    let mut state = StateBuilder::new();
    agreed(LedgerCell::<U64>::at_layout(layout, 0).contribute(&mut state));
    agreed(state.magic::<Versioned>(magic_at(&[0, 0])));
    agreed(LedgerCell::<U8>::at_path(FieldPath::of(&[0, 1])).contribute(&mut state));
    agreed(LedgerCell::<B32P>::at_path(FieldPath::of(&[0, 2])).contribute(&mut state));
    agreed(state.build())
}

/// A `Bytes<32>` cell first in a block of `n` fields.
fn magic_first(n: usize) -> (StateBuilder, FieldPath) {
    let layout = BlockLayout::compactc(n);
    let magic: LedgerCell<B32P> = LedgerCell::at_layout(layout, 0);
    let mut state = StateBuilder::new();
    agreed(magic.contribute(&mut state));
    for i in 1..n {
        agreed(LedgerCell::<U64>::at_layout(layout, i).contribute(&mut state));
    }
    (state, magic.field_path())
}

/// The placeholder written as a constructor would write it.
fn with_magic(mut state: StateBuilder, magic: FieldPath) -> StateValue {
    agreed(state.set(magic, b32_cell(&PLACEHOLDER)));
    agreed(state.build())
}

/// A block whose first field is `first` and whose second holds the magic.
fn second_is_magic(first: impl InitialState) -> StateValue {
    let mut state = StateBuilder::new();
    agreed(first.contribute(&mut state));
    let magic: LedgerCell<B32P> = LedgerCell::at_layout(two(), 1);
    agreed(magic.contribute(&mut state));
    with_magic(state, magic.field_path())
}

fn two() -> BlockLayout {
    BlockLayout::compactc(2)
}

fn raw_cell(atoms: Vec<Vec<u8>>, alignment: Vec<AlignmentAtom>) -> StateValue {
    StateValue::Cell(AlignedValue {
        value: atoms,
        alignment: alignment.into_iter().map(AlignmentSegment::Atom).collect(),
    })
}

fn list(items: Vec<StateValue>) -> StateValue {
    StateValue::Array(items)
}

/// `leaf` under `depth` one-entry Arrays.
fn nest(depth: usize, leaf: StateValue) -> StateValue {
    (0..depth).fold(leaf, |node, _| list(vec![node]))
}

fn stored_atom(state: &StateValue) -> Vec<u8> {
    let StateValue::Cell(cell) = state else {
        panic!("not a Cell: {state:?}");
    };
    assert_eq!(cell.value.len(), 1, "one atom");
    cell.value[0].clone()
}

/// The bytes a node carries for a contract in this state.
fn serialized(state: &StateValue) -> Vec<u8> {
    let contract: ContractState<InMemoryDB> = ContractState {
        data: ChargedState::new(ledger_state(state)),
        ..ContractState::default()
    };
    let mut bytes = Vec::new();
    midnight_serialize::tagged_serialize(&contract, &mut bytes).expect("a Vec takes every write");
    bytes
}

/// What the reader finds, in the state and in its serialized form alike.
fn read(state: &StateValue) -> Option<[u8; 32]> {
    let found = discriminator(state);
    let again = contract_state_discriminator(&serialized(state)).expect("a contract state");
    assert_eq!(found, again, "the serialized state reads the same");
    found
}

// ---- read -----------------------------------------------------------------------------------------

#[test]
fn a_standards_magic_is_read_at_either_header_shape() {
    assert_eq!(read(&headed::<Mip0099>()), Some(PLACEHOLDER));
    let mut alone = StateBuilder::new();
    agreed(alone.magic::<Mip0099>(magic_at(&[0])));
    assert_eq!(read(&agreed(alone.build())), Some(PLACEHOLDER), "a block of the standard alone");
    assert_eq!(read(&headed::<Full>()), Some(Full::MAGIC));
    assert_eq!(read(&headed::<Gappy>()), Some(Gappy::MAGIC));
    assert_eq!(read(&headed_fields()), Some(Versioned::MAGIC), "[0, 0]");
}

#[test]
fn a_bytes32_cell_written_first_is_read_at_every_depth() {
    for (n, path) in [(3, vec![0]), (16, vec![0, 0]), (226, vec![0, 0, 0])] {
        let (state, magic) = magic_first(n);
        assert_eq!(magic.to_vec(), path);
        assert_eq!(read(&with_magic(state, magic)), Some(PLACEHOLDER), "{path:?}");
    }
    let mut state = StateBuilder::new();
    agreed(state.slot(FieldPath::of(&[0, 0, 0]), b32_cell(&PLACEHOLDER)));
    agreed(state.slot(FieldPath::of(&[1, 14, 14]), u64_cell(0)));
    assert_eq!(read(&agreed(state.build())), Some(PLACEHOLDER), "[0, 0, 0]");
    // The same three depths as bare nests.
    for depth in 1..=3 {
        assert_eq!(read(&nest(depth, b32_cell(&PLACEHOLDER))), Some(PLACEHOLDER), "depth {depth}");
    }
}

#[test]
fn the_placeholder_is_stored_trimmed_and_read_back_padded() {
    assert_eq!(PLACEHOLDER[26..], [0u8; 6], "six trailing zeros");
    let flat = headed::<Mip0099>();
    assert_eq!(
        stored_atom(at(&flat, &[0])),
        b"mip-0099:ledger-header[v1]".to_vec(),
        "stored trimmed: 26 bytes"
    );
    assert_eq!(read(&flat), Some(PLACEHOLDER), "read back padded");
    // Nothing to trim.
    let full = headed::<Full>();
    assert_eq!(stored_atom(at(&full, &[0])), Full::MAGIC.to_vec());
    assert_eq!(read(&full), Some(Full::MAGIC));
    // Inner zeros kept, trailing ones trimmed.
    let gappy = headed::<Gappy>();
    assert_eq!(stored_atom(at(&gappy, &[0])), b"mip\0-0099\0\0:gap".to_vec());
    assert_eq!(read(&gappy), Some(Gappy::MAGIC));
    // An atom that keeps its trailing zeros reads the same.
    let untrimmed =
        list(vec![raw_cell(vec![PLACEHOLDER.to_vec()], vec![AlignmentAtom::Bytes { length: 32 }])]);
    assert_eq!(stored_atom(at(&untrimmed, &[0])).len(), 32);
    assert_eq!(discriminator(&untrimmed), Some(PLACEHOLDER));
    // Never written: the empty atom reads as 32 zero bytes.
    let unset = agreed(magic_first(3).0.build());
    assert!(stored_atom(at(&unset, &[0])).is_empty());
    assert_eq!(read(&unset), Some([0u8; 32]));
}

// ---- refused ----------------------------------------------------------------------------------------

#[test]
fn a_first_leaf_of_any_other_shape_is_none() {
    let state = second_is_magic(LedgerCounter::at_layout(two(), 0));
    assert_eq!(read(&state), None, "a Counter");

    let state = second_is_magic(LedgerMap::<B32P, U64, FieldPath>::at_layout(two(), 0));
    assert!(matches!(at(&state, &[0]), StateValue::Mapping(_)));
    assert_eq!(read(&state), None, "a Map");

    let state = second_is_magic(LedgerField::at_layout(two(), 0));
    assert!(matches!(at(&state, &[0]), StateValue::Null));
    assert_eq!(read(&state), None, "Null");

    // A `Bytes<16>` cell, even holding the placeholder's first 16 bytes.
    let sixteen = list(vec![
        StateValue::Cell(stored(16, &PLACEHOLDER[..16])),
        b32_cell(&PLACEHOLDER),
    ]);
    assert_eq!(read(&sixteen), None, "a Bytes<16> Cell");

    // Several atoms, one of them the placeholder.
    let maybe = list(vec![raw_cell(
        vec![vec![1], b"mip-0099:ledger-header[v1]".to_vec()],
        vec![AlignmentAtom::Bytes { length: 1 }, AlignmentAtom::Bytes { length: 32 }],
    )]);
    assert_eq!(read(&maybe), None, "a Maybe<Bytes<32>> Cell");

    // Two `bytes<32>` atoms side by side.
    let trimmed = b"mip-0099:ledger-header[v1]".to_vec();
    let twice = list(vec![raw_cell(
        vec![trimmed.clone(), trimmed],
        vec![AlignmentAtom::Bytes { length: 32 }, AlignmentAtom::Bytes { length: 32 }],
    )]);
    assert_eq!(read(&twice), None, "two bytes<32> atoms");

    // A field atom, and a compress atom.
    let digest = list(vec![raw_cell(vec![vec![]], vec![AlignmentAtom::Field])]);
    assert_eq!(read(&digest), None, "a field-atom Cell");
    let compress = list(vec![raw_cell(vec![vec![1]], vec![AlignmentAtom::Compress])]);
    assert_eq!(read(&compress), None, "a compress-atom Cell");

    // An empty List and a Merkle tree.
    let state = second_is_magic(LedgerList::<B32P>::at_layout(two(), 0));
    assert!(matches!(at(&state, &[0, 0]), StateValue::Null));
    assert_eq!(read(&state), None, "an empty List");
    let state = second_is_magic(LedgerMerkleTree::<10, B32P>::at_layout(two(), 0));
    assert!(matches!(at(&state, &[0, 0]), StateValue::BoundedMerkleTree(_)));
    assert_eq!(read(&state), None, "a Merkle tree");
}

#[test]
fn an_empty_or_non_array_root_is_none() {
    assert_eq!(read(&agreed(StateBuilder::new().build())), None, "no fields");
    assert_eq!(read(&list(vec![])), None, "the empty Array");
    assert_eq!(read(&b32_cell(&PLACEHOLDER)), None, "a bare Cell");
    assert_eq!(read(&StateValue::Null), None, "Null");
    assert_eq!(read(&empty_map()), None, "a Map");
}

#[test]
fn a_nest_deeper_than_three_is_none() {
    assert_eq!(read(&nest(3, b32_cell(&PLACEHOLDER))), Some(PLACEHOLDER), "three: read");
    assert_eq!(read(&nest(4, b32_cell(&PLACEHOLDER))), None, "four: refused");
    assert_eq!(read(&nest(5, b32_cell(&PLACEHOLDER))), None, "five: refused");
    // A fourth Array beside real entries.
    let deep = list(vec![nest(3, b32_cell(&PLACEHOLDER)), u64_cell(0)]);
    assert_eq!(read(&deep), None);
}

#[test]
fn a_cell_that_does_not_fit_its_alignment_is_none() {
    let b32 = || vec![AlignmentAtom::Bytes { length: 32 }];
    let too_long = list(vec![raw_cell(vec![vec![0x6d; 33]], b32())]);
    assert_eq!(discriminator(&too_long), None, "a 33-byte atom");
    let none = list(vec![raw_cell(vec![], b32())]);
    assert_eq!(discriminator(&none), None, "no atom");
    let twice = list(vec![raw_cell(vec![PLACEHOLDER.to_vec(), PLACEHOLDER.to_vec()], b32())]);
    assert_eq!(discriminator(&twice), None, "two atoms under one bytes<32>");
}

#[test]
fn bytes_that_are_no_contract_state_are_refused() {
    assert!(contract_state_discriminator(&[]).is_err());
    assert!(contract_state_discriminator(b"midnight:something-else[v1]:").is_err());
    let bytes = serialized(&headed::<Mip0099>());
    assert!(contract_state_discriminator(&bytes[..bytes.len() - 1]).is_err(), "cut short");
    let mut longer = bytes.clone();
    longer.push(0);
    assert!(contract_state_discriminator(&longer).is_err(), "trailing bytes");
    assert_eq!(contract_state_discriminator(&bytes).ok(), Some(Some(PLACEHOLDER)));
}

// ---- implements ---------------------------------------------------------------------------------------

#[test]
fn implements_compares_the_discriminator_with_one_standards_magic() {
    let flat = headed::<Mip0099>();
    assert!(implements::<Mip0099>(&flat));
    assert!(!implements::<Versioned>(&flat));
    assert!(!implements::<Full>(&flat));
    assert!(!implements::<Longer>(&flat), "a magic the stored bytes are a prefix of");

    let fields = headed_fields();
    assert!(implements::<Versioned>(&fields));
    assert!(!implements::<Mip0099>(&fields));

    let longer = headed::<Longer>();
    assert!(implements::<Longer>(&longer));
    assert!(!implements::<Mip0099>(&longer), "a prefix of the stored bytes");

    assert!(implements::<Gappy>(&headed::<Gappy>()));

    // A contract that writes the magic first claims the standard all the same.
    let (state, magic) = magic_first(3);
    assert!(implements::<Mip0099>(&with_magic(state, magic)));

    // Never written: zeros, no standard's.
    let unset = agreed(magic_first(3).0.build());
    assert!(!implements::<Mip0099>(&unset));
    assert!(!implements::<Versioned>(&unset));
    assert!(!implements::<Full>(&unset));

    // No discriminator: false.
    assert!(!implements::<Mip0099>(&second_is_magic(LedgerCounter::at_layout(two(), 0))));
    assert!(!implements::<Mip0099>(&agreed(StateBuilder::new().build())));
}

// ---- what the rule cannot tell ------------------------------------------------------------------------------

/// A list node `[head, tail, length]` is shaped like a block of three fields.
#[test]
fn a_pushed_list_first_field_reads_its_head() {
    let layout = two();
    let first: LedgerList<B32P> = LedgerList::at_layout(layout, 0);
    let mut state = StateBuilder::new();
    agreed(first.contribute(&mut state));
    agreed(LedgerCell::<B32P>::at_layout(layout, 1).contribute(&mut state));
    assert_eq!(read(&agreed(state.build())), None, "the empty List: None");
    let pushed = list(vec![b32_cell(&PLACEHOLDER), empty_list(), u64_cell(1)]);
    agreed(state.set(first.field_path(), pushed));
    let pushed = agreed(state.build());
    assert!(matches!(at(&pushed, &[0, 0]), StateValue::Cell(_)));
    assert!(matches!(at(&pushed, &[0, 1]), StateValue::Array(_)));
    assert_eq!(read(&pushed), Some(Mip0099::MAGIC));
    assert!(implements::<Mip0099>(&pushed));
}

/// The program of a write at the magic's own path changes the claim.
#[test]
fn a_circuit_that_names_the_magics_path_by_hand_can_rewrite_it() {
    let deployed = headed::<Mip0099>();
    assert!(implements::<Mip0099>(&deployed));
    let by_hand: LedgerCell<B32P> = LedgerCell::at_path(magic_at(&[0]).field_path());
    let mut c = Circuit3::new();
    by_hand.write(&mut c, &B32::of(pad32(b"another claim")));
    let ops = c.finish();
    // `push 0; push value; ins 1` at the root.
    let [ImpactOp::Push { .. }, ImpactOp::Push { storage: true, value }, ImpactOp::Ins { n: 1, .. }] =
        &ops[..]
    else {
        panic!("a root cell write: {ops:?}");
    };
    let rewritten = list(vec![StateValue::Cell(value.copy()), at(&deployed, &[1]).copy()]);
    assert_eq!(read(&rewritten), Some(pad32(b"another claim")));
    assert!(!implements::<Mip0099>(&rewritten));
}
