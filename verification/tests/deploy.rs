//! What a block holds at deploy, checked against the ledger's own values.
#![allow(dead_code)]

use midnight_base_crypto::fab;
use midnight_onchain_state::state::StateValue as LedgerState;
use midnight_storage::arena::Sp;
use midnight_storage::db::InMemoryDB;
use midnight_storage::storage::{Array, HashMap as StorageMap};
use midnight_transient_crypto::merkle_tree::MerkleTree as LedgerTree;
use minocrab_std::fab::{AlignedValue, AlignmentAtom, AlignmentSegment};
use minocrab_std::header::{LedgerHeader, LedgerWidth, Magic, Placement};
use minocrab_std::layout::{BlockLayout, FieldPath};
use minocrab_std::ledger::{
    LedgerCell, LedgerCounter, LedgerField, LedgerHistoricMerkleTree, LedgerList, LedgerMap,
    LedgerMerkleTree, LedgerSet,
};
use minocrab_std::state::{InitialState, StateBuilder, StateRefusal};
use minocrab_std::value::StateValue;
use minocrab_std::wire::{Bool, Public, Uint, B32};
use midnight_onchain_state::state::{ChargedState, ContractState};
use minocrab_std::abi::{constrain, CircuitArg, Disclose, DisclosureLabel};
use minocrab_std::circuit::Circuit3;
use minocrab_std::header::{
    assert_headed, assert_header_fields, assert_magic, header_field, pad32, HeaderRefusal,
};
use minocrab_std::impact::ImpactOp;
use minocrab_std::ledger::{
    assert_distinct_kinds, empty_list, empty_merkle_tree_value, historic_merkle_tree_reset_value,
    standards,
};
use minocrab_std::wire::Private;

// ---- the ledger's own states ----------------------------------------------------------------

type State = LedgerState<InMemoryDB>;
type U64 = Uint<64, Public>;
type U8 = Uint<8, Public>;
type B32P = B32<Public>;

fn outside(v: &AlignedValue) -> fab::AlignedValue {
    let atoms = v.value.iter().map(|bytes| fab::ValueAtom(bytes.clone())).collect();
    let segments = v
        .alignment
        .iter()
        .map(|segment| {
            fab::AlignmentSegment::Atom(match segment {
                AlignmentSegment::Atom(AlignmentAtom::Compress) => fab::AlignmentAtom::Compress,
                AlignmentSegment::Atom(AlignmentAtom::Field) => fab::AlignmentAtom::Field,
                AlignmentSegment::Atom(AlignmentAtom::Bytes { length }) => {
                    fab::AlignmentAtom::Bytes { length: *length }
                }
                AlignmentSegment::Choice(_) => panic!("no stored type here has a choice"),
            })
        })
        .collect();
    fab::AlignedValue { value: fab::Value(atoms), alignment: fab::Alignment(segments) }
}

/// The library's state as the ledger's.
fn ledger_state(state: &StateValue) -> State {
    match state {
        StateValue::Null => LedgerState::Null,
        StateValue::Cell(v) => LedgerState::Cell(Sp::new(outside(v))),
        StateValue::Mapping(entries) => {
            let mut m: StorageMap<fab::AlignedValue, State, InMemoryDB> = StorageMap::new();
            for (k, v) in entries {
                m = m.insert(outside(k), ledger_state(v));
            }
            LedgerState::Map(m)
        }
        StateValue::Array(items) => array(items.iter().map(ledger_state).collect()),
        StateValue::BoundedMerkleTree(tree) => {
            assert!(tree.leaves.is_empty(), "the blank tree");
            LedgerState::BoundedMerkleTree(LedgerTree::blank(tree.height))
        }
    }
}

fn array(items: Vec<State>) -> State {
    LedgerState::Array(Array::from(items))
}

fn stored(length: u32, bytes: &[u8]) -> AlignedValue {
    let mut bytes = bytes.to_vec();
    while bytes.last() == Some(&0) {
        bytes.pop();
    }
    AlignedValue {
        value: vec![bytes],
        alignment: vec![AlignmentSegment::Atom(AlignmentAtom::Bytes { length })],
    }
}

fn b32_cell(bytes: &[u8]) -> StateValue {
    StateValue::Cell(stored(32, bytes))
}

fn u64_cell(v: u64) -> StateValue {
    StateValue::Cell(stored(8, &v.to_le_bytes()))
}

fn at<'a>(state: &'a StateValue, path: &[u8]) -> &'a StateValue {
    let mut node = state;
    for i in path {
        let StateValue::Array(items) = node else {
            panic!("{path:?} walks through a non-Array");
        };
        node = &items[usize::from(*i)];
    }
    node
}

fn array_len(state: &StateValue) -> usize {
    match state {
        StateValue::Array(items) => items.len(),
        other => panic!("not an Array: {other:?}"),
    }
}

fn same(a: &StateValue, b: &StateValue) -> bool {
    ledger_state(a) == ledger_state(b)
}

fn agreed<T>(r: Result<T, StateRefusal>) -> T {
    match r {
        Ok(value) => value,
        Err(refusal) => panic!("{}", refusal.message()),
    }
}

fn magic_at(path: &[u8]) -> Magic {
    match Magic::at_path(path) {
        Ok(magic) => magic,
        Err(refusal) => panic!("{}", refusal.message()),
    }
}

// ---- the standards ------------------------------------------------------------------------------

/// Magic-only: a Cell at `[0]`.
struct Mip0099;

impl LedgerWidth for Mip0099 {
    const WIDTH: usize = 0;
    const PLACEMENT: Placement = Placement::RootHeader;

    fn settles(_kind: u8) -> bool {
        unreachable!()
    }

    fn kinds() -> Vec<u8> {
        vec![]
    }
}

impl LedgerHeader for Mip0099 {
    const MAGIC: [u8; 32] = *b"mip-0099:ledger-header[v1]\0\0\0\0\0\0";
}

impl Mip0099 {
    fn contribute(state: &mut StateBuilder) -> Result<(), StateRefusal> {
        state.magic::<Mip0099>(magic_at(&[0]))
    }
}

/// Three fields: an Array at `[0]`, the magic at `[0, 0]`.
struct Versioned {
    version: LedgerCell<U8>,
    admin: LedgerCell<B32P>,
    uses: LedgerCounter,
}

impl LedgerWidth for Versioned {
    const WIDTH: usize = 0;
    const PLACEMENT: Placement = Placement::RootHeader;

    fn settles(_kind: u8) -> bool {
        unreachable!()
    }

    fn kinds() -> Vec<u8> {
        vec![]
    }
}

impl LedgerHeader for Versioned {
    const MAGIC: [u8; 32] = *b"mip-0099:versioned[v1]\0\0\0\0\0\0\0\0\0\0";
}

impl Versioned {
    fn new() -> Self {
        Versioned {
            version: LedgerCell::at_path(FieldPath::of(&[0, 1])),
            admin: LedgerCell::at_path(FieldPath::of(&[0, 2])),
            uses: LedgerCounter::at_path(FieldPath::of(&[0, 3])),
        }
    }

    fn contribute(&self, state: &mut StateBuilder) -> Result<(), StateRefusal> {
        state.magic::<Versioned>(magic_at(&[0, 0]))?;
        self.version.contribute(state)?;
        self.admin.contribute(state)?;
        self.uses.contribute(state)
    }
}

// ---- the blocks -----------------------------------------------------------------------------------

/// One of every slot type from body field `start`.
struct Every {
    num: LedgerCell<U64>,
    hash: LedgerCell<B32P>,
    flag: LedgerCell<Bool<Public>>,
    count: LedgerCounter,
    map: LedgerMap<B32P, U64, FieldPath>,
    set: LedgerSet<B32P>,
    list: LedgerList<U64>,
    tree: LedgerMerkleTree<10, B32P>,
    history: LedgerHistoricMerkleTree<10, B32P>,
    untyped: LedgerField,
}

impl Every {
    fn at(layout: BlockLayout, start: usize) -> Self {
        Every {
            num: LedgerCell::at_layout(layout, start),
            hash: LedgerCell::at_layout(layout, start + 1),
            flag: LedgerCell::at_layout(layout, start + 2),
            count: LedgerCounter::at_layout(layout, start + 3),
            map: LedgerMap::at_layout(layout, start + 4),
            set: LedgerSet::at_layout(layout, start + 5),
            list: LedgerList::at_layout(layout, start + 6),
            tree: LedgerMerkleTree::at_layout(layout, start + 7),
            history: LedgerHistoricMerkleTree::at_layout(layout, start + 8),
            untyped: LedgerField::at_layout(layout, start + 9),
        }
    }

    fn contribute(&self, state: &mut StateBuilder) {
        agreed(self.num.contribute(state));
        agreed(self.hash.contribute(state));
        agreed(self.flag.contribute(state));
        agreed(self.count.contribute(state));
        agreed(self.map.contribute(state));
        agreed(self.set.contribute(state));
        agreed(self.list.contribute(state));
        agreed(self.tree.contribute(state));
        agreed(self.history.contribute(state));
        agreed(self.untyped.contribute(state));
    }
}

fn every() -> Every {
    Every::at(BlockLayout::compactc(10), 0)
}

fn every_state() -> StateBuilder {
    let mut state = StateBuilder::new();
    every().contribute(&mut state);
    agreed(state.assert_standards(0));
    state
}

/// `{ a: Cell, std: Mip0099, b: Counter }`.
fn headed_flat() -> StateBuilder {
    let layout = BlockLayout::headed(2);
    let mut state = StateBuilder::new();
    agreed(LedgerCell::<U64>::at_layout(layout, 0).contribute(&mut state));
    agreed(Mip0099::contribute(&mut state));
    agreed(LedgerCounter::at_layout(layout, 1).contribute(&mut state));
    agreed(state.assert_standards(1));
    state
}

/// `{ a: Cell, b: Map, std: Versioned }`.
fn headed_fields() -> StateBuilder {
    let layout = BlockLayout::headed(2);
    let mut state = StateBuilder::new();
    agreed(LedgerCell::<U64>::at_layout(layout, 0).contribute(&mut state));
    agreed(LedgerMap::<U64, U64, FieldPath>::at_layout(layout, 1).contribute(&mut state));
    agreed(Versioned::new().contribute(&mut state));
    agreed(state.assert_standards(1));
    state
}

// ---- the defaults, as the ledger has them ------------------------------------------------------------

fn bytes_cell(length: u32) -> State {
    let v = fab::AlignedValue::new(
        fab::Value(vec![fab::ValueAtom(vec![])]),
        fab::Alignment(vec![fab::AlignmentSegment::Atom(fab::AlignmentAtom::Bytes { length })]),
    );
    LedgerState::Cell(Sp::new(v.expect("zero fits")))
}

fn empty_ledger_map() -> State {
    LedgerState::Map(StorageMap::new())
}

/// The ten defaults of [`Every`].
fn defaults() -> Vec<State> {
    let blank: LedgerTree<(), InMemoryDB> = LedgerTree::blank(10);
    let root = blank.root().expect("a blank tree has a root");
    let past: StorageMap<fab::AlignedValue, State, InMemoryDB> =
        StorageMap::new().insert(fab::AlignedValue::from(root), LedgerState::Null);
    vec![
        bytes_cell(8),
        bytes_cell(32),
        bytes_cell(1),
        bytes_cell(8),
        empty_ledger_map(),
        empty_ledger_map(),
        array(vec![LedgerState::Null, LedgerState::Null, bytes_cell(8)]),
        array(vec![LedgerState::BoundedMerkleTree(blank.clone()), bytes_cell(8)]),
        array(vec![
            LedgerState::BoundedMerkleTree(blank),
            bytes_cell(8),
            LedgerState::Map(past),
        ]),
        LedgerState::Null,
    ]
}

#[test]
fn a_flat_block_holds_each_slots_default() {
    let built = agreed(every_state().build());
    assert_eq!(array_len(&built), 10);
    assert!(ledger_state(&built) == array(defaults()));
}

#[test]
fn a_segmented_block_holds_each_slots_default() {
    let layout = BlockLayout::compactc(20);
    let mut state = StateBuilder::new();
    for i in 0..10 {
        match i {
            2 => agreed(LedgerCell::<U8>::at_layout(layout, i).contribute(&mut state)),
            4 => agreed(LedgerCell::<B32P>::at_layout(layout, i).contribute(&mut state)),
            _ => agreed(LedgerCell::<U64>::at_layout(layout, i).contribute(&mut state)),
        }
    }
    Every::at(layout, 10).contribute(&mut state);
    let built = agreed(state.build());
    assert_eq!(array_len(&built), 2, "the remainder segment and one full one");
    assert_eq!(array_len(at(&built, &[0])), 5);
    assert_eq!(array_len(at(&built, &[1])), 15);
    let first = [8, 8, 1, 8, 32].map(bytes_cell).to_vec();
    let mut second = vec![bytes_cell(8); 5];
    second.extend(defaults());
    assert!(ledger_state(&built) == array(vec![array(first), array(second)]));
    assert!(matches!(at(&built, &[1, 14]), StateValue::Null), "the untyped field");
}

#[test]
fn a_headed_block_holds_each_slots_default() {
    let built = agreed(headed_fields().build());
    assert_eq!(array_len(&built), 3, "the standard at [0], a and b at [1], [2]");
    assert_eq!(array_len(at(&built, &[0])), 4, "magic, version, admin, uses");
    let magic = ledger_state(&b32_cell(&Versioned::MAGIC));
    let header = array(vec![magic, bytes_cell(1), bytes_cell(32), bytes_cell(8)]);
    assert!(ledger_state(&built) == array(vec![header, bytes_cell(8), empty_ledger_map()]));
}

// ---- the builder's rules ------------------------------------------------------------------------------

#[test]
fn a_standard_contributes_its_magic_in_either_shape() {
    let flat = agreed(headed_flat().build());
    assert_eq!(array_len(&flat), 3);
    assert!(same(at(&flat, &[0]), &b32_cell(&Mip0099::MAGIC)));
    let StateValue::Cell(magic) = at(&flat, &[0]) else {
        panic!("a Cell at [0]");
    };
    assert_eq!(magic.value[0], b"mip-0099:ledger-header[v1]".to_vec(), "stored trimmed");
    assert!(same(at(&flat, &[1]), &u64_cell(0)));
    let fields = agreed(headed_fields().build());
    assert!(same(at(&fields, &[0, 0]), &b32_cell(&Versioned::MAGIC)));
    assert!(same(at(&fields, &[0, 1]), &StateValue::Cell(stored(1, &[]))));
}

#[test]
fn the_smallest_blocks() {
    assert_eq!(array_len(&agreed(StateBuilder::new().build())), 0);
    let mut only = StateBuilder::new();
    agreed(Mip0099::contribute(&mut only));
    let only = agreed(only.build());
    assert_eq!(array_len(&only), 1);
    assert!(same(at(&only, &[0]), &b32_cell(&Mip0099::MAGIC)));
}

#[test]
fn set_replaces_a_declared_slot() {
    let mut state = every_state();
    agreed(state.set(every().untyped.field_path(), b32_cell(&[0x5a; 32])));
    agreed(state.set(every().num.field_path(), u64_cell(7)));
    let untyped = state.get(every().untyped.field_path()).expect("declared");
    assert!(same(untyped, &b32_cell(&[0x5a; 32])));
    let built = agreed(state.build());
    assert!(same(at(&built, &[9]), &b32_cell(&[0x5a; 32])));
    assert!(same(at(&built, &[0]), &u64_cell(7)));
    assert!(state.get(FieldPath::of(&[10])).is_none());
}

#[test]
#[should_panic(expected = "is not a slot of this block")]
fn set_refuses_a_path_the_block_does_not_declare() {
    agreed(every_state().set(FieldPath::of(&[10]), StateValue::Null));
}

#[test]
#[should_panic(expected = "is not a slot of this block")]
fn set_refuses_a_path_inside_a_slot() {
    agreed(every_state().set(FieldPath::of(&[8, 2]), StateValue::Null));
}

#[test]
#[should_panic(expected = "is not the slot's shape")]
fn set_refuses_a_cell_of_another_alignment() {
    agreed(every_state().set(every().num.field_path(), b32_cell(&[1; 32])));
}

#[test]
#[should_panic(expected = "is not the slot's shape")]
fn set_refuses_a_cell_for_a_map() {
    agreed(every_state().set(every().map.field_path(), b32_cell(&[1; 32])));
}

#[test]
#[should_panic(expected = "is a standard's magic")]
fn set_refuses_the_magic() {
    agreed(headed_flat().set(magic_at(&[0]).field_path(), b32_cell(&[1; 32])));
}

#[test]
#[should_panic(expected = "overlapping paths")]
fn the_builder_refuses_overlapping_slots() {
    let mut state = StateBuilder::new();
    agreed(state.slot(FieldPath::of(&[1]), StateValue::Null));
    agreed(state.slot(FieldPath::of(&[1, 0]), StateValue::Null));
}

#[test]
#[should_panic(expected = "overlapping paths")]
fn the_builder_refuses_a_second_value_at_one_path() {
    let mut state = StateBuilder::new();
    agreed(state.slot(FieldPath::of(&[0]), StateValue::Null));
    agreed(state.slot(FieldPath::of(&[0]), StateValue::Null));
}

#[test]
fn the_order_of_contributions_does_not_matter() {
    let mut forward = StateBuilder::new();
    agreed(forward.slot(FieldPath::of(&[0, 0]), b32_cell(&[1; 32])));
    agreed(forward.slot(FieldPath::of(&[1, 3]), b32_cell(&[2; 32])));
    let mut backward = StateBuilder::new();
    agreed(backward.slot(FieldPath::of(&[1, 3]), b32_cell(&[2; 32])));
    agreed(backward.slot(FieldPath::of(&[0, 0]), b32_cell(&[1; 32])));
    assert!(same(&agreed(forward.build()), &agreed(backward.build())));
    // Unset entries are Null, and each Array is as long as its highest index
    // plus one.
    let built = agreed(forward.build());
    assert_eq!(array_len(&built), 2);
    assert_eq!(array_len(at(&built, &[0])), 1);
    assert_eq!(array_len(at(&built, &[1])), 4);
    assert!(matches!(at(&built, &[1, 0]), StateValue::Null));
}

#[test]
fn a_node_of_more_than_sixteen_entries_is_refused() {
    let mut state = StateBuilder::new();
    agreed(state.slot(FieldPath::of(&[15]), StateValue::Null));
    assert_eq!(array_len(&agreed(state.build())), 16);
    agreed(state.slot(FieldPath::of(&[16]), StateValue::Null));
    assert_eq!(state.build().err(), Some(StateRefusal::TooWide { entries: 17 }));
}

// ---- the Array slots' shapes ------------------------------------------------------------------------------

#[test]
fn set_takes_a_pushed_list_for_a_list() {
    let pushed = || StateValue::Array(vec![u64_cell(9), empty_list(), u64_cell(1)]);
    let list = every().list.field_path();
    let mut state = every_state();
    agreed(state.set(list, pushed()));
    agreed(state.set(list, empty_list()));
    agreed(state.set(list, pushed()));
    assert!(same(state.get(list).expect("declared"), &pushed()));
    // The trees take their own shape back.
    agreed(state.set(every().tree.field_path(), empty_merkle_tree_value(10)));
    agreed(state.set(every().history.field_path(), historic_merkle_tree_reset_value(10)));
}

#[test]
#[should_panic(expected = "is not the slot's shape")]
fn set_refuses_an_empty_array_for_a_list() {
    agreed(every_state().set(every().list.field_path(), StateValue::Array(vec![])));
}

#[test]
#[should_panic(expected = "is not the slot's shape")]
fn set_refuses_a_list_for_a_merkle_tree() {
    agreed(every_state().set(every().tree.field_path(), empty_list()));
}

#[test]
#[should_panic(expected = "is not the slot's shape")]
fn set_refuses_a_tree_of_another_height() {
    agreed(every_state().set(every().tree.field_path(), empty_merkle_tree_value(11)));
}

#[test]
#[should_panic(expected = "is not the slot's shape")]
fn set_refuses_a_merkle_tree_for_a_historic_one() {
    agreed(every_state().set(every().history.field_path(), empty_merkle_tree_value(10)));
}

#[test]
#[should_panic(expected = "is not the slot's shape")]
fn set_refuses_a_historic_tree_for_a_list() {
    agreed(every_state().set(every().list.field_path(), historic_merkle_tree_reset_value(10)));
}

// ---- the magic's rules --------------------------------------------------------------------------------------

#[test]
#[should_panic(expected = "a standard's magic is at [0] (a magic-only standard) or [0, 0]")]
fn a_magic_elsewhere_is_refused() {
    let _ = magic_at(&[5]);
}

#[test]
#[should_panic(expected = "a standard's magic is at [0] (a magic-only standard) or [0, 0]")]
fn a_magic_deeper_is_refused() {
    let _ = magic_at(&[0, 0, 0]);
}

#[test]
#[should_panic(expected = "one standard per ledger block")]
fn a_second_magic_is_refused() {
    let mut state = StateBuilder::new();
    agreed(state.magic::<Mip0099>(magic_at(&[0])));
    agreed(state.magic::<Mip0099>(magic_at(&[0, 0])));
}

/// Another standard, inside a group of fields.
struct Inner;

impl LedgerWidth for Inner {
    const WIDTH: usize = 0;
    const PLACEMENT: Placement = Placement::RootHeader;

    fn settles(_kind: u8) -> bool {
        unreachable!()
    }

    fn kinds() -> Vec<u8> {
        vec![]
    }
}

impl LedgerHeader for Inner {
    const MAGIC: [u8; 32] = *b"inner\0\0\0\0\0\0\0\0\0\0\0\0\0\0\0\0\0\0\0\0\0\0\0\0\0\0\0";
}

impl Inner {
    fn magic(&self) -> Magic {
        magic_at(&[0])
    }
}

/// A group of one field, and a standard that the block does not count.
struct Smuggler {
    inner: Inner,
    x: LedgerCell<U64>,
}

impl Smuggler {
    fn at_layout(layout: BlockLayout, start: usize) -> Self {
        Smuggler { inner: Inner, x: LedgerCell::at_layout(layout, start) }
    }

    fn contribute(&self, state: &mut StateBuilder) -> Result<(), StateRefusal> {
        state.magic::<Inner>(self.inner.magic())?;
        self.x.contribute(state)
    }
}

#[test]
#[should_panic(expected = "one standard per ledger block")]
fn a_standard_hidden_in_a_group_slot_is_refused_by_name() {
    // Both handles are root[0]: the layout cannot tell them apart...
    let layout = BlockLayout::headed(1);
    let group = Smuggler::at_layout(layout, 0);
    assert_eq!(Mip0099::at_layout(layout).magic().field_path().to_vec(), vec![0]);
    assert_eq!(group.inner.magic().field_path().to_vec(), vec![0]);
    assert_eq!(group.x.field_path().to_vec(), vec![1]);
    // ... and the deploy state refuses the second, naming the rule.
    let mut state = StateBuilder::new();
    agreed(Mip0099::contribute(&mut state));
    agreed(group.contribute(&mut state));
}

#[test]
#[should_panic(expected = "this block embeds 1 and its slots wrote 0")]
fn a_headed_block_without_its_magic_is_refused() {
    let layout = BlockLayout::headed(1);
    let a: LedgerCell<U64> = LedgerCell::at_layout(layout, 0);
    assert_eq!(a.field_path().to_vec(), vec![1]);
    let mut state = StateBuilder::new();
    agreed(a.contribute(&mut state));
    agreed(state.assert_standards(1));
}

#[test]
#[should_panic(expected = "this block embeds 0 and its slots wrote 1")]
fn a_body_slot_that_writes_a_magic_is_refused() {
    let mut state = StateBuilder::new();
    agreed(state.magic::<Mip0099>(magic_at(&[0])));
    agreed(state.assert_standards(0));
}

// ---- headers, laid out ------------------------------------------------------------------------------------------

#[test]
fn a_standard_is_width_zero_at_the_root() {
    assert_eq!(<Mip0099 as LedgerWidth>::WIDTH, 0);
    assert_eq!(<Mip0099 as LedgerWidth>::PLACEMENT, Placement::RootHeader);
    assert!(<Mip0099 as LedgerWidth>::kinds().is_empty());
    assert_eq!(<Versioned as LedgerWidth>::WIDTH, 0);
    assert_eq!(<Versioned as LedgerWidth>::PLACEMENT, Placement::RootHeader);
    assert_eq!(<LedgerField as LedgerWidth>::PLACEMENT, Placement::Body);
    assert_eq!(<Mip0099 as LedgerHeader>::MAGIC[..26], *b"mip-0099:ledger-header[v1]");
    assert!(<Mip0099 as LedgerHeader>::MAGIC[26..].iter().all(|b| *b == 0));
}

/// A standard in the two shapes of a header.
trait Standard: LedgerHeader {
    /// The standard of a block with this layout.
    fn at_layout(layout: BlockLayout) -> Self;

    fn magic(&self) -> Magic;
}

impl Standard for Mip0099 {
    fn at_layout(layout: BlockLayout) -> Self {
        assert_eq!(assert_headed(layout), Ok(()));
        Mip0099
    }

    fn magic(&self) -> Magic {
        magic_at(&[0])
    }
}

/// Two fields: an Array at `[0]`, the magic at `[0, 0]`, `version` at `[0, 1]`,
/// `admins` at `[0, 2]`.
struct Administered {
    version: LedgerCounter,
    admins: LedgerMap<U64, U64, FieldPath>,
}

impl LedgerWidth for Administered {
    const WIDTH: usize = 0;
    const PLACEMENT: Placement = Placement::RootHeader;

    fn settles(_kind: u8) -> bool {
        unreachable!()
    }

    fn kinds() -> Vec<u8> {
        vec![]
    }
}

impl LedgerHeader for Administered {
    const MAGIC: [u8; 32] = *b"mip-0099:ledger-header[v1]\0\0\0\0\0\0";
}

impl Standard for Administered {
    fn at_layout(layout: BlockLayout) -> Self {
        assert_eq!(assert_headed(layout), Ok(()));
        Administered {
            version: LedgerCounter::at_path(FieldPath::of(&[0, 1])),
            admins: LedgerMap::at_path(FieldPath::of(&[0, 2])),
        }
    }

    fn magic(&self) -> Magic {
        magic_at(&[0, 0])
    }
}

struct Shown;

impl DisclosureLabel for Shown {
    const LABEL: &'static str = "shown";
}

/// A slot's width and placement.
fn slot<T: LedgerWidth>() -> (usize, Placement) {
    (T::WIDTH, T::PLACEMENT)
}

/// The layout of a block of these slots, and where each of them starts.
fn laid_out(slots: &[(usize, Placement)]) -> (BlockLayout, Vec<usize>) {
    let placements: Vec<Placement> = slots.iter().map(|slot| slot.1).collect();
    let mut starts = Vec::new();
    let mut total = 0;
    for (width, _) in slots {
        starts.push(total);
        total += width;
    }
    let headers = standards(&placements).expect("at most one standard");
    (BlockLayout::of_block(total, headers), starts)
}

/// A block of `n` fields without a standard.
fn plain(n: usize) -> Vec<Vec<u8>> {
    let (layout, at) = laid_out(&vec![slot::<LedgerField>(); n]);
    at.iter().map(|start| LedgerField::at_layout(layout, *start).field_path().to_vec()).collect()
}

/// A block of fields with a standard among them.
struct Headed<S> {
    std: S,
    fields: Vec<LedgerField>,
}

impl<S: Standard> Headed<S> {
    /// `n` fields, the standard before field `at` of them.
    fn declared(n: usize, at: usize) -> Self {
        let mut slots = vec![slot::<LedgerField>(); n];
        slots.insert(at, slot::<S>());
        let (layout, mut starts) = laid_out(&slots);
        starts.remove(at);
        Headed {
            std: S::at_layout(layout),
            fields: starts.iter().map(|start| LedgerField::at_layout(layout, *start)).collect(),
        }
    }

    fn new(n: usize) -> Self {
        Self::declared(n, 0)
    }

    fn paths(&self) -> Vec<Vec<u8>> {
        self.fields.iter().map(|field| field.field_path().to_vec()).collect()
    }

    fn magic(&self) -> Vec<u8> {
        self.std.magic().field_path().to_vec()
    }
}

/// Headed: the paths of the same fields alone with the first position one more,
/// and nothing at `root[0]`.
fn assert_moved_one_root_slot(headed: &[Vec<u8>], plain: &[Vec<u8>]) {
    assert_eq!(headed.len(), plain.len());
    for (k, (h, c)) in headed.iter().zip(plain).enumerate() {
        let mut expected = c.clone();
        expected[0] += 1;
        assert_eq!(h, &expected, "{} fields, field {k}", plain.len());
        assert_eq!(h.len(), c.len(), "{} fields, field {k}: the depth stays", plain.len());
    }
}

#[test]
fn the_derive_lays_a_headed_body_out_one_root_slot_along() {
    let block = Headed::<Mip0099>::new;
    // No own fields: the standard alone.
    assert_eq!(block(0).magic(), [0]);
    assert!(block(0).paths().is_empty());
    // The magic is at `[0]` (or `[0, 0]`) in every one of them.
    for n in [1, 3, 14, 15, 30, 16] {
        assert_eq!(block(n).magic(), [0], "{n}");
    }
    let h16 = Headed::<Administered>::new(16);
    assert_eq!(h16.magic(), [0, 0]);
    for n in [1, 3, 14, 15, 30] {
        assert_moved_one_root_slot(&block(n).paths(), &plain(n));
    }
    assert_moved_one_root_slot(&h16.paths(), &plain(16));
    assert_eq!(block(15).fields[14].field_path().to_vec(), [15], "16-entry root");
    assert_eq!(h16.fields[0].field_path().to_vec(), [1, 0]);
    assert_eq!(h16.fields[1].field_path().to_vec(), [2, 0]);
    assert_eq!(h16.fields[15].field_path().to_vec(), [2, 14]);
    // ... and each is what the layout function says.
    assert_eq!(
        block(30).fields[29].field_path().to_vec(),
        FieldPath::in_layout(BlockLayout::headed(30), 29).to_vec()
    );
}

#[test]
fn every_body_size_is_laid_out_one_root_slot_along() {
    for n in 0..=256 {
        assert_moved_one_root_slot(&Headed::<Mip0099>::new(n).paths(), &plain(n));
    }
}

#[test]
fn the_header_is_at_the_root_whatever_the_block() {
    let h16 = Headed::<Administered>::new(16);
    assert_eq!(h16.std.magic().field_path().to_vec(), [0, 0]);
    assert_eq!(h16.std.version.field_path().to_vec(), [0, 1]);
    assert_eq!(h16.std.admins.field_path().to_vec(), [0, 2]);
    assert_eq!(Headed::<Mip0099>::new(3).std.magic().field_path().to_vec(), [0]);
    assert_eq!(Headed::<Mip0099>::new(30).std.magic().field_path().to_vec(), [0]);
}

/// `a`, `b` and `c`, with the standard first, in the middle or last.
struct Three {
    std: Administered,
    a: LedgerField,
    b: LedgerMap<U64, U64, FieldPath>,
    c: LedgerField,
}

impl Three {
    fn declared(at: usize) -> Self {
        let body = slot::<LedgerMap<U64, U64, FieldPath>>();
        let mut slots = vec![slot::<LedgerField>(), body, slot::<LedgerField>()];
        slots.insert(at, slot::<Administered>());
        let (layout, mut starts) = laid_out(&slots);
        starts.remove(at);
        Three {
            std: Administered::at_layout(layout),
            a: LedgerField::at_layout(layout, starts[0]),
            b: LedgerMap::at_layout(layout, starts[1]),
            c: LedgerField::at_layout(layout, starts[2]),
        }
    }
}

/// First, middle or last, the standard's position changes nothing: the other
/// fields keep their order and the same paths, and the header is where it always
/// is.
#[test]
fn where_the_standard_is_declared_does_not_matter() {
    for at in [0, 2, 3] {
        let block = Three::declared(at);
        assert_eq!(block.a.field_path().to_vec(), [1]);
        assert_eq!(block.b.field_path().to_vec(), [2]);
        assert_eq!(block.c.field_path().to_vec(), [3]);
        assert_eq!(block.std.magic().field_path().to_vec(), [0, 0]);
        assert_eq!(block.std.admins.field_path().to_vec(), [0, 2]);
    }
    // Segmented: sixteen fields, the standard first or last.
    let first = Headed::<Mip0099>::new(16);
    let last = Headed::<Mip0099>::declared(16, 16);
    assert_eq!(first.paths(), last.paths());
    assert_eq!(last.std.magic().field_path().to_vec(), [0]);
    // Without one the same fields are one root slot back.
    assert_moved_one_root_slot(&last.paths(), &plain(16));
}

/// The standard's own fields, and a counter at `[0, 1]` and a map at `[0, 2]`
/// placed by hand.
#[test]
fn a_header_field_emits_the_ops_of_a_slot_at_its_header_path() {
    let std = Headed::<Administered>::new(16).std;
    let version = LedgerCounter::at_path(FieldPath::of(&[0, 1]));
    let counted = |counter: &LedgerCounter| {
        let mut state = StateBuilder::new();
        agreed(counter.contribute(&mut state));
        agreed(state.set(counter.field_path(), u64_cell(1)));
        agreed(state.build())
    };
    assert!(same(&counted(&std.version), &counted(&version)));
    assert!(same(at(&counted(&std.version), &[0, 1]), &u64_cell(1)));
    let admins: LedgerMap<U64, U64, FieldPath> = LedgerMap::at_path(FieldPath::of(&[0, 2]));
    let member = |map: &LedgerMap<U64, U64, FieldPath>| {
        let mut c = Circuit3::with(vec![vec![7]], vec![vec![vec![1]]]);
        let k = <Uint<64, Private> as CircuitArg>::declare(&mut c, "k");
        constrain(&k, &mut c);
        let k = k.disclose_as::<Shown>(&mut c);
        assert!(map.member(&mut c, &k));
        format!("{:?}", c.finish())
    };
    assert_eq!(member(&std.admins), member(&admins));
    let elsewhere: LedgerMap<U64, U64, FieldPath> = LedgerMap::at_path(FieldPath::of(&[0, 1]));
    assert_ne!(member(&std.admins), member(&elsewhere));
}

/// The refusals name the paths.
#[test]
fn a_refusal_names_its_paths() {
    let text = |r: Result<(), StateRefusal>| r.err().expect("refused").message();
    let mut state = StateBuilder::new();
    agreed(state.slot(FieldPath::of(&[1, 12]), StateValue::Null));
    agreed(state.slot(FieldPath::of(&[1, 3, 4]), u64_cell(0)));
    agreed(state.magic::<Mip0099>(magic_at(&[0, 0])));
    // The earliest of the paths it overlaps.
    assert_eq!(
        state.slot(FieldPath::of(&[1]), StateValue::Null),
        Err(StateRefusal::Overlap { declared: FieldPath::of(&[1, 3, 4]), path: FieldPath::of(&[1]) })
    );
    assert!(text(state.slot(FieldPath::of(&[1]), StateValue::Null))
        .starts_with("two slots of one ledger block contributed overlapping paths [1, 3, 4] and [1]: "));
    assert!(text(state.slot(FieldPath::of(&[1, 12, 0]), StateValue::Null)).contains("[1, 12] and [1, 12, 0]"));
    assert!(text(state.set(FieldPath::of(&[2, 10]), StateValue::Null))
        .starts_with("StateBuilder::set: [2, 10] is not a slot of this block"));
    assert!(text(state.set(FieldPath::of(&[0, 0]), StateValue::Null))
        .starts_with("StateBuilder::set: [0, 0] is a standard's magic"));
    assert!(text(state.set(FieldPath::of(&[1, 3, 4]), StateValue::Null))
        .starts_with("StateBuilder::set: the value for [1, 3, 4] is not the slot's shape"));
    agreed(state.slot(FieldPath::of(&[2, 200]), StateValue::Null));
    assert_eq!(
        state.build().err().expect("refused").message(),
        "a ledger Array holds at most sixteen entries, and this node would hold 201"
    );
}

/// A magic is refused exactly where a slot overlaps its path.
#[test]
fn a_magic_finds_its_place_free_or_taken() {
    let mut state = StateBuilder::new();
    agreed(state.slot(FieldPath::of(&[1]), StateValue::Null));
    agreed(state.magic::<Mip0099>(magic_at(&[0])));
    assert_eq!(state.magic::<Mip0099>(magic_at(&[0])), Err(StateRefusal::SecondStandard));
    let mut state = StateBuilder::new();
    agreed(state.slot(FieldPath::of(&[0, 1]), StateValue::Null));
    assert_eq!(
        state.magic::<Mip0099>(magic_at(&[0])),
        Err(StateRefusal::Overlap { declared: FieldPath::of(&[0, 1]), path: FieldPath::of(&[0]) })
    );
    agreed(state.magic::<Mip0099>(magic_at(&[0, 0])));
}

/// A bare tree takes a tree of any height; inside its slot the height stays.
#[test]
fn set_takes_a_bare_tree_of_another_height() {
    let bare = |height: u8| match empty_merkle_tree_value(height) {
        StateValue::Array(mut items) => items.remove(0),
        other => panic!("a tree's slot is an Array, got {other:?}"),
    };
    let mut state = StateBuilder::new();
    agreed(state.slot(FieldPath::of(&[0]), bare(10)));
    agreed(state.set(FieldPath::of(&[0]), bare(11)));
    assert!(same(&agreed(state.build()), &StateValue::Array(vec![bare(11)])));
}

// ---- the checks on a standard and a block ----------------------------------------------------------------------

#[test]
fn a_zero_magic_is_refused() {
    assert_eq!(assert_magic(&[0; 32]), Err(HeaderRefusal::ZeroMagic));
    let mut magic = [0u8; 32];
    magic[31] = 1;
    assert_eq!(assert_magic(&magic), Ok(()));
    assert_eq!(pad32(b"inner")[..6], *b"inner\0");
    assert_eq!(pad32(&[7; 32]), [7; 32]);
}

#[test]
fn a_standards_fields_are_single_body_slots() {
    let none: &[u8] = &[];
    assert_eq!(assert_header_fields(&[1, 1], &[none, none], &[Placement::Body, Placement::Body]), Ok(()));
    assert!(assert_header_fields(&[1, 2], &[none, none], &[Placement::Body, Placement::Body]).is_err());
    assert!(assert_header_fields(&[1, 1], &[none, &[3]], &[Placement::Body, Placement::Body]).is_err());
    assert!(assert_header_fields(&[1, 0], &[none, none], &[Placement::Body, Placement::RootHeader]).is_err());
    header_field::<LedgerCell<U8>>();
    assert_eq!(assert_headed(BlockLayout::headed(3)), Ok(()));
    assert!(assert_headed(BlockLayout::compactc(3)).is_err());
}

#[test]
fn a_block_has_one_standard_and_each_kind_once() {
    assert_eq!(standards(&[Placement::Body, Placement::Body]), Ok(0));
    assert!(standards(&[Placement::RootHeader, Placement::Body, Placement::RootHeader]).is_err());
    assert_eq!(assert_distinct_kinds(&[&[1], &[], &[2]]), Ok(()));
    assert!(assert_distinct_kinds(&[&[1], &[], &[1]]).is_err());
}

// ---- a magic-first block without a standard ---------------------------------------------------------------------

/// `[magic, body..]`: what a contract without a standard lays out when it
/// declares the magic as its first field.
fn magic_first(n: usize) -> Vec<Vec<u8>> {
    plain(n + 1)
}

/// Up to fourteen fields the two layouts are one.
#[test]
fn a_small_headed_body_is_laid_out_as_behind_a_plain_magic() {
    for n in 0..=14 {
        let behind = magic_first(n);
        assert_eq!(behind[0], vec![0], "{n}: the magic");
        assert_eq!(Headed::<Mip0099>::new(n).paths(), behind[1..].to_vec(), "{n}");
    }
}

/// At fifteen they part: flat behind the standard, segmented without one.
#[test]
fn at_fifteen_fields_the_headed_layout_is_its_own() {
    let headed = Headed::<Mip0099>::new(15).paths();
    let behind = magic_first(15);
    assert_eq!(behind[0], vec![0, 0]);
    for k in 1..=15usize {
        assert_eq!(headed[k - 1], vec![k as u8], "flat, one root slot along");
        assert_eq!(behind[k], vec![1, k as u8 - 1], "the full segment");
    }
}

/// The write of the last field, both ways: the path is all that differs.
#[test]
fn the_last_write_of_fifteen_differs_exactly_by_the_path() {
    let write = |path: FieldPath| {
        let cell: LedgerCell<U64> = LedgerCell::at_path(path);
        let mut c = Circuit3::new();
        cell.write(&mut c, &Uint::of(7));
        c.finish()
    };
    let text = |ops: &[ImpactOp]| format!("{ops:?}");
    let headed = write(FieldPath::in_layout(BlockLayout::headed(15), 14));
    let plain = write(FieldPath::in_layout(BlockLayout::compactc(16), 15));
    assert_eq!(text(&headed), text(&write(FieldPath::of(&[15]))));
    assert_eq!(text(&plain), text(&write(FieldPath::of(&[1, 14]))));
    // `push 15; pushs v; ins 1`, against `idxp [1]; push 14; pushs v; ins 1; insc 1`.
    assert_eq!((headed.len(), plain.len()), (3, 5));
    assert_eq!(text(&headed[1..2]), text(&plain[2..3]), "the value's push is the same");
}

/// A block of the standard, `value`, `count`, `balances` and `owner`, and one
/// of the standard and fourteen fields.
fn small_and_widest_flat() -> [StateBuilder; 2] {
    let layout = BlockLayout::headed(4);
    let mut small = StateBuilder::new();
    agreed(Mip0099::contribute(&mut small));
    agreed(LedgerCell::<U64>::at_layout(layout, 0).contribute(&mut small));
    agreed(LedgerCounter::at_layout(layout, 1).contribute(&mut small));
    agreed(LedgerMap::<B32P, U64, FieldPath>::at_layout(layout, 2).contribute(&mut small));
    agreed(LedgerCell::<B32P>::at_layout(layout, 3).contribute(&mut small));
    let layout = BlockLayout::headed(14);
    let mut widest = StateBuilder::new();
    agreed(Mip0099::contribute(&mut widest));
    for i in 0..13 {
        agreed(LedgerCell::<U64>::at_layout(layout, i).contribute(&mut widest));
    }
    agreed(LedgerMap::<U64, U64, FieldPath>::at_layout(layout, 13).contribute(&mut widest));
    [small, widest]
}

/// The lengths of the serialized deploy states of the two.
#[test]
fn a_deploy_state_serializes_to_its_known_length() {
    let lengths = small_and_widest_flat().map(|block| {
        let contract: ContractState<InMemoryDB> = ContractState {
            data: ChargedState::new(ledger_state(&agreed(block.build()))),
            ..ContractState::default()
        };
        let mut bytes = Vec::new();
        midnight_serialize::tagged_serialize(&contract, &mut bytes).expect("serializes");
        bytes.len()
    });
    assert_eq!(lengths, [323, 410]);
}
