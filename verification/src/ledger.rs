//! The ledger slots: typed handles on the fields of a block.
//!
//! A handle is a path and a type. What it holds at deploy:
//!
//! | slot | initial value |
//! |---|---|
//! | `LedgerCell<T>` | `T`'s default, stored |
//! | `LedgerCounter` | the number 0 |
//! | `LedgerMap`, `LedgerSet` | the empty map |
//! | `LedgerList` | `[null, null, 0]` |
//! | `LedgerMerkleTree<D, _>` | `[blank tree of height D, 0]` |
//! | `LedgerHistoricMerkleTree<D, _>` | the same and `{blank root -> null}` |
//! | `LedgerField` | Null: untyped, so no default |
use crate::fab::{
    as_u64, capacity, law_number_round_trip, number, store_number, Aligned, AlignedValue,
    AlignmentAtom, AlignmentSegment, Segment,
};
use crate::header::{HeaderField, LedgerWidth, Placement};
use crate::impact::{lookup, part};
use crate::layout::{
    field_path, law_depth_by_width, law_paths_follow_declaration_order, law_paths_have_one_depth,
    BlockLayout, FieldPath, MAX_FIELDS,
};
use crate::sealed;
use crate::state::{lemma_one_contribution, Contribution, InitialState, StateBuilder, StateRefusal};
use crate::value::{array_of, entries_of, MerkleTree, StateValue, Tree};
use crate::wire::{default_stored, ledger_value, stored, stored_default, LedgerRepr};
use core::marker::PhantomData;
use vstd::prelude::*;

verus! {

// ---- paths ------------------------------------------------------------------------

/// One step of a ledger path: a field of a block, or an entry of a map.
#[derive(Debug)]
pub enum LedgerKey {
    Field(u8),
    Value(AlignedValue),
}

impl LedgerKey {
    /// The key as the ledger indexes with it.
    pub open spec fn view(&self) -> Aligned {
        match *self {
            LedgerKey::Field(i) => number(i as nat, 1),
            LedgerKey::Value(key) => key@,
        }
    }

    /// A copy of the step.
    pub fn copy(&self) -> (r: Self)
        ensures
            r@ == self@,
    {
        match self {
            LedgerKey::Field(i) => LedgerKey::Field(*i),
            LedgerKey::Value(key) => LedgerKey::Value(key.copy()),
        }
    }
}

/// The model of a list of steps.
pub open spec fn steps(keys: Seq<LedgerKey>) -> Seq<Aligned> {
    keys.map_values(|key: LedgerKey| key@)
}

/// The steps of a declared field.
pub open spec fn field_steps(path: Seq<u8>) -> Seq<Aligned> {
    path.map_values(|i: u8| number(i as nat, 1))
}

/// A copy of a list of steps.
pub fn copy_steps(keys: &Vec<LedgerKey>) -> (r: Vec<LedgerKey>)
    ensures
        steps(r@) == steps(keys@),
{
    let mut r: Vec<LedgerKey> = Vec::new();
    let mut i: usize = 0;
    while i < keys.len()
        invariant
            i <= keys@.len(),
            r@.len() == i,
            forall|j: int| 0 <= j < i ==> (#[trigger] r@[j])@ == keys@[j]@,
        decreases keys@.len() - i,
    {
        r.push(keys[i].copy());
        i += 1;
    }
    assert(steps(r@) =~= steps(keys@));
    r
}

/// Where a slot is: a declared field, or an entry under one.
pub trait LedgerPath {
    /// The steps, root down.
    spec fn keys(&self) -> Seq<Aligned>;

    /// The steps, root down.
    fn ledger_path(&self) -> (r: Vec<LedgerKey>)
        ensures
            steps(r@) == self.keys(),
    ;
}

impl LedgerPath for FieldPath {
    open spec fn keys(&self) -> Seq<Aligned> {
        field_steps(self@)
    }

    fn ledger_path(&self) -> (r: Vec<LedgerKey>) {
        let path = self.to_vec();
        let mut r: Vec<LedgerKey> = Vec::new();
        let mut i: usize = 0;
        while i < path.len()
            invariant
                i <= path@.len(),
                r@.len() == i,
                forall|j: int| 0 <= j < i ==> (#[trigger] r@[j])@ == number(path@[j] as nat, 1),
            decreases path@.len() - i,
        {
            r.push(LedgerKey::Field(path[i]));
            i += 1;
        }
        assert(steps(r@) =~= self.keys());
        r
    }
}

/// An entry `N` map steps under a declared field.
pub struct KeyPath<const N: usize> {
    field: FieldPath,
    entries: Vec<AlignedValue>,
}

impl<const N: usize> KeyPath<N> {
    #[verifier::type_invariant]
    spec fn inv(self) -> bool {
        self.entries@.len() == N
    }

    /// The declared field.
    pub closed spec fn field(&self) -> FieldPath {
        self.field
    }

    /// The map keys.
    pub closed spec fn entries(&self) -> Seq<Aligned> {
        self.entries@.map_values(|key: AlignedValue| key@)
    }
}

impl<const N: usize> LedgerPath for KeyPath<N> {
    open spec fn keys(&self) -> Seq<Aligned> {
        field_steps(self.field()@) + self.entries()
    }

    fn ledger_path(&self) -> (r: Vec<LedgerKey>) {
        let mut r = self.field.ledger_path();
        let ghost lead = r@;
        let mut i: usize = 0;
        while i < self.entries.len()
            invariant
                i <= self.entries@.len(),
                r@.len() == lead.len() + i,
                forall|j: int| 0 <= j < lead.len() ==> (#[trigger] r@[j]) == lead[j],
                forall|j: int|
                    0 <= j < i ==> (#[trigger] r@[lead.len() + j])@ == self.entries@[j]@,
            decreases self.entries@.len() - i,
        {
            r.push(LedgerKey::Value(self.entries[i].copy()));
            i += 1;
        }
        proof {
            assert forall|j: int| 0 <= j < r@.len() implies steps(r@)[j] == self.keys()[j] by {
                if j < lead.len() {
                    assert(r@[j] == lead[j]);
                    assert(steps(lead)[j] == lead[j]@);
                } else {
                    assert(r@[lead.len() + (j - lead.len())]@ == self.entries@[j - lead.len()]@);
                }
            }
            assert(steps(lead).len() == lead.len());
        }
        assert(steps(r@) =~= self.keys());
        r
    }
}

/// A map path a slot-to-slot copy can reach back over. The reach is twice the
/// path's length and one, and the operand that holds it is a nibble, so a
/// path has seven steps at most: a declared field's three and four map steps.
pub trait Reachable: LedgerPath + Sized {
    /// The bound.
    fn within_reach(&self)
        ensures
            2 * self.keys().len() + 1 <= 15,
    ;
}

impl Reachable for FieldPath {
    fn within_reach(&self) {
    }
}

impl Reachable for KeyPath<1> {
    fn within_reach(&self) {
        proof {
            use_type_invariant(self);
        }
    }
}

impl Reachable for KeyPath<2> {
    fn within_reach(&self) {
        proof {
            use_type_invariant(self);
        }
    }
}

impl Reachable for KeyPath<3> {
    fn within_reach(&self) {
        proof {
            use_type_invariant(self);
        }
    }
}

impl Reachable for KeyPath<4> {
    fn within_reach(&self) {
        proof {
            use_type_invariant(self);
        }
    }
}

// ---- the slots -----------------------------------------------------------------------

/// One stored value.
pub struct LedgerCell<T> {
    pub path: FieldPath,
    pub holds: PhantomData<T>,
}

/// A number that counts up.
#[derive(Clone, Copy)]
pub struct LedgerCounter {
    pub path: FieldPath,
}

/// Entries by key.
pub struct LedgerMap<K, V, P> {
    pub path: P,
    pub keyed: PhantomData<K>,
    pub holds: PhantomData<V>,
}

/// A set of values.
pub struct LedgerSet<T> {
    pub path: FieldPath,
    pub holds: PhantomData<T>,
}

/// A list of values.
pub struct LedgerList<T> {
    pub path: FieldPath,
    pub holds: PhantomData<T>,
}

/// A Merkle tree of height `D`.
pub struct LedgerMerkleTree<const D: u8, T> {
    pub path: FieldPath,
    pub holds: PhantomData<T>,
}

/// A Merkle tree of height `D` that keeps its past roots.
pub struct LedgerHistoricMerkleTree<const D: u8, T> {
    pub path: FieldPath,
    pub holds: PhantomData<T>,
}

/// An untyped field.
#[derive(Clone, Copy)]
pub struct LedgerField {
    pub path: FieldPath,
}

impl<T> LedgerCell<T> {
    /// The cell at `path`.
    pub fn at_path(path: FieldPath) -> (r: Self)
        ensures
            r.path == path,
    {
        LedgerCell { path, holds: PhantomData }
    }

    /// The cell that is body field `start` under `layout`.
    pub fn at_layout(layout: BlockLayout, start: usize) -> (r: Self)
        requires
            start < layout.total() <= MAX_FIELDS,
        ensures
            r.path@ == layout.path(start as nat),
            r.path == layout.field(start as nat),
    {
        LedgerCell { path: FieldPath::in_layout(layout, start), holds: PhantomData }
    }

    /// Where it is.
    pub fn field_path(&self) -> (r: FieldPath)
        ensures
            r == self.path,
    {
        self.path
    }
}

impl LedgerCounter {
    /// The counter at this path.
    pub fn at_path(path: FieldPath) -> (r: Self)
        ensures
            r.path == path,
    {
        LedgerCounter { path }
    }

    /// The counter that is body field `start` under `layout`.
    pub fn at_layout(layout: BlockLayout, start: usize) -> (r: Self)
        requires
            start < layout.total() <= MAX_FIELDS,
        ensures
            r.path@ == layout.path(start as nat),
    {
        LedgerCounter { path: FieldPath::in_layout(layout, start) }
    }

    /// Where it is.
    pub fn field_path(&self) -> (r: FieldPath)
        ensures
            r == self.path,
    {
        self.path
    }
}

impl<K, V> LedgerMap<K, V, FieldPath> {
    /// The map at `path`.
    pub fn at_path(path: FieldPath) -> (r: Self)
        ensures
            r.path == path,
    {
        LedgerMap { path, keyed: PhantomData, holds: PhantomData }
    }

    /// The map that is body field `start` under `layout`.
    pub fn at_layout(layout: BlockLayout, start: usize) -> (r: Self)
        requires
            start < layout.total() <= MAX_FIELDS,
        ensures
            r.path@ == layout.path(start as nat),
            r.path == layout.field(start as nat),
    {
        LedgerMap {
            path: FieldPath::in_layout(layout, start),
            keyed: PhantomData,
            holds: PhantomData,
        }
    }

    /// Where it is.
    pub fn field_path(&self) -> (r: FieldPath)
        ensures
            r == self.path,
    {
        self.path
    }
}

impl<K: LedgerRepr, K2, V2> LedgerMap<K, LedgerMap<K2, V2, FieldPath>, FieldPath> {
    /// The map held under `key`.
    pub fn at_key(&self, key: &K) -> (r: LedgerMap<K2, V2, KeyPath<1>>)
        ensures
            r.path.keys() == self.path.keys().push(stored(*key)),
    {
        let mut entries: Vec<AlignedValue> = Vec::new();
        entries.push(ledger_value(key));
        let path: KeyPath<1> = KeyPath { field: self.path, entries };
        assert(path.keys() =~= self.path.keys().push(stored(*key)));
        LedgerMap { path, keyed: PhantomData, holds: PhantomData }
    }
}

/// The keys of a path and one more.
fn extend<K: LedgerRepr>(entries: &Vec<AlignedValue>, key: &K) -> (r: Vec<AlignedValue>)
    ensures
        r@.len() == entries@.len() + 1,
        r@.map_values(|key: AlignedValue| key@) == entries@.map_values(
            |key: AlignedValue| key@,
        ).push(stored(*key)),
{
    let mut r: Vec<AlignedValue> = Vec::new();
    let mut i: usize = 0;
    while i < entries.len()
        invariant
            i <= entries@.len(),
            r@.len() == i,
            forall|j: int| 0 <= j < i ==> (#[trigger] r@[j])@ == entries@[j]@,
        decreases entries@.len() - i,
    {
        r.push(entries[i].copy());
        i += 1;
    }
    r.push(ledger_value(key));
    assert(r@.map_values(|key: AlignedValue| key@) =~= entries@.map_values(
        |key: AlignedValue| key@,
    ).push(stored(*key)));
    r
}

impl<K: LedgerRepr, K2, V2> LedgerMap<K, LedgerMap<K2, V2, FieldPath>, KeyPath<1>> {
    /// The map held under `key`.
    pub fn at_key(&self, key: &K) -> (r: LedgerMap<K2, V2, KeyPath<2>>)
        ensures
            r.path.keys() == self.path.keys().push(stored(*key)),
    {
        proof {
            use_type_invariant(&self.path);
        }
        let path: KeyPath<2> = KeyPath {
            field: self.path.field,
            entries: extend(&self.path.entries, key),
        };
        assert(path.keys() =~= self.path.keys().push(stored(*key)));
        LedgerMap { path, keyed: PhantomData, holds: PhantomData }
    }
}

impl<K: LedgerRepr, K2, V2> LedgerMap<K, LedgerMap<K2, V2, FieldPath>, KeyPath<2>> {
    /// The map held under `key`.
    pub fn at_key(&self, key: &K) -> (r: LedgerMap<K2, V2, KeyPath<3>>)
        ensures
            r.path.keys() == self.path.keys().push(stored(*key)),
    {
        proof {
            use_type_invariant(&self.path);
        }
        let path: KeyPath<3> = KeyPath {
            field: self.path.field,
            entries: extend(&self.path.entries, key),
        };
        assert(path.keys() =~= self.path.keys().push(stored(*key)));
        LedgerMap { path, keyed: PhantomData, holds: PhantomData }
    }
}

impl<K: LedgerRepr, K2, V2> LedgerMap<K, LedgerMap<K2, V2, FieldPath>, KeyPath<3>> {
    /// The map held under `key`.
    pub fn at_key(&self, key: &K) -> (r: LedgerMap<K2, V2, KeyPath<4>>)
        ensures
            r.path.keys() == self.path.keys().push(stored(*key)),
    {
        proof {
            use_type_invariant(&self.path);
        }
        let path: KeyPath<4> = KeyPath {
            field: self.path.field,
            entries: extend(&self.path.entries, key),
        };
        assert(path.keys() =~= self.path.keys().push(stored(*key)));
        LedgerMap { path, keyed: PhantomData, holds: PhantomData }
    }
}

impl<K: LedgerRepr, K2, V2> LedgerMap<K, LedgerMap<K2, V2, FieldPath>, KeyPath<4>> {
    /// The map held under `key`.
    pub fn at_key(&self, key: &K) -> (r: LedgerMap<K2, V2, KeyPath<5>>)
        ensures
            r.path.keys() == self.path.keys().push(stored(*key)),
    {
        proof {
            use_type_invariant(&self.path);
        }
        let path: KeyPath<5> = KeyPath {
            field: self.path.field,
            entries: extend(&self.path.entries, key),
        };
        assert(path.keys() =~= self.path.keys().push(stored(*key)));
        LedgerMap { path, keyed: PhantomData, holds: PhantomData }
    }
}

impl<T> LedgerSet<T> {
    /// The set at this path.
    pub fn at_path(path: FieldPath) -> (r: Self)
        ensures
            r.path == path,
    {
        LedgerSet { path, holds: PhantomData }
    }

    /// The set that is body field `start` under `layout`.
    pub fn at_layout(layout: BlockLayout, start: usize) -> (r: Self)
        requires
            start < layout.total() <= MAX_FIELDS,
        ensures
            r.path@ == layout.path(start as nat),
    {
        LedgerSet { path: FieldPath::in_layout(layout, start), holds: PhantomData }
    }

    /// Where it is.
    pub fn field_path(&self) -> (r: FieldPath)
        ensures
            r == self.path,
    {
        self.path
    }
}

impl<T> LedgerList<T> {
    /// The list at this path.
    pub fn at_path(path: FieldPath) -> (r: Self)
        ensures
            r.path == path,
    {
        LedgerList { path, holds: PhantomData }
    }

    /// The list that is body field `start` under `layout`.
    pub fn at_layout(layout: BlockLayout, start: usize) -> (r: Self)
        requires
            start < layout.total() <= MAX_FIELDS,
        ensures
            r.path@ == layout.path(start as nat),
    {
        LedgerList { path: FieldPath::in_layout(layout, start), holds: PhantomData }
    }

    /// Where it is.
    pub fn field_path(&self) -> (r: FieldPath)
        ensures
            r == self.path,
    {
        self.path
    }
}

impl<const D: u8, T> LedgerMerkleTree<D, T> {
    /// The tree at this path.
    pub fn at_path(path: FieldPath) -> (r: Self)
        ensures
            r.path == path,
    {
        LedgerMerkleTree { path, holds: PhantomData }
    }

    /// The tree that is body field `start` under `layout`.
    pub fn at_layout(layout: BlockLayout, start: usize) -> (r: Self)
        requires
            start < layout.total() <= MAX_FIELDS,
        ensures
            r.path@ == layout.path(start as nat),
    {
        LedgerMerkleTree { path: FieldPath::in_layout(layout, start), holds: PhantomData }
    }

    /// Where it is.
    pub fn field_path(&self) -> (r: FieldPath)
        ensures
            r == self.path,
    {
        self.path
    }
}

impl<const D: u8, T> LedgerHistoricMerkleTree<D, T> {
    /// The tree at this path.
    pub fn at_path(path: FieldPath) -> (r: Self)
        ensures
            r.path == path,
    {
        LedgerHistoricMerkleTree { path, holds: PhantomData }
    }

    /// The tree that is body field `start` under `layout`.
    pub fn at_layout(layout: BlockLayout, start: usize) -> (r: Self)
        requires
            start < layout.total() <= MAX_FIELDS,
        ensures
            r.path@ == layout.path(start as nat),
    {
        LedgerHistoricMerkleTree { path: FieldPath::in_layout(layout, start), holds: PhantomData }
    }

    /// Where it is.
    pub fn field_path(&self) -> (r: FieldPath)
        ensures
            r == self.path,
    {
        self.path
    }
}

impl LedgerField {
    /// The field at this path.
    pub fn at_path(path: FieldPath) -> (r: Self)
        ensures
            r.path == path,
    {
        LedgerField { path }
    }

    /// The field that is body field `start` under `layout`.
    pub fn at_layout(layout: BlockLayout, start: usize) -> (r: Self)
        requires
            start < layout.total() <= MAX_FIELDS,
        ensures
            r.path@ == layout.path(start as nat),
    {
        LedgerField { path: FieldPath::in_layout(layout, start) }
    }

    /// Where it is.
    pub fn field_path(&self) -> (r: FieldPath)
        ensures
            r == self.path,
    {
        self.path
    }
}

// ---- widths ---------------------------------------------------------------------------

impl<T> LedgerWidth for LedgerCell<T> {
    const WIDTH: usize = 1;

    const PLACEMENT: Placement = Placement::Body;

    open spec fn settles(kind: u8) -> bool {
        false
    }

    fn kinds() -> (r: Vec<u8>) {
        Vec::new()
    }
}

impl LedgerWidth for LedgerCounter {
    const WIDTH: usize = 1;

    const PLACEMENT: Placement = Placement::Body;

    open spec fn settles(kind: u8) -> bool {
        false
    }

    fn kinds() -> (r: Vec<u8>) {
        Vec::new()
    }
}

impl<K, V, P> LedgerWidth for LedgerMap<K, V, P> {
    const WIDTH: usize = 1;

    const PLACEMENT: Placement = Placement::Body;

    open spec fn settles(kind: u8) -> bool {
        false
    }

    fn kinds() -> (r: Vec<u8>) {
        Vec::new()
    }
}

impl<T> LedgerWidth for LedgerSet<T> {
    const WIDTH: usize = 1;

    const PLACEMENT: Placement = Placement::Body;

    open spec fn settles(kind: u8) -> bool {
        false
    }

    fn kinds() -> (r: Vec<u8>) {
        Vec::new()
    }
}

impl<T> LedgerWidth for LedgerList<T> {
    const WIDTH: usize = 1;

    const PLACEMENT: Placement = Placement::Body;

    open spec fn settles(kind: u8) -> bool {
        false
    }

    fn kinds() -> (r: Vec<u8>) {
        Vec::new()
    }
}

impl<const D: u8, T> LedgerWidth for LedgerMerkleTree<D, T> {
    const WIDTH: usize = 1;

    const PLACEMENT: Placement = Placement::Body;

    open spec fn settles(kind: u8) -> bool {
        false
    }

    fn kinds() -> (r: Vec<u8>) {
        Vec::new()
    }
}

impl<const D: u8, T> LedgerWidth for LedgerHistoricMerkleTree<D, T> {
    const WIDTH: usize = 1;

    const PLACEMENT: Placement = Placement::Body;

    open spec fn settles(kind: u8) -> bool {
        false
    }

    fn kinds() -> (r: Vec<u8>) {
        Vec::new()
    }
}

impl LedgerWidth for LedgerField {
    const WIDTH: usize = 1;

    const PLACEMENT: Placement = Placement::Body;

    open spec fn settles(kind: u8) -> bool {
        false
    }

    fn kinds() -> (r: Vec<u8>) {
        Vec::new()
    }
}

impl<T> sealed::HeaderField for LedgerCell<T> {

}

impl sealed::HeaderField for LedgerCounter {

}

impl<K, V, P> sealed::HeaderField for LedgerMap<K, V, P> {

}

impl<T> sealed::HeaderField for LedgerSet<T> {

}

impl<T> sealed::HeaderField for LedgerList<T> {

}

impl<const D: u8, T> sealed::HeaderField for LedgerMerkleTree<D, T> {

}

impl<const D: u8, T> sealed::HeaderField for LedgerHistoricMerkleTree<D, T> {

}

impl sealed::HeaderField for LedgerField {

}

impl<T> HeaderField for LedgerCell<T> {
    proof fn is_one_field() {
    }
}

impl HeaderField for LedgerCounter {
    proof fn is_one_field() {
    }
}

impl<K, V, P> HeaderField for LedgerMap<K, V, P> {
    proof fn is_one_field() {
    }
}

impl<T> HeaderField for LedgerSet<T> {
    proof fn is_one_field() {
    }
}

impl<T> HeaderField for LedgerList<T> {
    proof fn is_one_field() {
    }
}

impl<const D: u8, T> HeaderField for LedgerMerkleTree<D, T> {
    proof fn is_one_field() {
    }
}

impl<const D: u8, T> HeaderField for LedgerHistoricMerkleTree<D, T> {
    proof fn is_one_field() {
    }
}

impl HeaderField for LedgerField {
    proof fn is_one_field() {
    }
}

// ---- initial values ---------------------------------------------------------------------

/// The empty list: `[null, null, 0]`.
pub open spec fn empty_list_tree() -> Tree {
    Tree::Array(seq![Tree::Null, Tree::Null, Tree::Cell(number(0, 8))])
}

/// The blank tree and its next index: `[blank tree, 0]`.
pub open spec fn empty_merkle_tree(height: u8) -> Tree {
    Tree::Array(
        seq![
            Tree::Merkle { height, leaves: Map::empty() },
            Tree::Cell(number(0, 8)),
        ],
    )
}

/// The root of a blank Merkle tree of any height: the field's zero.
pub open spec fn blank_root() -> Aligned {
    Aligned {
        value: seq![Seq::<u8>::empty()],
        alignment: seq![Segment::Atom(AlignmentAtom::Field)],
    }
}

/// The blank tree, its next index and its past roots: `[blank tree, 0, {blank
/// root -> null}]`.
pub open spec fn empty_historic_tree(height: u8) -> Tree {
    Tree::Array(
        seq![
            Tree::Merkle { height, leaves: Map::empty() },
            Tree::Cell(number(0, 8)),
            Tree::Mapping(Map::empty().insert(blank_root(), Tree::Null)),
        ],
    )
}

/// The empty map.
pub fn empty_map() -> (r: StateValue)
    ensures
        r@ == Tree::Mapping(Map::empty()),
{
    let entries: Vec<(AlignedValue, StateValue)> = Vec::new();
    assert(entries_of(entries@) == Map::<Aligned, Tree>::empty());
    StateValue::Mapping(entries)
}

/// The empty list.
pub fn empty_list() -> (r: StateValue)
    ensures
        r@ == empty_list_tree(),
{
    let mut items: Vec<StateValue> = Vec::new();
    items.push(StateValue::Null);
    items.push(StateValue::Null);
    items.push(StateValue::Cell(store_number(0, 8)));
    let r = array_of(items);
    assert(r@->Array_0 =~= empty_list_tree()->Array_0);
    r
}

/// A Merkle tree slot with nothing in it.
pub fn empty_merkle_tree_value(height: u8) -> (r: StateValue)
    ensures
        r@ == empty_merkle_tree(height),
{
    let mut items: Vec<StateValue> = Vec::new();
    items.push(StateValue::BoundedMerkleTree(MerkleTree::blank(height)));
    items.push(StateValue::Cell(store_number(0, 8)));
    let r = array_of(items);
    assert(r@->Array_0 =~= empty_merkle_tree(height)->Array_0);
    r
}

/// A historic Merkle tree slot with nothing in it.
pub fn historic_merkle_tree_reset_value(height: u8) -> (r: StateValue)
    ensures
        r@ == empty_historic_tree(height),
{
    let mut root_value: Vec<Vec<u8>> = Vec::new();
    root_value.push(Vec::new());
    let mut root_alignment: Vec<AlignmentSegment> = Vec::new();
    root_alignment.push(AlignmentSegment::Atom(AlignmentAtom::Field));
    let root = AlignedValue { value: root_value, alignment: root_alignment };
    assert(root@ =~= blank_root());
    let mut past: Vec<(AlignedValue, StateValue)> = Vec::new();
    past.push((root, StateValue::Null));
    proof {
        assert(past@.drop_last() =~= Seq::<(AlignedValue, StateValue)>::empty());
        assert(entries_of(past@.drop_last()) == Map::<Aligned, Tree>::empty());
        assert(past@.last().0@ == blank_root());
        assert(past@.last().1@ == Tree::Null);
        assert(entries_of(past@) == Map::<Aligned, Tree>::empty().insert(blank_root(), Tree::Null));
    }
    let mut items: Vec<StateValue> = Vec::new();
    items.push(StateValue::BoundedMerkleTree(MerkleTree::blank(height)));
    items.push(StateValue::Cell(store_number(0, 8)));
    items.push(StateValue::Mapping(past));
    let r = array_of(items);
    assert(r@->Array_0 =~= empty_historic_tree(height)->Array_0);
    r
}

/// One value at one path.
pub open spec fn one_slot(path: FieldPath, value: Tree) -> Seq<Contribution> {
    seq![Contribution { path: path@, value, sealed: false }]
}

/// Declares one slot.
fn contribute_one(state: &mut StateBuilder, path: FieldPath, value: StateValue) -> (r: Result<
    (),
    StateRefusal,
>)
    requires
        old(state).wf(),
    ensures
        final(state).wf(),
        final(state)@ == crate::state::contributed(old(state)@, one_slot(path, value@)).0,
        r == match crate::state::contributed(old(state)@, one_slot(path, value@)).1 {
            None => Ok::<(), StateRefusal>(()),
            Some(refusal) => Err(refusal),
        },
{
    proof {
        lemma_one_contribution(
            state@,
            Contribution { path: path@, value: value@, sealed: false },
        );
    }
    state.slot(path, value)
}

impl<T: LedgerRepr> InitialState for LedgerCell<T> {
    open spec fn ready(&self) -> bool {
        true
    }

    open spec fn contributions(&self) -> Seq<Contribution> {
        one_slot(self.path, Tree::Cell(stored_default::<T>()))
    }

    fn contribute(&self, state: &mut StateBuilder) -> (r: Result<(), StateRefusal>) {
        contribute_one(state, self.path, StateValue::Cell(default_stored::<T>()))
    }
}

impl InitialState for LedgerCounter {
    open spec fn ready(&self) -> bool {
        true
    }

    open spec fn contributions(&self) -> Seq<Contribution> {
        one_slot(self.path, Tree::Cell(number(0, 8)))
    }

    fn contribute(&self, state: &mut StateBuilder) -> (r: Result<(), StateRefusal>) {
        contribute_one(state, self.path, StateValue::Cell(store_number(0, 8)))
    }
}

impl<K, V> InitialState for LedgerMap<K, V, FieldPath> {
    open spec fn ready(&self) -> bool {
        true
    }

    open spec fn contributions(&self) -> Seq<Contribution> {
        one_slot(self.path, Tree::Mapping(Map::empty()))
    }

    fn contribute(&self, state: &mut StateBuilder) -> (r: Result<(), StateRefusal>) {
        contribute_one(state, self.path, empty_map())
    }
}

impl<T> InitialState for LedgerSet<T> {
    open spec fn ready(&self) -> bool {
        true
    }

    open spec fn contributions(&self) -> Seq<Contribution> {
        one_slot(self.path, Tree::Mapping(Map::empty()))
    }

    fn contribute(&self, state: &mut StateBuilder) -> (r: Result<(), StateRefusal>) {
        contribute_one(state, self.path, empty_map())
    }
}

impl<T> InitialState for LedgerList<T> {
    open spec fn ready(&self) -> bool {
        true
    }

    open spec fn contributions(&self) -> Seq<Contribution> {
        one_slot(self.path, empty_list_tree())
    }

    fn contribute(&self, state: &mut StateBuilder) -> (r: Result<(), StateRefusal>) {
        contribute_one(state, self.path, empty_list())
    }
}

impl<const D: u8, T> InitialState for LedgerMerkleTree<D, T> {
    open spec fn ready(&self) -> bool {
        true
    }

    open spec fn contributions(&self) -> Seq<Contribution> {
        one_slot(self.path, empty_merkle_tree(D))
    }

    fn contribute(&self, state: &mut StateBuilder) -> (r: Result<(), StateRefusal>) {
        contribute_one(state, self.path, empty_merkle_tree_value(D))
    }
}

impl<const D: u8, T> InitialState for LedgerHistoricMerkleTree<D, T> {
    open spec fn ready(&self) -> bool {
        true
    }

    open spec fn contributions(&self) -> Seq<Contribution> {
        one_slot(self.path, empty_historic_tree(D))
    }

    fn contribute(&self, state: &mut StateBuilder) -> (r: Result<(), StateRefusal>) {
        contribute_one(state, self.path, historic_merkle_tree_reset_value(D))
    }
}

impl InitialState for LedgerField {
    open spec fn ready(&self) -> bool {
        true
    }

    open spec fn contributions(&self) -> Seq<Contribution> {
        one_slot(self.path, Tree::Null)
    }

    fn contribute(&self, state: &mut StateBuilder) -> (r: Result<(), StateRefusal>) {
        contribute_one(state, self.path, StateValue::Null)
    }
}

// ---- a block's rules ---------------------------------------------------------------------

/// Why a block is refused.
#[derive(Clone, Copy, PartialEq, Eq, Structural, Debug)]
pub enum BlockRefusal {
    /// Two fields claim `root[0]`.
    TwoStandards,
    /// Two slots settle under one response kind.
    KindTwice,
}

impl BlockRefusal {
    /// The rule, in words.
    pub fn message(&self) -> (r: &'static str)
        ensures
            r@ == match *self {
                BlockRefusal::TwoStandards => "one standard per ledger block: two of its fields claim root[0]"@,
                BlockRefusal::KindTwice => "two slots of one ledger block settle under the same response kind"@,
            },
    {
        match self {
            BlockRefusal::TwoStandards => "one standard per ledger block: two of its fields claim root[0]",
            BlockRefusal::KindTwice => "two slots of one ledger block settle under the same response kind",
        }
    }
}

/// How many of these slots claim `root[0]`.
pub open spec fn header_count(placements: Seq<Placement>) -> nat
    decreases placements.len(),
{
    if placements.len() == 0 {
        0
    } else {
        header_count(placements.drop_last()) + if placements.last() == Placement::RootHeader {
            1nat
        } else {
            0nat
        }
    }
}

/// How many standards a block embeds; refuses more than one.
pub fn standards(placements: &[Placement]) -> (r: Result<usize, BlockRefusal>)
    ensures
        match r {
            Ok(n) => n <= 1 && n == header_count(placements@),
            Err(refusal) => refusal == BlockRefusal::TwoStandards && header_count(placements@) > 1,
        },
{
    let mut n: usize = 0;
    let mut i: usize = 0;
    while i < placements.len()
        invariant
            i <= placements@.len(),
            n <= i,
            n == header_count(placements@.take(i as int)),
        decreases placements@.len() - i,
    {
        proof {
            assert(placements@.take(i + 1).drop_last() =~= placements@.take(i as int));
        }
        if placements[i].is_root_header() {
            n += 1;
        }
        i += 1;
    }
    assert(placements@.take(i as int) =~= placements@);
    if n > 1 {
        Err(BlockRefusal::TwoStandards)
    } else {
        Ok(n)
    }
}

/// The body fields that the first `n` slots of a block take up: where the next one
/// starts.
pub open spec fn width_sum(widths: Seq<usize>, n: int) -> nat
    decreases n,
{
    if n <= 0 {
        0
    } else {
        width_sum(widths, n - 1) + widths[n - 1] as nat
    }
}

/// Whether a layout is that of a block with slots of these widths at these
/// placements.
pub open spec fn lays_out(
    layout: BlockLayout,
    widths: Seq<usize>,
    placements: Seq<Placement>,
) -> bool {
    &&& layout.total() == width_sum(widths, widths.len() as int)
    &&& layout.has_header() <==> header_count(placements) == 1
}

/// The position of slot `i` of a block once another is declared at `p`.
pub open spec fn shifted(i: int, p: int) -> int {
    if i < p {
        i
    } else {
        i + 1
    }
}

proof fn lemma_width_sum_around_a_standard(widths: Seq<usize>, p: int, n: int)
    requires
        0 <= p <= widths.len(),
        0 <= n <= widths.len() + 1,
    ensures
        width_sum(widths.insert(p, 0), n) == width_sum(
            widths,
            if n <= p {
                n
            } else {
                n - 1
            },
        ),
    decreases n,
{
    if n > 0 {
        lemma_width_sum_around_a_standard(widths, p, n - 1);
    }
}

proof fn lemma_one_more_standard(placements: Seq<Placement>, p: int)
    requires
        0 <= p <= placements.len(),
    ensures
        header_count(placements.insert(p, Placement::RootHeader)) == header_count(placements) + 1,
    decreases placements.len(),
{
    let more = placements.insert(p, Placement::RootHeader);
    if p == placements.len() {
        assert(more.drop_last() =~= placements);
    } else {
        assert(more.drop_last() =~= placements.drop_last().insert(p, Placement::RootHeader));
        lemma_one_more_standard(placements.drop_last(), p);
    }
}

/// Where a standard is declared does not matter: first, in the middle or last, it
/// takes up none of the body's fields, the block embeds as many standards, and
/// every field of every other slot starts where it did and has the same path.
pub proof fn law_where_a_standard_is_declared_does_not_matter(
    widths: Seq<usize>,
    placements: Seq<Placement>,
    p: int,
    q: int,
    one: BlockLayout,
    other: BlockLayout,
    i: int,
    k: nat,
)
    requires
        widths.len() == placements.len(),
        0 <= p <= widths.len(),
        0 <= q <= widths.len(),
        lays_out(one, widths.insert(p, 0), placements.insert(p, Placement::RootHeader)),
        lays_out(other, widths.insert(q, 0), placements.insert(q, Placement::RootHeader)),
        0 <= i < widths.len(),
        k < widths[i],
    ensures
        header_count(placements.insert(p, Placement::RootHeader)) == header_count(
            placements.insert(q, Placement::RootHeader),
        ),
        one.total() == other.total() == width_sum(widths, widths.len() as int),
        one.has_header() == other.has_header(),
        width_sum(widths.insert(p, 0), shifted(i, p)) == width_sum(widths, i),
        width_sum(widths.insert(q, 0), shifted(i, q)) == width_sum(widths, i),
        one.path(width_sum(widths.insert(p, 0), shifted(i, p)) + k) == other.path(
            width_sum(widths.insert(q, 0), shifted(i, q)) + k,
        ),
{
    lemma_one_more_standard(placements, p);
    lemma_one_more_standard(placements, q);
    lemma_width_sum_around_a_standard(widths, p, widths.len() as int + 1);
    lemma_width_sum_around_a_standard(widths, q, widths.len() as int + 1);
    lemma_width_sum_around_a_standard(widths, p, shifted(i, p));
    lemma_width_sum_around_a_standard(widths, q, shifted(i, q));
}

/// Whether two slots share a response kind.
pub open spec fn kind_twice(kinds: Seq<&[u8]>) -> bool {
    exists|i: int, j: int, a: int, b: int|
        0 <= i < j < kinds.len() && 0 <= a < kinds[i]@.len() && 0 <= b < kinds[j]@.len() && #[trigger] kinds[i]@[a]
            == #[trigger] kinds[j]@[b]
}

/// Refuses two slots of one block that settle under one response kind.
pub fn assert_distinct_kinds(kinds: &[&[u8]]) -> (r: Result<(), BlockRefusal>)
    ensures
        r == if kind_twice(kinds@) {
            Err(BlockRefusal::KindTwice)
        } else {
            Ok::<(), BlockRefusal>(())
        },
{
    let mut j: usize = 0;
    while j < kinds.len()
        invariant
            j <= kinds@.len(),
            forall|i: int, k: int, a: int, b: int|
                0 <= i < k < j && 0 <= a < kinds@[i]@.len() && 0 <= b < kinds@[k]@.len()
                    ==> #[trigger] kinds@[i]@[a] != #[trigger] kinds@[k]@[b],
        decreases kinds@.len() - j,
    {
        let mut i: usize = 0;
        while i < j
            invariant
                i <= j < kinds@.len(),
                forall|h: int, a: int, b: int|
                    0 <= h < i && 0 <= a < kinds@[h]@.len() && 0 <= b < kinds@[j as int]@.len()
                        ==> #[trigger] kinds@[h]@[a] != #[trigger] kinds@[j as int]@[b],
            decreases j - i,
        {
            let mut a: usize = 0;
            while a < kinds[i].len()
                invariant
                    i < j < kinds@.len(),
                    a <= kinds@[i as int]@.len(),
                    forall|c: int, b: int|
                        0 <= c < a && 0 <= b < kinds@[j as int]@.len()
                            ==> #[trigger] kinds@[i as int]@[c] != #[trigger] kinds@[j as int]@[b],
                decreases kinds@[i as int]@.len() - a,
            {
                let mut b: usize = 0;
                while b < kinds[j].len()
                    invariant
                        i < j < kinds@.len(),
                        a < kinds@[i as int]@.len(),
                        b <= kinds@[j as int]@.len(),
                        forall|d: int|
                            0 <= d < b ==> kinds@[i as int]@[a as int] != #[trigger] kinds@[j as int]@[d],
                    decreases kinds@[j as int]@.len() - b,
                {
                    if kinds[i][a] == kinds[j][b] {
                        assert(kinds@[i as int]@[a as int] == kinds@[j as int]@[b as int]);
                        return Err(BlockRefusal::KindTwice);
                    }
                    b += 1;
                }
                a += 1;
            }
            i += 1;
        }
        j += 1;
    }
    Ok(())
}

/// Two fields of a block are two slots: paths below the one part from paths
/// below the other.
pub proof fn law_fields_part(
    layout: BlockLayout,
    i: nat,
    j: nat,
    below_i: Seq<Aligned>,
    below_j: Seq<Aligned>,
)
    requires
        i < layout.total() <= MAX_FIELDS,
        j < layout.total(),
        i != j,
    ensures
        part(layout.field(i).keys() + below_i, layout.field(j).keys() + below_j),
{
    if i < j {
        lemma_earlier_field_parts(layout, i, j, below_i, below_j);
    } else {
        lemma_earlier_field_parts(layout, j, i, below_j, below_i);
        let (a, b) = (layout.field(i).keys() + below_i, layout.field(j).keys() + below_j);
        let k = choose|k: int|
            0 <= k < b.len() && k < a.len() && b.take(k) == a.take(k) && #[trigger] b[k] != a[k]
                && as_u64(b[k]) != as_u64(a[k]);
        assert(a[k] != b[k]);
    }
}

proof fn lemma_earlier_field_parts(
    layout: BlockLayout,
    i: nat,
    j: nat,
    below_i: Seq<Aligned>,
    below_j: Seq<Aligned>,
)
    requires
        i < j < layout.total() <= MAX_FIELDS,
    ensures
        part(layout.field(i).keys() + below_i, layout.field(j).keys() + below_j),
{
    let n = layout.total();
    law_paths_have_one_depth(n, i);
    law_paths_have_one_depth(n, j);
    law_depth_by_width(n);
    law_paths_follow_declaration_order(n, i, j);
    let (p, q) = (field_path(n, i), field_path(n, j));
    let (x, y) = (layout.path(i), layout.path(j));
    let k = choose|k: int|
        0 <= k < p.len() && k < q.len() && #[trigger] p[k] < q[k] && p.take(k) == q.take(k);
    assert(layout.field(i)@ =~= x);
    assert(layout.field(j)@ =~= y);
    assert(x[k] < y[k]);
    assert(x.take(k) =~= y.take(k)) by {
        assert forall|m: int| 0 <= m < k implies x[m] == y[m] by {
            assert(p.take(k)[m] == q.take(k)[m]);
        }
    }
    let (a, b) = (layout.field(i).keys() + below_i, layout.field(j).keys() + below_j);
    assert(a.take(k) =~= b.take(k)) by {
        assert forall|m: int| 0 <= m < k implies a[m] == b[m] by {
            assert(x.take(k)[m] == y.take(k)[m]);
        }
    }
    assert(capacity(1) == 256) by {
        reveal_with_fuel(capacity, 2);
    }
    law_number_round_trip(x[k] as u64, 1);
    law_number_round_trip(y[k] as u64, 1);
    assert(a[k] == number(x[k] as nat, 1));
    assert(b[k] == number(y[k] as nat, 1));
    assert(a[k] != b[k]);
}

// ---- what a block starts as ---------------------------------------------------------------------

/// The steps of a declared field are its positions, as the ledger counts them.
pub proof fn law_steps_are_positions(path: FieldPath, k: int)
    requires
        0 <= k < path@.len(),
    ensures
        path.keys().len() == path@.len(),
        as_u64(path.keys()[k]) == Some(path@[k] as u64),
{
    assert(capacity(1) == 256) by {
        reveal_with_fuel(capacity, 2);
    }
    law_number_round_trip(path@[k] as u64, 1);
}

/// The node at a declared field's path is what the ledger finds there.
pub proof fn law_fields_are_found_at_their_paths(tree: Tree, path: Seq<u8>)
    requires
        tree.at(path) is Some,
    ensures
        lookup(tree, field_steps(path)) == tree.at(path),
    decreases path.len(),
{
    if path.len() > 0 {
        assert(capacity(1) == 256) by {
            reveal_with_fuel(capacity, 2);
        }
        law_number_round_trip(path[0] as u64, 1);
        assert(field_steps(path).skip(1) =~= field_steps(path.skip(1)));
        assert(field_steps(path)[0] == number(path[0] as nat, 1));
        law_fields_are_found_at_their_paths(tree->Array_0[path[0] as int], path.skip(1));
    }
}

/// What the empty containers hold: a list no head, no tail and the length zero; a
/// tree no leaf and the next index zero; and one that keeps its past roots the root
/// of no leaves, the field's zero, and no other.
pub proof fn law_empty_containers(height: u8, root: Aligned)
    ensures
        empty_list_tree() matches Tree::Array(list) && list.len() == 3 && list[0] == Tree::Null
            && list[1] == Tree::Null && list[2] == Tree::Cell(number(0, 8)),
        empty_merkle_tree(height) matches Tree::Array(items) && items.len() == 2 && (
        items[0] matches Tree::Merkle { height: h, leaves } && h == height && leaves
            == Map::<u64, Seq<u8>>::empty()) && items[1] == Tree::Cell(number(0, 8)),
        empty_historic_tree(height) matches Tree::Array(items) && items.len() == 3 && (
        items[0] matches Tree::Merkle { height: h, leaves } && h == height && leaves
            == Map::<u64, Seq<u8>>::empty()) && items[1] == Tree::Cell(number(0, 8)) && (
        items[2] matches Tree::Mapping(roots) && (roots.contains_key(root) <==> root.value == seq![
            Seq::<u8>::empty(),
        ] && root.alignment == seq![Segment::Atom(AlignmentAtom::Field)]) && (roots.contains_key(
            root,
        ) ==> roots[root] == Tree::Null)),
{
    assert(root == blank_root() <==> root.value == blank_root().value && root.alignment
        == blank_root().alignment);
}

/// What each slot starts as: one value at its own path, which may be written
/// later.
pub proof fn law_slots_start_empty<T: LedgerRepr, K, V, const D: u8>(
    cell: LedgerCell<T>,
    counter: LedgerCounter,
    map: LedgerMap<K, V, FieldPath>,
    set: LedgerSet<T>,
    list: LedgerList<T>,
    tree: LedgerMerkleTree<D, T>,
    historic: LedgerHistoricMerkleTree<D, T>,
    field: LedgerField,
)
    ensures
        cell.contributions() == seq![
            Contribution {
                path: cell.path@,
                value: Tree::Cell(stored_default::<T>()),
                sealed: false,
            },
        ],
        counter.contributions() == seq![
            Contribution {
                path: counter.path@,
                value: Tree::Cell(number(0, 8)),
                sealed: false,
            },
        ],
        map.contributions() == seq![
            Contribution { path: map.path@, value: Tree::Mapping(Map::empty()), sealed: false },
        ],
        set.contributions() == seq![
            Contribution { path: set.path@, value: Tree::Mapping(Map::empty()), sealed: false },
        ],
        list.contributions() == seq![
            Contribution { path: list.path@, value: empty_list_tree(), sealed: false },
        ],
        tree.contributions() == seq![
            Contribution { path: tree.path@, value: empty_merkle_tree(D), sealed: false },
        ],
        historic.contributions() == seq![
            Contribution { path: historic.path@, value: empty_historic_tree(D), sealed: false },
        ],
        field.contributions() == seq![
            Contribution { path: field.path@, value: Tree::Null, sealed: false },
        ],
{
}

/// How standards are counted: none where no slot claims `root[0]`, and more than
/// one exactly where two do.
pub proof fn law_standards_are_counted(placements: Seq<Placement>)
    ensures
        header_count(placements) == 0 <==> forall|i: int|
            0 <= i < placements.len() ==> #[trigger] placements[i] == Placement::Body,
        header_count(placements) > 1 <==> exists|i: int, j: int|
            0 <= i < j < placements.len() && #[trigger] placements[i] == Placement::RootHeader
                && #[trigger] placements[j] == Placement::RootHeader,
    decreases placements.len(),
{
    if placements.len() > 0 {
        let (fewer, n) = (placements.drop_last(), placements.len() - 1);
        law_standards_are_counted(fewer);
        assert(placements.last() == placements[n]);
        assert forall|i: int| 0 <= i < n implies #[trigger] placements[i] == fewer[i] by {}
        if header_count(fewer) == 0 {
            assert forall|i: int| 0 <= i < n implies #[trigger] placements[i] == Placement::Body by {
                assert(fewer[i] == Placement::Body);
            }
        } else {
            let i = choose|i: int| 0 <= i < n && #[trigger] fewer[i] != Placement::Body;
            assert(placements[i] == Placement::RootHeader);
        }
        if header_count(fewer) > 1 {
            let (i, j) = choose|i: int, j: int|
                0 <= i < j < fewer.len() && #[trigger] fewer[i] == Placement::RootHeader
                    && #[trigger] fewer[j] == Placement::RootHeader;
            assert(placements[i] == Placement::RootHeader && placements[j]
                == Placement::RootHeader);
        } else {
            assert forall|i: int, j: int| 0 <= i < j < n implies !(#[trigger] placements[i]
                == Placement::RootHeader && #[trigger] placements[j] == Placement::RootHeader) by {
                assert(fewer[i] == placements[i] && fewer[j] == placements[j]);
            }
        }
    }
}

/// Two slots that settle under one kind are found, wherever they are declared, and
/// nothing else is.
pub proof fn law_shared_kinds_are_found(kinds: Seq<&[u8]>)
    ensures
        kind_twice(kinds) <==> exists|i: int, j: int, kind: u8|
            0 <= i < kinds.len() && 0 <= j < kinds.len() && i != j && #[trigger] kinds[i]@.contains(
                kind,
            ) && #[trigger] kinds[j]@.contains(kind),
{
    if kind_twice(kinds) {
        let (i, j, a, b) = choose|i: int, j: int, a: int, b: int|
            0 <= i < j < kinds.len() && 0 <= a < kinds[i]@.len() && 0 <= b < kinds[j]@.len()
                && #[trigger] kinds[i]@[a] == #[trigger] kinds[j]@[b];
        let kind = kinds[i]@[a];
        assert(kinds[i]@.contains(kind) && kinds[j]@.contains(kind));
    }
    if exists|i: int, j: int, kind: u8|
        0 <= i < kinds.len() && 0 <= j < kinds.len() && i != j && #[trigger] kinds[i]@.contains(kind)
            && #[trigger] kinds[j]@.contains(kind) {
        let (i, j, kind) = choose|i: int, j: int, kind: u8|
            0 <= i < kinds.len() && 0 <= j < kinds.len() && i != j && #[trigger] kinds[i]@.contains(
                kind,
            ) && #[trigger] kinds[j]@.contains(kind);
        let a = choose|a: int| 0 <= a < kinds[i]@.len() && kinds[i]@[a] == kind;
        let b = choose|b: int| 0 <= b < kinds[j]@.len() && kinds[j]@[b] == kind;
        if i < j {
            assert(kinds[i]@[a] == kinds[j]@[b]);
        } else {
            assert(kinds[j]@[b] == kinds[i]@[a]);
        }
    }
}

/// Where slots start: the first at nothing, and each next one after the width of
/// the one before it.
pub proof fn law_widths_add_up(widths: Seq<usize>, n: int)
    requires
        0 <= n < widths.len(),
    ensures
        width_sum(widths, 0) == 0,
        width_sum(widths, n + 1) == width_sum(widths, n) + widths[n],
{
}

/// The model of a step: a field's position as a byte, an entry's key as it is.
pub proof fn law_steps_by_kind(i: u8, key: AlignedValue)
    ensures
        as_u64(LedgerKey::Field(i)@) == Some(i as u64),
        LedgerKey::Field(i)@.alignment == seq![Segment::Atom(AlignmentAtom::Bytes { length: 1 })],
        LedgerKey::Value(key)@ == key@,
{
    assert(capacity(1) == 256) by {
        reveal_with_fuel(capacity, 2);
    }
    law_number_round_trip(i as u64, 1);
}

/// A single slot takes up one body field, and settles under no response kind.
pub proof fn law_a_slot_is_one_field<T, K, V, P, const D: u8>(kind: u8)
    ensures
        <LedgerCell<T> as LedgerWidth>::WIDTH == 1,
        <LedgerCounter as LedgerWidth>::WIDTH == 1,
        <LedgerMap<K, V, P> as LedgerWidth>::WIDTH == 1,
        <LedgerSet<T> as LedgerWidth>::WIDTH == 1,
        <LedgerList<T> as LedgerWidth>::WIDTH == 1,
        <LedgerMerkleTree<D, T> as LedgerWidth>::WIDTH == 1,
        <LedgerHistoricMerkleTree<D, T> as LedgerWidth>::WIDTH == 1,
        <LedgerField as LedgerWidth>::WIDTH == 1,
        !<LedgerCell<T> as LedgerWidth>::settles(kind),
        !<LedgerCounter as LedgerWidth>::settles(kind),
        !<LedgerMap<K, V, P> as LedgerWidth>::settles(kind),
        !<LedgerSet<T> as LedgerWidth>::settles(kind),
        !<LedgerList<T> as LedgerWidth>::settles(kind),
        !<LedgerMerkleTree<D, T> as LedgerWidth>::settles(kind),
        !<LedgerHistoricMerkleTree<D, T> as LedgerWidth>::settles(kind),
        !<LedgerField as LedgerWidth>::settles(kind),
{
}

} // verus!
