//! A contract's ledger state: a tree of arrays, maps, cells and Merkle trees.
use crate::fab::{copy_bytes, Aligned, AlignedValue};
use vstd::prelude::*;

verus! {

/// The ledger's Array bound.
pub const MAX_ARRAY: usize = 16;

/// A Merkle tree as the ledger holds one: its height, and the leaf hashes that
/// were written, by index. With none written it is the blank tree.
#[derive(Debug)]
pub struct MerkleTree {
    pub height: u8,
    pub leaves: Vec<(u64, Vec<u8>)>,
}

/// A node of a contract's state.
#[derive(Debug)]
pub enum StateValue {
    /// Nothing.
    Null,
    /// One stored value.
    Cell(AlignedValue),
    /// Entries by key; where a key occurs twice the later entry holds.
    Mapping(Vec<(AlignedValue, StateValue)>),
    /// At most sixteen nodes, by position.
    Array(Vec<StateValue>),
    /// A Merkle tree.
    BoundedMerkleTree(MerkleTree),
}

/// The model of a state.
pub enum Tree {
    Null,
    Cell(Aligned),
    Mapping(Map<Aligned, Tree>),
    Array(Seq<Tree>),
    Merkle { height: u8, leaves: Map<u64, Seq<u8>> },
}

/// The leaves of a Merkle tree by index; the later of two writes holds.
pub open spec fn leaves_of(leaves: Seq<(u64, Vec<u8>)>) -> Map<u64, Seq<u8>>
    decreases leaves.len(),
{
    if leaves.len() == 0 {
        Map::empty()
    } else {
        leaves_of(leaves.drop_last()).insert(leaves.last().0, leaves.last().1@)
    }
}

/// The entries of a map by key; the later of two entries holds.
pub open spec fn entries_of(entries: Seq<(AlignedValue, StateValue)>) -> Map<Aligned, Tree>
    decreases entries,
{
    if entries.len() == 0 {
        Map::empty()
    } else {
        entries_of(entries.drop_last()).insert(entries.last().0@, entries.last().1@)
    }
}

impl StateValue {
    pub open spec fn view(&self) -> Tree
        decreases self,
    {
        match *self {
            StateValue::Null => Tree::Null,
            StateValue::Cell(cell) => Tree::Cell(cell@),
            StateValue::Mapping(entries) => Tree::Mapping(entries_of(entries@)),
            StateValue::Array(items) => Tree::Array(
                Seq::new(
                    items@.len(),
                    |i: int|
                        if 0 <= i < items@.len() {
                            items@[i].view()
                        } else {
                            Tree::Null
                        },
                ),
            ),
            StateValue::BoundedMerkleTree(tree) => Tree::Merkle {
                height: tree.height,
                leaves: leaves_of(tree.leaves@),
            },
        }
    }
}

impl Tree {
    /// The node at `path`: an index into an array at every step.
    pub open spec fn at(self, path: Seq<u8>) -> Option<Tree>
        decreases path.len(),
    {
        if path.len() == 0 {
            Some(self)
        } else {
            match self {
                Tree::Array(items) if (path[0] as int) < items.len() => items[path[0] as int].at(
                    path.skip(1),
                ),
                _ => None,
            }
        }
    }
}

// ---- building ----------------------------------------------------------------

/// An array of these nodes.
pub fn array_of(items: Vec<StateValue>) -> (r: StateValue)
    ensures
        r@ == Tree::Array(Seq::new(items@.len(), |i: int| items@[i]@)),
{
    let r = StateValue::Array(items);
    assert(r@->Array_0 =~= Seq::new(items@.len(), |i: int| items@[i]@));
    r
}

impl MerkleTree {
    /// The blank tree.
    pub fn blank(height: u8) -> (r: Self)
        ensures
            r.height == height,
            leaves_of(r.leaves@) == Map::<u64, Seq<u8>>::empty(),
    {
        MerkleTree { height, leaves: Vec::new() }
    }

    fn copy(&self) -> (r: Self)
        ensures
            r.height == self.height,
            leaves_of(r.leaves@) == leaves_of(self.leaves@),
    {
        let mut leaves: Vec<(u64, Vec<u8>)> = Vec::new();
        let mut i: usize = 0;
        while i < self.leaves.len()
            invariant
                i <= self.leaves@.len(),
                leaves_of(leaves@) == leaves_of(self.leaves@.take(i as int)),
            decreases self.leaves@.len() - i,
        {
            let leaf = &self.leaves[i];
            let ghost before = leaves@;
            leaves.push((leaf.0, copy_bytes(leaf.1.as_slice())));
            proof {
                assert(leaves@.drop_last() =~= before);
                assert(self.leaves@.take(i + 1).drop_last() =~= self.leaves@.take(i as int));
            }
            i += 1;
        }
        assert(self.leaves@.take(i as int) =~= self.leaves@);
        MerkleTree { height: self.height, leaves }
    }
}

/// A copy of a map's entries.
fn copy_entries(entries: &Vec<(AlignedValue, StateValue)>) -> (r: Vec<(AlignedValue, StateValue)>)
    ensures
        entries_of(r@) == entries_of(entries@),
    decreases entries,
{
    let mut copied: Vec<(AlignedValue, StateValue)> = Vec::new();
    let mut i: usize = 0;
    while i < entries.len()
        invariant
            i <= entries@.len(),
            entries_of(copied@) == entries_of(entries@.take(i as int)),
        decreases entries@.len() - i,
    {
        let entry = &entries[i];
        let ghost before = copied@;
        proof {
            assert(decreases_to!(entries => entries@));
            assert(decreases_to!(entries@ => entries@[i as int]));
            assert(decreases_to!(entries@[i as int] => entries@[i as int].1));
        }
        copied.push((entry.0.copy(), entry.1.copy()));
        proof {
            assert(copied@.drop_last() =~= before);
            assert(entries@.take(i + 1).drop_last() =~= entries@.take(i as int));
        }
        i += 1;
    }
    assert(entries@.take(i as int) =~= entries@);
    copied
}

/// A copy of an array's nodes.
fn copy_items(items: &Vec<StateValue>) -> (r: Vec<StateValue>)
    ensures
        r@.len() == items@.len(),
        forall|j: int| 0 <= j < items@.len() ==> #[trigger] r@[j]@ == items@[j]@,
    decreases items,
{
    let mut copied: Vec<StateValue> = Vec::new();
    let mut i: usize = 0;
    while i < items.len()
        invariant
            i <= items@.len(),
            copied@.len() == i,
            forall|j: int| 0 <= j < i ==> #[trigger] copied@[j]@ == items@[j]@,
        decreases items@.len() - i,
    {
        proof {
            assert(decreases_to!(items => items@));
            assert(decreases_to!(items@ => items@[i as int]));
        }
        copied.push(items[i].copy());
        i += 1;
    }
    copied
}

impl StateValue {
    /// A copy of the node and everything under it.
    pub fn copy(&self) -> (r: Self)
        ensures
            r@ == self@,
        decreases self,
    {
        match self {
            StateValue::Null => StateValue::Null,
            StateValue::Cell(cell) => StateValue::Cell(cell.copy()),
            StateValue::Mapping(entries) => StateValue::Mapping(copy_entries(entries)),
            StateValue::Array(items) => {
                let copied = copy_items(items);
                let r = StateValue::Array(copied);
                proof {
                    assert forall|i: int| 0 <= i < items@.len() implies r@->Array_0[i]
                        == self@->Array_0[i] by {
                        assert(copied@[i]@ == items@[i]@);
                    }
                }
                assert(r@->Array_0 =~= self@->Array_0);
                r
            },
            StateValue::BoundedMerkleTree(tree) => StateValue::BoundedMerkleTree(tree.copy()),
        }
    }
}

// ---- what a tree holds ----------------------------------------------------------------------

/// Of two entries under one key the later one holds, and an entry leaves every
/// other key's as it was.
pub proof fn law_later_entry_holds(
    entries: Seq<(AlignedValue, StateValue)>,
    entry: (AlignedValue, StateValue),
    other: Aligned,
)
    ensures
        entries_of(entries.push(entry)).contains_key(entry.0@),
        entries_of(entries.push(entry))[entry.0@] == entry.1@,
        other != entry.0@ ==> (entries_of(entries.push(entry)).contains_key(other)
            <==> entries_of(entries).contains_key(other)),
        other != entry.0@ && entries_of(entries).contains_key(other) ==> entries_of(
            entries.push(entry),
        )[other] == entries_of(entries)[other],
        !entries_of(Seq::empty()).contains_key(other),
{
    assert(entries.push(entry).drop_last() =~= entries);
}

/// Of two leaves at one index the later one holds, and a leaf leaves every other
/// index as it was.
pub proof fn law_later_leaf_holds(leaves: Seq<(u64, Vec<u8>)>, leaf: (u64, Vec<u8>), other: u64)
    ensures
        leaves_of(leaves.push(leaf)).contains_key(leaf.0),
        leaves_of(leaves.push(leaf))[leaf.0] == leaf.1@,
        other != leaf.0 ==> (leaves_of(leaves.push(leaf)).contains_key(other) <==> leaves_of(
            leaves,
        ).contains_key(other)),
        other != leaf.0 && leaves_of(leaves).contains_key(other) ==> leaves_of(leaves.push(leaf))[
            other
        ] == leaves_of(leaves)[other],
        !leaves_of(Seq::empty()).contains_key(other),
{
    assert(leaves.push(leaf).drop_last() =~= leaves);
}

/// A path is walked step by step: the node at a longer path is an entry of the
/// node at the shorter one, and every step is into an array.
pub proof fn law_paths_are_walked(tree: Tree, path: Seq<u8>, i: u8)
    ensures
        tree.at(Seq::empty()) == Some(tree),
        tree.at(path.push(i)) == match tree.at(path) {
            Some(Tree::Array(items)) => if (i as int) < items.len() {
                Some(items[i as int])
            } else {
                None
            },
            _ => None,
        },
    decreases path.len(),
{
    if path.len() == 0 {
        assert(path.push(i).skip(1) =~= Seq::<u8>::empty());
        assert(path =~= Seq::<u8>::empty());
        if let Tree::Array(items) = tree {
            if (i as int) < items.len() {
                assert(items[i as int].at(Seq::empty()) == Some(items[i as int]));
            }
        }
    } else {
        assert(path.push(i).skip(1) =~= path.skip(1).push(i));
        if let Tree::Array(items) = tree {
            if (path[0] as int) < items.len() {
                law_paths_are_walked(items[path[0] as int], path.skip(1), i);
            }
        }
    }
}

/// The model of a node is the node of its kind, with what it holds.
pub proof fn law_nodes_by_kind(
    cell: AlignedValue,
    entries: Vec<(AlignedValue, StateValue)>,
    items: Vec<StateValue>,
    tree: MerkleTree,
    i: int,
)
    ensures
        StateValue::Null@ == Tree::Null,
        StateValue::Cell(cell)@ == Tree::Cell(cell@),
        StateValue::Mapping(entries)@ == Tree::Mapping(entries_of(entries@)),
        StateValue::Array(items)@ matches Tree::Array(nodes) && nodes.len() == items@.len() && (0
            <= i < items@.len() ==> nodes[i] == items@[i]@),
        StateValue::BoundedMerkleTree(tree)@ == (Tree::Merkle {
            height: tree.height,
            leaves: leaves_of(tree.leaves@),
        }),
{
}

} // verus!
