//! The discriminator: one generic, off-chain function from a contract's ledger
//! state to the 32 bytes at its first leaf, with no per-contract code.
//!
//! - From the root, follow index 0 while the node is an Array: at least one
//!   step and at most three.
//! - The node reached must be a Cell whose alignment is exactly one `bytes<32>`
//!   atom, holding one atom of at most 32 bytes.
//! - The atom is right-padded back to 32 bytes. That is the discriminator.
//! - Anything else has none.
//!
//! A discriminator is a claim, not proof: the deploy state is the deployer's.
use crate::fab::{
    padded, same_bytes, Aligned, AlignedValue, AlignmentAtom, AlignmentSegment, Segment,
};
use crate::header::{all_zero, pad32, LedgerHeader};
use crate::layout::{
    law_depth_by_width, law_paths_have_one_depth, BlockLayout, MAX_FIELDS, MAX_FIELD_PATH,
};
use crate::state::{laid_out, law_every_slot_is_at_its_path, state_tree, Declared};
use crate::value::{StateValue, Tree};
use midnight_base_crypto::fab::{AlignmentAtom as LedgerAtom, AlignmentSegment as LedgerSegment};
use midnight_onchain_state::state::{ContractState, StateValue as LedgerStateValue};
use midnight_serialize::Serializable;
use midnight_storage::db::InMemoryDB;
use vstd::prelude::*;

verus! {

/// The most index-0 steps a reader takes.
pub const MAX_STEPS: usize = 3;

/// The reader's bound is the layout's: it reaches every declared field.
pub proof fn law_reader_reaches_every_field(layout: BlockLayout, i: nat)
    requires
        i < layout.total() <= MAX_FIELDS,
    ensures
        layout.path(i).len() <= MAX_STEPS,
        MAX_STEPS == MAX_FIELD_PATH,
{
    law_paths_have_one_depth(layout.total(), i);
    law_depth_by_width(layout.total());
}

// ---- the rule -----------------------------------------------------------------

/// `k` times index 0.
pub open spec fn zeros(k: nat) -> Seq<u8> {
    Seq::new(k, |i: int| 0u8)
}

/// Whether a stored value is one `bytes<32>` atom of at most 32 bytes.
pub open spec fn is_bytes32(cell: Aligned) -> bool {
    &&& cell.alignment == seq![Segment::Atom(AlignmentAtom::Bytes { length: 32 })]
    &&& cell.value.len() == 1
    &&& cell.value[0].len() <= 32
}

/// The 32 bytes of a `bytes<32>` Cell `k` index-0 steps down.
pub open spec fn magic_at(tree: Tree, k: nat) -> Option<Seq<u8>> {
    match tree.at(zeros(k)) {
        Some(Tree::Cell(cell)) if is_bytes32(cell) => Some(padded(cell.value[0], 32)),
        _ => None,
    }
}

/// The 32 bytes at the first leaf: one, two or three steps down.
pub open spec fn discriminator_of(tree: Tree) -> Option<Seq<u8>> {
    if magic_at(tree, 1) is Some {
        magic_at(tree, 1)
    } else if magic_at(tree, 2) is Some {
        magic_at(tree, 2)
    } else {
        magic_at(tree, 3)
    }
}

proof fn lemma_zero_step(tree: Tree, k: nat)
    ensures
        tree.at(zeros(k + 1)) == match tree {
            Tree::Array(items) if items.len() > 0 => items[0].at(zeros(k)),
            _ => None,
        },
{
    assert(zeros(k + 1).skip(1) =~= zeros(k));
}

/// The first leaf decides alone: two states whose first entries agree have one
/// discriminator.
pub proof fn law_first_entry_decides(a: Seq<Tree>, b: Seq<Tree>)
    requires
        a.len() > 0,
        b.len() > 0,
        a[0] == b[0],
    ensures
        discriminator_of(Tree::Array(a)) == discriminator_of(Tree::Array(b)),
{
    lemma_zero_step(Tree::Array(a), 0);
    lemma_zero_step(Tree::Array(a), 1);
    lemma_zero_step(Tree::Array(a), 2);
    lemma_zero_step(Tree::Array(b), 0);
    lemma_zero_step(Tree::Array(b), 1);
    lemma_zero_step(Tree::Array(b), 2);
}

/// At most one depth holds a discriminator, so the order of the steps does not
/// matter.
pub proof fn law_one_depth_answers(tree: Tree, j: nat, k: nat)
    requires
        magic_at(tree, j) is Some,
        magic_at(tree, k) is Some,
    ensures
        j == k,
    decreases j,
{
    if j > 0 && k > 0 {
        lemma_zero_step(tree, (j - 1) as nat);
        lemma_zero_step(tree, (k - 1) as nat);
        law_one_depth_answers(tree->Array_0[0], (j - 1) as nat, (k - 1) as nat);
    } else if j > 0 {
        lemma_zero_step(tree, (j - 1) as nat);
    } else if k > 0 {
        lemma_zero_step(tree, (k - 1) as nat);
    }
}

/// What a discriminator is read from: a Cell one to three index-0 steps down, its
/// alignment one `bytes<32>` atom, holding one byte string of at most 32 bytes, and
/// those bytes with zeros behind them.
pub proof fn law_discriminator_is_the_first_leaf(tree: Tree, found: Seq<u8>)
    ensures
        discriminator_of(tree) == Some(found) <==> exists|cell: Aligned|
            (tree.at(seq![0u8]) == Some(Tree::Cell(cell)) || tree.at(seq![0u8, 0u8]) == Some(
                Tree::Cell(cell),
            ) || tree.at(seq![0u8, 0u8, 0u8]) == Some(Tree::Cell(cell))) && cell.alignment == seq![
                Segment::Atom(AlignmentAtom::Bytes { length: 32 }),
            ] && cell.value.len() == 1 && cell.value[0].len() <= 32 && found.len() == 32 && (forall|
                i: int,
            |
                0 <= i < 32 ==> #[trigger] found[i] == if i < cell.value[0].len() {
                    cell.value[0][i]
                } else {
                    0
                }),
{
    assert(zeros(1) =~= seq![0u8]);
    assert(zeros(2) =~= seq![0u8, 0u8]);
    assert(zeros(3) =~= seq![0u8, 0u8, 0u8]);
    if discriminator_of(tree) == Some(found) {
        let k: nat = if magic_at(tree, 1) is Some {
            1
        } else if magic_at(tree, 2) is Some {
            2
        } else {
            3
        };
        let cell = tree.at(zeros(k))->0->Cell_0;
        assert(tree.at(zeros(k)) == Some(Tree::Cell(cell)));
        assert(found == padded(cell.value[0], 32));
    }
    if exists|cell: Aligned|
        (tree.at(seq![0u8]) == Some(Tree::Cell(cell)) || tree.at(seq![0u8, 0u8]) == Some(
            Tree::Cell(cell),
        ) || tree.at(seq![0u8, 0u8, 0u8]) == Some(Tree::Cell(cell))) && #[trigger] is_bytes32(cell)
            && found == padded(cell.value[0], 32) {
        let cell = choose|cell: Aligned|
            (tree.at(seq![0u8]) == Some(Tree::Cell(cell)) || tree.at(seq![0u8, 0u8]) == Some(
                Tree::Cell(cell),
            ) || tree.at(seq![0u8, 0u8, 0u8]) == Some(Tree::Cell(cell))) && #[trigger] is_bytes32(
                cell,
            ) && found == padded(cell.value[0], 32);
        let k: nat = if tree.at(seq![0u8]) == Some(Tree::Cell(cell)) {
            1
        } else if tree.at(seq![0u8, 0u8]) == Some(Tree::Cell(cell)) {
            2
        } else {
            3
        };
        assert(magic_at(tree, k) == Some(found));
        if magic_at(tree, 1) is Some {
            law_one_depth_answers(tree, 1, k);
        }
        if magic_at(tree, 2) is Some {
            law_one_depth_answers(tree, 2, k);
        }
    }
    assert forall|cell: Aligned|
        cell.value.len() == 1 && cell.value[0].len() <= 32 && found.len() == 32 && (forall|i: int|
            0 <= i < 32 ==> #[trigger] found[i] == if i < cell.value[0].len() {
                cell.value[0][i]
            } else {
                0
            }) implies found == #[trigger] padded(cell.value[0], 32) by {
        assert(found =~= padded(cell.value[0], 32));
    }
}

/// A magic stored at the first leaf reads back: whatever else the block holds,
/// a state whose first leaf is the stored form of 32 bytes has those 32 bytes
/// as its discriminator.
pub proof fn law_stored_magic_reads_back(tree: Tree, k: nat, magic: Seq<u8>)
    requires
        magic.len() == 32,
        1 <= k <= 3,
        tree.at(zeros(k)) == Some(Tree::Cell(crate::fab::byte_string(magic, 32))),
    ensures
        discriminator_of(tree) == Some(magic),
{
    let cell = crate::fab::byte_string(magic, 32);
    crate::fab::law_padding_undoes_trimming(magic, 32);
    assert(padded(magic, 32) =~= magic);
    assert(magic_at(tree, k) == Some(magic));
    if magic_at(tree, 1) is Some {
        law_one_depth_answers(tree, 1, k);
    }
    if magic_at(tree, 2) is Some {
        law_one_depth_answers(tree, 2, k);
    }
}

/// What a standard is for: the deploy state of a block whose slots wrote a
/// magic, at `[0]` or at `[0, 0]`, has that magic as its discriminator,
/// whatever the other slots hold.
pub proof fn law_deploy_state_claims_its_standard(
    slots: Map<Seq<u8>, Declared>,
    path: Seq<u8>,
    magic: Seq<u8>,
)
    requires
        laid_out(slots),
        path == seq![0u8] || path == seq![0u8, 0u8],
        slots.contains_key(path),
        slots[path].value == Tree::Cell(crate::fab::byte_string(magic, 32)),
        magic.len() == 32,
    ensures
        discriminator_of(state_tree(slots)) == Some(magic),
{
    law_every_slot_is_at_its_path(slots, path);
    assert(path =~= zeros(path.len()));
    law_stored_magic_reads_back(state_tree(slots), path.len(), magic);
}

// ---- reading ------------------------------------------------------------------

/// The 32 bytes a stored value holds, where it is one `bytes<32>` atom.
pub fn bytes32_of(cell: &AlignedValue) -> (r: Option<[u8; 32]>)
    ensures
        match r {
            Some(bytes) => is_bytes32(cell@) && bytes@ == padded(cell@.value[0], 32),
            None => !is_bytes32(cell@),
        },
{
    if cell.alignment.len() != 1 {
        assert(cell@.alignment.len() != 1);
        return None;
    }
    assert(cell@.alignment[0] == cell.alignment@[0]@);
    match &cell.alignment[0] {
        AlignmentSegment::Atom(AlignmentAtom::Bytes { length }) if *length == 32 => {},
        _ => {
            return None;
        },
    }
    assert(cell@.alignment =~= seq![Segment::Atom(AlignmentAtom::Bytes { length: 32 })]);
    if cell.value.len() != 1 {
        return None;
    }
    let atom = &cell.value[0];
    assert(cell@.value[0] == atom@);
    if atom.len() > 32 {
        return None;
    }
    Some(pad32(atom.as_slice()))
}

/// The 32 bytes at `state`'s first leaf, or `None` when the first leaf is not
/// a single `bytes<32>` Cell.
pub fn discriminator(state: &StateValue) -> (r: Option<[u8; 32]>)
    ensures
        match r {
            Some(bytes) => discriminator_of(state@) == Some(bytes@),
            None => discriminator_of(state@) is None,
        },
{
    let mut node: &StateValue = state;
    let mut steps: usize = 0;
    assert(zeros(0) =~= Seq::<u8>::empty());
    loop
        invariant
            steps <= MAX_STEPS,
            state@.at(zeros(steps as nat)) == Some(node@),
            forall|k: nat| 1 <= k < steps ==> magic_at(state@, k) is None,
        ensures
            steps <= MAX_STEPS,
            !(node@ is Array),
            state@.at(zeros(steps as nat)) == Some(node@),
            forall|k: nat| 1 <= k < steps ==> magic_at(state@, k) is None,
        decreases MAX_STEPS - steps,
    {
        let items = match node {
            StateValue::Array(items) => items,
            _ => {
                break;
            },
        };
        assert(magic_at(state@, steps as nat) is None);
        if steps == MAX_STEPS {
            return None;
        }
        proof {
            lemma_descend(state@, steps as nat);
        }
        if items.len() == 0 {
            return None;
        }
        node = &items[0];
        steps += 1;
    }
    proof {
        lemma_below_a_leaf(state@, steps as nat);
    }
    if steps == 0 {
        return None;
    }
    match node {
        StateValue::Cell(cell) => bytes32_of(cell),
        _ => None,
    }
}

/// One more index-0 step from a node that is `k` steps down.
proof fn lemma_descend(tree: Tree, k: nat)
    requires
        tree.at(zeros(k)) is Some,
    ensures
        tree.at(zeros(k + 1)) == match tree.at(zeros(k))->0 {
            Tree::Array(items) if items.len() > 0 => Some(items[0]),
            _ => None,
        },
        tree.at(zeros(k + 1)) is None ==> forall|m: nat| m > k ==> (#[trigger] tree.at(zeros(m))) is None,
    decreases k,
{
    lemma_zero_step(tree, k);
    if k == 0 {
        assert(zeros(0) =~= Seq::<u8>::empty());
        if tree is Array && tree->Array_0.len() > 0 {
            assert(tree->Array_0[0].at(zeros(0)) == Some(tree->Array_0[0]));
        }
        assert forall|m: nat| m > k && tree.at(zeros(k + 1)) is None implies (#[trigger] tree.at(
            zeros(m),
        )) is None by {
            lemma_zero_step(tree, (m - 1) as nat);
        }
    } else {
        lemma_zero_step(tree, (k - 1) as nat);
        let next = tree->Array_0[0];
        lemma_descend(next, (k - 1) as nat);
        assert forall|m: nat| m > k && tree.at(zeros(k + 1)) is None implies (#[trigger] tree.at(
            zeros(m),
        )) is None by {
            lemma_zero_step(tree, (m - 1) as nat);
            assert(next.at(zeros((m - 1) as nat)) is None);
        }
    }
}

/// A node that is no array ends the walk.
proof fn lemma_below_a_leaf(tree: Tree, k: nat)
    requires
        tree.at(zeros(k)) is Some,
        !(tree.at(zeros(k))->0 is Array),
    ensures
        forall|m: nat| m > k ==> (#[trigger] tree.at(zeros(m))) is None,
{
    lemma_descend(tree, k);
}

/// Whether `state` carries the standard `S`'s magic at its first leaf. True
/// means the contract claims the standard, not that it implements it.
///
/// A magic that is all zero is what every contract that starts with an unset
/// `Bytes<32>` field carries, so no standard has one.
pub fn implements<S: LedgerHeader>(state: &StateValue) -> (r: bool)
    requires
        !all_zero(S::MAGIC@),
    ensures
        r == (discriminator_of(state@) == Some(S::MAGIC@)),
{
    match discriminator(state) {
        Some(bytes) => {
            let magic: [u8; 32] = S::MAGIC;
            same_bytes(bytes.as_slice(), magic.as_slice())
        },
        None => false,
    }
}

// ---- the ledger's own states -----------------------------------------------------

/// A node of a state as the ledger itself holds it: a
/// `midnight_onchain_state::state::StateValue`.
#[verifier::external_body]
pub struct LedgerState {
    node: LedgerStateValue<InMemoryDB>,
}

/// The error a ledger read reports (`std::io::Error`).
#[verifier::external_type_specification]
#[verifier::external_body]
pub struct ExIoError(std::io::Error);

/// What a ledger state node holds, as a tree.
pub uninterp spec fn ledger_tree(node: LedgerState) -> Tree;

/// The state a serialized, tagged contract state carries in its `data`; `None`
/// where the bytes are not one. `midnight_serialize` bounds how deep a value may
/// be nested by a constant of the build, 50 levels with debug assertions and 250
/// without: of bytes nested deeper than the first bound this is what the build at
/// hand answers.
pub uninterp spec fn contract_data(bytes: Seq<u8>) -> Option<Tree>;

/// `midnight_storage`'s `Array::get(0)` on an Array node: its first entry,
/// `None` inside where the Array is empty; `None` outside on any other node.
#[verifier::external_body]
fn array_head(node: &LedgerState) -> (r: Option<Option<LedgerState>>)
    ensures
        match ledger_tree(*node) {
            Tree::Array(items) if items.len() > 0 => r is Some && r->0 is Some && ledger_tree(
                r->0->0,
            ) == items[0],
            Tree::Array(items) => r == Some(None::<LedgerState>),
            _ => r is None,
        },
{
    match &node.node {
        LedgerStateValue::Array(items) => Some(items.get(0).map(|entry| LedgerState { node: entry.clone() })),
        _ => None,
    }
}

/// The stored value of a Cell node, atom by atom; `None` on any other node. A
/// choice of alignments is kept as `midnight_serialize` writes it.
#[verifier::external_body]
fn cell_value(node: &LedgerState) -> (r: Option<AlignedValue>)
    ensures
        match ledger_tree(*node) {
            Tree::Cell(cell) => r is Some && r->0@ == cell,
            _ => r is None,
        },
{
    let LedgerStateValue::Cell(cell) = &node.node else { return None };
    let alignment = cell.alignment.0.iter().map(|segment| match segment {
        LedgerSegment::Atom(LedgerAtom::Compress) => AlignmentSegment::Atom(AlignmentAtom::Compress),
        LedgerSegment::Atom(LedgerAtom::Field) => AlignmentSegment::Atom(AlignmentAtom::Field),
        LedgerSegment::Atom(LedgerAtom::Bytes { length }) => AlignmentSegment::Atom(AlignmentAtom::Bytes { length: *length }),
        LedgerSegment::Option(choices) => {
            let mut bytes = Vec::new();
            Serializable::serialize(choices, &mut bytes).expect("a Vec takes every write");
            AlignmentSegment::Choice(bytes)
        }
    }).collect();
    Some(AlignedValue { value: cell.value.0.iter().map(|atom| atom.0.clone()).collect(), alignment })
}

/// `midnight_serialize::tagged_deserialize` of a `ContractState`, and its
/// `data`. It checks the tag and every storage invariant and refuses trailing
/// bytes, so the answer is a function of the bytes.
#[verifier::external_body]
fn read_contract(bytes: &[u8]) -> (r: Result<LedgerState, std::io::Error>)
    ensures
        match r {
            Ok(state) => contract_data(bytes@) == Some(ledger_tree(state)),
            Err(_) => contract_data(bytes@) is None,
        },
{
    let contract: ContractState<InMemoryDB> = midnight_serialize::tagged_deserialize(bytes)?;
    Ok(LedgerState { node: contract.data.get_ref().clone() })
}

/// [`discriminator`] of a state as the ledger itself holds it.
fn ledger_discriminator(state: LedgerState) -> (r: Option<[u8; 32]>)
    ensures
        match r {
            Some(bytes) => discriminator_of(ledger_tree(state)) == Some(bytes@),
            None => discriminator_of(ledger_tree(state)) is None,
        },
{
    let ghost tree = ledger_tree(state);
    let mut node: LedgerState = state;
    let mut steps: usize = 0;
    assert(zeros(0) =~= Seq::<u8>::empty());
    loop
        invariant
            steps <= MAX_STEPS,
            tree.at(zeros(steps as nat)) == Some(ledger_tree(node)),
            tree == ledger_tree(state),
            forall|k: nat| 1 <= k < steps ==> magic_at(tree, k) is None,
        ensures
            steps <= MAX_STEPS,
            !(ledger_tree(node) is Array),
            tree.at(zeros(steps as nat)) == Some(ledger_tree(node)),
            forall|k: nat| 1 <= k < steps ==> magic_at(tree, k) is None,
        decreases MAX_STEPS - steps,
    {
        let head = match array_head(&node) {
            Some(head) => head,
            None => {
                break;
            },
        };
        assert(magic_at(tree, steps as nat) is None);
        if steps == MAX_STEPS {
            return None;
        }
        proof {
            lemma_descend(tree, steps as nat);
        }
        node = match head {
            Some(first) => first,
            None => {
                return None;
            },
        };
        steps += 1;
    }
    proof {
        lemma_below_a_leaf(tree, steps as nat);
    }
    if steps == 0 {
        return None;
    }
    match cell_value(&node) {
        Some(cell) => bytes32_of(&cell),
        None => None,
    }
}

/// The discriminator of a serialized, tagged contract state. `Err` when the
/// bytes are not one of this ledger version; `Ok(None)` when they are one whose
/// state has no discriminator.
pub fn contract_state_discriminator(bytes: &[u8]) -> (r: Result<Option<[u8; 32]>, std::io::Error>)
    ensures
        match contract_data(bytes@) {
            None => r is Err,
            Some(tree) => match r {
                Ok(Some(found)) => discriminator_of(tree) == Some(found@),
                Ok(None) => discriminator_of(tree) is None,
                Err(_) => false,
            },
        },
{
    match read_contract(bytes) {
        Ok(state) => Ok(ledger_discriminator(state)),
        Err(error) => Err(error),
    }
}

} // verus!
