//! The deploy state: a block's initial ledger state, built off-chain from its
//! layout.
//!
//! Every slot of a block contributes its initial value at its own path, and
//! [`StateBuilder::build`] assembles the tree: each Array as long as its
//! highest index plus one, every entry nothing contributed to Null.
//!
//! What a constructor would write besides is the deployer's:
//! [`StateBuilder::set`] replaces a declared slot's value and refuses anything
//! else (a path the block does not declare, another shape, the magic).
use crate::abi::{decimal, decimal_text};
use crate::derive::{has_text, lemma_found_at, lemma_has_text, lemma_parts_of_text};
use crate::fab::{byte_string, number, store_bytes, Aligned, AlignmentAtom, AlignmentSegment, Segment};
use crate::header::{all_zero, LedgerHeader, Magic};
use crate::layout::{before, FieldPath};
use crate::ledger::{empty_historic_tree, empty_list_tree, empty_merkle_tree};
use crate::value::{StateValue, Tree, MAX_ARRAY};
use crate::wire::{bytes_without_end, law_trimmed_is_the_bytes};
use vstd::prelude::*;

verus! {

// ---- the model ------------------------------------------------------------------

/// A declared slot: its initial value, and whether it is a standard's magic.
pub struct Declared {
    pub value: Tree,
    pub sealed: bool,
}

/// What a slot type writes: a value at a path.
pub struct Contribution {
    pub path: Seq<u8>,
    pub value: Tree,
    pub sealed: bool,
}

/// Why the builder refuses.
#[derive(Clone, Copy, PartialEq, Eq, Structural, Debug)]
pub enum StateRefusal {
    /// Two slots contributed overlapping paths.
    Overlap { declared: FieldPath, path: FieldPath },
    /// A second magic.
    SecondStandard,
    /// `set` at a path the block does not declare.
    NotASlot { path: FieldPath },
    /// `set` at a standard's magic.
    Sealed { path: FieldPath },
    /// `set` with a value of another shape.
    Shape { path: FieldPath },
    /// A node with more than sixteen entries.
    TooWide { entries: usize },
    /// The block embeds a standard, and none of its slots wrote a magic.
    MagicMissing,
    /// A slot wrote a magic, and the block embeds no standard.
    MagicUnclaimed,
}

/// The first `n` positions of a path, in words.
pub open spec fn positions_text(path: Seq<u8>, n: int) -> Seq<char>
    decreases n,
{
    if n <= 0 {
        Seq::empty()
    } else if n == 1 {
        decimal(path[0] as nat)
    } else {
        positions_text(path, n - 1) + ", "@ + decimal(path[n - 1] as nat)
    }
}

/// A path in words: `[0, 2]`.
pub open spec fn path_text(path: Seq<u8>) -> Seq<char> {
    "["@ + positions_text(path, path.len() as int) + "]"@
}

/// Writes a path in words.
fn push_path(out: &mut String, path: FieldPath)
    ensures
        final(out)@ == old(out)@ + path_text(path@),
{
    let positions = path.to_vec();
    out.append("[");
    let first = decimal_text(positions[0] as usize);
    out.append(first.as_str());
    let mut i: usize = 1;
    assert(out@ =~= old(out)@ + "["@ + positions_text(path@, 1));
    while i < positions.len()
        invariant
            1 <= i <= positions@.len(),
            positions@ == path@,
            out@ == old(out)@ + "["@ + positions_text(path@, i as int),
        decreases positions@.len() - i,
    {
        out.append(", ");
        let next = decimal_text(positions[i] as usize);
        out.append(next.as_str());
        i += 1;
        assert(out@ =~= old(out)@ + "["@ + positions_text(path@, i as int));
    }
    out.append("]");
    assert(out@ =~= old(out)@ + path_text(path@));
}

impl StateRefusal {
    pub open spec fn text(&self) -> Seq<char> {
        match *self {
            StateRefusal::Overlap { declared, path } => "two slots of one ledger block contributed overlapping paths "@
                + path_text(declared@) + " and "@ + path_text(path@)
                + ": a layout gives every field its own path, so a slot type's `InitialState::contribute` wrote outside its fields"@,
            StateRefusal::SecondStandard => "one standard per ledger block: a second slot wrote a magic, and root[0] has one owner"@,
            StateRefusal::NotASlot { path } => "StateBuilder::set: "@ + path_text(path@)
                + " is not a slot of this block — `set` replaces a declared slot's initial value (take the path from the block's own handle, e.g. `BLOCK.owner.field_path()`); it cannot add a ledger field"@,
            StateRefusal::Sealed { path } => "StateBuilder::set: "@ + path_text(path@)
                + " is a standard's magic — the standard's own constant (`LedgerHeader::MAGIC`), sealed by the builder; a deploy state cannot carry another"@,
            StateRefusal::Shape { path } => "StateBuilder::set: the value for "@ + path_text(path@)
                + " is not the slot's shape — a Cell replaces a Cell of the same alignment, a Map a Map, an Array an Array of its kind (a `LedgerField` is the only slot that takes any value)"@,
            StateRefusal::TooWide { entries } => "a ledger Array holds at most sixteen entries, and this node would hold "@
                + decimal(entries as nat),
            StateRefusal::MagicMissing => "a block's slots write one magic for each standard it embeds: this block embeds 1 and its slots wrote 0"@,
            StateRefusal::MagicUnclaimed => "a block's slots write one magic for each standard it embeds: this block embeds 0 and its slots wrote 1"@,
        }
    }

    /// The rule, in words, with the paths it was broken at.
    pub fn message(&self) -> (r: String)
        ensures
            r@ == self.text(),
    {
        match *self {
            StateRefusal::Overlap { declared, path } => {
                let mut out: String = "two slots of one ledger block contributed overlapping paths ".to_owned();
                push_path(&mut out, declared);
                out.append(" and ");
                push_path(&mut out, path);
                out.append(": a layout gives every field its own path, so a slot type's `InitialState::contribute` wrote outside its fields");
                out
            },
            StateRefusal::SecondStandard => "one standard per ledger block: a second slot wrote a magic, and root[0] has one owner".to_owned(),
            StateRefusal::NotASlot { path } => {
                let mut out: String = "StateBuilder::set: ".to_owned();
                push_path(&mut out, path);
                out.append(" is not a slot of this block — `set` replaces a declared slot's initial value (take the path from the block's own handle, e.g. `BLOCK.owner.field_path()`); it cannot add a ledger field");
                out
            },
            StateRefusal::Sealed { path } => {
                let mut out: String = "StateBuilder::set: ".to_owned();
                push_path(&mut out, path);
                out.append(" is a standard's magic — the standard's own constant (`LedgerHeader::MAGIC`), sealed by the builder; a deploy state cannot carry another");
                out
            },
            StateRefusal::Shape { path } => {
                let mut out: String = "StateBuilder::set: the value for ".to_owned();
                push_path(&mut out, path);
                out.append(" is not the slot's shape — a Cell replaces a Cell of the same alignment, a Map a Map, an Array an Array of its kind (a `LedgerField` is the only slot that takes any value)");
                out
            },
            StateRefusal::TooWide { entries } => {
                let mut out: String = "a ledger Array holds at most sixteen entries, and this node would hold ".to_owned();
                let count = decimal_text(entries);
                out.append(count.as_str());
                out
            },
            StateRefusal::MagicMissing => "a block's slots write one magic for each standard it embeds: this block embeds 1 and its slots wrote 0".to_owned(),
            StateRefusal::MagicUnclaimed => "a block's slots write one magic for each standard it embeds: this block embeds 0 and its slots wrote 1".to_owned(),
        }
    }
}

/// Whether one path is the other or inside it.
pub open spec fn overlaps(a: Seq<u8>, b: Seq<u8>) -> bool {
    a.is_prefix_of(b) || b.is_prefix_of(a)
}

/// Whether a path overlaps a declared one.
pub open spec fn taken(slots: Map<Seq<u8>, Declared>, path: Seq<u8>) -> bool {
    exists|q: Seq<u8>| #[trigger] slots.contains_key(q) && overlaps(q, path)
}

/// Whether `q` is the declared path that overlaps `path`, the earliest of them.
pub open spec fn is_earliest_taken(
    slots: Map<Seq<u8>, Declared>,
    path: Seq<u8>,
    q: Seq<u8>,
) -> bool {
    &&& slots.contains_key(q) && overlaps(q, path)
    &&& forall|other: Seq<u8>| #[trigger]
        slots.contains_key(other) && overlaps(other, path) && other != q ==> before(q, other)
}

/// The earliest declared path that overlaps `path`.
pub open spec fn earliest_taken(slots: Map<Seq<u8>, Declared>, path: Seq<u8>) -> Seq<u8> {
    choose|q: Seq<u8>| is_earliest_taken(slots, path, q)
}

/// The refusal of a path that overlaps a declared one.
pub open spec fn overlap_at(slots: Map<Seq<u8>, Declared>, path: Seq<u8>) -> StateRefusal {
    StateRefusal::Overlap {
        declared: FieldPath::with(earliest_taken(slots, path)),
        path: FieldPath::with(path),
    }
}

/// Whether a magic was written.
pub open spec fn has_magic(slots: Map<Seq<u8>, Declared>) -> bool {
    exists|q: Seq<u8>| #[trigger] slots.contains_key(q) && slots[q].sealed
}

/// The slots after one contribution, or the refusal. The one-standard rule
/// comes first.
pub open spec fn declared(slots: Map<Seq<u8>, Declared>, c: Contribution) -> Result<
    Map<Seq<u8>, Declared>,
    StateRefusal,
> {
    if c.sealed && has_magic(slots) {
        Err(StateRefusal::SecondStandard)
    } else if taken(slots, c.path) {
        Err(overlap_at(slots, c.path))
    } else {
        Ok(slots.insert(c.path, Declared { value: c.value, sealed: c.sealed }))
    }
}

/// The slots after a list of contributions, up to the first that is refused,
/// and that refusal.
pub open spec fn contributed(slots: Map<Seq<u8>, Declared>, items: Seq<Contribution>) -> (
    Map<Seq<u8>, Declared>,
    Option<StateRefusal>,
)
    decreases items.len(),
{
    if items.len() == 0 {
        (slots, None)
    } else {
        match declared(slots, items[0]) {
            Ok(next) => contributed(next, items.skip(1)),
            Err(refusal) => (slots, Some(refusal)),
        }
    }
}

/// Contributions add up: a list and then another is their concatenation.
pub proof fn law_contributions_add_up(
    slots: Map<Seq<u8>, Declared>,
    a: Seq<Contribution>,
    b: Seq<Contribution>,
)
    ensures
        contributed(slots, a + b) == match contributed(slots, a) {
            (next, None) => contributed(next, b),
            refused => refused,
        },
    decreases a.len(),
{
    if a.len() == 0 {
        assert(a + b =~= b);
    } else {
        assert((a + b).skip(1) =~= a.skip(1) + b);
        assert((a + b)[0] == a[0]);
        if let Ok(next) = declared(slots, a[0]) {
            law_contributions_add_up(next, a.skip(1), b);
        }
    }
}

/// The order in which two slots arrive does not matter.
pub proof fn law_order_does_not_matter(
    slots: Map<Seq<u8>, Declared>,
    a: Contribution,
    b: Contribution,
)
    requires
        contributed(slots, seq![a, b]).1 is None,
    ensures
        contributed(slots, seq![b, a]) == contributed(slots, seq![a, b]),
{
    reveal_with_fuel(contributed, 3);
    let (ab, ba) = (seq![a, b], seq![b, a]);
    assert(ab.skip(1) =~= seq![b]);
    assert(ba.skip(1) =~= seq![a]);
    assert(seq![a].skip(1) =~= Seq::<Contribution>::empty());
    assert(seq![b].skip(1) =~= Seq::<Contribution>::empty());
    let first = slots.insert(a.path, Declared { value: a.value, sealed: a.sealed });
    assert(declared(slots, a) == Ok::<Map<Seq<u8>, Declared>, StateRefusal>(first));
    assert(declared(first, b) is Ok);
    assert(first.contains_key(a.path));
    assert(!overlaps(a.path, b.path));
    assert forall|q: Seq<u8>| slots.contains_key(q) implies !overlaps(q, b.path) by {
        assert(first.contains_key(q));
    }
    if b.sealed {
        assert forall|q: Seq<u8>| #[trigger] slots.contains_key(q) implies !slots[q].sealed by {
            assert(first.contains_key(q));
            assert(a.path.is_prefix_of(a.path));
            assert(q != a.path);
            assert(first[q] == slots[q]);
        }
        assert(!a.sealed) by {
            assert(first[a.path].sealed == a.sealed);
        }
    }
    let second = slots.insert(b.path, Declared { value: b.value, sealed: b.sealed });
    assert(declared(slots, b) == Ok::<Map<Seq<u8>, Declared>, StateRefusal>(second));
    assert(a.path != b.path) by {
        assert(b.path.is_prefix_of(b.path));
    }
    assert forall|q: Seq<u8>| second.contains_key(q) implies !overlaps(q, a.path) by {
        if q != b.path {
            assert(slots.contains_key(q));
        }
    }
    if a.sealed {
        assert forall|q: Seq<u8>| #[trigger] second.contains_key(q) implies !second[q].sealed by {
            if q != b.path {
                assert(slots.contains_key(q));
            } else {
                assert(first[a.path].sealed);
            }
        }
    }
    assert(second.insert(a.path, Declared { value: a.value, sealed: a.sealed }) =~= first.insert(
        b.path,
        Declared { value: b.value, sealed: b.sealed },
    ));
}

// ---- the tree ---------------------------------------------------------------------

/// Whether `q` is strictly inside `prefix`.
pub open spec fn below(prefix: Seq<u8>, q: Seq<u8>) -> bool {
    prefix.len() < q.len() && prefix.is_prefix_of(q)
}

/// Whether some declared path is strictly inside `prefix`.
pub open spec fn has_below(slots: Map<Seq<u8>, Declared>, prefix: Seq<u8>) -> bool {
    exists|q: Seq<u8>| #[trigger] slots.contains_key(q) && below(prefix, q)
}

/// Whether `n` is one more than the highest index declared under `prefix`, or
/// nothing is declared there and `n` is zero.
pub open spec fn is_width(slots: Map<Seq<u8>, Declared>, prefix: Seq<u8>, n: nat) -> bool {
    &&& forall|q: Seq<u8>| #[trigger]
        slots.contains_key(q) && below(prefix, q) ==> q[prefix.len() as int] < n
    &&& n > 0 ==> exists|q: Seq<u8>| #[trigger]
        slots.contains_key(q) && below(prefix, q) && q[prefix.len() as int] == n - 1
}

/// The length of the Array at `prefix`.
pub open spec fn width(slots: Map<Seq<u8>, Declared>, prefix: Seq<u8>) -> nat {
    choose|n: nat| is_width(slots, prefix, n)
}

proof fn lemma_width_unique(slots: Map<Seq<u8>, Declared>, prefix: Seq<u8>, n: nat)
    requires
        is_width(slots, prefix, n),
    ensures
        width(slots, prefix) == n,
{
    let m = width(slots, prefix);
    assert(is_width(slots, prefix, m));
}

proof fn lemma_width_exists(slots: Map<Seq<u8>, Declared>, prefix: Seq<u8>, bound: nat)
    requires
        forall|q: Seq<u8>| #[trigger]
            slots.contains_key(q) && below(prefix, q) ==> q[prefix.len() as int] < bound,
    ensures
        is_width(slots, prefix, width(slots, prefix)),
    decreases bound,
{
    if is_width(slots, prefix, bound) {
        lemma_width_unique(slots, prefix, bound);
    } else {
        lemma_width_exists(slots, prefix, (bound - 1) as nat);
    }
}

/// The highest index declared under `prefix` and one.
pub proof fn law_width_is_highest_plus_one(slots: Map<Seq<u8>, Declared>, prefix: Seq<u8>)
    ensures
        is_width(slots, prefix, width(slots, prefix)),
{
    lemma_width_exists(slots, prefix, 256);
}

/// The Array at `prefix`. Paths have at most three positions, so nothing is
/// nested deeper.
pub open spec fn assembled(slots: Map<Seq<u8>, Declared>, prefix: Seq<u8>) -> Tree
    decreases 3 - prefix.len(),
{
    if prefix.len() >= 3 {
        Tree::Array(Seq::empty())
    } else {
        Tree::Array(
            Seq::new(
                width(slots, prefix),
                |i: int|
                    {
                        let path = prefix.push(i as u8);
                        if slots.contains_key(path) {
                            slots[path].value
                        } else if has_below(slots, path) {
                            assembled(slots, path)
                        } else {
                            Tree::Null
                        }
                    },
            ),
        )
    }
}

/// The state tree of a block's slots.
pub open spec fn state_tree(slots: Map<Seq<u8>, Declared>) -> Tree {
    assembled(slots, Seq::empty())
}

/// Whether a path is one a magic may have: `[0]` or `[0, 0]`.
pub open spec fn at_the_head(path: Seq<u8>) -> bool {
    path == seq![0u8] || path == seq![0u8, 0u8]
}

/// What a layout gives: paths of one to three positions, none inside another.
pub open spec fn laid_out(slots: Map<Seq<u8>, Declared>) -> bool {
    &&& forall|q: Seq<u8>| #[trigger] slots.contains_key(q) ==> 1 <= q.len() <= 3
    &&& forall|p: Seq<u8>, q: Seq<u8>| #[trigger]
        slots.contains_key(p) && #[trigger] slots.contains_key(q) && p != q ==> !overlaps(p, q)
}

proof fn lemma_declared_at(slots: Map<Seq<u8>, Declared>, prefix: Seq<u8>, q: Seq<u8>)
    requires
        laid_out(slots),
        slots.contains_key(q),
        below(prefix, q),
    ensures
        assembled(slots, prefix).at(q.skip(prefix.len() as int)) == Some(slots[q].value),
    decreases 3 - prefix.len(),
{
    law_width_is_highest_plus_one(slots, prefix);
    let k = prefix.len() as int;
    let next = prefix.push(q[k]);
    let items = assembled(slots, prefix)->Array_0;
    let rest = q.skip(k);
    assert((q[k] as int) as u8 == q[k]);
    assert(rest[0] == q[k]);
    assert(rest.skip(1) =~= q.skip(k + 1));
    assert(next =~= q.take(k + 1));
    if q.len() == k + 1 {
        assert(next =~= q);
        assert(rest.skip(1).len() == 0);
        assert(items[q[k] as int] == slots[q].value);
        assert(items[q[k] as int].at(rest.skip(1)) == Some(slots[q].value));
    } else {
        assert(next.is_prefix_of(q));
        assert(below(next, q));
        if slots.contains_key(next) {
            assert(overlaps(next, q));
        }
        assert(has_below(slots, next));
        lemma_declared_at(slots, next, q);
    }
}

/// Every declared slot is in the tree at its path, with its value.
pub proof fn law_every_slot_is_at_its_path(slots: Map<Seq<u8>, Declared>, q: Seq<u8>)
    requires
        laid_out(slots),
        slots.contains_key(q),
    ensures
        state_tree(slots).at(q) == Some(slots[q].value),
{
    assert(Seq::<u8>::empty().is_prefix_of(q));
    lemma_declared_at(slots, Seq::empty(), q);
    assert(q.skip(0) =~= q);
}

proof fn lemma_array_at(slots: Map<Seq<u8>, Declared>, prefix: Seq<u8>, p: Seq<u8>)
    requires
        laid_out(slots),
        prefix.is_prefix_of(p),
        prefix == p || has_below(slots, p),
        p.len() <= 3,
    ensures
        assembled(slots, prefix).at(p.skip(prefix.len() as int)) == Some(assembled(slots, p)),
    decreases 3 - prefix.len(),
{
    let k = prefix.len() as int;
    if p.len() == k {
        assert(p =~= prefix);
        assert(p.skip(k) =~= Seq::<u8>::empty());
    } else {
        let q = choose|q: Seq<u8>| #[trigger] slots.contains_key(q) && below(p, q);
        law_width_is_highest_plus_one(slots, prefix);
        let next = prefix.push(p[k]);
        let items = assembled(slots, prefix)->Array_0;
        let rest = p.skip(k);
        assert(q[k] == p[k]);
        assert(prefix.is_prefix_of(q)) by {
            assert forall|i: int| 0 <= i < prefix.len() implies prefix[i] == q[i] by {
                assert(prefix[i] == p[i]);
                assert(p[i] == q[i]);
            }
            assert(prefix =~= q.take(prefix.len() as int));
        }
        assert(below(prefix, q));
        assert((p[k] as int) as u8 == p[k]);
        assert(rest[0] == p[k]);
        assert(rest.skip(1) =~= p.skip(k + 1));
        assert(next =~= p.take(k + 1));
        assert(next.is_prefix_of(p));
        assert(next.is_prefix_of(q)) by {
            assert forall|i: int| 0 <= i < next.len() implies next[i] == q[i] by {
                assert(next[i] == p[i]);
                assert(p[i] == q[i]);
            }
            assert(next =~= q.take(next.len() as int));
        }
        assert(below(next, q));
        if slots.contains_key(next) {
            assert(overlaps(next, q));
        }
        assert(has_below(slots, next));
        lemma_array_at(slots, next, p);
    }
}

/// Every Array is as long as its highest declared index plus one, and an entry
/// nothing contributed to is Null.
pub proof fn law_other_entries_are_null(slots: Map<Seq<u8>, Declared>, p: Seq<u8>, i: u8)
    requires
        laid_out(slots),
        p.len() == 0 || has_below(slots, p),
        p.len() < 3,
    ensures
        state_tree(slots).at(p) matches Some(Tree::Array(items)) && items.len() == width(slots, p)
            && (i < width(slots, p) && !slots.contains_key(p.push(i)) && !has_below(
            slots,
            p.push(i),
        ) ==> items[i as int] is Null),
{
    if p.len() == 0 {
        assert(p =~= Seq::<u8>::empty());
    }
    assert(Seq::<u8>::empty().is_prefix_of(p));
    lemma_array_at(slots, Seq::empty(), p);
    assert(p.skip(0) =~= p);
    assert((i as int) as u8 == i);
}

// ---- shapes -------------------------------------------------------------------------

/// Whether a node is a Cell that holds a `u64`.
pub open spec fn is_u64_cell(tree: Tree) -> bool {
    tree matches Tree::Cell(cell) && cell.alignment == seq![
        Segment::Atom(AlignmentAtom::Bytes { length: 8 }),
    ]
}

/// Whether a node is a list: `[null, null, length]`, or `[head, the rest,
/// length]`.
pub open spec fn is_list(tree: Tree) -> bool
    decreases tree,
{
    match tree {
        Tree::Array(items) => items.len() == 3 && is_u64_cell(items[2]) && if items[0] is Null {
            items[1] is Null
        } else {
            is_list(items[1])
        },
        _ => false,
    }
}

/// The height of a Merkle tree slot `[tree, next index]`.
pub open spec fn merkle_height(tree: Tree) -> Option<u8> {
    match tree {
        Tree::Array(items) if items.len() == 2 && is_u64_cell(items[1]) => match items[0] {
            Tree::Merkle { height, .. } => Some(height),
            _ => None,
        },
        _ => None,
    }
}

/// The height of a historic Merkle tree slot `[tree, next index, past roots]`.
pub open spec fn historic_height(tree: Tree) -> Option<u8> {
    match tree {
        Tree::Array(items) if items.len() == 3 && is_u64_cell(items[1]) && items[2] is Mapping => match items[0] {
            Tree::Merkle { height, .. } => Some(height),
            _ => None,
        },
        _ => None,
    }
}

/// Whether `new` may replace `old`: any value an untyped field's Null, a Cell a
/// Cell of the same alignment, a Map a Map, a bare Merkle tree any other, and an
/// Array an Array of its kind (list, Merkle tree or historic Merkle tree of its
/// height, or another).
pub open spec fn fits_shape(old_value: Tree, new_value: Tree) -> bool {
    match (old_value, new_value) {
        (Tree::Null, _) => true,
        (Tree::Cell(a), Tree::Cell(b)) => a.alignment == b.alignment,
        (Tree::Mapping(_), Tree::Mapping(_)) => true,
        (Tree::Array(_), Tree::Array(_)) => {
            &&& is_list(old_value) ==> is_list(new_value)
            &&& merkle_height(old_value) is Some ==> merkle_height(new_value) == merkle_height(
                old_value,
            )
            &&& historic_height(old_value) is Some ==> historic_height(new_value)
                == historic_height(old_value)
        },
        (Tree::Merkle { .. }, Tree::Merkle { .. }) => true,
        _ => false,
    }
}

fn u64_cell(value: &StateValue) -> (r: bool)
    ensures
        r == is_u64_cell(value@),
{
    match value {
        StateValue::Cell(cell) => {
            if cell.alignment.len() != 1 {
                assert(cell@.alignment.len() != 1);
                return false;
            }
            assert(cell@.alignment[0] == cell.alignment@[0]@);
            match &cell.alignment[0] {
                AlignmentSegment::Atom(AlignmentAtom::Bytes { length }) => {
                    if *length == 8 {
                        assert(cell@.alignment =~= seq![
                            Segment::Atom(AlignmentAtom::Bytes { length: 8 }),
                        ]);
                        true
                    } else {
                        false
                    }
                },
                _ => false,
            }
        },
        _ => false,
    }
}

fn list_shape(value: &StateValue) -> (r: bool)
    ensures
        r == is_list(value@),
    decreases value,
{
    match value {
        StateValue::Array(items) => {
            if items.len() != 3 {
                return false;
            }
            proof {
                assert(value@->Array_0[0] == items@[0]@);
                assert(value@->Array_0[1] == items@[1]@);
                assert(value@->Array_0[2] == items@[2]@);
            }
            if !u64_cell(&items[2]) {
                return false;
            }
            match &items[0] {
                StateValue::Null => match &items[1] {
                    StateValue::Null => true,
                    _ => false,
                },
                _ => {
                    proof {
                        assert(decreases_to!(items => items@));
                        assert(decreases_to!(items@ => items@[1]));
                    }
                    list_shape(&items[1])
                },
            }
        },
        _ => false,
    }
}

fn merkle_shape(value: &StateValue) -> (r: Option<u8>)
    ensures
        r == merkle_height(value@),
{
    match value {
        StateValue::Array(items) => {
            if items.len() != 2 {
                return None;
            }
            proof {
                assert(value@->Array_0[0] == items@[0]@);
                assert(value@->Array_0[1] == items@[1]@);
            }
            if !u64_cell(&items[1]) {
                return None;
            }
            match &items[0] {
                StateValue::BoundedMerkleTree(tree) => Some(tree.height),
                _ => None,
            }
        },
        _ => None,
    }
}

fn historic_shape(value: &StateValue) -> (r: Option<u8>)
    ensures
        r == historic_height(value@),
{
    match value {
        StateValue::Array(items) => {
            if items.len() != 3 {
                return None;
            }
            proof {
                assert(value@->Array_0[0] == items@[0]@);
                assert(value@->Array_0[1] == items@[1]@);
                assert(value@->Array_0[2] == items@[2]@);
            }
            if !u64_cell(&items[1]) {
                return None;
            }
            match &items[2] {
                StateValue::Mapping(_) => {},
                _ => {
                    return None;
                },
            }
            match &items[0] {
                StateValue::BoundedMerkleTree(tree) => Some(tree.height),
                _ => None,
            }
        },
        _ => None,
    }
}

/// Whether `new` may replace `old` in [`StateBuilder::set`].
fn same_shape(old_value: &StateValue, new_value: &StateValue) -> (r: bool)
    ensures
        r == fits_shape(old_value@, new_value@),
{
    match (old_value, new_value) {
        (StateValue::Null, _) => true,
        (StateValue::Cell(a), StateValue::Cell(b)) => a.same_alignment(b),
        (StateValue::Mapping(_), StateValue::Mapping(_)) => true,
        (StateValue::Array(_), StateValue::Array(_)) => {
            if list_shape(old_value) && !list_shape(new_value) {
                return false;
            }
            if let Some(height) = merkle_shape(old_value) {
                match merkle_shape(new_value) {
                    Some(other) => {
                        if height != other {
                            return false;
                        }
                    },
                    None => {
                        return false;
                    },
                }
            }
            if let Some(height) = historic_shape(old_value) {
                match historic_shape(new_value) {
                    Some(other) => {
                        if height != other {
                            return false;
                        }
                    },
                    None => {
                        return false;
                    },
                }
            }
            true
        },
        (StateValue::BoundedMerkleTree(_), StateValue::BoundedMerkleTree(_)) => true,
        _ => false,
    }
}

// ---- the builder ---------------------------------------------------------------------

/// One declared slot of the tree under construction.
struct Slot {
    path: FieldPath,
    value: StateValue,
    /// A standard's magic: [`StateBuilder::set`] refuses it.
    sealed: bool,
}

/// A block's deploy-time state, slot by slot, and the tree it assembles.
pub struct StateBuilder {
    slots: Vec<Slot>,
}

/// A path says which it is.
proof fn lemma_path_is_its_positions(a: FieldPath, b: FieldPath)
    requires
        a@ == b@,
    ensures
        a == b,
{
    let (x, y) = (a@, b@);
    match a {
        FieldPath::Flat(p) => {
            assert(x.len() == 1 && x[0] == p);
        },
        FieldPath::Nested(p, q) => {
            assert(x.len() == 2 && x[0] == p && x[1] == q);
        },
        FieldPath::Deep(p, q, t) => {
            assert(x.len() == 3 && x[0] == p && x[1] == q && x[2] == t);
        },
    }
    match b {
        FieldPath::Flat(p) => {
            assert(y.len() == 1 && y[0] == p);
        },
        FieldPath::Nested(p, q) => {
            assert(y.len() == 2 && y[0] == p && y[1] == q);
        },
        FieldPath::Deep(p, q, t) => {
            assert(y.len() == 3 && y[0] == p && y[1] == q && y[2] == t);
        },
    }
}

/// A path is the one with its positions.
proof fn lemma_path_with(a: FieldPath)
    ensures
        FieldPath::with(a@) == a,
{
    match a {
        FieldPath::Flat(p) => {
            assert(a@.len() == 1 && a@[0] == p);
        },
        FieldPath::Nested(p, q) => {
            assert(a@.len() == 2 && a@[0] == p && a@[1] == q);
        },
        FieldPath::Deep(p, q, t) => {
            assert(a@.len() == 3 && a@[0] == p && a@[1] == q && a@[2] == t);
        },
    }
}

proof fn lemma_before_one_way(a: Seq<u8>, b: Seq<u8>)
    requires
        before(a, b),
    ensures
        !before(b, a),
{
    let k = choose|k: int|
        0 <= k < a.len() && k < b.len() && #[trigger] a[k] < b[k] && a.take(k) == b.take(k);
    if before(b, a) {
        let m = choose|m: int|
            0 <= m < b.len() && m < a.len() && #[trigger] b[m] < a[m] && b.take(m) == a.take(m);
        if m < k {
            assert(a.take(k)[m] == b.take(k)[m]);
        } else if k < m {
            assert(a.take(m)[k] == b.take(m)[k]);
        }
    }
}

proof fn lemma_before_chain(a: Seq<u8>, b: Seq<u8>, c: Seq<u8>)
    requires
        before(a, b),
        before(b, c),
    ensures
        before(a, c),
{
    let k = choose|k: int|
        0 <= k < a.len() && k < b.len() && #[trigger] a[k] < b[k] && a.take(k) == b.take(k);
    let m = choose|m: int|
        0 <= m < b.len() && m < c.len() && #[trigger] b[m] < c[m] && b.take(m) == c.take(m);
    let n = if k <= m {
        k
    } else {
        m
    };
    assert(a.take(n) =~= c.take(n)) by {
        assert forall|i: int| 0 <= i < n implies a[i] == c[i] by {
            assert(a.take(k)[i] == b.take(k)[i]);
            assert(b.take(m)[i] == c.take(m)[i]);
        }
    }
    if k < m {
        assert(b.take(m)[k] == c.take(m)[k]);
    } else if m < k {
        assert(a.take(k)[m] == b.take(k)[m]);
    }
    assert(a[n] < c[n]);
}

/// Whether `a` comes before `b`; of two paths that do not overlap one does.
fn comes_before(a: FieldPath, b: FieldPath) -> (r: bool)
    requires
        !overlaps(a@, b@),
    ensures
        r == before(a@, b@),
        r || before(b@, a@),
{
    let x = a.to_vec();
    let y = b.to_vec();
    let mut i: usize = 0;
    while i < x.len() && i < y.len()
        invariant
            i <= x@.len(),
            i <= y@.len(),
            x@ == a@,
            y@ == b@,
            x@.take(i as int) == y@.take(i as int),
        decreases x@.len() - i,
    {
        if x[i] != y[i] {
            proof {
                if x@[i as int] < y@[i as int] {
                    assert(before(a@, b@));
                } else {
                    assert(before(b@, a@));
                    lemma_before_one_way(b@, a@);
                }
            }
            return x[i] < y[i];
        }
        assert(x@.take(i + 1) =~= x@.take(i as int).push(x@[i as int]));
        assert(y@.take(i + 1) =~= y@.take(i as int).push(y@[i as int]));
        i += 1;
    }
    proof {
        if x@.len() <= y@.len() {
            assert(x@ =~= y@.take(x@.len() as int));
        } else {
            assert(y@ =~= x@.take(y@.len() as int));
        }
    }
    false
}

fn overlap(a: FieldPath, b: FieldPath) -> (r: bool)
    ensures
        r == overlaps(a@, b@),
{
    let x = a.to_vec();
    let y = b.to_vec();
    let shorter: usize = if x.len() < y.len() {
        x.len()
    } else {
        y.len()
    };
    let mut i: usize = 0;
    while i < shorter
        invariant
            i <= shorter,
            x@ == a@,
            y@ == b@,
            shorter == if x@.len() < y@.len() {
                x@.len()
            } else {
                y@.len()
            },
            forall|j: int| 0 <= j < i ==> x@[j] == y@[j],
        decreases shorter - i,
    {
        if x[i] != y[i] {
            proof {
                assert(x@.take(shorter as int)[i as int] != y@.take(shorter as int)[i as int]);
            }
            return false;
        }
        i += 1;
    }
    proof {
        if x@.len() <= y@.len() {
            assert(x@ =~= y@.take(x@.len() as int));
        } else {
            assert(y@ =~= x@.take(y@.len() as int));
        }
    }
    true
}

/// Whether `prefix` is a strict prefix of `path`.
fn is_below(prefix: &Vec<u8>, path: &Vec<u8>) -> (r: bool)
    ensures
        r == below(prefix@, path@),
{
    if prefix.len() >= path.len() {
        return false;
    }
    let mut i: usize = 0;
    while i < prefix.len()
        invariant
            i <= prefix@.len() < path@.len(),
            forall|j: int| 0 <= j < i ==> prefix@[j] == path@[j],
        decreases prefix@.len() - i,
    {
        if prefix[i] != path[i] {
            proof {
                assert(path@.take(prefix@.len() as int)[i as int] != prefix@[i as int]);
            }
            return false;
        }
        i += 1;
    }
    assert(prefix@ =~= path@.take(prefix@.len() as int));
    true
}

impl Slot {
    spec fn declared(self) -> Declared {
        Declared { value: self.value@, sealed: self.sealed }
    }
}

/// The position of the slot at `path`.
spec fn position(slots: Seq<Slot>, path: Seq<u8>) -> int {
    choose|i: int| 0 <= i < slots.len() && (#[trigger] slots[i]).path@ == path
}

/// The declared slots, by path.
spec fn by_path(slots: Seq<Slot>) -> Map<Seq<u8>, Declared> {
    Map::new(
        |path: Seq<u8>| exists|i: int| 0 <= i < slots.len() && (#[trigger] slots[i]).path@ == path,
        |path: Seq<u8>| slots[position(slots, path)].declared(),
    )
}

spec fn apart(slots: Seq<Slot>) -> bool {
    forall|i: int, j: int|
        0 <= i < slots.len() && 0 <= j < slots.len() && i != j ==> !overlaps(
            (#[trigger] slots[i]).path@,
            (#[trigger] slots[j]).path@,
        )
}

proof fn lemma_by_path(slots: Seq<Slot>, i: int)
    requires
        apart(slots),
        0 <= i < slots.len(),
    ensures
        by_path(slots).contains_key(slots[i].path@),
        by_path(slots)[slots[i].path@] == slots[i].declared(),
{
    let j = position(slots, slots[i].path@);
    if i != j {
        assert(slots[i].path@.is_prefix_of(slots[j].path@));
    }
}

proof fn lemma_laid_out(slots: Seq<Slot>)
    requires
        apart(slots),
    ensures
        laid_out(by_path(slots)),
{
    let m = by_path(slots);
    assert forall|p: Seq<u8>, q: Seq<u8>| #[trigger]
        m.contains_key(p) && #[trigger] m.contains_key(q) && p != q implies !overlaps(p, q) by {
        assert(slots[position(slots, p)].path@ == p);
        assert(slots[position(slots, q)].path@ == q);
    }
}

impl StateBuilder {
    /// The declared slots, by path.
    pub closed spec fn view(&self) -> Map<Seq<u8>, Declared> {
        by_path(self.slots@)
    }

    /// No two declared slots overlap, and a magic is at the head of the root.
    pub closed spec fn wf(&self) -> bool {
        &&& apart(self.slots@)
        &&& forall|i: int|
            0 <= i < self.slots@.len() && (#[trigger] self.slots@[i]).sealed ==> at_the_head(
                self.slots@[i].path@,
            )
    }

    /// A magic lies at `[0]` or `[0, 0]`. These overlap, so where nothing
    /// overlaps the one or the other, no magic was written.
    pub proof fn law_a_magic_is_at_the_head(&self, path: Seq<u8>)
        requires
            self.wf(),
        ensures
            forall|q: Seq<u8>| #[trigger]
                self@.contains_key(q) && self@[q].sealed ==> at_the_head(q),
            at_the_head(path) && !taken(self@, path) ==> !has_magic(self@),
    {
        assert forall|q: Seq<u8>| #[trigger]
            self@.contains_key(q) && self@[q].sealed implies at_the_head(q) by {
            let at = position(self.slots@, q);
            assert(self.slots@[at].path@ == q);
        }
        if at_the_head(path) && has_magic(self@) {
            let q = choose|q: Seq<u8>| #[trigger] self@.contains_key(q) && self@[q].sealed;
            assert(seq![0u8] =~= seq![0u8, 0u8].take(1));
            assert(seq![0u8] =~= seq![0u8].take(1));
            assert(seq![0u8, 0u8] =~= seq![0u8, 0u8].take(2));
            assert(overlaps(q, path));
        }
    }

    /// What a builder declares can be laid out: no slot is inside another.
    pub proof fn law_laid_out(&self)
        requires
            self.wf(),
        ensures
            laid_out(self@),
    {
        lemma_laid_out(self.slots@);
    }

    /// An empty tree: a block with no fields builds the empty root Array.
    pub fn new() -> (r: Self)
        ensures
            r.wf(),
            r@ == Map::<Seq<u8>, Declared>::empty(),
    {
        let r = StateBuilder { slots: Vec::new() };
        assert(r@ =~= Map::<Seq<u8>, Declared>::empty());
        r
    }

    /// Declares a slot: `value` is its initial value at `path`. Refuses a path
    /// that overlaps a declared one.
    pub fn slot(&mut self, path: FieldPath, value: StateValue) -> (r: Result<(), StateRefusal>)
        requires
            old(self).wf(),
        ensures
            final(self).wf(),
            match declared(
                old(self)@,
                (Contribution { path: path@, value: value@, sealed: false }),
            ) {
                Ok(next) => r == Ok::<(), StateRefusal>(()) && final(self)@ == next,
                Err(refusal) => r == Err::<(), StateRefusal>(refusal) && final(self)@ == old(
                    self,
                )@,
            },
    {
        self.declare(path, value, false)
    }

    /// Writes a standard's magic at its path, a `Bytes<32>` Cell in normal
    /// form, sealed: [`Self::set`] refuses it. Refuses a second magic.
    pub fn magic<S: LedgerHeader>(&mut self, magic: Magic) -> (r: Result<(), StateRefusal>)
        requires
            old(self).wf(),
            !all_zero(S::MAGIC@),
        ensures
            final(self).wf(),
            match declared(old(self)@, magic_of::<S>(magic)) {
                Ok(next) => r == Ok::<(), StateRefusal>(()) && final(self)@ == next,
                Err(refusal) => r == Err::<(), StateRefusal>(refusal) && final(self)@ == old(
                    self,
                )@,
            },
            r is Ok <==> !taken(old(self)@, magic.path()@),
    {
        let path = magic.field_path();
        let mut i: usize = 0;
        while i < self.slots.len()
            invariant
                i <= self.slots@.len(),
                self.slots == old(self).slots,
                old(self).wf(),
                apart(self.slots@),
                at_the_head(path@),
                path == magic.path(),
                forall|j: int| 0 <= j < i ==> !(#[trigger] self.slots@[j]).sealed,
            decreases self.slots@.len() - i,
        {
            if self.slots[i].sealed {
                proof {
                    lemma_by_path(self.slots@, i as int);
                    assert(old(self)@.contains_key(self.slots@[i as int].path@));
                    old(self).law_a_magic_is_at_the_head(path@);
                }
                return Err(StateRefusal::SecondStandard);
            }
            i += 1;
        }
        proof {
            assert forall|q: Seq<u8>| #[trigger] old(self)@.contains_key(q) implies !old(
                self,
            )@[q].sealed by {
                let at = position(self.slots@, q);
                assert(self.slots@[at].path@ == q);
            }
        }
        let bytes: [u8; 32] = S::MAGIC;
        let cell = StateValue::Cell(store_bytes(bytes.as_slice(), 32));
        self.declare(path, cell, true)
    }

    /// Adds a slot whose path overlaps no declared one.
    fn declare(&mut self, path: FieldPath, value: StateValue, sealed: bool) -> (r: Result<
        (),
        StateRefusal,
    >)
        requires
            old(self).wf(),
            sealed ==> at_the_head(path@),
        ensures
            final(self).wf(),
            r == if taken(old(self)@, path@) {
                Err(overlap_at(old(self)@, path@))
            } else {
                Ok::<(), StateRefusal>(())
            },
            final(self)@ == if taken(old(self)@, path@) {
                old(self)@
            } else {
                old(self)@.insert(path@, Declared { value: value@, sealed })
            },
    {
        let mut first: Option<usize> = None;
        let mut i: usize = 0;
        while i < self.slots.len()
            invariant
                i <= self.slots@.len(),
                self.slots == old(self).slots,
                apart(self.slots@),
                match first {
                    None => forall|j: int|
                        0 <= j < i ==> !overlaps((#[trigger] self.slots@[j]).path@, path@),
                    Some(k) => k < i && overlaps(self.slots@[k as int].path@, path@) && forall|
                        j: int,
                    |
                        0 <= j < i && j != k && overlaps((#[trigger] self.slots@[j]).path@, path@)
                            ==> before(self.slots@[k as int].path@, self.slots@[j].path@),
                },
            decreases self.slots@.len() - i,
        {
            if overlap(self.slots[i].path, path) {
                match first {
                    None => {
                        first = Some(i);
                    },
                    Some(k) => {
                        if comes_before(self.slots[i].path, self.slots[k].path) {
                            proof {
                                let (new, held) = (
                                    self.slots@[i as int].path@,
                                    self.slots@[k as int].path@,
                                );
                                assert forall|j: int|
                                    0 <= j <= i && j != i && overlaps(
                                        (#[trigger] self.slots@[j]).path@,
                                        path@,
                                    ) implies before(new, self.slots@[j].path@) by {
                                    if j != k {
                                        lemma_before_chain(new, held, self.slots@[j].path@);
                                    }
                                }
                            }
                            first = Some(i);
                        }
                    },
                }
            }
            i += 1;
        }
        if let Some(k) = first {
            let held = self.slots[k].path;
            proof {
                lemma_by_path(self.slots@, k as int);
                assert forall|q: Seq<u8>| #[trigger]
                    old(self)@.contains_key(q) && overlaps(q, path@) && q != held@ implies before(
                    held@,
                    q,
                ) by {
                    let at = position(self.slots@, q);
                    assert(self.slots@[at].path@ == q);
                }
                assert(is_earliest_taken(old(self)@, path@, held@));
                let named = earliest_taken(old(self)@, path@);
                if named != held@ {
                    lemma_before_one_way(named, held@);
                }
                lemma_path_with(held);
                lemma_path_with(path);
            }
            return Err(StateRefusal::Overlap { declared: held, path });
        }
        let ghost before = self.slots@;
        self.slots.push(Slot { path, value, sealed });
        proof {
            let after = self.slots@;
            assert forall|q: Seq<u8>| #[trigger] old(self)@.contains_key(q) implies !overlaps(
                q,
                path@,
            ) by {
                assert(before[position(before, q)].path@ == q);
            }
            assert(apart(after));
            assert forall|q: Seq<u8>| #[trigger] by_path(after).contains_key(q) <==> old(
                self,
            )@.insert(path@, Declared { value: value@, sealed }).contains_key(q) by {
                if by_path(after).contains_key(q) {
                    let at = position(after, q);
                    assert(after[at].path@ == q);
                    if at < before.len() {
                        assert(before[at].path@ == q);
                    }
                }
                if by_path(before).contains_key(q) {
                    let at = position(before, q);
                    assert(after[at].path@ == q);
                }
                assert(after[before.len() as int].path@ == path@);
            }
            assert forall|q: Seq<u8>| #[trigger] by_path(after).contains_key(q) implies by_path(
                after,
            )[q] == old(self)@.insert(path@, Declared { value: value@, sealed })[q] by {
                let at = position(after, q);
                assert(after[at].path@ == q);
                lemma_by_path(after, at);
                if at < before.len() {
                    assert(before[at] == after[at]);
                    lemma_by_path(before, at);
                    assert(q.is_prefix_of(q));
                    assert(q != path@);
                }
            }
            assert(self@ =~= old(self)@.insert(path@, Declared { value: value@, sealed }));
        }
        Ok(())
    }

    /// The position of the slot at `path`.
    fn find(&self, path: FieldPath) -> (r: Option<usize>)
        requires
            self.wf(),
        ensures
            match r {
                Some(i) => i < self.slots@.len() && self.slots@[i as int].path == path
                    && self@.contains_key(path@) && self@[path@] == self.slots@[i as int].declared(),
                None => !self@.contains_key(path@),
            },
    {
        let mut i: usize = 0;
        while i < self.slots.len()
            invariant
                i <= self.slots@.len(),
                apart(self.slots@),
                forall|j: int| 0 <= j < i ==> (#[trigger] self.slots@[j]).path != path,
            decreases self.slots@.len() - i,
        {
            if self.slots[i].path == path {
                proof {
                    lemma_by_path(self.slots@, i as int);
                }
                return Some(i);
            }
            i += 1;
        }
        proof {
            if self@.contains_key(path@) {
                let at = position(self.slots@, path@);
                assert(self.slots@[at].path@ == path@);
                lemma_path_is_its_positions(self.slots@[at].path, path);
            }
        }
        None
    }

    /// Replaces a declared slot's initial value. Only a slot the block
    /// declares, never a standard's magic, and only with a value of the same
    /// shape. Every other slot keeps its value.
    pub fn set(&mut self, path: FieldPath, value: StateValue) -> (r: Result<(), StateRefusal>)
        requires
            old(self).wf(),
        ensures
            final(self).wf(),
            r == if !old(self)@.contains_key(path@) {
                Err(StateRefusal::NotASlot { path })
            } else if old(self)@[path@].sealed {
                Err(StateRefusal::Sealed { path })
            } else if !fits_shape(old(self)@[path@].value, value@) {
                Err(StateRefusal::Shape { path })
            } else {
                Ok::<(), StateRefusal>(())
            },
            final(self)@ == if r is Ok {
                old(self)@.insert(path@, Declared { value: value@, sealed: false })
            } else {
                old(self)@
            },
    {
        let at: usize = match self.find(path) {
            Some(at) => at,
            None => {
                return Err(StateRefusal::NotASlot { path });
            },
        };
        if self.slots[at].sealed {
            return Err(StateRefusal::Sealed { path });
        }
        if !same_shape(&self.slots[at].value, &value) {
            return Err(StateRefusal::Shape { path });
        }
        let ghost before = self.slots@;
        self.slots.set(at, Slot { path, value, sealed: false });
        proof {
            let after = self.slots@;
            assert(forall|i: int|
                0 <= i < after.len() ==> (#[trigger] after[i]).path == before[i].path);
            assert(apart(after));
            let next = old(self)@.insert(path@, Declared { value: value@, sealed: false });
            assert forall|q: Seq<u8>| #[trigger] by_path(after).contains_key(q)
                <==> next.contains_key(q) by {
                if by_path(after).contains_key(q) {
                    let i = position(after, q);
                    assert(after[i].path@ == q);
                    assert(before[i].path@ == q);
                }
                if by_path(before).contains_key(q) {
                    let i = position(before, q);
                    assert(before[i].path@ == q);
                    assert(after[i].path@ == q);
                }
            }
            assert forall|q: Seq<u8>| #[trigger] by_path(after).contains_key(q) implies by_path(
                after,
            )[q] == next[q] by {
                let i = position(after, q);
                assert(after[i].path@ == q);
                lemma_by_path(after, i);
                if i != at {
                    lemma_by_path(before, i);
                    assert(!overlaps(after[i].path@, after[at as int].path@));
                    assert(q.is_prefix_of(q));
                    assert(q != path@);
                }
            }
            assert(self@ =~= next);
        }
        Ok(())
    }

    /// A declared slot's current initial value.
    pub fn get(&self, path: FieldPath) -> (r: Option<&StateValue>)
        requires
            self.wf(),
        ensures
            match r {
                Some(value) => self@.contains_key(path@) && value@ == self@[path@].value,
                None => !self@.contains_key(path@),
            },
    {
        match self.find(path) {
            Some(at) => Some(&self.slots[at].value),
            None => None,
        }
    }

    /// The end of a block's deploy state: its slots wrote as many magics as the
    /// block embeds standards, none or one.
    pub fn assert_standards(&self, embedded: usize) -> (r: Result<(), StateRefusal>)
        requires
            self.wf(),
            embedded <= 1,
        ensures
            r == if embedded == 1 && !has_magic(self@) {
                Err(StateRefusal::MagicMissing)
            } else if embedded == 0 && has_magic(self@) {
                Err(StateRefusal::MagicUnclaimed)
            } else {
                Ok::<(), StateRefusal>(())
            },
    {
        let mut wrote: bool = false;
        let mut i: usize = 0;
        while i < self.slots.len()
            invariant
                i <= self.slots@.len(),
                apart(self.slots@),
                wrote <==> exists|j: int| 0 <= j < i && (#[trigger] self.slots@[j]).sealed,
            decreases self.slots@.len() - i,
        {
            if self.slots[i].sealed {
                wrote = true;
            }
            i += 1;
        }
        proof {
            if wrote {
                let j = choose|j: int| 0 <= j < i && (#[trigger] self.slots@[j]).sealed;
                lemma_by_path(self.slots@, j);
            }
            if has_magic(self@) {
                let q = choose|q: Seq<u8>| #[trigger] self@.contains_key(q) && self@[q].sealed;
                let j = position(self.slots@, q);
                assert(self.slots@[j].path@ == q);
                assert(self.slots@[j].sealed);
            }
        }
        if embedded == 1 && !wrote {
            Err(StateRefusal::MagicMissing)
        } else if embedded == 0 && wrote {
            Err(StateRefusal::MagicUnclaimed)
        } else {
            Ok(())
        }
    }

    /// The state tree: every declared slot at its path, each Array as long as
    /// its highest index plus one, every other entry Null. Refuses an index
    /// past the ledger's Array bound.
    pub fn build(&self) -> (r: Result<StateValue, StateRefusal>)
        requires
            self.wf(),
        ensures
            match r {
                Ok(value) => narrow(self@, Seq::empty()) && value@ == state_tree(self@),
                Err(refusal) => !narrow(self@, Seq::empty()) && (wide_node(self@, Seq::empty())
                    matches Some(n) && refusal == (StateRefusal::TooWide { entries: n as usize })),
            },
    {
        let root: Vec<u8> = Vec::new();
        assert(root@ =~= Seq::<u8>::empty());
        assemble(&self.slots, &root)
    }
}

/// Whether every index declared under `prefix` fits a ledger Array.
pub open spec fn narrow(slots: Map<Seq<u8>, Declared>, prefix: Seq<u8>) -> bool {
    forall|q: Seq<u8>, k: int| #[trigger]
        slots.contains_key(q) && below(prefix, q) && prefix.len() <= k < q.len()
            ==> #[trigger] q[k] < 16
}

/// The length of the first Array too long for the ledger, from `prefix` down.
pub open spec fn wide_node(slots: Map<Seq<u8>, Declared>, prefix: Seq<u8>) -> Option<nat>
    decreases 3 - prefix.len(), width(slots, prefix) + 1,
{
    if prefix.len() >= 3 {
        None
    } else if width(slots, prefix) > MAX_ARRAY {
        Some(width(slots, prefix))
    } else {
        wide_below(slots, prefix, width(slots, prefix))
    }
}

/// The length of the first Array too long for the ledger in the first `n` entries
/// of the Array at `prefix`.
pub open spec fn wide_below(slots: Map<Seq<u8>, Declared>, prefix: Seq<u8>, n: nat) -> Option<nat>
    decreases 3 - prefix.len(), n,
{
    if n == 0 || prefix.len() >= 3 {
        None
    } else {
        let path = prefix.push((n - 1) as u8);
        match wide_below(slots, prefix, (n - 1) as nat) {
            Some(entries) => Some(entries),
            None => if !slots.contains_key(path) && has_below(slots, path) {
                wide_node(slots, path)
            } else {
                None
            },
        }
    }
}

proof fn lemma_wide_stays(slots: Map<Seq<u8>, Declared>, prefix: Seq<u8>, n: nat, m: nat)
    requires
        n <= m,
        wide_below(slots, prefix, n) is Some,
    ensures
        wide_below(slots, prefix, m) == wide_below(slots, prefix, n),
    decreases m,
{
    if n < m {
        lemma_wide_stays(slots, prefix, n, (m - 1) as nat);
    }
}

/// What writing a standard's magic contributes.
pub open spec fn magic_of<S: LedgerHeader>(magic: Magic) -> Contribution {
    Contribution {
        path: magic.path()@,
        value: Tree::Cell(byte_string(S::MAGIC@, 32)),
        sealed: true,
    }
}

/// The length of the Array at `prefix`.
fn array_width(slots: &Vec<Slot>, prefix: &Vec<u8>) -> (r: usize)
    requires
        apart(slots@),
    ensures
        r == width(by_path(slots@), prefix@),
        is_width(by_path(slots@), prefix@, r as nat),
{
    let ghost m = by_path(slots@);
    let mut len: usize = 0;
    let mut i: usize = 0;
    while i < slots.len()
        invariant
            i <= slots@.len(),
            len <= 256,
            forall|j: int|
                0 <= j < i && below(prefix@, (#[trigger] slots@[j]).path@)
                    ==> slots@[j].path@[prefix@.len() as int] < len,
            len > 0 ==> exists|j: int|
                0 <= j < i && below(prefix@, (#[trigger] slots@[j]).path@)
                    && slots@[j].path@[prefix@.len() as int] == len - 1,
        decreases slots@.len() - i,
    {
        let path = slots[i].path.to_vec();
        if is_below(prefix, &path) {
            let next: usize = path[prefix.len()] as usize + 1;
            if next > len {
                len = next;
            }
        }
        i += 1;
    }
    proof {
        assert forall|q: Seq<u8>| #[trigger] m.contains_key(q) && below(prefix@, q) implies q[prefix@.len() as int]
            < len by {
            assert(slots@[position(slots@, q)].path@ == q);
        }
        if len > 0 {
            let j = choose|j: int|
                0 <= j < i && below(prefix@, (#[trigger] slots@[j]).path@)
                    && slots@[j].path@[prefix@.len() as int] == len - 1;
            lemma_by_path(slots@, j);
        }
        lemma_width_unique(m, prefix@, len as nat);
    }
    len
}

/// One Array node, at `prefix`, from the slots under it.
fn assemble(slots: &Vec<Slot>, prefix: &Vec<u8>) -> (r: Result<StateValue, StateRefusal>)
    requires
        apart(slots@),
        prefix@.len() < 3,
    ensures
        match r {
            Ok(value) => narrow(by_path(slots@), prefix@) && wide_node(by_path(slots@), prefix@)
                is None && value@ == assembled(by_path(slots@), prefix@),
            Err(refusal) => !narrow(by_path(slots@), prefix@) && (wide_node(
                by_path(slots@),
                prefix@,
            ) matches Some(n) && refusal == (StateRefusal::TooWide { entries: n as usize })),
        },
    decreases 3 - prefix@.len(),
{
    let ghost m = by_path(slots@);
    let len: usize = array_width(slots, prefix);
    if len > MAX_ARRAY {
        proof {
            let q = choose|q: Seq<u8>| #[trigger]
                m.contains_key(q) && below(prefix@, q) && q[prefix@.len() as int] == len - 1;
            assert(q[prefix@.len() as int] >= 16);
        }
        return Err(StateRefusal::TooWide { entries: len });
    }
    proof {
        lemma_laid_out(slots@);
    }
    let mut items: Vec<StateValue> = Vec::new();
    while items.len() < len
        invariant
            items@.len() <= len <= 16,
            prefix@.len() < 3,
            apart(slots@),
            laid_out(m),
            m == by_path(slots@),
            is_width(m, prefix@, len as nat),
            len == width(m, prefix@),
            wide_below(m, prefix@, items@.len() as nat) is None,
            forall|i: int|
                0 <= i < items@.len() ==> (#[trigger] items@[i])@ == assembled(m, prefix@)->Array_0[i],
            forall|q: Seq<u8>, k: int| #[trigger]
                m.contains_key(q) && below(prefix@, q) && prefix@.len() <= k < q.len()
                    && q[prefix@.len() as int] < items@.len() ==> #[trigger] q[k] < 16,
        decreases len - items@.len(),
    {
        let at: u8 = items.len() as u8;
        let mut path: Vec<u8> = Vec::new();
        let mut i: usize = 0;
        while i < prefix.len()
            invariant
                i <= prefix@.len(),
                path@ == prefix@.take(i as int),
            decreases prefix@.len() - i,
        {
            path.push(prefix[i]);
            assert(prefix@.take(i + 1) =~= prefix@.take(i as int).push(prefix@[i as int]));
            i += 1;
        }
        assert(prefix@.take(i as int) =~= prefix@);
        path.push(at);
        let ghost here = prefix@.push(at);
        let item = entry_at(slots, &path);
        let found = match item {
            Entry::Here(k) => {
                proof {
                    lemma_by_path(slots@, k as int);
                }
                slots[k].value.copy()
            },
            Entry::Below => match assemble(slots, &path) {
                Ok(node) => node,
                Err(refusal) => {
                    proof {
                        let (q, k) = choose|q: Seq<u8>, k: int| #[trigger]
                            m.contains_key(q) && below(here, q) && here.len() <= k < q.len() && !(
                            #[trigger] q[k] < 16);
                        lemma_below_push(prefix@, at, q);
                        assert(below(prefix@, q));
                        assert(!(q[k] < 16));
                        assert(wide_below(m, prefix@, (at + 1) as nat) is Some);
                        lemma_wide_stays(m, prefix@, (at + 1) as nat, len as nat);
                    }
                    return Err(refusal);
                },
            },
            Entry::Nothing => StateValue::Null,
        };
        proof {
            assert((at as int) as u8 == at);
            assert(found@ == assembled(m, prefix@)->Array_0[at as int]);
            assert forall|q: Seq<u8>, k: int| #[trigger]
                m.contains_key(q) && below(prefix@, q) && prefix@.len() <= k < q.len()
                    && q[prefix@.len() as int] < items@.len() + 1 implies #[trigger] q[k] < 16 by {
                if q[prefix@.len() as int] == at && k > prefix@.len() {
                    assert(here =~= q.take((prefix@.len() + 1) as int)) by {
                        assert(prefix@ =~= q.take(prefix@.len() as int));
                        assert forall|z: int| 0 <= z < here.len() implies here[z] == q[z] by {
                            if z < prefix@.len() {
                                assert(prefix@[z] == q.take(prefix@.len() as int)[z]);
                            }
                        }
                    }
                    assert(here.is_prefix_of(q));
                    assert(below(here, q));
                    assert(has_below(m, here));
                    if m.contains_key(here) {
                        assert(overlaps(here, q));
                    }
                    assert(narrow(m, here));
                }
            }
        }
        items.push(found);
    }
    let r = StateValue::Array(items);
    assert(r@->Array_0 =~= assembled(m, prefix@)->Array_0);
    Ok(r)
}

proof fn lemma_below_push(prefix: Seq<u8>, at: u8, q: Seq<u8>)
    requires
        below(prefix.push(at), q),
    ensures
        below(prefix, q),
{
    let here = prefix.push(at);
    assert forall|i: int| 0 <= i < prefix.len() implies prefix[i] == q[i] by {
        assert(here[i] == prefix[i]);
        assert(here =~= q.take(here.len() as int));
        assert(q.take(here.len() as int)[i] == q[i]);
    }
    assert(prefix =~= q.take(prefix.len() as int));
}

/// What is declared at a path.
enum Entry {
    /// The slot at this position.
    Here(usize),
    /// Slots inside it.
    Below,
    /// Nothing.
    Nothing,
}

fn entry_at(slots: &Vec<Slot>, path: &Vec<u8>) -> (r: Entry)
    requires
        apart(slots@),
    ensures
        match r {
            Entry::Here(k) => k < slots@.len() && slots@[k as int].path@ == path@,
            Entry::Below => !by_path(slots@).contains_key(path@) && has_below(
                by_path(slots@),
                path@,
            ),
            Entry::Nothing => !by_path(slots@).contains_key(path@) && !has_below(
                by_path(slots@),
                path@,
            ),
        },
{
    let ghost m = by_path(slots@);
    let mut inside: bool = false;
    let mut i: usize = 0;
    while i < slots.len()
        invariant
            i <= slots@.len(),
            m == by_path(slots@),
            apart(slots@),
            forall|j: int| 0 <= j < i ==> (#[trigger] slots@[j]).path@ != path@,
            inside <==> exists|j: int| 0 <= j < i && below(path@, (#[trigger] slots@[j]).path@),
        decreases slots@.len() - i,
    {
        let other = slots[i].path.to_vec();
        if crate::fab::same_bytes(other.as_slice(), path.as_slice()) {
            return Entry::Here(i);
        }
        if is_below(path, &other) {
            inside = true;
        }
        i += 1;
    }
    proof {
        if m.contains_key(path@) {
            assert(slots@[position(slots@, path@)].path@ == path@);
        }
        if inside {
            let j = choose|j: int| 0 <= j < i && below(path@, (#[trigger] slots@[j]).path@);
            lemma_by_path(slots@, j);
        }
        if has_below(m, path@) {
            let q = choose|q: Seq<u8>| #[trigger] m.contains_key(q) && below(path@, q);
            assert(slots@[position(slots@, q)].path@ == q);
        }
    }
    if inside {
        Entry::Below
    } else {
        Entry::Nothing
    }
}

impl Default for StateBuilder {
    fn default() -> (r: Self)
        ensures
            r.wf(),
            r@ == Map::<Seq<u8>, Declared>::empty(),
    {
        StateBuilder::new()
    }
}

// ---- what a slot contributes ---------------------------------------------------------

/// A slot type's share of its block's deploy-time state: its initial value at
/// the path it was laid out at. A group slot delegates to its members.
pub trait InitialState {
    /// Whether its fields lie within its block.
    spec fn ready(&self) -> bool;

    /// What it writes, in order.
    spec fn contributions(&self) -> Seq<Contribution>;

    /// Writes this slot's initial values into `state`, each at its path, up to
    /// the first that is refused.
    fn contribute(&self, state: &mut StateBuilder) -> (r: Result<(), StateRefusal>)
        requires
            self.ready(),
            old(state).wf(),
        ensures
            final(state).wf(),
            final(state)@ == contributed(old(state)@, self.contributions()).0,
            r == match contributed(old(state)@, self.contributions()).1 {
                None => Ok::<(), StateRefusal>(()),
                Some(refusal) => Err(refusal),
            },
    ;
}

/// One contribution is one declaration.
pub proof fn lemma_one_contribution(slots: Map<Seq<u8>, Declared>, c: Contribution)
    ensures
        contributed(slots, seq![c]) == match declared(slots, c) {
            Ok(next) => (next, None::<StateRefusal>),
            Err(refusal) => (slots, Some(refusal)),
        },
{
    reveal_with_fuel(contributed, 2);
    assert(seq![c].skip(1) =~= Seq::<Contribution>::empty());
}

impl<A: InitialState, B: InitialState> InitialState for (A, B) {
    open spec fn ready(&self) -> bool {
        self.0.ready() && self.1.ready()
    }

    open spec fn contributions(&self) -> Seq<Contribution> {
        self.0.contributions() + self.1.contributions()
    }

    fn contribute(&self, state: &mut StateBuilder) -> (r: Result<(), StateRefusal>) {
        proof {
            law_contributions_add_up(state@, self.0.contributions(), self.1.contributions());
        }
        match self.0.contribute(state) {
            Ok(()) => self.1.contribute(state),
            Err(refusal) => Err(refusal),
        }
    }
}

impl<A: InitialState, B: InitialState, C: InitialState> InitialState for (A, B, C) {
    open spec fn ready(&self) -> bool {
        self.0.ready() && self.1.ready() && self.2.ready()
    }

    open spec fn contributions(&self) -> Seq<Contribution> {
        self.0.contributions() + self.1.contributions() + self.2.contributions()
    }

    fn contribute(&self, state: &mut StateBuilder) -> (r: Result<(), StateRefusal>) {
        proof {
            let lead = self.0.contributions() + self.1.contributions();
            law_contributions_add_up(state@, self.0.contributions(), self.1.contributions());
            law_contributions_add_up(state@, lead, self.2.contributions());
        }
        match self.0.contribute(state) {
            Ok(()) => {},
            Err(refusal) => {
                return Err(refusal);
            },
        }
        match self.1.contribute(state) {
            Ok(()) => self.2.contribute(state),
            Err(refusal) => Err(refusal),
        }
    }
}

impl<A: InitialState, B: InitialState, C: InitialState, D: InitialState> InitialState for (
    A,
    B,
    C,
    D,
) {
    open spec fn ready(&self) -> bool {
        self.0.ready() && self.1.ready() && self.2.ready() && self.3.ready()
    }

    open spec fn contributions(&self) -> Seq<Contribution> {
        self.0.contributions() + self.1.contributions() + self.2.contributions()
            + self.3.contributions()
    }

    fn contribute(&self, state: &mut StateBuilder) -> (r: Result<(), StateRefusal>) {
        proof {
            let two = self.0.contributions() + self.1.contributions();
            let three = two + self.2.contributions();
            law_contributions_add_up(state@, self.0.contributions(), self.1.contributions());
            law_contributions_add_up(state@, two, self.2.contributions());
            law_contributions_add_up(state@, three, self.3.contributions());
        }
        match self.0.contribute(state) {
            Ok(()) => {},
            Err(refusal) => {
                return Err(refusal);
            },
        }
        match self.1.contribute(state) {
            Ok(()) => {},
            Err(refusal) => {
                return Err(refusal);
            },
        }
        match self.2.contribute(state) {
            Ok(()) => self.3.contribute(state),
            Err(refusal) => Err(refusal),
        }
    }
}

// ---- what the builder promises ----------------------------------------------------------------------

/// What a contribution does: it is refused where it is a second magic, or where a
/// declared path is its own, inside it or around it, and then names both; otherwise
/// its path holds its value, and every other slot is as it was.
pub proof fn law_what_a_contribution_does(
    slots: Map<Seq<u8>, Declared>,
    c: Contribution,
    q: Seq<u8>,
)
    requires
        laid_out(slots),
        1 <= c.path.len() <= 3,
    ensures
        match declared(slots, c) {
            Ok(next) => {
                &&& !(c.sealed && slots.contains_key(q) && slots[q].sealed)
                &&& slots.contains_key(q) ==> !q.is_prefix_of(c.path) && !c.path.is_prefix_of(q)
                &&& next.contains_key(c.path)
                &&& next[c.path].value == c.value
                &&& next[c.path].sealed == c.sealed
                &&& q != c.path ==> (next.contains_key(q) <==> slots.contains_key(q))
                &&& q != c.path && slots.contains_key(q) ==> next[q] == slots[q]
            },
            Err(StateRefusal::SecondStandard) => c.sealed && exists|p: Seq<u8>| #[trigger]
                slots.contains_key(p) && slots[p].sealed,
            Err(StateRefusal::Overlap { declared: first, path }) => path@ == c.path && exists|
                p: Seq<u8>,
            | #[trigger]
                slots.contains_key(p) && (p.is_prefix_of(c.path) || c.path.is_prefix_of(p)),
            Err(_) => false,
        },
        c.sealed && slots.contains_key(q) && slots[q].sealed ==> declared(slots, c) == Err::<
            Map<Seq<u8>, Declared>,
            StateRefusal,
        >(StateRefusal::SecondStandard),
        slots.contains_key(q) && (q.is_prefix_of(c.path) || c.path.is_prefix_of(q)) ==> declared(
            slots,
            c,
        ) is Err,
{
    assert(FieldPath::with(c.path)@ =~= c.path);
}

/// The path that an overlap names is the earliest declared one that overlaps.
pub proof fn law_an_overlap_names_the_earliest(
    slots: Map<Seq<u8>, Declared>,
    c: Contribution,
    q: Seq<u8>,
)
    requires
        laid_out(slots),
        1 <= c.path.len() <= 3,
        !(c.sealed && has_magic(slots)),
        slots.contains_key(q),
        q.is_prefix_of(c.path) || c.path.is_prefix_of(q),
        forall|other: Seq<u8>| #[trigger]
            slots.contains_key(other) && (other.is_prefix_of(c.path) || c.path.is_prefix_of(other))
                && other != q ==> before(q, other),
    ensures
        declared(slots, c) matches Err(StateRefusal::Overlap { declared: first, path }) && first@
            == q && path@ == c.path,
{
    assert(is_earliest_taken(slots, c.path, q));
    let e = earliest_taken(slots, c.path);
    assert(is_earliest_taken(slots, c.path, e));
    if e != q {
        assert(before(q, e) && before(e, q));
        lemma_before_one_way(q, e);
    }
    assert(FieldPath::with(q)@ =~= q);
    assert(FieldPath::with(c.path)@ =~= c.path);
}

/// A path in words: its positions in decimal, between brackets, a comma and a
/// space between each two.
pub proof fn law_path_in_words(a: u8, b: u8, c: u8)
    ensures
        path_text(seq![a]) == "["@ + decimal(a as nat) + "]"@,
        path_text(seq![a, b]) == "["@ + (decimal(a as nat) + ", "@ + decimal(b as nat)) + "]"@,
        path_text(seq![a, b, c]) == "["@ + (decimal(a as nat) + ", "@ + decimal(b as nat) + ", "@
            + decimal(c as nat)) + "]"@,
{
    reveal_with_fuel(positions_text, 4);
}

/// Which values a slot takes in place of its first one: an untyped field any, a
/// cell a cell of its alignment, a map a map, a list a list, a tree a tree of its
/// height, and one that keeps its past roots another such.
pub proof fn law_which_values_a_slot_takes(
    cell: Aligned,
    entries: Map<Aligned, Tree>,
    height: u8,
    value: Tree,
)
    ensures
        fits_shape(Tree::Null, value),
        fits_shape(Tree::Cell(cell), value) <==> (value matches Tree::Cell(other)
            && other.alignment == cell.alignment),
        fits_shape(Tree::Mapping(entries), value) <==> value is Mapping,
        fits_shape(empty_list_tree(), value) <==> is_list(value),
        fits_shape(empty_merkle_tree(height), value) <==> (value matches Tree::Array(items)
            && items.len() == 2 && (items[0] matches Tree::Merkle { height: h, .. } && h == height)
            && (items[1] matches Tree::Cell(next) && next.alignment == number(0, 8).alignment)),
        fits_shape(empty_historic_tree(height), value) <==> (value matches Tree::Array(items)
            && items.len() == 3 && (items[0] matches Tree::Merkle { height: h, .. } && h == height)
            && (items[1] matches Tree::Cell(next) && next.alignment == number(0, 8).alignment)
            && items[2] is Mapping),
{
    let zero = Tree::Cell(number(0, 8));
    assert(number(0, 8).alignment =~= seq![Segment::Atom(AlignmentAtom::Bytes { length: 8 })]);
    assert(is_u64_cell(zero));
    reveal_with_fuel(is_list, 2);
}

/// What a list is: empty, or an item and a list, and a length beside them.
pub proof fn law_what_a_list_is(value: Tree)
    ensures
        is_list(value) <==> (value matches Tree::Array(items) && items.len() == 3 && (
        items[2] matches Tree::Cell(length) && length.alignment == number(0, 8).alignment) && (
        items[0] is Null ==> items[1] is Null) && (!(items[0] is Null) ==> is_list(items[1]))),
{
    assert(number(0, 8).alignment =~= seq![Segment::Atom(AlignmentAtom::Bytes { length: 8 })]);
}

/// What a refusal of a wide node says: how many entries an Array of the state would
/// have, more than sixteen.
pub proof fn law_a_wide_node_is_one(slots: Map<Seq<u8>, Declared>, prefix: Seq<u8>)
    ensures
        wide_node(slots, prefix) matches Some(n) ==> n > 16 && exists|p: Seq<u8>| #[trigger]
            width(slots, p) == n && prefix.is_prefix_of(p),
    decreases 3 - prefix.len(), width(slots, prefix) + 1,
{
    if prefix.len() < 3 {
        if width(slots, prefix) > MAX_ARRAY {
            assert(prefix.is_prefix_of(prefix));
        } else {
            lemma_wide_below_is_one(slots, prefix, width(slots, prefix));
        }
    }
}

proof fn lemma_wide_below_is_one(slots: Map<Seq<u8>, Declared>, prefix: Seq<u8>, n: nat)
    ensures
        wide_below(slots, prefix, n) matches Some(m) ==> m > 16 && exists|p: Seq<u8>| #[trigger]
            width(slots, p) == m && prefix.is_prefix_of(p),
    decreases 3 - prefix.len(), n,
{
    if n > 0 && prefix.len() < 3 {
        lemma_wide_below_is_one(slots, prefix, (n - 1) as nat);
        let path = prefix.push((n - 1) as u8);
        if wide_below(slots, prefix, (n - 1) as nat) is None && !slots.contains_key(path)
            && has_below(slots, path) {
            law_a_wide_node_is_one(slots, path);
            if let Some(m) = wide_node(slots, path) {
                let p = choose|p: Seq<u8>| #[trigger]
                    width(slots, p) == m && path.is_prefix_of(p);
                assert(prefix =~= path.take(prefix.len() as int));
                assert(prefix =~= p.take(prefix.len() as int)) by {
                    assert(path == p.take(path.len() as int));
                }
                assert(prefix.is_prefix_of(p));
            }
        }
    }
}

/// What writing a magic contributes: the standard's bytes as they are, at the
/// magic's path, sealed.
pub proof fn law_what_a_magic_contributes<S: LedgerHeader>(magic: Magic)
    ensures
        magic_of::<S>(magic).path == magic.path()@,
        magic_of::<S>(magic).sealed,
        magic_of::<S>(magic).value matches Tree::Cell(cell) && cell.value.len() == 1
            && bytes_without_end(cell.value[0], S::MAGIC@) && cell.alignment == seq![
            Segment::Atom(AlignmentAtom::Bytes { length: 32 }),
        ],
{
    law_trimmed_is_the_bytes(S::MAGIC@);
}

/// A group's slots contribute one after the other.
pub proof fn law_groups_contribute_in_order<
    A: InitialState,
    B: InitialState,
    C: InitialState,
    D: InitialState,
>(a: A, b: B, c: C, d: D)
    ensures
        (a, b).contributions() == a.contributions() + b.contributions(),
        (a, b, c).contributions() == (a, b).contributions() + c.contributions(),
        (a, b, c, d).contributions() == (a, b, c).contributions() + d.contributions(),
        (a, b).ready() <==> a.ready() && b.ready(),
        (a, b, c).ready() <==> (a, b).ready() && c.ready(),
        (a, b, c, d).ready() <==> (a, b, c).ready() && d.ready(),
{
}

/// Which blocks build: those of whose paths every position fits an Array of sixteen.
pub proof fn law_which_blocks_build(slots: Map<Seq<u8>, Declared>)
    ensures
        narrow(slots, Seq::empty()) <==> forall|q: Seq<u8>, k: int|
            #![trigger slots.contains_key(q), q[k]]
            slots.contains_key(q) && 0 <= k < q.len() ==> q[k] <= 15,
        narrow(slots, Seq::empty()) ==> wide_node(slots, Seq::empty()) is None,
{
    let root = Seq::<u8>::empty();
    assert forall|q: Seq<u8>| #[trigger] slots.contains_key(q) && q.len() > 0 implies below(
        root,
        q,
    ) by {
        assert(root.is_prefix_of(q));
    }
    if narrow(slots, root) {
        lemma_narrow_has_no_wide_node(slots, root);
    }
}

proof fn lemma_narrow_has_no_wide_node(slots: Map<Seq<u8>, Declared>, prefix: Seq<u8>)
    requires
        narrow(slots, prefix),
    ensures
        wide_node(slots, prefix) is None,
    decreases 3 - prefix.len(), width(slots, prefix) + 1,
{
    if prefix.len() < 3 {
        law_width_is_highest_plus_one(slots, prefix);
        let n = width(slots, prefix);
        if n > 16 {
            let q = choose|q: Seq<u8>| #[trigger]
                slots.contains_key(q) && below(prefix, q) && q[prefix.len() as int] == n - 1;
            assert(q[prefix.len() as int] < 16);
        }
        lemma_narrow_has_none_below(slots, prefix, n);
    }
}

proof fn lemma_narrow_has_none_below(slots: Map<Seq<u8>, Declared>, prefix: Seq<u8>, n: nat)
    requires
        narrow(slots, prefix),
    ensures
        wide_below(slots, prefix, n) is None,
    decreases 3 - prefix.len(), n,
{
    if n > 0 && prefix.len() < 3 {
        lemma_narrow_has_none_below(slots, prefix, (n - 1) as nat);
        let path = prefix.push((n - 1) as u8);
        assert forall|q: Seq<u8>, k: int| #[trigger]
            slots.contains_key(q) && below(path, q) && path.len() <= k < q.len() implies #[trigger] q[k]
            < 16 by {
            assert(prefix =~= path.take(prefix.len() as int));
            assert(prefix =~= q.take(prefix.len() as int)) by {
                assert(path == q.take(path.len() as int));
            }
            assert(below(prefix, q));
        }
        lemma_narrow_has_no_wide_node(slots, path);
    }
}

/// A refusal's text names the rule that was broken, and the paths it was broken at
/// or the size that was too large: of two overlapping slots the declared one first.
pub proof fn law_a_refusal_names_its_rule(refusal: StateRefusal)
    ensures
        refusal matches StateRefusal::Overlap { declared, path } ==> has_text(
            refusal.text(),
            "overlapping paths "@,
        ) && has_text(refusal.text(), path_text(declared@) + " and "@ + path_text(path@)),
        refusal is SecondStandard ==> has_text(refusal.text(), "one standard per ledger block"@),
        refusal matches StateRefusal::NotASlot { path } ==> has_text(
            refusal.text(),
            " is not a slot of this block"@,
        ) && has_text(refusal.text(), path_text(path@)),
        refusal matches StateRefusal::Sealed { path } ==> has_text(
            refusal.text(),
            " is a standard's magic"@,
        ) && has_text(refusal.text(), path_text(path@)),
        refusal matches StateRefusal::Shape { path } ==> has_text(
            refusal.text(),
            " is not the slot's shape"@,
        ) && has_text(refusal.text(), path_text(path@)),
        refusal matches StateRefusal::TooWide { entries } ==> has_text(
            refusal.text(),
            "at most sixteen entries"@,
        ) && has_text(refusal.text(), decimal(entries as nat)),
        refusal is MagicMissing ==> has_text(refusal.text(), "embeds 1 and its slots wrote 0"@),
        refusal is MagicUnclaimed ==> has_text(refusal.text(), "embeds 0 and its slots wrote 1"@),
{
    let none = Seq::<char>::empty();
    match refusal {
        StateRefusal::Overlap { declared, path } => {
            let lead = "two slots of one ledger block contributed overlapping paths "@;
            let pair = path_text(declared@) + " and "@ + path_text(path@);
            let tail = ": a layout gives every field its own path, so a slot type's `InitialState::contribute` wrote outside its fields"@;
            assert(refusal.text() =~= lead + pair + tail);
            lemma_parts_of_text(lead, pair, tail);
            assert(refusal.text() =~= none + lead + (pair + tail));
            lemma_parts_of_text(none, lead, pair + tail);
            reveal_strlit("two slots of one ledger block contributed overlapping paths ");
            reveal_strlit("overlapping paths ");
            lemma_found_at("two slots of one ledger block contributed overlapping paths "@, "overlapping paths "@, 42);
            lemma_has_text(refusal.text(), lead, "overlapping paths "@);
        },
        StateRefusal::SecondStandard => {
            reveal_strlit("one standard per ledger block: a second slot wrote a magic, and root[0] has one owner");
            reveal_strlit("one standard per ledger block");
            lemma_found_at("one standard per ledger block: a second slot wrote a magic, and root[0] has one owner"@, "one standard per ledger block"@, 0);
        },
        StateRefusal::NotASlot { path } => {
            let (lead, at) = ("StateBuilder::set: "@, path_text(path@));
            let tail = " is not a slot of this block — `set` replaces a declared slot's initial value (take the path from the block's own handle, e.g. `BLOCK.owner.field_path()`); it cannot add a ledger field"@;
            lemma_parts_of_text(lead, at, tail);
            lemma_parts_of_text(lead + at, tail, none);
            reveal_strlit(" is not a slot of this block — `set` replaces a declared slot's initial value (take the path from the block's own handle, e.g. `BLOCK.owner.field_path()`); it cannot add a ledger field");
            reveal_strlit(" is not a slot of this block");
            lemma_found_at(" is not a slot of this block — `set` replaces a declared slot's initial value (take the path from the block's own handle, e.g. `BLOCK.owner.field_path()`); it cannot add a ledger field"@, " is not a slot of this block"@, 0);
            lemma_has_text(refusal.text(), tail, " is not a slot of this block"@);
        },
        StateRefusal::Sealed { path } => {
            let (lead, at) = ("StateBuilder::set: "@, path_text(path@));
            let tail = " is a standard's magic — the standard's own constant (`LedgerHeader::MAGIC`), sealed by the builder; a deploy state cannot carry another"@;
            lemma_parts_of_text(lead, at, tail);
            lemma_parts_of_text(lead + at, tail, none);
            reveal_strlit(" is a standard's magic — the standard's own constant (`LedgerHeader::MAGIC`), sealed by the builder; a deploy state cannot carry another");
            reveal_strlit(" is a standard's magic");
            lemma_found_at(" is a standard's magic — the standard's own constant (`LedgerHeader::MAGIC`), sealed by the builder; a deploy state cannot carry another"@, " is a standard's magic"@, 0);
            lemma_has_text(refusal.text(), tail, " is a standard's magic"@);
        },
        StateRefusal::Shape { path } => {
            let (lead, at) = ("StateBuilder::set: the value for "@, path_text(path@));
            let tail = " is not the slot's shape — a Cell replaces a Cell of the same alignment, a Map a Map, an Array an Array of its kind (a `LedgerField` is the only slot that takes any value)"@;
            lemma_parts_of_text(lead, at, tail);
            lemma_parts_of_text(lead + at, tail, none);
            reveal_strlit(" is not the slot's shape — a Cell replaces a Cell of the same alignment, a Map a Map, an Array an Array of its kind (a `LedgerField` is the only slot that takes any value)");
            reveal_strlit(" is not the slot's shape");
            lemma_found_at(" is not the slot's shape — a Cell replaces a Cell of the same alignment, a Map a Map, an Array an Array of its kind (a `LedgerField` is the only slot that takes any value)"@, " is not the slot's shape"@, 0);
            lemma_has_text(refusal.text(), tail, " is not the slot's shape"@);
        },
        StateRefusal::TooWide { entries } => {
            let lead = "a ledger Array holds at most sixteen entries, and this node would hold "@;
            lemma_parts_of_text(lead, decimal(entries as nat), none);
            lemma_parts_of_text(none, lead, decimal(entries as nat));
            reveal_strlit("a ledger Array holds at most sixteen entries, and this node would hold ");
            reveal_strlit("at most sixteen entries");
            lemma_found_at("a ledger Array holds at most sixteen entries, and this node would hold "@, "at most sixteen entries"@, 21);
            lemma_has_text(refusal.text(), lead, "at most sixteen entries"@);
        },
        StateRefusal::MagicMissing => {
            reveal_strlit("a block's slots write one magic for each standard it embeds: this block embeds 1 and its slots wrote 0");
            reveal_strlit("embeds 1 and its slots wrote 0");
            lemma_found_at("a block's slots write one magic for each standard it embeds: this block embeds 1 and its slots wrote 0"@, "embeds 1 and its slots wrote 0"@, 72);
        },
        StateRefusal::MagicUnclaimed => {
            reveal_strlit("a block's slots write one magic for each standard it embeds: this block embeds 0 and its slots wrote 1");
            reveal_strlit("embeds 0 and its slots wrote 1");
            lemma_found_at("a block's slots write one magic for each standard it embeds: this block embeds 0 and its slots wrote 1"@, "embeds 0 and its slots wrote 1"@, 72);
        },
    }
}

} // verus!
