//! Blind accumulators: the steps the ledger applies itself, with no read and
//! therefore nothing that can go stale.
//!
//! | step | state | identity | on the ledger |
//! |---|---|---|---|
//! | [`Add`] | a number | 0 | `idxp; push d; add; insc` |
//! | [`Max`] | a number | 0 | keeps the larger |
//! | [`Min`] | a number | the largest | keeps the smaller |
//! | [`And`] | a truth value | true | `idxp; push d; and; insc` |
//! | [`Or`] | a truth value | false | `idxp; push d; or; insc` |
//! | [`Last`] | any | none | a cell write |
//! | [`First`] | any | none | a cell write where a flag is unset |
//!
//! Tuples of primitives are primitives, one cell and one snapshot map per
//! component. [`Primitive`] is the ledger side; [`Monoid`] adds an identity and
//! a combination on circuit values.
use crate::assumed::Assumed;
use crate::circuit::{law_read_gives_back_the_stored_value, Circuit3, Run};
use crate::fab::{
    as_u64, capacity, law_number_round_trip, law_truth_round_trip, le_bytes, le_value, number, trimmed,
    Aligned,
};
use crate::hook::{is_arm, CellArith, Hook, Lowered};
use crate::impact::{
    add_ops, added, and_ops, as_number, as_truth, assumed, at_path, blind, both, branch_ops,
    copied, copy_ops, either, flag_of, flag_test, in_turn, is_false, law_add, law_and, law_branch,
    law_copy, law_empty_program, law_entry_write, law_flag_test, law_later_write_stays, law_max, law_min, law_or,
    law_programs_compose, law_read_is_an_assumption, law_remove, law_write,
    law_write_keeps_the_rest, law_write_reads_back, law_written_where_read, lemma_entry, lookup, lowered,
    max_ops, min_ops, or_ops, part, performs, raised, read_ops, remove_ops, truth, unless, update,
    without, write_ops, written, Effect, Op,
};
use crate::layout::{BlockLayout, FieldPath, MAX_FIELDS};
use crate::ledger::{law_fields_part, LedgerCell, LedgerMap, LedgerPath};
use crate::number::{lemma_exactly, lemma_is_exactly, lemma_number_is_its_value, two_to, Number};
use crate::state::{
    law_contributions_add_up, Contribution, InitialState, StateBuilder, StateRefusal,
};
use crate::value::Tree;
use crate::wire::{
    byte_width, law_bits_fit_their_bytes, ledger_value, stored, stored_default, two_to_the, Bool,
    LedgerRepr, Public, Uint,
};
use core::marker::PhantomData;
use vstd::prelude::*;

verus! {

/// Per-key copies of a cell: a map from whatever keys the accumulator's owner
/// uses to the cell's values.
pub struct SnapshotMap<S> {
    pub path: FieldPath,
    pub holds: PhantomData<S>,
}

impl<S> SnapshotMap<S> {
    /// The map that is body field `start` under `layout`.
    pub open spec fn at(layout: BlockLayout, start: nat) -> Self {
        SnapshotMap { path: layout.field(start), holds: PhantomData }
    }

    /// The map that is body field `start` under `layout`.
    pub fn at_layout(layout: BlockLayout, start: usize) -> (r: Self)
        requires
            start < layout.total() <= MAX_FIELDS,
        ensures
            r == Self::at(layout, start as nat),
    {
        SnapshotMap { path: FieldPath::in_layout(layout, start), holds: PhantomData }
    }

    /// The map under keys of type `K`.
    pub fn keyed<K>(&self) -> (r: LedgerMap<K, S, FieldPath>)
        ensures
            r.path == self.path,
    {
        LedgerMap::at_path(self.path)
    }
}

impl<S> InitialState for SnapshotMap<S> {
    open spec fn ready(&self) -> bool {
        true
    }

    open spec fn contributions(&self) -> Seq<Contribution> {
        crate::ledger::one_slot(self.path, Tree::Mapping(Map::empty()))
    }

    fn contribute(&self, state: &mut StateBuilder) -> (r: Result<(), StateRefusal>) {
        let map: LedgerMap<(), S, FieldPath> = self.keyed::<()>();
        map.contribute(state)
    }
}

/// Whether a field is one of body fields `from .. to` under `layout`.
pub open spec fn within(path: FieldPath, layout: BlockLayout, from: nat, to: nat) -> bool {
    exists|i: nat| from <= i < to && path == #[trigger] layout.field(i)
}

/// Whether these fields are all among body fields `from .. to` under `layout`.
pub open spec fn all_within(
    paths: Seq<FieldPath>,
    layout: BlockLayout,
    from: nat,
    to: nat,
) -> bool {
    forall|k: int| 0 <= k < paths.len() ==> within(#[trigger] paths[k], layout, from, to)
}

/// Whether a path parts from all of these fields.
pub open spec fn parts_from_all(paths: Seq<FieldPath>, other: Seq<Aligned>) -> bool {
    forall|k: int| 0 <= k < paths.len() ==> part((#[trigger] paths[k]).keys(), other)
}

/// Whether each map holds under `key` what its cell holds.
pub open spec fn copied_all(
    sources: Seq<FieldPath>,
    copies: Seq<FieldPath>,
    key: Aligned,
    state: Tree,
) -> bool {
    forall|k: int|
        0 <= k < sources.len() ==> lookup(state, (#[trigger] copies[k]).keys().push(key)) == lookup(
            state,
            sources[k].keys(),
        )
}

/// Whether a map, where there is one at `path`, is one afterwards that agrees
/// with it on every key but `key`.
pub open spec fn enters(state: Tree, next: Tree, path: Seq<Aligned>, key: Aligned) -> bool {
    lookup(state, path) matches Some(Tree::Mapping(before)) ==> (lookup(next, path) matches Some(
        Tree::Mapping(after),
    ) && after.remove(key) == before.remove(key))
}

/// Every other key's entry is as it was.
pub proof fn lemma_other_entries(
    state: Tree,
    next: Tree,
    path: Seq<Aligned>,
    key: Aligned,
    other: Aligned,
)
    requires
        enters(state, next, path, key),
        lookup(state, path) matches Some(Tree::Mapping(_)),
        other != key,
    ensures
        lookup(next, path.push(other)) == lookup(state, path.push(other)),
{
    let (before, after) = (lookup(state, path)->0->Mapping_0, lookup(next, path)->0->Mapping_0);
    lemma_entry(state, path, other);
    lemma_entry(next, path, other);
    assert(before.contains_key(other) == before.remove(key).contains_key(other));
    assert(after.contains_key(other) == after.remove(key).contains_key(other));
    if before.contains_key(other) {
        assert(before[other] == before.remove(key)[other]);
        assert(after[other] == after.remove(key)[other]);
    }
}

/// The byte strings of these stored values.
pub open spec fn limbs_of(values: Seq<Aligned>) -> Seq<Seq<Seq<u8>>> {
    values.map_values(|value: Aligned| value.value)
}

/// The ops that read `key` of each map and find these values.
pub open spec fn read_all_ops(paths: Seq<FieldPath>, key: Aligned, values: Seq<Aligned>) -> Seq<Op>
    decreases paths.len(),
{
    if paths.len() == 0 {
        Seq::empty()
    } else {
        read_all_ops(paths.drop_last(), key, values.drop_last()) + read_ops(
            paths.last().keys().push(key),
            values.last(),
        )
    }
}

/// The ops that remove `key` from each map.
pub open spec fn clear_all_ops(paths: Seq<FieldPath>, key: Aligned) -> Seq<Op>
    decreases paths.len(),
{
    if paths.len() == 0 {
        Seq::empty()
    } else {
        clear_all_ops(paths.drop_last(), key) + remove_ops(paths.last().keys(), key)
    }
}

/// Nothing, where each map holds its value under `key`; a failure where one does
/// not.
pub open spec fn all_read(paths: Seq<FieldPath>, key: Aligned, values: Seq<Aligned>) -> Effect
    decreases paths.len(),
{
    if paths.len() == 0 {
        |state: Tree| Some(state)
    } else {
        in_turn(
            all_read(paths.drop_last(), key, values.drop_last()),
            assumed(flag_of(paths.last().keys().push(key)), values.last()),
        )
    }
}

/// Each map without `key`.
pub open spec fn all_cleared(paths: Seq<FieldPath>, key: Aligned) -> Effect
    decreases paths.len(),
{
    if paths.len() == 0 {
        |state: Tree| Some(state)
    } else {
        in_turn(all_cleared(paths.drop_last(), key), at_path(paths.last().keys(), without(key)))
    }
}

/// The ops do it.
pub proof fn law_entries_are_read_and_cleared(
    paths: Seq<FieldPath>,
    key: Aligned,
    values: Seq<Aligned>,
)
    ensures
        performs(read_all_ops(paths, key, values), all_read(paths, key, values)),
        performs(clear_all_ops(paths, key), all_cleared(paths, key)),
    decreases paths.len(),
{
    if paths.len() == 0 {
        law_empty_program();
    } else {
        let (path, value) = (paths.last().keys(), values.last());
        law_entries_are_read_and_cleared(paths.drop_last(), key, values.drop_last());
        law_flag_test(path.push(key));
        law_read_is_an_assumption(flag_test(path.push(key)), flag_of(path.push(key)), value);
        law_programs_compose(
            read_all_ops(paths.drop_last(), key, values.drop_last()),
            all_read(paths.drop_last(), key, values.drop_last()),
            read_ops(path.push(key), value),
            assumed(flag_of(path.push(key)), value),
        );
        law_remove(path, key);
        law_programs_compose(
            clear_all_ops(paths.drop_last(), key),
            all_cleared(paths.drop_last(), key),
            remove_ops(path, key),
            at_path(path, without(key)),
        );
    }
}

/// Reading lands, changing nothing, where each map holds its value.
pub proof fn lemma_all_read(
    paths: Seq<FieldPath>,
    key: Aligned,
    values: Seq<Aligned>,
    state: Tree,
)
    requires
        paths.len() == values.len(),
        forall|i: int|
            0 <= i < paths.len() ==> lookup(state, (#[trigger] paths[i]).keys().push(key)) == Some(
                Tree::Cell(values[i]),
            ),
    ensures
        all_read(paths, key, values)(state) == Some(state),
    decreases paths.len(),
{
    if paths.len() > 0 {
        let (less, fewer) = (paths.drop_last(), values.drop_last());
        assert forall|i: int| 0 <= i < less.len() implies lookup(
            state,
            (#[trigger] less[i]).keys().push(key),
        ) == Some(Tree::Cell(fewer[i])) by {
            assert(less[i] == paths[i]);
        }
        lemma_all_read(less, key, fewer, state);
        assert(paths.last() == paths[paths.len() - 1]);
    }
}

/// Replacing what one field holds leaves the other fields as they were.
pub proof fn lemma_field_written(layout: BlockLayout, i: nat, value: Tree, state: Tree)
    requires
        i < layout.total() <= MAX_FIELDS,
        lookup(state, layout.field(i).keys()) is Some,
    ensures
        update(state, layout.field(i).keys(), value) matches Some(next) && lookup(
            next,
            layout.field(i).keys(),
        ) == Some(value) && forall|f: nat|
            f < layout.total() && f != i ==> lookup(next, (#[trigger] layout.field(f)).keys())
                == lookup(state, layout.field(f).keys()),
{
    let path = layout.field(i).keys();
    law_written_where_read(state, path, value);
    law_write_reads_back(state, path, value);
    let next = update(state, path, value)->0;
    assert forall|f: nat| f < layout.total() && f != i implies lookup(
        next,
        (#[trigger] layout.field(f)).keys(),
    ) == lookup(state, layout.field(f).keys()) by {
        let other = layout.field(f).keys();
        law_fields_part(layout, i, f, Seq::empty(), Seq::empty());
        assert(path + Seq::<Aligned>::empty() =~= path);
        assert(other + Seq::<Aligned>::empty() =~= other);
        law_write_keeps_the_rest(state, path, value, other);
    }
}

/// Writing an entry of one field's map leaves the other fields as they were.
pub proof fn lemma_field_entered(
    layout: BlockLayout,
    i: nat,
    key: Aligned,
    value: Tree,
    state: Tree,
)
    requires
        i < layout.total() <= MAX_FIELDS,
        lookup(state, layout.field(i).keys()) matches Some(Tree::Mapping(_)),
    ensures
        update(state, layout.field(i).keys().push(key), value) matches Some(next) && lookup(
            next,
            layout.field(i).keys(),
        ) == Some(
            Tree::Mapping(lookup(state, layout.field(i).keys())->0->Mapping_0.insert(key, value)),
        ) && forall|f: nat|
            f < layout.total() && f != i ==> lookup(next, (#[trigger] layout.field(f)).keys())
                == lookup(state, layout.field(f).keys()),
{
    let entries = lookup(state, layout.field(i).keys())->0->Mapping_0;
    law_entry_write(state, layout.field(i).keys(), entries, key, value);
    lemma_field_written(layout, i, Tree::Mapping(entries.insert(key, value)), state);
}

/// Removing an entry of one field's map leaves the other fields as they were.
pub proof fn lemma_field_cleared(layout: BlockLayout, i: nat, key: Aligned, state: Tree)
    requires
        i < layout.total() <= MAX_FIELDS,
        lookup(state, layout.field(i).keys()) matches Some(Tree::Mapping(_)),
    ensures
        at_path(layout.field(i).keys(), without(key))(state) matches Some(next) && lookup(
            next,
            layout.field(i).keys(),
        ) == Some(
            Tree::Mapping(lookup(state, layout.field(i).keys())->0->Mapping_0.remove(key)),
        ) && forall|f: nat|
            f < layout.total() && f != i ==> lookup(next, (#[trigger] layout.field(f)).keys())
                == lookup(state, layout.field(f).keys()),
{
    let entries = lookup(state, layout.field(i).keys())->0->Mapping_0;
    lemma_field_written(layout, i, Tree::Mapping(entries.remove(key)), state);
}

/// Clearing lands where each map is one, takes `key` out of each of them, and
/// leaves every other field of the block as it was.
pub proof fn lemma_all_cleared(
    layout: BlockLayout,
    from: nat,
    to: nat,
    paths: Seq<FieldPath>,
    key: Aligned,
    state: Tree,
)
    requires
        to <= layout.total() <= MAX_FIELDS,
        all_within(paths, layout, from, to),
        forall|i: int|
            0 <= i < paths.len() ==> (lookup(state, (#[trigger] paths[i]).keys()) matches Some(
                Tree::Mapping(_),
            )),
    ensures
        all_cleared(paths, key)(state) matches Some(next) && forall|f: nat|
            f < layout.total() ==> lookup(next, (#[trigger] layout.field(f)).keys())
                == if paths.contains(layout.field(f)) {
                Some(
                    Tree::Mapping(lookup(state, layout.field(f).keys())->0->Mapping_0.remove(key)),
                )
            } else {
                lookup(state, layout.field(f).keys())
            },
    decreases paths.len(),
{
    if paths.len() > 0 {
        let less = paths.drop_last();
        let last = paths.last();
        let n = paths.len() - 1;
        assert(last == paths[n]);
        assert forall|i: int| 0 <= i < less.len() implies within(
            #[trigger] less[i],
            layout,
            from,
            to,
        ) && (lookup(state, less[i].keys()) matches Some(Tree::Mapping(_))) by {
            assert(less[i] == paths[i]);
        }
        lemma_all_cleared(layout, from, to, less, key, state);
        let mid = all_cleared(less, key)(state)->0;
        let i = choose|i: nat| from <= i < to && last == #[trigger] layout.field(i);
        assert(lookup(mid, layout.field(i).keys()) == if less.contains(layout.field(i)) {
            Some(Tree::Mapping(lookup(state, layout.field(i).keys())->0->Mapping_0.remove(key)))
        } else {
            lookup(state, layout.field(i).keys())
        });
        lemma_field_cleared(layout, i, key, mid);
        let next = at_path(last.keys(), without(key))(mid)->0;
        assert(all_cleared(paths, key)(state) == Some(next));
        assert forall|f: nat| f < layout.total() implies lookup(
            next,
            (#[trigger] layout.field(f)).keys(),
        ) == if paths.contains(layout.field(f)) {
            Some(Tree::Mapping(lookup(state, layout.field(f).keys())->0->Mapping_0.remove(key)))
        } else {
            lookup(state, layout.field(f).keys())
        } by {
            let field = layout.field(f);
            if less.contains(field) {
                let at = choose|at: int| 0 <= at < less.len() && less[at] == field;
                assert(paths[at] == field);
            }
            if paths.contains(field) {
                let at = choose|at: int| 0 <= at < paths.len() && paths[at] == field;
                if at < n {
                    assert(less[at] == field);
                }
            }
            if f == i {
                let entries = lookup(state, field.keys())->0->Mapping_0;
                assert(entries.remove(key).remove(key) =~= entries.remove(key));
            } else if field == last {
                law_fields_part(layout, i, f, Seq::empty(), Seq::empty());
                assert(last.keys() + Seq::<Aligned>::empty() =~= last.keys());
            }
        }
    }
}

proof fn lemma_entries_concat(
    p: Seq<FieldPath>,
    u: Seq<Aligned>,
    q: Seq<FieldPath>,
    v: Seq<Aligned>,
    key: Aligned,
)
    requires
        p.len() == u.len(),
        q.len() == v.len(),
    ensures
        read_all_ops(p + q, key, u + v) == read_all_ops(p, key, u) + read_all_ops(q, key, v),
        clear_all_ops(p + q, key) == clear_all_ops(p, key) + clear_all_ops(q, key),
        limbs_of(u + v) == limbs_of(u) + limbs_of(v),
    decreases q.len(),
{
    assert(limbs_of(u + v) =~= limbs_of(u) + limbs_of(v));
    if q.len() == 0 {
        assert(p + q =~= p);
        assert(u + v =~= u);
        assert(read_all_ops(p, key, u) + read_all_ops(q, key, v) =~= read_all_ops(p, key, u));
        assert(clear_all_ops(p, key) + clear_all_ops(q, key) =~= clear_all_ops(p, key));
    } else {
        lemma_entries_concat(p, u, q.drop_last(), v.drop_last(), key);
        assert((p + q).drop_last() =~= p + q.drop_last());
        assert((u + v).drop_last() =~= u + v.drop_last());
        assert((p + q).last() == q.last());
        assert((u + v).last() == v.last());
        assert(read_all_ops(p + q, key, u + v) =~= read_all_ops(p, key, u) + read_all_ops(
            q,
            key,
            v,
        ));
        assert(clear_all_ops(p + q, key) =~= clear_all_ops(p, key) + clear_all_ops(q, key));
    }
}

/// One map's entry.
proof fn lemma_one_entry<S: LedgerRepr>(
    run: Run,
    path: FieldPath,
    key: Aligned,
    value: S,
    more: Seq<Seq<Seq<u8>>>,
)
    requires
        run.guard,
        value.storable(),
        run.supplied == limbs_of(seq![stored(value)]) + more,
    ensures
        run.read::<S>(path.keys().push(key)) == (
            Run {
                ops: run.ops + read_all_ops(seq![path], key, seq![stored(value)]),
                supplied: more,
                ..run
            },
            value,
        ),
{
    assert(run.supplied[0] == value.limbs());
    assert(run.supplied.skip(1) =~= more);
    law_read_gives_back_the_stored_value(run, path.keys().push(key), value);
    lemma_one_read(path, key, stored(value));
}

proof fn lemma_one_read(path: FieldPath, key: Aligned, value: Aligned)
    ensures
        read_all_ops(seq![path], key, seq![value]) == read_ops(path.keys().push(key), value),
        clear_all_ops(seq![path], key) == remove_ops(path.keys(), key),
{
    assert(seq![path].drop_last() =~= Seq::<FieldPath>::empty());
    assert(read_all_ops(Seq::empty(), key, seq![value].drop_last()) =~= Seq::<Op>::empty());
    assert(clear_all_ops(Seq::empty(), key) =~= Seq::<Op>::empty());
    assert(read_all_ops(seq![path], key, seq![value]) =~= read_ops(path.keys().push(key), value));
    assert(clear_all_ops(seq![path], key) =~= remove_ops(path.keys(), key));
}

/// Whether two states hold the same in body fields `from .. to` under `layout`.
pub open spec fn same_fields(one: Tree, two: Tree, layout: BlockLayout, from: nat, to: nat) -> bool {
    forall|i: nat|
        from <= i < to ==> lookup(one, (#[trigger] layout.field(i)).keys()) == lookup(
            two,
            layout.field(i).keys(),
        )
}

/// Whether two states hold the same under `key` of body fields `from .. to`.
pub open spec fn same_entries(
    one: Tree,
    two: Tree,
    layout: BlockLayout,
    from: nat,
    to: nat,
    key: Aligned,
) -> bool {
    forall|i: nat|
        from <= i < to ==> lookup(one, (#[trigger] layout.field(i)).keys().push(key)) == lookup(
            two,
            layout.field(i).keys().push(key),
        )
}

/// A step the ledger executes: an accumulator laid out as one or more cells,
/// combined with a public delta and copied into per-key snapshot maps without
/// the circuit ever reading it. `S` is the state as the circuit sees it.
pub trait Primitive<S>: Sized {
    /// Ledger fields the accumulator occupies.
    const ACC_FIELDS: usize;

    /// Ledger fields the snapshot maps occupy.
    const SNAPSHOT_FIELDS: usize;

    /// The accumulator's handles.
    type Acc: InitialState;

    /// The snapshot maps' handles.
    type Snapshot: InitialState;

    /// Ledger fields the accumulator occupies.
    spec fn acc_fields() -> nat;

    /// Ledger fields the snapshot maps occupy.
    spec fn snapshot_fields() -> nat;

    /// The accumulator at body field `start` under `layout`.
    spec fn acc_at(layout: BlockLayout, start: nat) -> Self::Acc;

    /// The snapshot maps at body field `start` under `layout`.
    spec fn snapshot_at(layout: BlockLayout, start: nat) -> Self::Snapshot;

    /// The ops of `acc = acc + delta`, for the step's own sum.
    spec fn combine_ops(acc: Self::Acc, delta: S) -> Seq<Op>;

    /// The ops of `snapshot[key] = acc`.
    spec fn snapshot_ops(acc: Self::Acc, snapshot: Self::Snapshot, key: Aligned) -> Seq<Op>;

    /// The run after reading `snapshot[key]`, and what it returned.
    spec fn looked_up(run: Run, snapshot: Self::Snapshot, key: Aligned) -> (Run, S);

    /// The run after removing `snapshot[key]`.
    spec fn removed(run: Run, snapshot: Self::Snapshot, key: Aligned) -> Run;

    /// What combining does to the state.
    spec fn combine_effect(acc: Self::Acc, delta: S) -> Effect;

    /// What a snapshot does to the state.
    spec fn snapshot_effect(acc: Self::Acc, snapshot: Self::Snapshot, key: Aligned) -> Effect;

    /// The cells of the accumulator.
    spec fn cells(acc: Self::Acc) -> Seq<FieldPath>;

    /// The cells that a snapshot copies.
    spec fn sources(acc: Self::Acc) -> Seq<FieldPath>;

    /// The maps that a snapshot copies them into, one for each.
    spec fn copies(snapshot: Self::Snapshot) -> Seq<FieldPath>;

    /// The fields are the next ones from where the handles are laid out.
    proof fn law_laid_out(layout: BlockLayout, start: nat, other: nat)
        ensures
            all_within(
                Self::cells(Self::acc_at(layout, start)),
                layout,
                start,
                start + Self::acc_fields(),
            ),
            all_within(
                Self::sources(Self::acc_at(layout, start)),
                layout,
                start,
                start + Self::acc_fields(),
            ),
            all_within(
                Self::copies(Self::snapshot_at(layout, other)),
                layout,
                other,
                other + Self::snapshot_fields(),
            ),
            Self::sources(Self::acc_at(layout, start)).len() == Self::copies(
                Self::snapshot_at(layout, other),
            ).len(),
    ;

    /// The cells are exactly the next fields from where the accumulator is laid
    /// out, in order; so are the maps, and each of them copies one of the cells.
    proof fn law_fields_in_order(layout: BlockLayout, start: nat)
        ensures
            Self::cells(Self::acc_at(layout, start)).len() == Self::acc_fields(),
            forall|i: int|
                0 <= i < Self::acc_fields() ==> #[trigger] Self::cells(
                    Self::acc_at(layout, start),
                )[i] == layout.field((start + i) as nat),
            Self::copies(Self::snapshot_at(layout, start)).len() == Self::snapshot_fields(),
            forall|i: int|
                0 <= i < Self::snapshot_fields() ==> #[trigger] Self::copies(
                    Self::snapshot_at(layout, start),
                )[i] == layout.field((start + i) as nat),
    ;

    /// A step reads the accumulator's cells and nothing else: on two states that
    /// hold the same there it lands on both or on neither, and leaves the same
    /// there.
    proof fn law_step_reads_its_cells(
        layout: BlockLayout,
        start: nat,
        delta: S,
        one: Tree,
        two: Tree,
    )
        requires
            start + Self::acc_fields() <= layout.total() <= MAX_FIELDS,
            same_fields(one, two, layout, start, start + Self::acc_fields()),
        ensures
            match (
                Self::combine_effect(Self::acc_at(layout, start), delta)(one),
                Self::combine_effect(Self::acc_at(layout, start), delta)(two),
            ) {
                (Some(first), Some(second)) => same_fields(
                    first,
                    second,
                    layout,
                    start,
                    start + Self::acc_fields(),
                ),
                (None, None) => true,
                _ => false,
            },
    ;

    /// A snapshot lands exactly where every cell it copies and every entry it
    /// writes can be reached.
    proof fn law_snapshot_lands(
        layout: BlockLayout,
        start: nat,
        other: nat,
        key: Aligned,
        state: Tree,
    )
        requires
            start + Self::acc_fields() <= other,
            other + Self::snapshot_fields() <= layout.total() <= MAX_FIELDS,
        ensures
            Self::snapshot_effect(
                Self::acc_at(layout, start),
                Self::snapshot_at(layout, other),
                key,
            )(state) is Some <==> (forall|k: int|
                0 <= k < Self::sources(Self::acc_at(layout, start)).len() ==> lookup(
                    state,
                    (#[trigger] Self::sources(Self::acc_at(layout, start))[k]).keys(),
                ) is Some && lookup(
                    state,
                    Self::copies(Self::snapshot_at(layout, other))[k].keys().push(key),
                ) is Some),
    ;

    /// A step changes the accumulator's cells and nothing else.
    proof fn law_step_keeps_the_rest(acc: Self::Acc, delta: S, state: Tree, other: Seq<Aligned>)
        requires
            parts_from_all(Self::cells(acc), other),
            Self::combine_effect(acc, delta)(state) is Some,
        ensures
            lookup(Self::combine_effect(acc, delta)(state)->0, other) == lookup(state, other),
    ;

    /// A snapshot changes its maps and nothing else.
    proof fn law_snapshot_keeps_the_rest(
        acc: Self::Acc,
        snapshot: Self::Snapshot,
        key: Aligned,
        state: Tree,
        other: Seq<Aligned>,
    )
        requires
            parts_from_all(Self::copies(snapshot), other),
            Self::snapshot_effect(acc, snapshot, key)(state) is Some,
        ensures
            lookup(Self::snapshot_effect(acc, snapshot, key)(state)->0, other) == lookup(
                state,
                other,
            ),
    ;

    /// A snapshot changes one entry of each of its maps, its key's.
    proof fn law_snapshot_keeps_other_keys(
        layout: BlockLayout,
        start: nat,
        other: nat,
        key: Aligned,
        state: Tree,
    )
        requires
            start + Self::acc_fields() <= other,
            other + Self::snapshot_fields() <= layout.total() <= MAX_FIELDS,
            Self::snapshot_effect(
                Self::acc_at(layout, start),
                Self::snapshot_at(layout, other),
                key,
            )(state) is Some,
        ensures
            forall|k: int|
                0 <= k < Self::copies(Self::snapshot_at(layout, other)).len() ==> enters(
                    state,
                    Self::snapshot_effect(
                        Self::acc_at(layout, start),
                        Self::snapshot_at(layout, other),
                        key,
                    )(state)->0,
                    (#[trigger] Self::copies(Self::snapshot_at(layout, other))[k]).keys(),
                    key,
                ),
    ;

    /// A snapshot holds, component by component, what the accumulator holds.
    proof fn law_snapshot_copies(
        layout: BlockLayout,
        start: nat,
        other: nat,
        key: Aligned,
        state: Tree,
    )
        requires
            start + Self::acc_fields() <= other,
            other + Self::snapshot_fields() <= layout.total() <= MAX_FIELDS,
            Self::snapshot_effect(
                Self::acc_at(layout, start),
                Self::snapshot_at(layout, other),
                key,
            )(state) is Some,
        ensures
            copied_all(
                Self::sources(Self::acc_at(layout, start)),
                Self::copies(Self::snapshot_at(layout, other)),
                key,
                Self::snapshot_effect(
                    Self::acc_at(layout, start),
                    Self::snapshot_at(layout, other),
                    key,
                )(state)->0,
            ),
    ;

    /// Handles laid out in a block lie within it.
    proof fn law_ready(layout: BlockLayout, start: nat)
        ensures
            Self::acc_at(layout, start).ready(),
            Self::snapshot_at(layout, start).ready(),
    ;

    /// The ops do it, and read nothing.
    proof fn law_blind_step(acc: Self::Acc, snapshot: Self::Snapshot, delta: S, key: Aligned)
        ensures
            performs(Self::combine_ops(acc, delta), Self::combine_effect(acc, delta)),
            performs(
                Self::snapshot_ops(acc, snapshot, key),
                Self::snapshot_effect(acc, snapshot, key),
            ),
            blind(Self::combine_ops(acc, delta)),
            blind(Self::snapshot_ops(acc, snapshot, key)),
    ;

    /// Reading and removing an entry keep the guard they find, and under one
    /// that is off leave no trace; an assertion that did not hold before stays the
    /// first.
    proof fn law_entry_is_guarded(run: Run, snapshot: Self::Snapshot, key: Aligned)
        ensures
            Self::looked_up(run, snapshot, key).0.guard == run.guard,
            Self::removed(run, snapshot, key).guard == run.guard,
            !run.guard ==> Self::looked_up(run, snapshot, key).0 == run,
            !run.guard ==> Self::removed(run, snapshot, key) == run,
            run.unmet is Some ==> Self::looked_up(run, snapshot, key).0.unmet == run.unmet,
            Self::removed(run, snapshot, key).unmet == run.unmet,
    ;

    /// Whether a state is one that an entry stores.
    spec fn entry_storable(value: S) -> bool;

    /// What an entry holds, map by map, for a state.
    spec fn entry_values(value: S) -> Seq<Aligned>;

    /// An entry holds one value for each cell that a snapshot copies.
    proof fn law_value_fills_its_sources(acc: Self::Acc, value: S)
        ensures
            Self::entry_values(value).len() == Self::sources(acc).len(),
    ;

    /// Supplied with what an entry holds for a state, a lookup returns the
    /// state.
    proof fn law_entry_reads_back(
        run: Run,
        snapshot: Self::Snapshot,
        key: Aligned,
        value: S,
        more: Seq<Seq<Seq<u8>>>,
    )
        requires
            run.guard,
            Self::entry_storable(value),
            run.supplied == limbs_of(Self::entry_values(value)) + more,
        ensures
            Self::entry_values(value).len() == Self::copies(snapshot).len(),
            Self::looked_up(run, snapshot, key) == (
                Run {
                    ops: run.ops + read_all_ops(
                        Self::copies(snapshot),
                        key,
                        Self::entry_values(value),
                    ),
                    supplied: more,
                    ..run
                },
                value,
            ),
    ;

    /// Removing an entry clears its key in every map.
    proof fn law_entry_is_cleared(run: Run, snapshot: Self::Snapshot, key: Aligned)
        ensures
            Self::removed(run, snapshot, key) == run.emit(
                clear_all_ops(Self::copies(snapshot), key),
            ),
    ;

    /// The two counts are what the constants say, wherever a block has room for
    /// them.
    proof fn law_fields()
        ensures
            Self::acc_fields() <= MAX_FIELDS ==> Self::ACC_FIELDS == Self::acc_fields(),
            Self::snapshot_fields() <= MAX_FIELDS ==> Self::SNAPSHOT_FIELDS
                == Self::snapshot_fields(),
    ;

    /// The accumulator's handles from body field `start` under `layout`.
    fn acc_at_layout(layout: BlockLayout, start: usize) -> (r: Self::Acc)
        requires
            start + Self::acc_fields() <= layout.total() <= MAX_FIELDS,
        ensures
            r == Self::acc_at(layout, start as nat),
    ;

    /// The snapshot maps' handles, likewise.
    fn snapshot_at_layout(layout: BlockLayout, start: usize) -> (r: Self::Snapshot)
        requires
            start + Self::snapshot_fields() <= layout.total() <= MAX_FIELDS,
        ensures
            r == Self::snapshot_at(layout, start as nat),
    ;

    /// The accumulator's handles in a block of `total` fields without a standard.
    fn acc_at_block(total: usize, start: usize) -> (r: Self::Acc)
        requires
            start + Self::acc_fields() <= total <= MAX_FIELDS,
        ensures
            r == Self::acc_at(BlockLayout::plain(total), start as nat),
    {
        Self::acc_at_layout(BlockLayout::compactc(total), start)
    }

    /// The snapshot maps' handles, likewise.
    fn snapshot_at_block(total: usize, start: usize) -> (r: Self::Snapshot)
        requires
            start + Self::snapshot_fields() <= total <= MAX_FIELDS,
        ensures
            r == Self::snapshot_at(BlockLayout::plain(total), start as nat),
    {
        Self::snapshot_at_layout(BlockLayout::compactc(total), start)
    }

    /// Adds the combination to a hook.
    fn combine_hook(hook: Hook, acc: &Self::Acc, delta: &S) -> (r: Hook)
        ensures
            r@ == hook@ + Self::combine_ops(*acc, *delta),
    ;

    /// Adds the snapshot to a hook.
    fn snapshot_hook<K: LedgerRepr>(
        hook: Hook,
        acc: &Self::Acc,
        snapshot: &Self::Snapshot,
        key: &K,
    ) -> (r: Hook)
        ensures
            r@ == hook@ + Self::snapshot_ops(*acc, *snapshot, stored(*key)),
    ;

    /// `snapshot[key]`, a stable read: the entry is written once and never
    /// changes.
    fn lookup<K: LedgerRepr>(c: &mut Circuit3, snapshot: &Self::Snapshot, key: &K) -> (r: Assumed<S>)
        ensures
            (final(c)@, r.value()) == Self::looked_up(old(c)@, *snapshot, stored(*key)),
    ;

    /// Removes `snapshot[key]` in every component.
    fn remove<K: LedgerRepr>(c: &mut Circuit3, snapshot: &Self::Snapshot, key: &K)
        ensures
            final(c)@ == Self::removed(old(c)@, *snapshot, stored(*key)),
    ;

    /// Combines inline: the run compares nothing, so nothing can go stale.
    fn combine_blind(c: &mut Circuit3, acc: &Self::Acc, delta: &S)
        ensures
            final(c)@ == old(c)@.emit(Self::combine_ops(*acc, *delta)),
    {
        let hook = Self::combine_hook(Hook::new(), acc, delta);
        assert(hook@ =~= Self::combine_ops(*acc, *delta));
        c.emit(hook.into_ops());
    }

    /// `snapshot[key] = acc` inline, one copy per component.
    fn snapshot<K: LedgerRepr>(
        c: &mut Circuit3,
        acc: &Self::Acc,
        snapshot: &Self::Snapshot,
        key: &K,
    )
        ensures
            final(c)@ == old(c)@.emit(Self::snapshot_ops(*acc, *snapshot, stored(*key))),
    {
        let hook = Self::snapshot_hook(Hook::new(), acc, snapshot, key);
        assert(hook@ =~= Self::snapshot_ops(*acc, *snapshot, stored(*key)));
        c.emit(hook.into_ops());
    }

    /// [`Self::lookup`] and then [`Self::remove`].
    fn take<K: LedgerRepr>(c: &mut Circuit3, snapshot: &Self::Snapshot, key: &K) -> (r: Assumed<S>)
        ensures
            ({
                let (read, value) = Self::looked_up(old(c)@, *snapshot, stored(*key));
                r.value() == value && final(c)@ == Self::removed(read, *snapshot, stored(*key))
            }),
    {
        let value = Self::lookup(c, snapshot, key);
        Self::remove(c, snapshot, key);
        value
    }
}

/// A step leaves the fields outside its accumulator as they were.
proof fn lemma_step_keeps_fields<S, P: Primitive<S>>(
    layout: BlockLayout,
    start: nat,
    delta: S,
    state: Tree,
    from: nat,
    to: nat,
)
    requires
        start + P::acc_fields() <= layout.total() <= MAX_FIELDS,
        to <= start || start + P::acc_fields() <= from,
        to <= layout.total(),
        P::combine_effect(P::acc_at(layout, start), delta)(state) is Some,
    ensures
        same_fields(
            P::combine_effect(P::acc_at(layout, start), delta)(state)->0,
            state,
            layout,
            from,
            to,
        ),
{
    let acc = P::acc_at(layout, start);
    P::law_laid_out(layout, start, start);
    assert forall|i: nat| from <= i < to implies lookup(
        P::combine_effect(acc, delta)(state)->0,
        (#[trigger] layout.field(i)).keys(),
    ) == lookup(state, layout.field(i).keys()) by {
        let none = Seq::<Aligned>::empty();
        assert(within(layout.field(i), layout, from, to));
        lemma_ranges_part(
            P::cells(acc),
            layout,
            start,
            start + P::acc_fields(),
            layout.field(i),
            from,
            to,
            none,
        );
        assert(layout.field(i).keys() + none =~= layout.field(i).keys());
        P::law_step_keeps_the_rest(acc, delta, state, layout.field(i).keys());
    }
}

/// A snapshot leaves the fields outside its maps, and their entries, as they
/// were.
proof fn lemma_snapshot_keeps_fields<S, P: Primitive<S>>(
    layout: BlockLayout,
    start: nat,
    other: nat,
    key: Aligned,
    state: Tree,
    from: nat,
    to: nat,
)
    requires
        other + P::snapshot_fields() <= layout.total() <= MAX_FIELDS,
        to <= other || other + P::snapshot_fields() <= from,
        to <= layout.total(),
        P::snapshot_effect(P::acc_at(layout, start), P::snapshot_at(layout, other), key)(state) is Some,
    ensures
        ({
            let next = P::snapshot_effect(
                P::acc_at(layout, start),
                P::snapshot_at(layout, other),
                key,
            )(state)->0;
            same_fields(next, state, layout, from, to) && same_entries(
                next,
                state,
                layout,
                from,
                to,
                key,
            )
        }),
{
    let (acc, snapshot) = (P::acc_at(layout, start), P::snapshot_at(layout, other));
    let next = P::snapshot_effect(acc, snapshot, key)(state)->0;
    P::law_laid_out(layout, start, other);
    assert forall|i: nat| from <= i < to implies lookup(next, (#[trigger] layout.field(i)).keys())
        == lookup(state, layout.field(i).keys()) && lookup(
        next,
        layout.field(i).keys().push(key),
    ) == lookup(state, layout.field(i).keys().push(key)) by {
        let field = layout.field(i).keys();
        let (none, one) = (Seq::<Aligned>::empty(), seq![key]);
        let hi = other + P::snapshot_fields();
        assert(within(layout.field(i), layout, from, to));
        lemma_ranges_part(P::copies(snapshot), layout, other, hi, layout.field(i), from, to, none);
        lemma_ranges_part(P::copies(snapshot), layout, other, hi, layout.field(i), from, to, one);
        assert(field + none =~= field);
        assert(field + one =~= field.push(key));
        P::law_snapshot_keeps_the_rest(acc, snapshot, key, state, field);
        P::law_snapshot_keeps_the_rest(acc, snapshot, key, state, field.push(key));
    }
}

/// The run after taking an entry, and what it held.
pub open spec fn taken_entry<S, P: Primitive<S>>(run: Run, snapshot: P::Snapshot, key: Aligned) -> (
    Run,
    S,
) {
    let (read, value) = P::looked_up(run, snapshot, key);
    (P::removed(read, snapshot, key), value)
}

/// The circuit side of a primitive that is a monoid: an identity and a
/// combination on circuit values, agreeing with the ledger's.
pub trait Monoid<S>: Primitive<S> {
    /// The identity.
    spec fn unit() -> S;

    /// `a + b`, for the step's own sum.
    spec fn sum(a: S, b: S) -> S;

    /// Whether the sum is one the state's type holds. Nothing checks it here;
    /// on the ledger an overflow fails the transaction.
    spec fn fits(a: S, b: S) -> bool;

    /// Whether a value is one of the state's type.
    spec fn is_value(a: S) -> bool;

    /// The identity leaves every value as it is, on both sides.
    proof fn law_identity(a: S)
        requires
            Self::is_value(a),
        ensures
            Self::is_value(Self::unit()),
            Self::fits(Self::unit(), a),
            Self::fits(a, Self::unit()),
            Self::sum(Self::unit(), a) == a,
            Self::sum(a, Self::unit()) == a,
    ;

    /// The sum is associative.
    proof fn law_associative(a: S, b: S, c: S)
        requires
            Self::fits(a, b),
            Self::fits(Self::sum(a, b), c),
            Self::fits(b, c),
            Self::fits(a, Self::sum(b, c)),
        ensures
            Self::sum(Self::sum(a, b), c) == Self::sum(a, Self::sum(b, c)),
    ;

    /// Whether the accumulator's cells hold a value.
    spec fn holds(acc: Self::Acc, a: S, state: Tree) -> bool;

    /// An accumulator holds what is stored in it.
    proof fn law_stored_is_held(acc: Self::Acc, a: S, state: Tree)
        requires
            Self::is_value(a),
            Self::sources(acc).len() == Self::entry_values(a).len(),
            forall|k: int|
                0 <= k < Self::sources(acc).len() ==> lookup(
                    state,
                    (#[trigger] Self::sources(acc)[k]).keys(),
                ) == Some(Tree::Cell(Self::entry_values(a)[k])),
        ensures
            Self::holds(acc, a, state),
    ;

    /// An accumulator holds one value.
    proof fn law_one_value_is_held(acc: Self::Acc, a: S, b: S, state: Tree)
        requires
            Self::holds(acc, a, state),
            Self::holds(acc, b, state),
        ensures
            a == b,
    ;

    /// Whether an accumulator holds a value is seen in its cells.
    proof fn law_held_in_its_cells(
        layout: BlockLayout,
        start: nat,
        a: S,
        one: Tree,
        two: Tree,
    )
        requires
            Self::holds(Self::acc_at(layout, start), a, one),
            same_fields(one, two, layout, start, start + Self::acc_fields()),
        ensures
            Self::holds(Self::acc_at(layout, start), a, two),
    ;

    /// The two sides agree: an accumulator that holds a value holds after a step
    /// the sum of the value and the delta, and the step fails exactly where that
    /// does not fit.
    proof fn law_ledger_sums(layout: BlockLayout, start: nat, a: S, b: S, state: Tree)
        requires
            start + Self::acc_fields() <= layout.total() <= MAX_FIELDS,
            Self::is_value(b),
            Self::holds(Self::acc_at(layout, start), a, state),
        ensures
            match Self::combine_effect(Self::acc_at(layout, start), b)(state) {
                Some(next) => Self::fits(a, b) && Self::holds(
                    Self::acc_at(layout, start),
                    Self::sum(a, b),
                    next,
                ),
                None => !Self::fits(a, b),
            },
    ;

    /// The identity.
    fn identity(c: &mut Circuit3) -> (r: S)
        ensures
            r == Self::unit(),
            final(c)@ == old(c)@,
    ;

    /// The sum.
    fn combine(c: &mut Circuit3, a: S, b: S) -> (r: S)
        requires
            Self::fits(a, b),
        ensures
            r == Self::sum(a, b),
            final(c)@ == old(c)@,
    ;
}

/// `acc += d` on a number's cell.
#[derive(Clone, Copy, Debug, Default)]
pub struct Add;

/// `acc = max(acc, d)` on a number's cell.
#[derive(Clone, Copy, Debug, Default)]
pub struct Max;

/// `acc = min(acc, d)` on a number's cell.
#[derive(Clone, Copy, Debug, Default)]
pub struct Min;

/// `acc = acc && d` on a truth value's cell.
#[derive(Clone, Copy, Debug, Default)]
pub struct And;

/// `acc = acc || d` on a truth value's cell.
#[derive(Clone, Copy, Debug, Default)]
pub struct Or;

/// `acc = d`: the last delta wins. Any stored type.
#[derive(Clone, Copy, Debug, Default)]
pub struct Last;

/// `acc = d` only if nothing has been written yet: the first delta wins. Two
/// cells, the value and a written flag.
#[derive(Clone, Copy, Debug, Default)]
pub struct First;

/// [`First`]'s two cells: the value, and whether it has been written.
pub struct FirstAcc<S> {
    /// The value, meaningful once `written` is set.
    pub value: LedgerCell<S>,
    /// Whether the first delta has landed.
    pub written: LedgerCell<Bool<Public>>,
}

impl<S: LedgerRepr> InitialState for FirstAcc<S> {
    open spec fn ready(&self) -> bool {
        true
    }

    open spec fn contributions(&self) -> Seq<Contribution> {
        self.value.contributions() + self.written.contributions()
    }

    fn contribute(&self, state: &mut StateBuilder) -> (r: Result<(), StateRefusal>) {
        proof {
            law_contributions_add_up(
                state@,
                self.value.contributions(),
                self.written.contributions(),
            );
        }
        match self.value.contribute(state) {
            Ok(()) => self.written.contribute(state),
            Err(refusal) => Err(refusal),
        }
    }
}

// ---- one cell, one map --------------------------------------------------------------------

/// Copying a cell into its snapshot map.
pub open spec fn cell_snapshot_ops<S>(
    cell: LedgerCell<S>,
    snapshot: SnapshotMap<S>,
    key: Aligned,
) -> Seq<Op> {
    copy_ops(cell.path.keys(), snapshot.path.keys().push(key))
}

/// What copying a cell into its snapshot map does.
pub open spec fn cell_snapshot_effect<S>(
    cell: LedgerCell<S>,
    snapshot: SnapshotMap<S>,
    key: Aligned,
) -> Effect {
    copied(cell.path.keys(), snapshot.path.keys().push(key))
}

proof fn lemma_cell_snapshot<S>(cell: LedgerCell<S>, snapshot: SnapshotMap<S>, key: Aligned)
    ensures
        performs(
            cell_snapshot_ops(cell, snapshot, key),
            cell_snapshot_effect(cell, snapshot, key),
        ),
        blind(cell_snapshot_ops(cell, snapshot, key)),
{
    law_copy(cell.path.keys(), snapshot.path.keys().push(key));
}

fn cell_snapshot<S: LedgerRepr, K: LedgerRepr>(
    hook: Hook,
    cell: &LedgerCell<S>,
    snapshot: &SnapshotMap<S>,
    key: &K,
) -> (r: Hook)
    ensures
        r@ == hook@ + cell_snapshot_ops(*cell, *snapshot, stored(*key)),
{
    let map: LedgerMap<K, S, FieldPath> = snapshot.keyed::<K>();
    hook.copy::<S, K, FieldPath, Lowered>(cell, &map, Lowered(ledger_value(key)))
}

fn map_lookup<S: LedgerRepr, K: LedgerRepr>(
    c: &mut Circuit3,
    snapshot: &SnapshotMap<S>,
    key: &K,
) -> (r: Assumed<S>)
    ensures
        (final(c)@, r.value()) == old(c)@.read::<S>(snapshot.path.keys().push(stored(*key))),
{
    let map: LedgerMap<K, S, FieldPath> = snapshot.keyed::<K>();
    map.lookup(c, key)
}

fn map_remove<S: LedgerRepr, K: LedgerRepr>(c: &mut Circuit3, snapshot: &SnapshotMap<S>, key: &K)
    ensures
        final(c)@ == old(c)@.emit(remove_ops(snapshot.path.keys(), stored(*key))),
{
    let map: LedgerMap<K, S, FieldPath> = snapshot.keyed::<K>();
    map.remove(c, key)
}

proof fn lemma_part_below(a: Seq<Aligned>, below: Seq<Aligned>, other: Seq<Aligned>)
    requires
        part(a, other),
    ensures
        part(a + below, other),
{
    let k = choose|k: int|
        0 <= k < a.len() && k < other.len() && a.take(k) == other.take(k) && #[trigger] a[k]
            != other[k] && as_u64(a[k]) != as_u64(other[k]);
    let c = a + below;
    assert(c.take(k) =~= a.take(k));
    assert(c[k] != other[k]);
}

proof fn lemma_at_path_keeps_the_rest(
    state: Tree,
    path: Seq<Aligned>,
    effect: Effect,
    other: Seq<Aligned>,
)
    requires
        part(path, other),
        at_path(path, effect)(state) is Some,
    ensures
        lookup(at_path(path, effect)(state)->0, other) == lookup(state, other),
{
    let node = effect(lookup(state, path)->0)->0;
    law_write_keeps_the_rest(state, path, node, other);
}

proof fn lemma_copy_keeps_the_rest<S>(
    cell: LedgerCell<S>,
    snapshot: SnapshotMap<S>,
    key: Aligned,
    state: Tree,
    other: Seq<Aligned>,
)
    requires
        part(snapshot.path.keys(), other),
        cell_snapshot_effect(cell, snapshot, key)(state) is Some,
    ensures
        lookup(cell_snapshot_effect(cell, snapshot, key)(state)->0, other) == lookup(state, other),
{
    let entry = snapshot.path.keys().push(key);
    assert(entry =~= snapshot.path.keys() + seq![key]);
    lemma_part_below(snapshot.path.keys(), seq![key], other);
    law_write_keeps_the_rest(state, entry, lookup(state, cell.path.keys())->0, other);
}

proof fn lemma_copy_enters(source: Seq<Aligned>, path: Seq<Aligned>, key: Aligned, state: Tree)
    requires
        copied(source, path.push(key))(state) is Some,
    ensures
        enters(state, copied(source, path.push(key))(state)->0, path, key),
{
    if let Some(Tree::Mapping(entries)) = lookup(state, path) {
        let value = lookup(state, source)->0;
        let after = entries.insert(key, value);
        law_entry_write(state, path, entries, key, value);
        law_write_reads_back(state, path, Tree::Mapping(after));
        assert(after.remove(key) =~= entries.remove(key));
    }
}

proof fn lemma_copy_copies<S>(
    cell: LedgerCell<S>,
    layout: BlockLayout,
    start: nat,
    other: nat,
    key: Aligned,
    state: Tree,
)
    requires
        cell.path == layout.field(start),
        start < other < layout.total() <= MAX_FIELDS,
        cell_snapshot_effect(cell, SnapshotMap::at(layout, other), key)(state) is Some,
    ensures
        ({
            let next = cell_snapshot_effect(cell, SnapshotMap::at(layout, other), key)(state)->0;
            lookup(next, layout.field(other).keys().push(key)) == lookup(next, cell.path.keys())
        }),
{
    let snapshot = SnapshotMap::<S>::at(layout, other);
    law_fields_part(layout, other, start, seq![key], Seq::empty());
    assert(snapshot.path.keys() + seq![key] =~= snapshot.path.keys().push(key));
    assert(cell.path.keys() + Seq::<Aligned>::empty() =~= cell.path.keys());
    law_snapshot_holds_the_accumulator(state, cell, snapshot, key);
}

proof fn lemma_all_within_joined(
    a: Seq<FieldPath>,
    b: Seq<FieldPath>,
    layout: BlockLayout,
    from: nat,
    mid: nat,
    to: nat,
)
    requires
        from <= mid <= to,
        all_within(a, layout, from, mid),
        all_within(b, layout, mid, to),
    ensures
        all_within(a + b, layout, from, to),
{
    assert forall|k: int| 0 <= k < (a + b).len() implies within(
        #[trigger] (a + b)[k],
        layout,
        from,
        to,
    ) by {
        if k < a.len() {
            assert(within(a[k], layout, from, mid));
        } else {
            assert(within(b[k - a.len()], layout, mid, to));
        }
    }
}

proof fn lemma_parts_from_both(a: Seq<FieldPath>, b: Seq<FieldPath>, other: Seq<Aligned>)
    requires
        parts_from_all(a + b, other),
    ensures
        parts_from_all(a, other),
        parts_from_all(b, other),
{
    assert forall|k: int| 0 <= k < a.len() implies part((#[trigger] a[k]).keys(), other) by {
        assert((a + b)[k] == a[k]);
    }
    assert forall|k: int| 0 <= k < b.len() implies part((#[trigger] b[k]).keys(), other) by {
        assert((a + b)[k + a.len()] == b[k]);
    }
}

/// Fields of one range part from what is below a field of another.
pub proof fn lemma_ranges_part(
    paths: Seq<FieldPath>,
    layout: BlockLayout,
    from: nat,
    to: nat,
    field: FieldPath,
    lo: nat,
    hi: nat,
    below: Seq<Aligned>,
)
    requires
        all_within(paths, layout, from, to),
        within(field, layout, lo, hi),
        hi <= from || to <= lo,
        to <= layout.total() <= MAX_FIELDS,
        hi <= layout.total(),
    ensures
        parts_from_all(paths, field.keys() + below),
{
    let j = choose|j: nat| lo <= j < hi && field == #[trigger] layout.field(j);
    assert forall|k: int| 0 <= k < paths.len() implies part(
        (#[trigger] paths[k]).keys(),
        field.keys() + below,
    ) by {
        assert(within(paths[k], layout, from, to));
        let i = choose|i: nat| from <= i < to && paths[k] == #[trigger] layout.field(i);
        law_fields_part(layout, i, j, Seq::empty(), below);
        assert(paths[k].keys() + Seq::<Aligned>::empty() =~= paths[k].keys());
    }
}

// ---- the seven steps ------------------------------------------------------------------------

impl<const BITS: u32> Primitive<Uint<BITS, Public>> for Add where Uint<BITS, Public>: CellArith {
    const ACC_FIELDS: usize = 1;

    const SNAPSHOT_FIELDS: usize = 1;

    type Acc = LedgerCell<Uint<BITS, Public>>;

    type Snapshot = SnapshotMap<Uint<BITS, Public>>;

    open spec fn acc_fields() -> nat {
        1
    }

    open spec fn snapshot_fields() -> nat {
        1
    }

    open spec fn acc_at(layout: BlockLayout, start: nat) -> Self::Acc {
        LedgerCell { path: layout.field(start), holds: PhantomData }
    }

    open spec fn snapshot_at(layout: BlockLayout, start: nat) -> Self::Snapshot {
        SnapshotMap::at(layout, start)
    }

    open spec fn combine_ops(acc: Self::Acc, delta: Uint<BITS, Public>) -> Seq<Op> {
        add_ops(acc.path.keys(), stored(delta))
    }

    open spec fn combine_effect(acc: Self::Acc, delta: Uint<BITS, Public>) -> Effect {
        at_path(acc.path.keys(), added(stored(delta)))
    }

    proof fn law_blind_step(
        acc: Self::Acc,
        snapshot: Self::Snapshot,
        delta: Uint<BITS, Public>,
        key: Aligned,
    ) {
        law_add(acc.path.keys(), stored(delta));
        lemma_cell_snapshot(acc, snapshot, key);
    }

    fn combine_hook(hook: Hook, acc: &Self::Acc, delta: &Uint<BITS, Public>) -> (r: Hook) {
        hook.add::<Uint<BITS, Public>, Lowered>(acc, Lowered(ledger_value(delta)))
    }

    open spec fn snapshot_ops(acc: Self::Acc, snapshot: Self::Snapshot, key: Aligned) -> Seq<Op> {
        cell_snapshot_ops(acc, snapshot, key)
    }

    open spec fn looked_up(run: Run, snapshot: Self::Snapshot, key: Aligned) -> (Run, Uint<BITS, Public>) {
        run.read::<Uint<BITS, Public>>(snapshot.path.keys().push(key))
    }

    open spec fn removed(run: Run, snapshot: Self::Snapshot, key: Aligned) -> Run {
        run.emit(remove_ops(snapshot.path.keys(), key))
    }

    open spec fn snapshot_effect(
        acc: Self::Acc,
        snapshot: Self::Snapshot,
        key: Aligned,
    ) -> Effect {
        cell_snapshot_effect(acc, snapshot, key)
    }

    open spec fn cells(acc: Self::Acc) -> Seq<FieldPath> {
        seq![acc.path]
    }

    open spec fn sources(acc: Self::Acc) -> Seq<FieldPath> {
        seq![acc.path]
    }

    open spec fn copies(snapshot: Self::Snapshot) -> Seq<FieldPath> {
        seq![snapshot.path]
    }

    open spec fn entry_storable(value: Uint<BITS, Public>) -> bool {
        value.storable()
    }

    open spec fn entry_values(value: Uint<BITS, Public>) -> Seq<Aligned> {
        seq![stored(value)]
    }

    proof fn law_value_fills_its_sources(acc: Self::Acc, value: Uint<BITS, Public>) {
    }

    proof fn law_entry_reads_back(
        run: Run,
        snapshot: Self::Snapshot,
        key: Aligned,
        value: Uint<BITS, Public>,
        more: Seq<Seq<Seq<u8>>>,
    ) {
        lemma_one_entry(run, snapshot.path, key, value, more);
    }

    proof fn law_entry_is_cleared(run: Run, snapshot: Self::Snapshot, key: Aligned) {
        lemma_one_read(snapshot.path, key, key);
    }

    proof fn law_laid_out(layout: BlockLayout, start: nat, other: nat) {
        assert(within(layout.field(start), layout, start, start + 1));
        assert(within(layout.field(other), layout, other, other + 1));
    }

    proof fn law_fields_in_order(layout: BlockLayout, start: nat) {
        assert(layout.field((start + 0) as nat) == layout.field(start));
    }

    proof fn law_step_reads_its_cells(
        layout: BlockLayout,
        start: nat,
        delta: Uint<BITS, Public>,
        one: Tree,
        two: Tree,
    ) {
        let path = layout.field(start).keys();
        if lookup(one, path) is Some {
            lemma_at_path_reads_back(one, path, added(stored(delta)));
            lemma_at_path_reads_back(two, path, added(stored(delta)));
        }
    }

    proof fn law_snapshot_lands(
        layout: BlockLayout,
        start: nat,
        other: nat,
        key: Aligned,
        state: Tree,
    ) {
        let (cell, entry) = (layout.field(start).keys(), layout.field(other).keys().push(key));
        let sources = <Add as Primitive<Uint<BITS, Public>>>::sources(<Add as Primitive<Uint<BITS, Public>>>::acc_at(layout, start));
        assert(sources[0] == layout.field(start));
        assert(<Add as Primitive<Uint<BITS, Public>>>::copies(<Add as Primitive<Uint<BITS, Public>>>::snapshot_at(layout, other))[0] == layout.field(other));
        if lookup(state, cell) is Some {
            law_written_where_read(state, entry, lookup(state, cell)->0);
        }
    }

    proof fn law_step_keeps_the_rest(
        acc: Self::Acc,
        delta: Uint<BITS, Public>,
        state: Tree,
        other: Seq<Aligned>,
    ) {
        assert(part(Self::cells(acc)[0].keys(), other));
        lemma_at_path_keeps_the_rest(state, acc.path.keys(), added(stored(delta)), other);
    }

    proof fn law_snapshot_keeps_the_rest(
        acc: Self::Acc,
        snapshot: Self::Snapshot,
        key: Aligned,
        state: Tree,
        other: Seq<Aligned>,
    ) {
        assert(part(Self::copies(snapshot)[0].keys(), other));
        lemma_copy_keeps_the_rest(acc, snapshot, key, state, other);
    }

    proof fn law_snapshot_keeps_other_keys(
        layout: BlockLayout,
        start: nat,
        other: nat,
        key: Aligned,
        state: Tree,
    ) {
        let (acc, snapshot) = (Self::acc_at(layout, start), Self::snapshot_at(layout, other));
        lemma_copy_enters(acc.path.keys(), snapshot.path.keys(), key, state);
    }

    proof fn law_snapshot_copies(
        layout: BlockLayout,
        start: nat,
        other: nat,
        key: Aligned,
        state: Tree,
    ) {
        lemma_copy_copies::<Uint<BITS, Public>>(Self::acc_at(layout, start), layout, start, other, key, state);
    }

    proof fn law_entry_is_guarded(run: Run, snapshot: Self::Snapshot, key: Aligned) {
    }

    proof fn law_fields() {
    }

    proof fn law_ready(layout: BlockLayout, start: nat) {
    }

    fn acc_at_layout(layout: BlockLayout, start: usize) -> (r: Self::Acc) {
        LedgerCell::at_layout(layout, start)
    }

    fn snapshot_at_layout(layout: BlockLayout, start: usize) -> (r: Self::Snapshot) {
        SnapshotMap::at_layout(layout, start)
    }

    fn snapshot_hook<K: LedgerRepr>(
        hook: Hook,
        acc: &Self::Acc,
        snapshot: &Self::Snapshot,
        key: &K,
    ) -> (r: Hook) {
        cell_snapshot(hook, acc, snapshot, key)
    }

    fn lookup<K: LedgerRepr>(c: &mut Circuit3, snapshot: &Self::Snapshot, key: &K) -> (r: Assumed<
        Uint<BITS, Public>,
    >) {
        map_lookup(c, snapshot, key)
    }

    fn remove<K: LedgerRepr>(c: &mut Circuit3, snapshot: &Self::Snapshot, key: &K) {
        map_remove(c, snapshot, key)
    }
}

impl<const BITS: u32> Primitive<Uint<BITS, Public>> for Max where Uint<BITS, Public>: CellArith {
    const ACC_FIELDS: usize = 1;

    const SNAPSHOT_FIELDS: usize = 1;

    type Acc = LedgerCell<Uint<BITS, Public>>;

    type Snapshot = SnapshotMap<Uint<BITS, Public>>;

    open spec fn acc_fields() -> nat {
        1
    }

    open spec fn snapshot_fields() -> nat {
        1
    }

    open spec fn acc_at(layout: BlockLayout, start: nat) -> Self::Acc {
        LedgerCell { path: layout.field(start), holds: PhantomData }
    }

    open spec fn snapshot_at(layout: BlockLayout, start: nat) -> Self::Snapshot {
        SnapshotMap::at(layout, start)
    }

    open spec fn combine_ops(acc: Self::Acc, delta: Uint<BITS, Public>) -> Seq<Op> {
        max_ops(acc.path.keys(), stored(delta))
    }

    open spec fn combine_effect(acc: Self::Acc, delta: Uint<BITS, Public>) -> Effect {
        at_path(acc.path.keys(), raised(stored(delta)))
    }

    proof fn law_blind_step(
        acc: Self::Acc,
        snapshot: Self::Snapshot,
        delta: Uint<BITS, Public>,
        key: Aligned,
    ) {
        law_max(acc.path.keys(), stored(delta));
        lemma_cell_snapshot(acc, snapshot, key);
    }

    fn combine_hook(hook: Hook, acc: &Self::Acc, delta: &Uint<BITS, Public>) -> (r: Hook) {
        hook.max::<Uint<BITS, Public>, Lowered>(acc, Lowered(ledger_value(delta)))
    }

    open spec fn snapshot_ops(acc: Self::Acc, snapshot: Self::Snapshot, key: Aligned) -> Seq<Op> {
        cell_snapshot_ops(acc, snapshot, key)
    }

    open spec fn looked_up(run: Run, snapshot: Self::Snapshot, key: Aligned) -> (Run, Uint<BITS, Public>) {
        run.read::<Uint<BITS, Public>>(snapshot.path.keys().push(key))
    }

    open spec fn removed(run: Run, snapshot: Self::Snapshot, key: Aligned) -> Run {
        run.emit(remove_ops(snapshot.path.keys(), key))
    }

    open spec fn snapshot_effect(
        acc: Self::Acc,
        snapshot: Self::Snapshot,
        key: Aligned,
    ) -> Effect {
        cell_snapshot_effect(acc, snapshot, key)
    }

    open spec fn cells(acc: Self::Acc) -> Seq<FieldPath> {
        seq![acc.path]
    }

    open spec fn sources(acc: Self::Acc) -> Seq<FieldPath> {
        seq![acc.path]
    }

    open spec fn copies(snapshot: Self::Snapshot) -> Seq<FieldPath> {
        seq![snapshot.path]
    }

    open spec fn entry_storable(value: Uint<BITS, Public>) -> bool {
        value.storable()
    }

    open spec fn entry_values(value: Uint<BITS, Public>) -> Seq<Aligned> {
        seq![stored(value)]
    }

    proof fn law_value_fills_its_sources(acc: Self::Acc, value: Uint<BITS, Public>) {
    }

    proof fn law_entry_reads_back(
        run: Run,
        snapshot: Self::Snapshot,
        key: Aligned,
        value: Uint<BITS, Public>,
        more: Seq<Seq<Seq<u8>>>,
    ) {
        lemma_one_entry(run, snapshot.path, key, value, more);
    }

    proof fn law_entry_is_cleared(run: Run, snapshot: Self::Snapshot, key: Aligned) {
        lemma_one_read(snapshot.path, key, key);
    }

    proof fn law_laid_out(layout: BlockLayout, start: nat, other: nat) {
        assert(within(layout.field(start), layout, start, start + 1));
        assert(within(layout.field(other), layout, other, other + 1));
    }

    proof fn law_fields_in_order(layout: BlockLayout, start: nat) {
        assert(layout.field((start + 0) as nat) == layout.field(start));
    }

    proof fn law_step_reads_its_cells(
        layout: BlockLayout,
        start: nat,
        delta: Uint<BITS, Public>,
        one: Tree,
        two: Tree,
    ) {
        let path = layout.field(start).keys();
        if lookup(one, path) is Some {
            lemma_at_path_reads_back(one, path, raised(stored(delta)));
            lemma_at_path_reads_back(two, path, raised(stored(delta)));
        }
    }

    proof fn law_snapshot_lands(
        layout: BlockLayout,
        start: nat,
        other: nat,
        key: Aligned,
        state: Tree,
    ) {
        let (cell, entry) = (layout.field(start).keys(), layout.field(other).keys().push(key));
        let sources = <Max as Primitive<Uint<BITS, Public>>>::sources(<Max as Primitive<Uint<BITS, Public>>>::acc_at(layout, start));
        assert(sources[0] == layout.field(start));
        assert(<Max as Primitive<Uint<BITS, Public>>>::copies(<Max as Primitive<Uint<BITS, Public>>>::snapshot_at(layout, other))[0] == layout.field(other));
        if lookup(state, cell) is Some {
            law_written_where_read(state, entry, lookup(state, cell)->0);
        }
    }

    proof fn law_step_keeps_the_rest(
        acc: Self::Acc,
        delta: Uint<BITS, Public>,
        state: Tree,
        other: Seq<Aligned>,
    ) {
        assert(part(Self::cells(acc)[0].keys(), other));
        lemma_at_path_keeps_the_rest(state, acc.path.keys(), raised(stored(delta)), other);
    }

    proof fn law_snapshot_keeps_the_rest(
        acc: Self::Acc,
        snapshot: Self::Snapshot,
        key: Aligned,
        state: Tree,
        other: Seq<Aligned>,
    ) {
        assert(part(Self::copies(snapshot)[0].keys(), other));
        lemma_copy_keeps_the_rest(acc, snapshot, key, state, other);
    }

    proof fn law_snapshot_keeps_other_keys(
        layout: BlockLayout,
        start: nat,
        other: nat,
        key: Aligned,
        state: Tree,
    ) {
        let (acc, snapshot) = (Self::acc_at(layout, start), Self::snapshot_at(layout, other));
        lemma_copy_enters(acc.path.keys(), snapshot.path.keys(), key, state);
    }

    proof fn law_snapshot_copies(
        layout: BlockLayout,
        start: nat,
        other: nat,
        key: Aligned,
        state: Tree,
    ) {
        lemma_copy_copies::<Uint<BITS, Public>>(Self::acc_at(layout, start), layout, start, other, key, state);
    }

    proof fn law_entry_is_guarded(run: Run, snapshot: Self::Snapshot, key: Aligned) {
    }

    proof fn law_fields() {
    }

    proof fn law_ready(layout: BlockLayout, start: nat) {
    }

    fn acc_at_layout(layout: BlockLayout, start: usize) -> (r: Self::Acc) {
        LedgerCell::at_layout(layout, start)
    }

    fn snapshot_at_layout(layout: BlockLayout, start: usize) -> (r: Self::Snapshot) {
        SnapshotMap::at_layout(layout, start)
    }

    fn snapshot_hook<K: LedgerRepr>(
        hook: Hook,
        acc: &Self::Acc,
        snapshot: &Self::Snapshot,
        key: &K,
    ) -> (r: Hook) {
        cell_snapshot(hook, acc, snapshot, key)
    }

    fn lookup<K: LedgerRepr>(c: &mut Circuit3, snapshot: &Self::Snapshot, key: &K) -> (r: Assumed<
        Uint<BITS, Public>,
    >) {
        map_lookup(c, snapshot, key)
    }

    fn remove<K: LedgerRepr>(c: &mut Circuit3, snapshot: &Self::Snapshot, key: &K) {
        map_remove(c, snapshot, key)
    }
}

impl<const BITS: u32> Primitive<Uint<BITS, Public>> for Min where Uint<BITS, Public>: CellArith {
    const ACC_FIELDS: usize = 1;

    const SNAPSHOT_FIELDS: usize = 1;

    type Acc = LedgerCell<Uint<BITS, Public>>;

    type Snapshot = SnapshotMap<Uint<BITS, Public>>;

    open spec fn acc_fields() -> nat {
        1
    }

    open spec fn snapshot_fields() -> nat {
        1
    }

    open spec fn acc_at(layout: BlockLayout, start: nat) -> Self::Acc {
        LedgerCell { path: layout.field(start), holds: PhantomData }
    }

    open spec fn snapshot_at(layout: BlockLayout, start: nat) -> Self::Snapshot {
        SnapshotMap::at(layout, start)
    }

    open spec fn combine_ops(acc: Self::Acc, delta: Uint<BITS, Public>) -> Seq<Op> {
        min_ops(acc.path.keys(), stored(delta))
    }

    open spec fn combine_effect(acc: Self::Acc, delta: Uint<BITS, Public>) -> Effect {
        at_path(acc.path.keys(), lowered(stored(delta)))
    }

    proof fn law_blind_step(
        acc: Self::Acc,
        snapshot: Self::Snapshot,
        delta: Uint<BITS, Public>,
        key: Aligned,
    ) {
        law_min(acc.path.keys(), stored(delta));
        lemma_cell_snapshot(acc, snapshot, key);
    }

    fn combine_hook(hook: Hook, acc: &Self::Acc, delta: &Uint<BITS, Public>) -> (r: Hook) {
        hook.min::<Uint<BITS, Public>, Lowered>(acc, Lowered(ledger_value(delta)))
    }

    open spec fn snapshot_ops(acc: Self::Acc, snapshot: Self::Snapshot, key: Aligned) -> Seq<Op> {
        cell_snapshot_ops(acc, snapshot, key)
    }

    open spec fn looked_up(run: Run, snapshot: Self::Snapshot, key: Aligned) -> (Run, Uint<BITS, Public>) {
        run.read::<Uint<BITS, Public>>(snapshot.path.keys().push(key))
    }

    open spec fn removed(run: Run, snapshot: Self::Snapshot, key: Aligned) -> Run {
        run.emit(remove_ops(snapshot.path.keys(), key))
    }

    open spec fn snapshot_effect(
        acc: Self::Acc,
        snapshot: Self::Snapshot,
        key: Aligned,
    ) -> Effect {
        cell_snapshot_effect(acc, snapshot, key)
    }

    open spec fn cells(acc: Self::Acc) -> Seq<FieldPath> {
        seq![acc.path]
    }

    open spec fn sources(acc: Self::Acc) -> Seq<FieldPath> {
        seq![acc.path]
    }

    open spec fn copies(snapshot: Self::Snapshot) -> Seq<FieldPath> {
        seq![snapshot.path]
    }

    open spec fn entry_storable(value: Uint<BITS, Public>) -> bool {
        value.storable()
    }

    open spec fn entry_values(value: Uint<BITS, Public>) -> Seq<Aligned> {
        seq![stored(value)]
    }

    proof fn law_value_fills_its_sources(acc: Self::Acc, value: Uint<BITS, Public>) {
    }

    proof fn law_entry_reads_back(
        run: Run,
        snapshot: Self::Snapshot,
        key: Aligned,
        value: Uint<BITS, Public>,
        more: Seq<Seq<Seq<u8>>>,
    ) {
        lemma_one_entry(run, snapshot.path, key, value, more);
    }

    proof fn law_entry_is_cleared(run: Run, snapshot: Self::Snapshot, key: Aligned) {
        lemma_one_read(snapshot.path, key, key);
    }

    proof fn law_laid_out(layout: BlockLayout, start: nat, other: nat) {
        assert(within(layout.field(start), layout, start, start + 1));
        assert(within(layout.field(other), layout, other, other + 1));
    }

    proof fn law_fields_in_order(layout: BlockLayout, start: nat) {
        assert(layout.field((start + 0) as nat) == layout.field(start));
    }

    proof fn law_step_reads_its_cells(
        layout: BlockLayout,
        start: nat,
        delta: Uint<BITS, Public>,
        one: Tree,
        two: Tree,
    ) {
        let path = layout.field(start).keys();
        if lookup(one, path) is Some {
            lemma_at_path_reads_back(one, path, lowered(stored(delta)));
            lemma_at_path_reads_back(two, path, lowered(stored(delta)));
        }
    }

    proof fn law_snapshot_lands(
        layout: BlockLayout,
        start: nat,
        other: nat,
        key: Aligned,
        state: Tree,
    ) {
        let (cell, entry) = (layout.field(start).keys(), layout.field(other).keys().push(key));
        let sources = <Min as Primitive<Uint<BITS, Public>>>::sources(<Min as Primitive<Uint<BITS, Public>>>::acc_at(layout, start));
        assert(sources[0] == layout.field(start));
        assert(<Min as Primitive<Uint<BITS, Public>>>::copies(<Min as Primitive<Uint<BITS, Public>>>::snapshot_at(layout, other))[0] == layout.field(other));
        if lookup(state, cell) is Some {
            law_written_where_read(state, entry, lookup(state, cell)->0);
        }
    }

    proof fn law_step_keeps_the_rest(
        acc: Self::Acc,
        delta: Uint<BITS, Public>,
        state: Tree,
        other: Seq<Aligned>,
    ) {
        assert(part(Self::cells(acc)[0].keys(), other));
        lemma_at_path_keeps_the_rest(state, acc.path.keys(), lowered(stored(delta)), other);
    }

    proof fn law_snapshot_keeps_the_rest(
        acc: Self::Acc,
        snapshot: Self::Snapshot,
        key: Aligned,
        state: Tree,
        other: Seq<Aligned>,
    ) {
        assert(part(Self::copies(snapshot)[0].keys(), other));
        lemma_copy_keeps_the_rest(acc, snapshot, key, state, other);
    }

    proof fn law_snapshot_keeps_other_keys(
        layout: BlockLayout,
        start: nat,
        other: nat,
        key: Aligned,
        state: Tree,
    ) {
        let (acc, snapshot) = (Self::acc_at(layout, start), Self::snapshot_at(layout, other));
        lemma_copy_enters(acc.path.keys(), snapshot.path.keys(), key, state);
    }

    proof fn law_snapshot_copies(
        layout: BlockLayout,
        start: nat,
        other: nat,
        key: Aligned,
        state: Tree,
    ) {
        lemma_copy_copies::<Uint<BITS, Public>>(Self::acc_at(layout, start), layout, start, other, key, state);
    }

    proof fn law_entry_is_guarded(run: Run, snapshot: Self::Snapshot, key: Aligned) {
    }

    proof fn law_fields() {
    }

    proof fn law_ready(layout: BlockLayout, start: nat) {
    }

    fn acc_at_layout(layout: BlockLayout, start: usize) -> (r: Self::Acc) {
        LedgerCell::at_layout(layout, start)
    }

    fn snapshot_at_layout(layout: BlockLayout, start: usize) -> (r: Self::Snapshot) {
        SnapshotMap::at_layout(layout, start)
    }

    fn snapshot_hook<K: LedgerRepr>(
        hook: Hook,
        acc: &Self::Acc,
        snapshot: &Self::Snapshot,
        key: &K,
    ) -> (r: Hook) {
        cell_snapshot(hook, acc, snapshot, key)
    }

    fn lookup<K: LedgerRepr>(c: &mut Circuit3, snapshot: &Self::Snapshot, key: &K) -> (r: Assumed<
        Uint<BITS, Public>,
    >) {
        map_lookup(c, snapshot, key)
    }

    fn remove<K: LedgerRepr>(c: &mut Circuit3, snapshot: &Self::Snapshot, key: &K) {
        map_remove(c, snapshot, key)
    }
}

impl Primitive<Bool<Public>> for And {
    const ACC_FIELDS: usize = 1;

    const SNAPSHOT_FIELDS: usize = 1;

    type Acc = LedgerCell<Bool<Public>>;

    type Snapshot = SnapshotMap<Bool<Public>>;

    open spec fn acc_fields() -> nat {
        1
    }

    open spec fn snapshot_fields() -> nat {
        1
    }

    open spec fn acc_at(layout: BlockLayout, start: nat) -> Self::Acc {
        LedgerCell { path: layout.field(start), holds: PhantomData }
    }

    open spec fn snapshot_at(layout: BlockLayout, start: nat) -> Self::Snapshot {
        SnapshotMap::at(layout, start)
    }

    open spec fn combine_ops(acc: Self::Acc, delta: Bool<Public>) -> Seq<Op> {
        and_ops(acc.path.keys(), stored(delta))
    }

    open spec fn combine_effect(acc: Self::Acc, delta: Bool<Public>) -> Effect {
        at_path(acc.path.keys(), both(stored(delta)))
    }

    proof fn law_blind_step(
        acc: Self::Acc,
        snapshot: Self::Snapshot,
        delta: Bool<Public>,
        key: Aligned,
    ) {
        law_and(acc.path.keys(), stored(delta));
        lemma_cell_snapshot(acc, snapshot, key);
    }

    fn combine_hook(hook: Hook, acc: &Self::Acc, delta: &Bool<Public>) -> (r: Hook) {
        hook.and(acc, Lowered(ledger_value(delta)))
    }

    open spec fn snapshot_ops(acc: Self::Acc, snapshot: Self::Snapshot, key: Aligned) -> Seq<Op> {
        cell_snapshot_ops(acc, snapshot, key)
    }

    open spec fn looked_up(run: Run, snapshot: Self::Snapshot, key: Aligned) -> (Run, Bool<Public>) {
        run.read::<Bool<Public>>(snapshot.path.keys().push(key))
    }

    open spec fn removed(run: Run, snapshot: Self::Snapshot, key: Aligned) -> Run {
        run.emit(remove_ops(snapshot.path.keys(), key))
    }

    open spec fn snapshot_effect(
        acc: Self::Acc,
        snapshot: Self::Snapshot,
        key: Aligned,
    ) -> Effect {
        cell_snapshot_effect(acc, snapshot, key)
    }

    open spec fn cells(acc: Self::Acc) -> Seq<FieldPath> {
        seq![acc.path]
    }

    open spec fn sources(acc: Self::Acc) -> Seq<FieldPath> {
        seq![acc.path]
    }

    open spec fn copies(snapshot: Self::Snapshot) -> Seq<FieldPath> {
        seq![snapshot.path]
    }

    open spec fn entry_storable(value: Bool<Public>) -> bool {
        value.storable()
    }

    open spec fn entry_values(value: Bool<Public>) -> Seq<Aligned> {
        seq![stored(value)]
    }

    proof fn law_value_fills_its_sources(acc: Self::Acc, value: Bool<Public>) {
    }

    proof fn law_entry_reads_back(
        run: Run,
        snapshot: Self::Snapshot,
        key: Aligned,
        value: Bool<Public>,
        more: Seq<Seq<Seq<u8>>>,
    ) {
        lemma_one_entry(run, snapshot.path, key, value, more);
    }

    proof fn law_entry_is_cleared(run: Run, snapshot: Self::Snapshot, key: Aligned) {
        lemma_one_read(snapshot.path, key, key);
    }

    proof fn law_laid_out(layout: BlockLayout, start: nat, other: nat) {
        assert(within(layout.field(start), layout, start, start + 1));
        assert(within(layout.field(other), layout, other, other + 1));
    }

    proof fn law_fields_in_order(layout: BlockLayout, start: nat) {
        assert(layout.field((start + 0) as nat) == layout.field(start));
    }

    proof fn law_step_reads_its_cells(
        layout: BlockLayout,
        start: nat,
        delta: Bool<Public>,
        one: Tree,
        two: Tree,
    ) {
        let path = layout.field(start).keys();
        if lookup(one, path) is Some {
            lemma_at_path_reads_back(one, path, both(stored(delta)));
            lemma_at_path_reads_back(two, path, both(stored(delta)));
        }
    }

    proof fn law_snapshot_lands(
        layout: BlockLayout,
        start: nat,
        other: nat,
        key: Aligned,
        state: Tree,
    ) {
        let (cell, entry) = (layout.field(start).keys(), layout.field(other).keys().push(key));
        let sources = <And as Primitive<Bool<Public>>>::sources(<And as Primitive<Bool<Public>>>::acc_at(layout, start));
        assert(sources[0] == layout.field(start));
        assert(<And as Primitive<Bool<Public>>>::copies(<And as Primitive<Bool<Public>>>::snapshot_at(layout, other))[0] == layout.field(other));
        if lookup(state, cell) is Some {
            law_written_where_read(state, entry, lookup(state, cell)->0);
        }
    }

    proof fn law_step_keeps_the_rest(
        acc: Self::Acc,
        delta: Bool<Public>,
        state: Tree,
        other: Seq<Aligned>,
    ) {
        assert(part(Self::cells(acc)[0].keys(), other));
        lemma_at_path_keeps_the_rest(state, acc.path.keys(), both(stored(delta)), other);
    }

    proof fn law_snapshot_keeps_the_rest(
        acc: Self::Acc,
        snapshot: Self::Snapshot,
        key: Aligned,
        state: Tree,
        other: Seq<Aligned>,
    ) {
        assert(part(Self::copies(snapshot)[0].keys(), other));
        lemma_copy_keeps_the_rest(acc, snapshot, key, state, other);
    }

    proof fn law_snapshot_keeps_other_keys(
        layout: BlockLayout,
        start: nat,
        other: nat,
        key: Aligned,
        state: Tree,
    ) {
        let (acc, snapshot) = (Self::acc_at(layout, start), Self::snapshot_at(layout, other));
        lemma_copy_enters(acc.path.keys(), snapshot.path.keys(), key, state);
    }

    proof fn law_snapshot_copies(
        layout: BlockLayout,
        start: nat,
        other: nat,
        key: Aligned,
        state: Tree,
    ) {
        lemma_copy_copies::<Bool<Public>>(Self::acc_at(layout, start), layout, start, other, key, state);
    }

    proof fn law_entry_is_guarded(run: Run, snapshot: Self::Snapshot, key: Aligned) {
    }

    proof fn law_fields() {
    }

    proof fn law_ready(layout: BlockLayout, start: nat) {
    }

    fn acc_at_layout(layout: BlockLayout, start: usize) -> (r: Self::Acc) {
        LedgerCell::at_layout(layout, start)
    }

    fn snapshot_at_layout(layout: BlockLayout, start: usize) -> (r: Self::Snapshot) {
        SnapshotMap::at_layout(layout, start)
    }

    fn snapshot_hook<K: LedgerRepr>(
        hook: Hook,
        acc: &Self::Acc,
        snapshot: &Self::Snapshot,
        key: &K,
    ) -> (r: Hook) {
        cell_snapshot(hook, acc, snapshot, key)
    }

    fn lookup<K: LedgerRepr>(c: &mut Circuit3, snapshot: &Self::Snapshot, key: &K) -> (r: Assumed<
        Bool<Public>,
    >) {
        map_lookup(c, snapshot, key)
    }

    fn remove<K: LedgerRepr>(c: &mut Circuit3, snapshot: &Self::Snapshot, key: &K) {
        map_remove(c, snapshot, key)
    }
}

impl Primitive<Bool<Public>> for Or {
    const ACC_FIELDS: usize = 1;

    const SNAPSHOT_FIELDS: usize = 1;

    type Acc = LedgerCell<Bool<Public>>;

    type Snapshot = SnapshotMap<Bool<Public>>;

    open spec fn acc_fields() -> nat {
        1
    }

    open spec fn snapshot_fields() -> nat {
        1
    }

    open spec fn acc_at(layout: BlockLayout, start: nat) -> Self::Acc {
        LedgerCell { path: layout.field(start), holds: PhantomData }
    }

    open spec fn snapshot_at(layout: BlockLayout, start: nat) -> Self::Snapshot {
        SnapshotMap::at(layout, start)
    }

    open spec fn combine_ops(acc: Self::Acc, delta: Bool<Public>) -> Seq<Op> {
        or_ops(acc.path.keys(), stored(delta))
    }

    open spec fn combine_effect(acc: Self::Acc, delta: Bool<Public>) -> Effect {
        at_path(acc.path.keys(), either(stored(delta)))
    }

    proof fn law_blind_step(
        acc: Self::Acc,
        snapshot: Self::Snapshot,
        delta: Bool<Public>,
        key: Aligned,
    ) {
        law_or(acc.path.keys(), stored(delta));
        lemma_cell_snapshot(acc, snapshot, key);
    }

    fn combine_hook(hook: Hook, acc: &Self::Acc, delta: &Bool<Public>) -> (r: Hook) {
        hook.or(acc, Lowered(ledger_value(delta)))
    }

    open spec fn snapshot_ops(acc: Self::Acc, snapshot: Self::Snapshot, key: Aligned) -> Seq<Op> {
        cell_snapshot_ops(acc, snapshot, key)
    }

    open spec fn looked_up(run: Run, snapshot: Self::Snapshot, key: Aligned) -> (Run, Bool<Public>) {
        run.read::<Bool<Public>>(snapshot.path.keys().push(key))
    }

    open spec fn removed(run: Run, snapshot: Self::Snapshot, key: Aligned) -> Run {
        run.emit(remove_ops(snapshot.path.keys(), key))
    }

    open spec fn snapshot_effect(
        acc: Self::Acc,
        snapshot: Self::Snapshot,
        key: Aligned,
    ) -> Effect {
        cell_snapshot_effect(acc, snapshot, key)
    }

    open spec fn cells(acc: Self::Acc) -> Seq<FieldPath> {
        seq![acc.path]
    }

    open spec fn sources(acc: Self::Acc) -> Seq<FieldPath> {
        seq![acc.path]
    }

    open spec fn copies(snapshot: Self::Snapshot) -> Seq<FieldPath> {
        seq![snapshot.path]
    }

    open spec fn entry_storable(value: Bool<Public>) -> bool {
        value.storable()
    }

    open spec fn entry_values(value: Bool<Public>) -> Seq<Aligned> {
        seq![stored(value)]
    }

    proof fn law_value_fills_its_sources(acc: Self::Acc, value: Bool<Public>) {
    }

    proof fn law_entry_reads_back(
        run: Run,
        snapshot: Self::Snapshot,
        key: Aligned,
        value: Bool<Public>,
        more: Seq<Seq<Seq<u8>>>,
    ) {
        lemma_one_entry(run, snapshot.path, key, value, more);
    }

    proof fn law_entry_is_cleared(run: Run, snapshot: Self::Snapshot, key: Aligned) {
        lemma_one_read(snapshot.path, key, key);
    }

    proof fn law_laid_out(layout: BlockLayout, start: nat, other: nat) {
        assert(within(layout.field(start), layout, start, start + 1));
        assert(within(layout.field(other), layout, other, other + 1));
    }

    proof fn law_fields_in_order(layout: BlockLayout, start: nat) {
        assert(layout.field((start + 0) as nat) == layout.field(start));
    }

    proof fn law_step_reads_its_cells(
        layout: BlockLayout,
        start: nat,
        delta: Bool<Public>,
        one: Tree,
        two: Tree,
    ) {
        let path = layout.field(start).keys();
        if lookup(one, path) is Some {
            lemma_at_path_reads_back(one, path, either(stored(delta)));
            lemma_at_path_reads_back(two, path, either(stored(delta)));
        }
    }

    proof fn law_snapshot_lands(
        layout: BlockLayout,
        start: nat,
        other: nat,
        key: Aligned,
        state: Tree,
    ) {
        let (cell, entry) = (layout.field(start).keys(), layout.field(other).keys().push(key));
        let sources = <Or as Primitive<Bool<Public>>>::sources(<Or as Primitive<Bool<Public>>>::acc_at(layout, start));
        assert(sources[0] == layout.field(start));
        assert(<Or as Primitive<Bool<Public>>>::copies(<Or as Primitive<Bool<Public>>>::snapshot_at(layout, other))[0] == layout.field(other));
        if lookup(state, cell) is Some {
            law_written_where_read(state, entry, lookup(state, cell)->0);
        }
    }

    proof fn law_step_keeps_the_rest(
        acc: Self::Acc,
        delta: Bool<Public>,
        state: Tree,
        other: Seq<Aligned>,
    ) {
        assert(part(Self::cells(acc)[0].keys(), other));
        lemma_at_path_keeps_the_rest(state, acc.path.keys(), either(stored(delta)), other);
    }

    proof fn law_snapshot_keeps_the_rest(
        acc: Self::Acc,
        snapshot: Self::Snapshot,
        key: Aligned,
        state: Tree,
        other: Seq<Aligned>,
    ) {
        assert(part(Self::copies(snapshot)[0].keys(), other));
        lemma_copy_keeps_the_rest(acc, snapshot, key, state, other);
    }

    proof fn law_snapshot_keeps_other_keys(
        layout: BlockLayout,
        start: nat,
        other: nat,
        key: Aligned,
        state: Tree,
    ) {
        let (acc, snapshot) = (Self::acc_at(layout, start), Self::snapshot_at(layout, other));
        lemma_copy_enters(acc.path.keys(), snapshot.path.keys(), key, state);
    }

    proof fn law_snapshot_copies(
        layout: BlockLayout,
        start: nat,
        other: nat,
        key: Aligned,
        state: Tree,
    ) {
        lemma_copy_copies::<Bool<Public>>(Self::acc_at(layout, start), layout, start, other, key, state);
    }

    proof fn law_entry_is_guarded(run: Run, snapshot: Self::Snapshot, key: Aligned) {
    }

    proof fn law_fields() {
    }

    proof fn law_ready(layout: BlockLayout, start: nat) {
    }

    fn acc_at_layout(layout: BlockLayout, start: usize) -> (r: Self::Acc) {
        LedgerCell::at_layout(layout, start)
    }

    fn snapshot_at_layout(layout: BlockLayout, start: usize) -> (r: Self::Snapshot) {
        SnapshotMap::at_layout(layout, start)
    }

    fn snapshot_hook<K: LedgerRepr>(
        hook: Hook,
        acc: &Self::Acc,
        snapshot: &Self::Snapshot,
        key: &K,
    ) -> (r: Hook) {
        cell_snapshot(hook, acc, snapshot, key)
    }

    fn lookup<K: LedgerRepr>(c: &mut Circuit3, snapshot: &Self::Snapshot, key: &K) -> (r: Assumed<
        Bool<Public>,
    >) {
        map_lookup(c, snapshot, key)
    }

    fn remove<K: LedgerRepr>(c: &mut Circuit3, snapshot: &Self::Snapshot, key: &K) {
        map_remove(c, snapshot, key)
    }
}

impl<S: LedgerRepr> Primitive<S> for Last {
    const ACC_FIELDS: usize = 1;

    const SNAPSHOT_FIELDS: usize = 1;

    type Acc = LedgerCell<S>;

    type Snapshot = SnapshotMap<S>;

    open spec fn acc_fields() -> nat {
        1
    }

    open spec fn snapshot_fields() -> nat {
        1
    }

    open spec fn acc_at(layout: BlockLayout, start: nat) -> Self::Acc {
        LedgerCell { path: layout.field(start), holds: PhantomData }
    }

    open spec fn snapshot_at(layout: BlockLayout, start: nat) -> Self::Snapshot {
        SnapshotMap::at(layout, start)
    }

    open spec fn combine_ops(acc: Self::Acc, delta: S) -> Seq<Op> {
        write_ops(acc.path.keys(), stored(delta))
    }

    open spec fn combine_effect(acc: Self::Acc, delta: S) -> Effect {
        written(acc.path.keys(), Tree::Cell(stored(delta)))
    }

    proof fn law_blind_step(
        acc: Self::Acc,
        snapshot: Self::Snapshot,
        delta: S,
        key: Aligned,
    ) {
        law_write(acc.path.keys(), stored(delta));
        lemma_cell_snapshot(acc, snapshot, key);
    }

    fn combine_hook(hook: Hook, acc: &Self::Acc, delta: &S) -> (r: Hook) {
        hook.write::<S, Lowered>(acc, Lowered(ledger_value(delta)))
    }

    open spec fn snapshot_ops(acc: Self::Acc, snapshot: Self::Snapshot, key: Aligned) -> Seq<Op> {
        cell_snapshot_ops(acc, snapshot, key)
    }

    open spec fn looked_up(run: Run, snapshot: Self::Snapshot, key: Aligned) -> (Run, S) {
        run.read::<S>(snapshot.path.keys().push(key))
    }

    open spec fn removed(run: Run, snapshot: Self::Snapshot, key: Aligned) -> Run {
        run.emit(remove_ops(snapshot.path.keys(), key))
    }

    open spec fn snapshot_effect(
        acc: Self::Acc,
        snapshot: Self::Snapshot,
        key: Aligned,
    ) -> Effect {
        cell_snapshot_effect(acc, snapshot, key)
    }

    open spec fn cells(acc: Self::Acc) -> Seq<FieldPath> {
        seq![acc.path]
    }

    open spec fn sources(acc: Self::Acc) -> Seq<FieldPath> {
        seq![acc.path]
    }

    open spec fn copies(snapshot: Self::Snapshot) -> Seq<FieldPath> {
        seq![snapshot.path]
    }

    open spec fn entry_storable(value: S) -> bool {
        value.storable()
    }

    open spec fn entry_values(value: S) -> Seq<Aligned> {
        seq![stored(value)]
    }

    proof fn law_value_fills_its_sources(acc: Self::Acc, value: S) {
    }

    proof fn law_entry_reads_back(
        run: Run,
        snapshot: Self::Snapshot,
        key: Aligned,
        value: S,
        more: Seq<Seq<Seq<u8>>>,
    ) {
        lemma_one_entry(run, snapshot.path, key, value, more);
    }

    proof fn law_entry_is_cleared(run: Run, snapshot: Self::Snapshot, key: Aligned) {
        lemma_one_read(snapshot.path, key, key);
    }

    proof fn law_laid_out(layout: BlockLayout, start: nat, other: nat) {
        assert(within(layout.field(start), layout, start, start + 1));
        assert(within(layout.field(other), layout, other, other + 1));
    }

    proof fn law_fields_in_order(layout: BlockLayout, start: nat) {
        assert(layout.field((start + 0) as nat) == layout.field(start));
    }

    proof fn law_step_reads_its_cells(
        layout: BlockLayout,
        start: nat,
        delta: S,
        one: Tree,
        two: Tree,
    ) {
        let path = layout.field(start).keys();
        let value = Tree::Cell(stored(delta));
        law_written_where_read(one, path, value);
        law_written_where_read(two, path, value);
        if lookup(one, path) is Some {
            law_write_reads_back(one, path, value);
            law_write_reads_back(two, path, value);
        }
    }

    proof fn law_snapshot_lands(
        layout: BlockLayout,
        start: nat,
        other: nat,
        key: Aligned,
        state: Tree,
    ) {
        let (cell, entry) = (layout.field(start).keys(), layout.field(other).keys().push(key));
        let sources = <Last as Primitive<S>>::sources(<Last as Primitive<S>>::acc_at(layout, start));
        assert(sources[0] == layout.field(start));
        assert(<Last as Primitive<S>>::copies(<Last as Primitive<S>>::snapshot_at(layout, other))[0] == layout.field(other));
        if lookup(state, cell) is Some {
            law_written_where_read(state, entry, lookup(state, cell)->0);
        }
    }

    proof fn law_step_keeps_the_rest(
        acc: Self::Acc,
        delta: S,
        state: Tree,
        other: Seq<Aligned>,
    ) {
        assert(part(Self::cells(acc)[0].keys(), other));
        law_write_keeps_the_rest(state, acc.path.keys(), Tree::Cell(stored(delta)), other);
    }

    proof fn law_snapshot_keeps_the_rest(
        acc: Self::Acc,
        snapshot: Self::Snapshot,
        key: Aligned,
        state: Tree,
        other: Seq<Aligned>,
    ) {
        assert(part(Self::copies(snapshot)[0].keys(), other));
        lemma_copy_keeps_the_rest(acc, snapshot, key, state, other);
    }

    proof fn law_snapshot_keeps_other_keys(
        layout: BlockLayout,
        start: nat,
        other: nat,
        key: Aligned,
        state: Tree,
    ) {
        let acc = <Last as Primitive<S>>::acc_at(layout, start);
        let snapshot = <Last as Primitive<S>>::snapshot_at(layout, other);
        lemma_copy_enters(acc.path.keys(), snapshot.path.keys(), key, state);
    }

    proof fn law_snapshot_copies(
        layout: BlockLayout,
        start: nat,
        other: nat,
        key: Aligned,
        state: Tree,
    ) {
        lemma_copy_copies::<S>(Self::acc_at(layout, start), layout, start, other, key, state);
    }

    proof fn law_entry_is_guarded(run: Run, snapshot: Self::Snapshot, key: Aligned) {
    }

    proof fn law_fields() {
    }

    proof fn law_ready(layout: BlockLayout, start: nat) {
    }

    fn acc_at_layout(layout: BlockLayout, start: usize) -> (r: Self::Acc) {
        LedgerCell::at_layout(layout, start)
    }

    fn snapshot_at_layout(layout: BlockLayout, start: usize) -> (r: Self::Snapshot) {
        SnapshotMap::at_layout(layout, start)
    }

    fn snapshot_hook<K: LedgerRepr>(
        hook: Hook,
        acc: &Self::Acc,
        snapshot: &Self::Snapshot,
        key: &K,
    ) -> (r: Hook) {
        cell_snapshot(hook, acc, snapshot, key)
    }

    fn lookup<K: LedgerRepr>(c: &mut Circuit3, snapshot: &Self::Snapshot, key: &K) -> (r: Assumed<
        S,
    >) {
        map_lookup(c, snapshot, key)
    }

    fn remove<K: LedgerRepr>(c: &mut Circuit3, snapshot: &Self::Snapshot, key: &K) {
        map_remove(c, snapshot, key)
    }
}

/// The ops of a first-wins write: the value and then the flag, in a branch over
/// the flag.
pub open spec fn first_ops<S>(acc: FirstAcc<S>, value: Aligned) -> Seq<Op> {
    branch_ops(flag_test(acc.written.path.keys()), first_arm(acc, value))
}

/// The branch's arm.
pub open spec fn first_arm<S>(acc: FirstAcc<S>, value: Aligned) -> Seq<Op> {
    write_ops(acc.value.path.keys(), value) + write_ops(acc.written.path.keys(), number(1, 1))
}

/// What a first-wins write does.
pub open spec fn first_effect<S>(acc: FirstAcc<S>, value: Aligned) -> Effect {
    unless(
        flag_of(acc.written.path.keys()),
        in_turn(
            written(acc.value.path.keys(), Tree::Cell(value)),
            written(acc.written.path.keys(), truth(true)),
        ),
    )
}

/// Where a first-wins write lands and what it leaves: with the flag unset the
/// value and the flag, with the flag set what there was.
proof fn lemma_first_lands<S: LedgerRepr>(
    layout: BlockLayout,
    start: nat,
    value: Aligned,
    state: Tree,
)
    requires
        start + 2 <= layout.total() <= MAX_FIELDS,
    ensures
        ({
            let acc = <First as Primitive<S>>::acc_at(layout, start);
            let (cell, flag) = (layout.field(start).keys(), layout.field(start + 1).keys());
            let next = first_effect(acc, value)(state);
            match lookup(state, flag) {
                Some(bit) => if !(bit is Cell) {
                    next is None
                } else if !is_false(bit) {
                    next == Some(state)
                } else if lookup(state, cell) is None {
                    next is None
                } else {
                    next is Some && lookup(next->0, cell) == Some(Tree::Cell(value)) && lookup(
                        next->0,
                        flag,
                    ) == Some(truth(true))
                },
                None => next is None,
            }
        }),
{
    let acc = <First as Primitive<S>>::acc_at(layout, start);
    let (cell, flag) = (layout.field(start).keys(), layout.field(start + 1).keys());
    law_written_where_read(state, cell, Tree::Cell(value));
    if lookup(state, cell) is Some && lookup(state, flag) is Some {
        let mid = update(state, cell, Tree::Cell(value))->0;
        law_write_reads_back(state, cell, Tree::Cell(value));
        law_fields_part(layout, start, start + 1, Seq::empty(), Seq::empty());
        law_fields_part(layout, start + 1, start, Seq::empty(), Seq::empty());
        assert(cell + Seq::<Aligned>::empty() =~= cell);
        assert(flag + Seq::<Aligned>::empty() =~= flag);
        law_write_keeps_the_rest(state, cell, Tree::Cell(value), flag);
        law_written_where_read(mid, flag, truth(true));
        law_write_reads_back(mid, flag, truth(true));
        law_write_keeps_the_rest(mid, flag, truth(true), cell);
    }
}

impl<S: LedgerRepr> Primitive<S> for First {
    const ACC_FIELDS: usize = 2;

    const SNAPSHOT_FIELDS: usize = 1;

    type Acc = FirstAcc<S>;

    type Snapshot = SnapshotMap<S>;

    open spec fn acc_fields() -> nat {
        2
    }

    open spec fn snapshot_fields() -> nat {
        1
    }

    open spec fn acc_at(layout: BlockLayout, start: nat) -> Self::Acc {
        FirstAcc {
            value: LedgerCell { path: layout.field(start), holds: PhantomData },
            written: LedgerCell { path: layout.field(start + 1), holds: PhantomData },
        }
    }

    open spec fn snapshot_at(layout: BlockLayout, start: nat) -> Self::Snapshot {
        SnapshotMap::at(layout, start)
    }

    open spec fn combine_ops(acc: Self::Acc, delta: S) -> Seq<Op> {
        first_ops(acc, stored(delta))
    }

    open spec fn combine_effect(acc: Self::Acc, delta: S) -> Effect {
        first_effect(acc, stored(delta))
    }

    proof fn law_blind_step(acc: Self::Acc, snapshot: Self::Snapshot, delta: S, key: Aligned) {
        let (value, flag) = (acc.value.path.keys(), acc.written.path.keys());
        law_write(value, stored(delta));
        law_write(flag, number(1, 1));
        law_programs_compose(
            write_ops(value, stored(delta)),
            written(value, Tree::Cell(stored(delta))),
            write_ops(flag, number(1, 1)),
            written(flag, truth(true)),
        );
        law_flag_test(flag);
        law_branch(
            flag_test(flag),
            flag_of(flag),
            first_arm(acc, stored(delta)),
            in_turn(written(value, Tree::Cell(stored(delta))), written(flag, truth(true))),
        );
        lemma_cell_snapshot(acc.value, snapshot, key);
    }

    fn combine_hook(hook: Hook, acc: &Self::Acc, delta: &S) -> (r: Hook) {
        let value = ledger_value(delta);
        let ghost lowered = value@;
        let arm = |blank: Hook| -> (inner: Hook)
            ensures
                inner@ == blank@ + write_ops(acc.value.path.keys(), lowered) + write_ops(
                    acc.written.path.keys(),
                    number(1, 1),
                ),
            { blank.write(&acc.value, Lowered(value)).write(&acc.written, true) };
        proof {
            assert forall|inner: Hook| #[trigger] is_arm(arm, inner) implies inner@ == first_arm(
                *acc,
                lowered,
            ) by {
                let blank = choose|blank: Hook|
                    blank@.len() == 0 && #[trigger] call_ensures(arm, (blank,), inner);
                assert(blank@ =~= Seq::<Op>::empty());
                assert(inner@ =~= first_arm(*acc, lowered));
            }
            assert(first_arm(*acc, lowered).len() <= 10);
        }
        hook.if_unset(&acc.written, arm)
    }

    open spec fn snapshot_ops(acc: Self::Acc, snapshot: Self::Snapshot, key: Aligned) -> Seq<Op> {
        cell_snapshot_ops(acc.value, snapshot, key)
    }

    open spec fn looked_up(run: Run, snapshot: Self::Snapshot, key: Aligned) -> (Run, S) {
        run.read::<S>(snapshot.path.keys().push(key))
    }

    open spec fn removed(run: Run, snapshot: Self::Snapshot, key: Aligned) -> Run {
        run.emit(remove_ops(snapshot.path.keys(), key))
    }

    open spec fn snapshot_effect(
        acc: Self::Acc,
        snapshot: Self::Snapshot,
        key: Aligned,
    ) -> Effect {
        cell_snapshot_effect(acc.value, snapshot, key)
    }

    open spec fn cells(acc: Self::Acc) -> Seq<FieldPath> {
        seq![acc.value.path, acc.written.path]
    }

    open spec fn sources(acc: Self::Acc) -> Seq<FieldPath> {
        seq![acc.value.path]
    }

    open spec fn copies(snapshot: Self::Snapshot) -> Seq<FieldPath> {
        seq![snapshot.path]
    }

    open spec fn entry_storable(value: S) -> bool {
        value.storable()
    }

    open spec fn entry_values(value: S) -> Seq<Aligned> {
        seq![stored(value)]
    }

    proof fn law_value_fills_its_sources(acc: Self::Acc, value: S) {
    }

    proof fn law_entry_reads_back(
        run: Run,
        snapshot: Self::Snapshot,
        key: Aligned,
        value: S,
        more: Seq<Seq<Seq<u8>>>,
    ) {
        lemma_one_entry(run, snapshot.path, key, value, more);
    }

    proof fn law_entry_is_cleared(run: Run, snapshot: Self::Snapshot, key: Aligned) {
        lemma_one_read(snapshot.path, key, key);
    }

    proof fn law_laid_out(layout: BlockLayout, start: nat, other: nat) {
        assert(within(layout.field(start), layout, start, start + 2));
        assert(within(layout.field(other), layout, other, other + 1));
        assert(within(layout.field(start + 1), layout, start, start + 2));
    }

    proof fn law_fields_in_order(layout: BlockLayout, start: nat) {
        assert(layout.field((start + 0) as nat) == layout.field(start));
    }

    proof fn law_step_reads_its_cells(
        layout: BlockLayout,
        start: nat,
        delta: S,
        one: Tree,
        two: Tree,
    ) {
        let acc = <First as Primitive<S>>::acc_at(layout, start);
        assert(layout.field(start) == acc.value.path);
        assert(layout.field(start + 1) == acc.written.path);
        assert(lookup(one, acc.value.path.keys()) == lookup(two, acc.value.path.keys()));
        assert(lookup(one, acc.written.path.keys()) == lookup(two, acc.written.path.keys()));
        lemma_first_lands::<S>(layout, start, stored(delta), one);
        lemma_first_lands::<S>(layout, start, stored(delta), two);
    }

    proof fn law_snapshot_lands(
        layout: BlockLayout,
        start: nat,
        other: nat,
        key: Aligned,
        state: Tree,
    ) {
        let (cell, entry) = (layout.field(start).keys(), layout.field(other).keys().push(key));
        let sources = <First as Primitive<S>>::sources(<First as Primitive<S>>::acc_at(layout, start));
        assert(sources[0] == layout.field(start));
        assert(<First as Primitive<S>>::copies(<First as Primitive<S>>::snapshot_at(layout, other))[0] == layout.field(other));
        if lookup(state, cell) is Some {
            law_written_where_read(state, entry, lookup(state, cell)->0);
        }
    }

    proof fn law_step_keeps_the_rest(
        acc: Self::Acc,
        delta: S,
        state: Tree,
        other: Seq<Aligned>,
    ) {
        let (value, flag) = (acc.value.path.keys(), acc.written.path.keys());
        assert(part(Self::cells(acc)[0].keys(), other));
        assert(part(Self::cells(acc)[1].keys(), other));
        let mid = update(state, value, Tree::Cell(stored(delta)));
        if lookup(state, flag) matches Some(bit) && is_false(bit) {
            law_write_keeps_the_rest(state, value, Tree::Cell(stored(delta)), other);
            law_write_keeps_the_rest(mid->0, flag, truth(true), other);
        }
    }

    proof fn law_snapshot_keeps_the_rest(
        acc: Self::Acc,
        snapshot: Self::Snapshot,
        key: Aligned,
        state: Tree,
        other: Seq<Aligned>,
    ) {
        assert(part(Self::copies(snapshot)[0].keys(), other));
        lemma_copy_keeps_the_rest(acc.value, snapshot, key, state, other);
    }

    proof fn law_snapshot_keeps_other_keys(
        layout: BlockLayout,
        start: nat,
        other: nat,
        key: Aligned,
        state: Tree,
    ) {
        let acc = <First as Primitive<S>>::acc_at(layout, start);
        let snapshot = <First as Primitive<S>>::snapshot_at(layout, other);
        lemma_copy_enters(acc.value.path.keys(), snapshot.path.keys(), key, state);
    }

    proof fn law_snapshot_copies(
        layout: BlockLayout,
        start: nat,
        other: nat,
        key: Aligned,
        state: Tree,
    ) {
        lemma_copy_copies::<S>(Self::acc_at(layout, start).value, layout, start, other, key, state);
    }

    proof fn law_entry_is_guarded(run: Run, snapshot: Self::Snapshot, key: Aligned) {
    }

    proof fn law_fields() {
    }

    proof fn law_ready(layout: BlockLayout, start: nat) {
    }

    fn acc_at_layout(layout: BlockLayout, start: usize) -> (r: Self::Acc) {
        FirstAcc {
            value: LedgerCell::at_layout(layout, start),
            written: LedgerCell::at_layout(layout, start + 1),
        }
    }

    fn snapshot_at_layout(layout: BlockLayout, start: usize) -> (r: Self::Snapshot) {
        SnapshotMap::at_layout(layout, start)
    }

    fn snapshot_hook<K: LedgerRepr>(
        hook: Hook,
        acc: &Self::Acc,
        snapshot: &Self::Snapshot,
        key: &K,
    ) -> (r: Hook) {
        cell_snapshot(hook, &acc.value, snapshot, key)
    }

    fn lookup<K: LedgerRepr>(c: &mut Circuit3, snapshot: &Self::Snapshot, key: &K) -> (r: Assumed<
        S,
    >) {
        map_lookup(c, snapshot, key)
    }

    fn remove<K: LedgerRepr>(c: &mut Circuit3, snapshot: &Self::Snapshot, key: &K) {
        map_remove(c, snapshot, key)
    }
}

// ---- tuples: one cell and one snapshot map per component ---------------------------------------

impl<A: Primitive<SA>, B: Primitive<SB>, SA, SB> Primitive<(SA, SB)> for (A, B) {
    const ACC_FIELDS: usize = A::ACC_FIELDS + B::ACC_FIELDS;

    const SNAPSHOT_FIELDS: usize = A::SNAPSHOT_FIELDS + B::SNAPSHOT_FIELDS;

    type Acc = (A::Acc, B::Acc);

    type Snapshot = (A::Snapshot, B::Snapshot);

    open spec fn acc_fields() -> nat {
        A::acc_fields() + B::acc_fields()
    }

    open spec fn snapshot_fields() -> nat {
        A::snapshot_fields() + B::snapshot_fields()
    }

    open spec fn acc_at(layout: BlockLayout, start: nat) -> Self::Acc {
        (
            A::acc_at(layout, start),
            B::acc_at(layout, start + A::acc_fields()),
        )
    }

    open spec fn snapshot_at(layout: BlockLayout, start: nat) -> Self::Snapshot {
        (
            A::snapshot_at(layout, start),
            B::snapshot_at(layout, start + A::snapshot_fields()),
        )
    }

    open spec fn combine_ops(acc: Self::Acc, delta: (SA, SB)) -> Seq<Op> {
        A::combine_ops(acc.0, delta.0) + B::combine_ops(acc.1, delta.1)
    }

    open spec fn snapshot_ops(acc: Self::Acc, snapshot: Self::Snapshot, key: Aligned) -> Seq<Op> {
        A::snapshot_ops(acc.0, snapshot.0, key) + B::snapshot_ops(acc.1, snapshot.1, key)
    }

    open spec fn looked_up(run: Run, snapshot: Self::Snapshot, key: Aligned) -> (Run, (SA, SB)) {
        let (run, first) = A::looked_up(run, snapshot.0, key);
        let (run, second) = B::looked_up(run, snapshot.1, key);
        (run, (first, second))
    }

    open spec fn removed(run: Run, snapshot: Self::Snapshot, key: Aligned) -> Run {
        B::removed(A::removed(run, snapshot.0, key), snapshot.1, key)
    }

    open spec fn combine_effect(acc: Self::Acc, delta: (SA, SB)) -> Effect {
        in_turn(A::combine_effect(acc.0, delta.0), B::combine_effect(acc.1, delta.1))
    }

    open spec fn snapshot_effect(
        acc: Self::Acc,
        snapshot: Self::Snapshot,
        key: Aligned,
    ) -> Effect {
        in_turn(A::snapshot_effect(acc.0, snapshot.0, key), B::snapshot_effect(acc.1, snapshot.1, key))
    }

    proof fn law_blind_step(
        acc: Self::Acc,
        snapshot: Self::Snapshot,
        delta: (SA, SB),
        key: Aligned,
    ) {
        A::law_blind_step(acc.0, snapshot.0, delta.0, key);
        B::law_blind_step(acc.1, snapshot.1, delta.1, key);
        law_programs_compose(
            A::combine_ops(acc.0, delta.0),
            A::combine_effect(acc.0, delta.0),
            B::combine_ops(acc.1, delta.1),
            B::combine_effect(acc.1, delta.1),
        );
        law_programs_compose(
            A::snapshot_ops(acc.0, snapshot.0, key),
            A::snapshot_effect(acc.0, snapshot.0, key),
            B::snapshot_ops(acc.1, snapshot.1, key),
            B::snapshot_effect(acc.1, snapshot.1, key),
        );
    }

    open spec fn cells(acc: Self::Acc) -> Seq<FieldPath> {
        A::cells(acc.0) + B::cells(acc.1)
    }

    open spec fn sources(acc: Self::Acc) -> Seq<FieldPath> {
        A::sources(acc.0) + B::sources(acc.1)
    }

    open spec fn copies(snapshot: Self::Snapshot) -> Seq<FieldPath> {
        A::copies(snapshot.0) + B::copies(snapshot.1)
    }

    open spec fn entry_storable(value: (SA, SB)) -> bool {
        A::entry_storable(value.0) && B::entry_storable(value.1)
    }

    open spec fn entry_values(value: (SA, SB)) -> Seq<Aligned> {
        A::entry_values(value.0) + B::entry_values(value.1)
    }

    proof fn law_value_fills_its_sources(acc: Self::Acc, value: (SA, SB)) {
        A::law_value_fills_its_sources(acc.0, value.0);
        B::law_value_fills_its_sources(acc.1, value.1);
    }

    proof fn law_entry_reads_back(
        run: Run,
        snapshot: Self::Snapshot,
        key: Aligned,
        value: (SA, SB),
        more: Seq<Seq<Seq<u8>>>,
    ) {
        let v0 = A::entry_values(value.0);
        let p0 = A::copies(snapshot.0);
        let v1 = B::entry_values(value.1);
        let p1 = B::copies(snapshot.1);
        let more1 = more;
        let more0 = limbs_of(v1) + more1;
        assert(limbs_of(Self::entry_values(value)) + more =~= limbs_of(v0) + more0);
        let r = run;
        A::law_entry_reads_back(r, snapshot.0, key, value.0, more0);
        let r = A::looked_up(r, snapshot.0, key).0;
        B::law_entry_reads_back(r, snapshot.1, key, value.1, more1);
        lemma_entries_concat(p0, v0, p1, v1, key);
        assert(run.ops + read_all_ops(
            Self::copies(snapshot),
            key,
            Self::entry_values(value),
        ) =~= run.ops + read_all_ops(p0, key, v0) + read_all_ops(p1, key, v1));
    }

    proof fn law_entry_is_cleared(run: Run, snapshot: Self::Snapshot, key: Aligned) {
        let p0 = A::copies(snapshot.0);
        let v0 = Seq::new(p0.len(), |j: int| key);
        let p1 = B::copies(snapshot.1);
        let v1 = Seq::new(p1.len(), |j: int| key);
        let r = run;
        A::law_entry_is_cleared(r, snapshot.0, key);
        let r = A::removed(r, snapshot.0, key);
        B::law_entry_is_cleared(r, snapshot.1, key);
        lemma_entries_concat(p0, v0, p1, v1, key);
        assert(run.ops + clear_all_ops(Self::copies(snapshot), key) =~= run.ops + clear_all_ops(p0, key) + clear_all_ops(p1, key));
    }

    proof fn law_laid_out(layout: BlockLayout, start: nat, other: nat) {
        let (next, after) = (start + A::acc_fields(), other + A::snapshot_fields());
        A::law_laid_out(layout, start, other);
        B::law_laid_out(layout, next, after);
        lemma_all_within_joined(
            A::cells(A::acc_at(layout, start)),
            B::cells(B::acc_at(layout, next)),
            layout,
            start,
            next,
            next + B::acc_fields(),
        );
        lemma_all_within_joined(
            A::sources(A::acc_at(layout, start)),
            B::sources(B::acc_at(layout, next)),
            layout,
            start,
            next,
            next + B::acc_fields(),
        );
        lemma_all_within_joined(
            A::copies(A::snapshot_at(layout, other)),
            B::copies(B::snapshot_at(layout, after)),
            layout,
            other,
            after,
            after + B::snapshot_fields(),
        );
    }

    proof fn law_fields_in_order(layout: BlockLayout, start: nat) {
        A::law_fields_in_order(layout, start);
        B::law_fields_in_order(layout, start + A::acc_fields());
        B::law_fields_in_order(layout, start + A::snapshot_fields());
        let (first, second) = (
            A::cells(A::acc_at(layout, start)),
            B::cells(B::acc_at(layout, start + A::acc_fields())),
        );
        let cells = Self::cells(Self::acc_at(layout, start));
        assert forall|i: int| 0 <= i < Self::acc_fields() implies #[trigger] cells[i]
            == layout.field((start + i) as nat) by {
            if i < first.len() {
                assert(cells[i] == first[i]);
            } else {
                assert(cells[i] == second[i - first.len()]);
            }
        }
        let (first, second) = (
            A::copies(A::snapshot_at(layout, start)),
            B::copies(B::snapshot_at(layout, start + A::snapshot_fields())),
        );
        let copies = Self::copies(Self::snapshot_at(layout, start));
        assert forall|i: int| 0 <= i < Self::snapshot_fields() implies #[trigger] copies[i]
            == layout.field((start + i) as nat) by {
            if i < first.len() {
                assert(copies[i] == first[i]);
            } else {
                assert(copies[i] == second[i - first.len()]);
            }
        }
    }

    proof fn law_step_reads_its_cells(
        layout: BlockLayout,
        start: nat,
        delta: (SA, SB),
        one: Tree,
        two: Tree,
    ) {
        let next = start + A::acc_fields();
        let end = next + B::acc_fields();
        let (a, b) = (A::acc_at(layout, start), B::acc_at(layout, next));
        A::law_step_reads_its_cells(layout, start, delta.0, one, two);
        if A::combine_effect(a, delta.0)(one) is Some {
            let (mid, between) = (
                A::combine_effect(a, delta.0)(one)->0,
                A::combine_effect(a, delta.0)(two)->0,
            );
            lemma_step_keeps_fields::<SA, A>(layout, start, delta.0, one, next, end);
            lemma_step_keeps_fields::<SA, A>(layout, start, delta.0, two, next, end);
            assert(same_fields(mid, between, layout, next, end));
            B::law_step_reads_its_cells(layout, next, delta.1, mid, between);
            if B::combine_effect(b, delta.1)(mid) is Some {
                lemma_step_keeps_fields::<SB, B>(layout, next, delta.1, mid, start, next);
                lemma_step_keeps_fields::<SB, B>(layout, next, delta.1, between, start, next);
            }
        }
    }

    proof fn law_snapshot_lands(
        layout: BlockLayout,
        start: nat,
        other: nat,
        key: Aligned,
        state: Tree,
    ) {
        let (next, after) = (start + A::acc_fields(), other + A::snapshot_fields());
        let end = after + B::snapshot_fields();
        let (a, b) = (A::acc_at(layout, start), B::acc_at(layout, next));
        let (p, q) = (A::snapshot_at(layout, other), B::snapshot_at(layout, after));
        let (sources, copies) = (
            Self::sources(Self::acc_at(layout, start)),
            Self::copies(Self::snapshot_at(layout, other)),
        );
        A::law_laid_out(layout, start, other);
        B::law_laid_out(layout, next, after);
        A::law_snapshot_lands(layout, start, other, key, state);
        assert forall|k: int| 0 <= k < A::sources(a).len() implies #[trigger] sources[k]
            == A::sources(a)[k] && copies[k] == A::copies(p)[k] by {}
        assert forall|k: int| 0 <= k < B::sources(b).len() implies sources[k + A::sources(a).len()]
            == #[trigger] B::sources(b)[k] && copies[k + A::sources(a).len()] == B::copies(q)[k] by {}
        let here = |k: int|
            lookup(state, sources[k].keys()) is Some && lookup(
                state,
                copies[k].keys().push(key),
            ) is Some;
        if A::snapshot_effect(a, p, key)(state) is Some {
            let mid = A::snapshot_effect(a, p, key)(state)->0;
            lemma_snapshot_keeps_fields::<SA, A>(layout, start, other, key, state, next, other);
            lemma_snapshot_keeps_fields::<SA, A>(layout, start, other, key, state, after, end);
            B::law_snapshot_lands(layout, next, after, key, mid);
            assert forall|k: int| 0 <= k < B::sources(b).len() implies lookup(
                mid,
                (#[trigger] B::sources(b)[k]).keys(),
            ) == lookup(state, B::sources(b)[k].keys()) && lookup(
                mid,
                B::copies(q)[k].keys().push(key),
            ) == lookup(state, B::copies(q)[k].keys().push(key)) by {
                assert(within(B::sources(b)[k], layout, next, next + B::acc_fields()));
                assert(within(B::copies(q)[k], layout, after, end));
            }
            if B::snapshot_effect(b, q, key)(mid) is Some {
                assert forall|k: int| 0 <= k < sources.len() implies here(k) && #[trigger] sources[k]
                    == sources[k] by {
                    if k < A::sources(a).len() {
                        assert(sources[k] == A::sources(a)[k]);
                    } else {
                        assert(B::sources(b)[k - A::sources(a).len()] == sources[k]);
                    }
                }
            } else {
                let k = choose|k: int|
                    0 <= k < B::sources(b).len() && !(lookup(
                        mid,
                        (#[trigger] B::sources(b)[k]).keys(),
                    ) is Some && lookup(mid, B::copies(q)[k].keys().push(key)) is Some);
                assert(sources[k + A::sources(a).len()] == B::sources(b)[k]);
                assert(!here(k + A::sources(a).len()));
            }
        } else {
            let k = choose|k: int|
                0 <= k < A::sources(a).len() && !(lookup(
                    state,
                    (#[trigger] A::sources(a)[k]).keys(),
                ) is Some && lookup(state, A::copies(p)[k].keys().push(key)) is Some);
            assert(sources[k] == A::sources(a)[k]);
            assert(!here(k));
        }
    }

    proof fn law_step_keeps_the_rest(
        acc: Self::Acc,
        delta: (SA, SB),
        state: Tree,
        other: Seq<Aligned>,
    ) {
        lemma_parts_from_both(A::cells(acc.0), B::cells(acc.1), other);
        A::law_step_keeps_the_rest(acc.0, delta.0, state, other);
        let mid = A::combine_effect(acc.0, delta.0)(state)->0;
        B::law_step_keeps_the_rest(acc.1, delta.1, mid, other);
    }

    proof fn law_snapshot_keeps_the_rest(
        acc: Self::Acc,
        snapshot: Self::Snapshot,
        key: Aligned,
        state: Tree,
        other: Seq<Aligned>,
    ) {
        lemma_parts_from_both(A::copies(snapshot.0), B::copies(snapshot.1), other);
        A::law_snapshot_keeps_the_rest(acc.0, snapshot.0, key, state, other);
        let mid = A::snapshot_effect(acc.0, snapshot.0, key)(state)->0;
        B::law_snapshot_keeps_the_rest(acc.1, snapshot.1, key, mid, other);
    }

    proof fn law_snapshot_keeps_other_keys(
        layout: BlockLayout,
        start: nat,
        other: nat,
        key: Aligned,
        state: Tree,
    ) {
        let (next, after) = (start + A::acc_fields(), other + A::snapshot_fields());
        let (a, b) = (A::acc_at(layout, start), B::acc_at(layout, next));
        let (p, q) = (A::snapshot_at(layout, other), B::snapshot_at(layout, after));
        let mid = A::snapshot_effect(a, p, key)(state)->0;
        let last = B::snapshot_effect(b, q, key)(mid)->0;
        A::law_laid_out(layout, start, other);
        B::law_laid_out(layout, next, after);
        A::law_snapshot_keeps_other_keys(layout, start, other, key, state);
        B::law_snapshot_keeps_other_keys(layout, next, after, key, mid);
        let (firsts, seconds) = (A::copies(p), B::copies(q));
        let all = Self::copies(Self::snapshot_at(layout, other));
        assert forall|k: int| 0 <= k < all.len() implies enters(
            state,
            last,
            (#[trigger] all[k]).keys(),
            key,
        ) by {
            let none = Seq::<Aligned>::empty();
            assert(all[k].keys() + none =~= all[k].keys());
            if k < firsts.len() {
                assert(all[k] == firsts[k]);
                lemma_ranges_part(
                    seconds,
                    layout,
                    after,
                    after + B::snapshot_fields(),
                    firsts[k],
                    other,
                    after,
                    none,
                );
                B::law_snapshot_keeps_the_rest(b, q, key, mid, all[k].keys());
            } else {
                let j = k - firsts.len();
                assert(all[k] == seconds[j]);
                assert(within(seconds[j], layout, after, after + B::snapshot_fields()));
                lemma_ranges_part(
                    firsts,
                    layout,
                    other,
                    after,
                    seconds[j],
                    after,
                    after + B::snapshot_fields(),
                    none,
                );
                A::law_snapshot_keeps_the_rest(a, p, key, state, all[k].keys());
                assert(enters(mid, last, seconds[j].keys(), key));
            }
        }
    }

    proof fn law_snapshot_copies(
        layout: BlockLayout,
        start: nat,
        other: nat,
        key: Aligned,
        state: Tree,
    ) {
        let (next, after) = (start + A::acc_fields(), other + A::snapshot_fields());
        let (a, b) = (A::acc_at(layout, start), B::acc_at(layout, next));
        let (p, q) = (A::snapshot_at(layout, other), B::snapshot_at(layout, after));
        let mid = A::snapshot_effect(a, p, key)(state)->0;
        let last = B::snapshot_effect(b, q, key)(mid)->0;
        A::law_laid_out(layout, start, other);
        B::law_laid_out(layout, next, after);
        A::law_snapshot_copies(layout, start, other, key, state);
        B::law_snapshot_copies(layout, next, after, key, mid);
        let (sources, copies) = (A::sources(a), A::copies(p));
        assert forall|k: int| 0 <= k < sources.len() implies lookup(
            last,
            (#[trigger] copies[k]).keys().push(key),
        ) == lookup(last, sources[k].keys()) by {
            assert(copies[k].keys() + seq![key] =~= copies[k].keys().push(key));
            assert(sources[k].keys() + Seq::<Aligned>::empty() =~= sources[k].keys());
            lemma_ranges_part(
                B::copies(q),
                layout,
                after,
                after + B::snapshot_fields(),
                copies[k],
                other,
                after,
                seq![key],
            );
            lemma_ranges_part(
                B::copies(q),
                layout,
                after,
                after + B::snapshot_fields(),
                sources[k],
                start,
                next,
                Seq::empty(),
            );
            B::law_snapshot_keeps_the_rest(b, q, key, mid, copies[k].keys().push(key));
            B::law_snapshot_keeps_the_rest(b, q, key, mid, sources[k].keys());
        }
        assert forall|k: int|
            0 <= k < Self::sources(Self::acc_at(layout, start)).len() implies lookup(
            last,
            (#[trigger] Self::copies(Self::snapshot_at(layout, other))[k]).keys().push(key),
        ) == lookup(last, Self::sources(Self::acc_at(layout, start))[k].keys()) by {
            if k < sources.len() {
                assert(Self::copies(Self::snapshot_at(layout, other))[k] == copies[k]);
            } else {
                assert(Self::copies(Self::snapshot_at(layout, other))[k] == B::copies(q)[k
                    - sources.len()]);
            }
        }
    }

    proof fn law_entry_is_guarded(run: Run, snapshot: Self::Snapshot, key: Aligned) {
        let r = run;
        A::law_entry_is_guarded(r, snapshot.0, key);
        let r = A::looked_up(r, snapshot.0, key).0;
        B::law_entry_is_guarded(r, snapshot.1, key);
        let r = B::looked_up(r, snapshot.1, key).0;
        let r = run;
        A::law_entry_is_guarded(r, snapshot.0, key);
        let r = A::removed(r, snapshot.0, key);
        B::law_entry_is_guarded(r, snapshot.1, key);
        let r = B::removed(r, snapshot.1, key);
    }

    proof fn law_fields() {
        A::law_fields();
        B::law_fields();
    }

    proof fn law_ready(layout: BlockLayout, start: nat) {
        A::law_ready(layout, start);
        B::law_ready(layout, start + A::acc_fields());
        B::law_ready(layout, start + A::snapshot_fields());
        let acc = (
            A::acc_at(layout, start),
            B::acc_at(layout, start + A::acc_fields()),
        );
        assert(acc.ready());
        let snapshot = (
            A::snapshot_at(layout, start),
            B::snapshot_at(layout, start + A::snapshot_fields()),
        );
        assert(snapshot.ready());
    }

    fn acc_at_layout(layout: BlockLayout, start: usize) -> (r: Self::Acc) {
        proof {
            A::law_fields();
            B::law_fields();
        }
        let at: usize = start;
        let first = A::acc_at_layout(layout, at);
        let at: usize = at + A::ACC_FIELDS;
        let second = B::acc_at_layout(layout, at);
        (first, second)
    }

    fn snapshot_at_layout(layout: BlockLayout, start: usize) -> (r: Self::Snapshot) {
        proof {
            A::law_fields();
            B::law_fields();
        }
        let at: usize = start;
        let first = A::snapshot_at_layout(layout, at);
        let at: usize = at + A::SNAPSHOT_FIELDS;
        let second = B::snapshot_at_layout(layout, at);
        (first, second)
    }

    fn combine_hook(hook: Hook, acc: &Self::Acc, delta: &(SA, SB)) -> (r: Hook) {
        let ghost before = hook@;
        let hook = A::combine_hook(hook, &acc.0, &delta.0);
        let hook = B::combine_hook(hook, &acc.1, &delta.1);
        assert(hook@ =~= before + Self::combine_ops(*acc, *delta));
        hook
    }

    fn snapshot_hook<K: LedgerRepr>(
        hook: Hook,
        acc: &Self::Acc,
        snapshot: &Self::Snapshot,
        key: &K,
    ) -> (r: Hook) {
        let ghost before = hook@;
        let hook = A::snapshot_hook(hook, &acc.0, &snapshot.0, key);
        let hook = B::snapshot_hook(hook, &acc.1, &snapshot.1, key);
        assert(hook@ =~= before + Self::snapshot_ops(*acc, *snapshot, stored(*key)));
        hook
    }

    fn lookup<K: LedgerRepr>(c: &mut Circuit3, snapshot: &Self::Snapshot, key: &K) -> (r: Assumed<
        (SA, SB),
    >) {
        let first = A::lookup(c, &snapshot.0, key);
        let second = B::lookup(c, &snapshot.1, key);
        Assumed::of_read((first.into_inner(), second.into_inner()))
    }

    fn remove<K: LedgerRepr>(c: &mut Circuit3, snapshot: &Self::Snapshot, key: &K) {
        A::remove(c, &snapshot.0, key);
        B::remove(c, &snapshot.1, key);
    }
}

impl<A: Primitive<SA>, B: Primitive<SB>, C: Primitive<SC>, SA, SB, SC> Primitive<(SA, SB, SC)> for (A, B, C) {
    const ACC_FIELDS: usize = A::ACC_FIELDS + B::ACC_FIELDS + C::ACC_FIELDS;

    const SNAPSHOT_FIELDS: usize = A::SNAPSHOT_FIELDS + B::SNAPSHOT_FIELDS + C::SNAPSHOT_FIELDS;

    type Acc = (A::Acc, B::Acc, C::Acc);

    type Snapshot = (A::Snapshot, B::Snapshot, C::Snapshot);

    open spec fn acc_fields() -> nat {
        A::acc_fields() + B::acc_fields() + C::acc_fields()
    }

    open spec fn snapshot_fields() -> nat {
        A::snapshot_fields() + B::snapshot_fields() + C::snapshot_fields()
    }

    open spec fn acc_at(layout: BlockLayout, start: nat) -> Self::Acc {
        (
            A::acc_at(layout, start),
            B::acc_at(layout, start + A::acc_fields()),
            C::acc_at(layout, start + A::acc_fields() + B::acc_fields()),
        )
    }

    open spec fn snapshot_at(layout: BlockLayout, start: nat) -> Self::Snapshot {
        (
            A::snapshot_at(layout, start),
            B::snapshot_at(layout, start + A::snapshot_fields()),
            C::snapshot_at(layout, start + A::snapshot_fields() + B::snapshot_fields()),
        )
    }

    open spec fn combine_ops(acc: Self::Acc, delta: (SA, SB, SC)) -> Seq<Op> {
        A::combine_ops(acc.0, delta.0) + B::combine_ops(acc.1, delta.1) + C::combine_ops(acc.2, delta.2)
    }

    open spec fn snapshot_ops(acc: Self::Acc, snapshot: Self::Snapshot, key: Aligned) -> Seq<Op> {
        A::snapshot_ops(acc.0, snapshot.0, key) + B::snapshot_ops(acc.1, snapshot.1, key) + C::snapshot_ops(acc.2, snapshot.2, key)
    }

    open spec fn looked_up(run: Run, snapshot: Self::Snapshot, key: Aligned) -> (Run, (SA, SB, SC)) {
        let (run, first) = A::looked_up(run, snapshot.0, key);
        let (run, second) = B::looked_up(run, snapshot.1, key);
        let (run, third) = C::looked_up(run, snapshot.2, key);
        (run, (first, second, third))
    }

    open spec fn removed(run: Run, snapshot: Self::Snapshot, key: Aligned) -> Run {
        C::removed(B::removed(A::removed(run, snapshot.0, key), snapshot.1, key), snapshot.2, key)
    }

    open spec fn combine_effect(acc: Self::Acc, delta: (SA, SB, SC)) -> Effect {
        in_turn(in_turn(A::combine_effect(acc.0, delta.0), B::combine_effect(acc.1, delta.1)), C::combine_effect(acc.2, delta.2))
    }

    open spec fn snapshot_effect(
        acc: Self::Acc,
        snapshot: Self::Snapshot,
        key: Aligned,
    ) -> Effect {
        in_turn(in_turn(A::snapshot_effect(acc.0, snapshot.0, key), B::snapshot_effect(acc.1, snapshot.1, key)), C::snapshot_effect(acc.2, snapshot.2, key))
    }

    proof fn law_blind_step(
        acc: Self::Acc,
        snapshot: Self::Snapshot,
        delta: (SA, SB, SC),
        key: Aligned,
    ) {
        A::law_blind_step(acc.0, snapshot.0, delta.0, key);
        B::law_blind_step(acc.1, snapshot.1, delta.1, key);
        C::law_blind_step(acc.2, snapshot.2, delta.2, key);
        law_programs_compose(
            A::combine_ops(acc.0, delta.0),
            A::combine_effect(acc.0, delta.0),
            B::combine_ops(acc.1, delta.1),
            B::combine_effect(acc.1, delta.1),
        );
        law_programs_compose(
            A::combine_ops(acc.0, delta.0) + B::combine_ops(acc.1, delta.1),
            in_turn(A::combine_effect(acc.0, delta.0), B::combine_effect(acc.1, delta.1)),
            C::combine_ops(acc.2, delta.2),
            C::combine_effect(acc.2, delta.2),
        );
        law_programs_compose(
            A::snapshot_ops(acc.0, snapshot.0, key),
            A::snapshot_effect(acc.0, snapshot.0, key),
            B::snapshot_ops(acc.1, snapshot.1, key),
            B::snapshot_effect(acc.1, snapshot.1, key),
        );
        law_programs_compose(
            A::snapshot_ops(acc.0, snapshot.0, key) + B::snapshot_ops(acc.1, snapshot.1, key),
            in_turn(A::snapshot_effect(acc.0, snapshot.0, key), B::snapshot_effect(acc.1, snapshot.1, key)),
            C::snapshot_ops(acc.2, snapshot.2, key),
            C::snapshot_effect(acc.2, snapshot.2, key),
        );
    }

    open spec fn cells(acc: Self::Acc) -> Seq<FieldPath> {
        A::cells(acc.0) + B::cells(acc.1) + C::cells(acc.2)
    }

    open spec fn sources(acc: Self::Acc) -> Seq<FieldPath> {
        A::sources(acc.0) + B::sources(acc.1) + C::sources(acc.2)
    }

    open spec fn copies(snapshot: Self::Snapshot) -> Seq<FieldPath> {
        A::copies(snapshot.0) + B::copies(snapshot.1) + C::copies(snapshot.2)
    }

    open spec fn entry_storable(value: (SA, SB, SC)) -> bool {
        A::entry_storable(value.0) && B::entry_storable(value.1) && C::entry_storable(value.2)
    }

    open spec fn entry_values(value: (SA, SB, SC)) -> Seq<Aligned> {
        A::entry_values(value.0) + B::entry_values(value.1) + C::entry_values(value.2)
    }

    proof fn law_value_fills_its_sources(acc: Self::Acc, value: (SA, SB, SC)) {
        A::law_value_fills_its_sources(acc.0, value.0);
        B::law_value_fills_its_sources(acc.1, value.1);
        C::law_value_fills_its_sources(acc.2, value.2);
    }

    proof fn law_entry_reads_back(
        run: Run,
        snapshot: Self::Snapshot,
        key: Aligned,
        value: (SA, SB, SC),
        more: Seq<Seq<Seq<u8>>>,
    ) {
        let v0 = A::entry_values(value.0);
        let p0 = A::copies(snapshot.0);
        let v1 = B::entry_values(value.1);
        let p1 = B::copies(snapshot.1);
        let v2 = C::entry_values(value.2);
        let p2 = C::copies(snapshot.2);
        let more2 = more;
        let more1 = limbs_of(v2) + more2;
        let more0 = limbs_of(v1) + more1;
        assert(limbs_of(Self::entry_values(value)) + more =~= limbs_of(v0) + more0);
        let r = run;
        A::law_entry_reads_back(r, snapshot.0, key, value.0, more0);
        let r = A::looked_up(r, snapshot.0, key).0;
        B::law_entry_reads_back(r, snapshot.1, key, value.1, more1);
        let r = B::looked_up(r, snapshot.1, key).0;
        C::law_entry_reads_back(r, snapshot.2, key, value.2, more2);
        lemma_entries_concat(p0, v0, p1, v1, key);
        lemma_entries_concat(p0 + p1, v0 + v1, p2, v2, key);
        assert(run.ops + read_all_ops(
            Self::copies(snapshot),
            key,
            Self::entry_values(value),
        ) =~= run.ops + read_all_ops(p0, key, v0) + read_all_ops(p1, key, v1) + read_all_ops(p2, key, v2));
    }

    proof fn law_entry_is_cleared(run: Run, snapshot: Self::Snapshot, key: Aligned) {
        let p0 = A::copies(snapshot.0);
        let v0 = Seq::new(p0.len(), |j: int| key);
        let p1 = B::copies(snapshot.1);
        let v1 = Seq::new(p1.len(), |j: int| key);
        let p2 = C::copies(snapshot.2);
        let v2 = Seq::new(p2.len(), |j: int| key);
        let r = run;
        A::law_entry_is_cleared(r, snapshot.0, key);
        let r = A::removed(r, snapshot.0, key);
        B::law_entry_is_cleared(r, snapshot.1, key);
        let r = B::removed(r, snapshot.1, key);
        C::law_entry_is_cleared(r, snapshot.2, key);
        lemma_entries_concat(p0, v0, p1, v1, key);
        lemma_entries_concat(p0 + p1, v0 + v1, p2, v2, key);
        assert(run.ops + clear_all_ops(Self::copies(snapshot), key) =~= run.ops + clear_all_ops(p0, key) + clear_all_ops(p1, key) + clear_all_ops(p2, key));
    }

    proof fn law_laid_out(layout: BlockLayout, start: nat, other: nat) {
        <((A, B), C) as Primitive<((SA, SB), SC)>>::law_laid_out(layout, start, other);
    }

    proof fn law_fields_in_order(layout: BlockLayout, start: nat) {
        <((A, B), C) as Primitive<((SA, SB), SC)>>::law_fields_in_order(layout, start);
        let (cells, nested) = (
            Self::cells(Self::acc_at(layout, start)),
            <((A, B), C) as Primitive<((SA, SB), SC)>>::cells(<((A, B), C) as Primitive<((SA, SB), SC)>>::acc_at(layout, start)),
        );
        assert(cells =~= nested);
        let (copies, nested) = (
            Self::copies(Self::snapshot_at(layout, start)),
            <((A, B), C) as Primitive<((SA, SB), SC)>>::copies(<((A, B), C) as Primitive<((SA, SB), SC)>>::snapshot_at(layout, start)),
        );
        assert(copies =~= nested);
    }

    proof fn law_step_reads_its_cells(
        layout: BlockLayout,
        start: nat,
        delta: (SA, SB, SC),
        one: Tree,
        two: Tree,
    ) {
        let nested = ((delta.0, delta.1), delta.2);
        <((A, B), C) as Primitive<((SA, SB), SC)>>::law_step_reads_its_cells(layout, start, nested, one, two);
    }

    proof fn law_snapshot_lands(
        layout: BlockLayout,
        start: nat,
        other: nat,
        key: Aligned,
        state: Tree,
    ) {
        <((A, B), C) as Primitive<((SA, SB), SC)>>::law_snapshot_lands(layout, start, other, key, state);
        let (sources, nested) = (
            Self::sources(Self::acc_at(layout, start)),
            <((A, B), C) as Primitive<((SA, SB), SC)>>::sources(<((A, B), C) as Primitive<((SA, SB), SC)>>::acc_at(layout, start)),
        );
        assert(sources =~= nested);
        let (copies, nested) = (
            Self::copies(Self::snapshot_at(layout, other)),
            <((A, B), C) as Primitive<((SA, SB), SC)>>::copies(<((A, B), C) as Primitive<((SA, SB), SC)>>::snapshot_at(layout, other)),
        );
        assert(copies =~= nested);
    }

    proof fn law_step_keeps_the_rest(
        acc: Self::Acc,
        delta: (SA, SB, SC),
        state: Tree,
        other: Seq<Aligned>,
    ) {
        <((A, B), C) as Primitive<((SA, SB), SC)>>::law_step_keeps_the_rest(
            ((acc.0, acc.1), acc.2),
            ((delta.0, delta.1), delta.2),
            state,
            other,
        );
    }

    proof fn law_snapshot_keeps_the_rest(
        acc: Self::Acc,
        snapshot: Self::Snapshot,
        key: Aligned,
        state: Tree,
        other: Seq<Aligned>,
    ) {
        <((A, B), C) as Primitive<((SA, SB), SC)>>::law_snapshot_keeps_the_rest(
            ((acc.0, acc.1), acc.2),
            ((snapshot.0, snapshot.1), snapshot.2),
            key,
            state,
            other,
        );
    }

    proof fn law_snapshot_keeps_other_keys(
        layout: BlockLayout,
        start: nat,
        other: nat,
        key: Aligned,
        state: Tree,
    ) {
        <((A, B), C) as Primitive<((SA, SB), SC)>>::law_snapshot_keeps_other_keys(layout, start, other, key, state);
        let all = Self::copies(Self::snapshot_at(layout, other));
        let nested = <((A, B), C) as Primitive<((SA, SB), SC)>>::copies(
            <((A, B), C) as Primitive<((SA, SB), SC)>>::snapshot_at(layout, other),
        );
        let next = Self::snapshot_effect(
            Self::acc_at(layout, start),
            Self::snapshot_at(layout, other),
            key,
        )(state)->0;
        assert(all =~= nested);
        assert forall|k: int| 0 <= k < all.len() implies enters(
            state,
            next,
            (#[trigger] all[k]).keys(),
            key,
        ) by {
            assert(nested[k] == all[k]);
        }
    }

    proof fn law_snapshot_copies(
        layout: BlockLayout,
        start: nat,
        other: nat,
        key: Aligned,
        state: Tree,
    ) {
        <((A, B), C) as Primitive<((SA, SB), SC)>>::law_snapshot_copies(layout, start, other, key, state);
    }

    proof fn law_entry_is_guarded(run: Run, snapshot: Self::Snapshot, key: Aligned) {
        let r = run;
        A::law_entry_is_guarded(r, snapshot.0, key);
        let r = A::looked_up(r, snapshot.0, key).0;
        B::law_entry_is_guarded(r, snapshot.1, key);
        let r = B::looked_up(r, snapshot.1, key).0;
        C::law_entry_is_guarded(r, snapshot.2, key);
        let r = C::looked_up(r, snapshot.2, key).0;
        let r = run;
        A::law_entry_is_guarded(r, snapshot.0, key);
        let r = A::removed(r, snapshot.0, key);
        B::law_entry_is_guarded(r, snapshot.1, key);
        let r = B::removed(r, snapshot.1, key);
        C::law_entry_is_guarded(r, snapshot.2, key);
        let r = C::removed(r, snapshot.2, key);
    }

    proof fn law_fields() {
        A::law_fields();
        B::law_fields();
        C::law_fields();
    }

    proof fn law_ready(layout: BlockLayout, start: nat) {
        A::law_ready(layout, start);
        B::law_ready(layout, start + A::acc_fields());
        B::law_ready(layout, start + A::snapshot_fields());
        C::law_ready(layout, start + A::acc_fields() + B::acc_fields());
        C::law_ready(layout, start + A::snapshot_fields() + B::snapshot_fields());
        let acc = (
            A::acc_at(layout, start),
            B::acc_at(layout, start + A::acc_fields()),
            C::acc_at(layout, start + A::acc_fields() + B::acc_fields()),
        );
        assert(acc.ready());
        let snapshot = (
            A::snapshot_at(layout, start),
            B::snapshot_at(layout, start + A::snapshot_fields()),
            C::snapshot_at(layout, start + A::snapshot_fields() + B::snapshot_fields()),
        );
        assert(snapshot.ready());
    }

    fn acc_at_layout(layout: BlockLayout, start: usize) -> (r: Self::Acc) {
        proof {
            A::law_fields();
            B::law_fields();
            C::law_fields();
        }
        let at: usize = start;
        let first = A::acc_at_layout(layout, at);
        let at: usize = at + A::ACC_FIELDS;
        let second = B::acc_at_layout(layout, at);
        let at: usize = at + B::ACC_FIELDS;
        let third = C::acc_at_layout(layout, at);
        (first, second, third)
    }

    fn snapshot_at_layout(layout: BlockLayout, start: usize) -> (r: Self::Snapshot) {
        proof {
            A::law_fields();
            B::law_fields();
            C::law_fields();
        }
        let at: usize = start;
        let first = A::snapshot_at_layout(layout, at);
        let at: usize = at + A::SNAPSHOT_FIELDS;
        let second = B::snapshot_at_layout(layout, at);
        let at: usize = at + B::SNAPSHOT_FIELDS;
        let third = C::snapshot_at_layout(layout, at);
        (first, second, third)
    }

    fn combine_hook(hook: Hook, acc: &Self::Acc, delta: &(SA, SB, SC)) -> (r: Hook) {
        let ghost before = hook@;
        let hook = A::combine_hook(hook, &acc.0, &delta.0);
        let hook = B::combine_hook(hook, &acc.1, &delta.1);
        let hook = C::combine_hook(hook, &acc.2, &delta.2);
        assert(hook@ =~= before + Self::combine_ops(*acc, *delta));
        hook
    }

    fn snapshot_hook<K: LedgerRepr>(
        hook: Hook,
        acc: &Self::Acc,
        snapshot: &Self::Snapshot,
        key: &K,
    ) -> (r: Hook) {
        let ghost before = hook@;
        let hook = A::snapshot_hook(hook, &acc.0, &snapshot.0, key);
        let hook = B::snapshot_hook(hook, &acc.1, &snapshot.1, key);
        let hook = C::snapshot_hook(hook, &acc.2, &snapshot.2, key);
        assert(hook@ =~= before + Self::snapshot_ops(*acc, *snapshot, stored(*key)));
        hook
    }

    fn lookup<K: LedgerRepr>(c: &mut Circuit3, snapshot: &Self::Snapshot, key: &K) -> (r: Assumed<
        (SA, SB, SC),
    >) {
        let first = A::lookup(c, &snapshot.0, key);
        let second = B::lookup(c, &snapshot.1, key);
        let third = C::lookup(c, &snapshot.2, key);
        Assumed::of_read((first.into_inner(), second.into_inner(), third.into_inner()))
    }

    fn remove<K: LedgerRepr>(c: &mut Circuit3, snapshot: &Self::Snapshot, key: &K) {
        A::remove(c, &snapshot.0, key);
        B::remove(c, &snapshot.1, key);
        C::remove(c, &snapshot.2, key);
    }
}

impl<A: Primitive<SA>, B: Primitive<SB>, C: Primitive<SC>, D: Primitive<SD>, SA, SB, SC, SD> Primitive<(SA, SB, SC, SD)> for (A, B, C, D) {
    const ACC_FIELDS: usize = A::ACC_FIELDS + B::ACC_FIELDS + C::ACC_FIELDS + D::ACC_FIELDS;

    const SNAPSHOT_FIELDS: usize = A::SNAPSHOT_FIELDS + B::SNAPSHOT_FIELDS + C::SNAPSHOT_FIELDS + D::SNAPSHOT_FIELDS;

    type Acc = (A::Acc, B::Acc, C::Acc, D::Acc);

    type Snapshot = (A::Snapshot, B::Snapshot, C::Snapshot, D::Snapshot);

    open spec fn acc_fields() -> nat {
        A::acc_fields() + B::acc_fields() + C::acc_fields() + D::acc_fields()
    }

    open spec fn snapshot_fields() -> nat {
        A::snapshot_fields() + B::snapshot_fields() + C::snapshot_fields() + D::snapshot_fields()
    }

    open spec fn acc_at(layout: BlockLayout, start: nat) -> Self::Acc {
        (
            A::acc_at(layout, start),
            B::acc_at(layout, start + A::acc_fields()),
            C::acc_at(layout, start + A::acc_fields() + B::acc_fields()),
            D::acc_at(layout, start + A::acc_fields() + B::acc_fields() + C::acc_fields()),
        )
    }

    open spec fn snapshot_at(layout: BlockLayout, start: nat) -> Self::Snapshot {
        (
            A::snapshot_at(layout, start),
            B::snapshot_at(layout, start + A::snapshot_fields()),
            C::snapshot_at(layout, start + A::snapshot_fields() + B::snapshot_fields()),
            D::snapshot_at(layout, start + A::snapshot_fields() + B::snapshot_fields() + C::snapshot_fields()),
        )
    }

    open spec fn combine_ops(acc: Self::Acc, delta: (SA, SB, SC, SD)) -> Seq<Op> {
        A::combine_ops(acc.0, delta.0) + B::combine_ops(acc.1, delta.1) + C::combine_ops(acc.2, delta.2) + D::combine_ops(acc.3, delta.3)
    }

    open spec fn snapshot_ops(acc: Self::Acc, snapshot: Self::Snapshot, key: Aligned) -> Seq<Op> {
        A::snapshot_ops(acc.0, snapshot.0, key) + B::snapshot_ops(acc.1, snapshot.1, key) + C::snapshot_ops(acc.2, snapshot.2, key) + D::snapshot_ops(acc.3, snapshot.3, key)
    }

    open spec fn looked_up(run: Run, snapshot: Self::Snapshot, key: Aligned) -> (Run, (SA, SB, SC, SD)) {
        let (run, first) = A::looked_up(run, snapshot.0, key);
        let (run, second) = B::looked_up(run, snapshot.1, key);
        let (run, third) = C::looked_up(run, snapshot.2, key);
        let (run, fourth) = D::looked_up(run, snapshot.3, key);
        (run, (first, second, third, fourth))
    }

    open spec fn removed(run: Run, snapshot: Self::Snapshot, key: Aligned) -> Run {
        D::removed(C::removed(B::removed(A::removed(run, snapshot.0, key), snapshot.1, key), snapshot.2, key), snapshot.3, key)
    }

    open spec fn combine_effect(acc: Self::Acc, delta: (SA, SB, SC, SD)) -> Effect {
        in_turn(in_turn(in_turn(A::combine_effect(acc.0, delta.0), B::combine_effect(acc.1, delta.1)), C::combine_effect(acc.2, delta.2)), D::combine_effect(acc.3, delta.3))
    }

    open spec fn snapshot_effect(
        acc: Self::Acc,
        snapshot: Self::Snapshot,
        key: Aligned,
    ) -> Effect {
        in_turn(in_turn(in_turn(A::snapshot_effect(acc.0, snapshot.0, key), B::snapshot_effect(acc.1, snapshot.1, key)), C::snapshot_effect(acc.2, snapshot.2, key)), D::snapshot_effect(acc.3, snapshot.3, key))
    }

    proof fn law_blind_step(
        acc: Self::Acc,
        snapshot: Self::Snapshot,
        delta: (SA, SB, SC, SD),
        key: Aligned,
    ) {
        A::law_blind_step(acc.0, snapshot.0, delta.0, key);
        B::law_blind_step(acc.1, snapshot.1, delta.1, key);
        C::law_blind_step(acc.2, snapshot.2, delta.2, key);
        D::law_blind_step(acc.3, snapshot.3, delta.3, key);
        law_programs_compose(
            A::combine_ops(acc.0, delta.0),
            A::combine_effect(acc.0, delta.0),
            B::combine_ops(acc.1, delta.1),
            B::combine_effect(acc.1, delta.1),
        );
        law_programs_compose(
            A::combine_ops(acc.0, delta.0) + B::combine_ops(acc.1, delta.1),
            in_turn(A::combine_effect(acc.0, delta.0), B::combine_effect(acc.1, delta.1)),
            C::combine_ops(acc.2, delta.2),
            C::combine_effect(acc.2, delta.2),
        );
        law_programs_compose(
            A::combine_ops(acc.0, delta.0) + B::combine_ops(acc.1, delta.1) + C::combine_ops(acc.2, delta.2),
            in_turn(in_turn(A::combine_effect(acc.0, delta.0), B::combine_effect(acc.1, delta.1)), C::combine_effect(acc.2, delta.2)),
            D::combine_ops(acc.3, delta.3),
            D::combine_effect(acc.3, delta.3),
        );
        law_programs_compose(
            A::snapshot_ops(acc.0, snapshot.0, key),
            A::snapshot_effect(acc.0, snapshot.0, key),
            B::snapshot_ops(acc.1, snapshot.1, key),
            B::snapshot_effect(acc.1, snapshot.1, key),
        );
        law_programs_compose(
            A::snapshot_ops(acc.0, snapshot.0, key) + B::snapshot_ops(acc.1, snapshot.1, key),
            in_turn(A::snapshot_effect(acc.0, snapshot.0, key), B::snapshot_effect(acc.1, snapshot.1, key)),
            C::snapshot_ops(acc.2, snapshot.2, key),
            C::snapshot_effect(acc.2, snapshot.2, key),
        );
        law_programs_compose(
            A::snapshot_ops(acc.0, snapshot.0, key) + B::snapshot_ops(acc.1, snapshot.1, key) + C::snapshot_ops(acc.2, snapshot.2, key),
            in_turn(in_turn(A::snapshot_effect(acc.0, snapshot.0, key), B::snapshot_effect(acc.1, snapshot.1, key)), C::snapshot_effect(acc.2, snapshot.2, key)),
            D::snapshot_ops(acc.3, snapshot.3, key),
            D::snapshot_effect(acc.3, snapshot.3, key),
        );
    }

    open spec fn cells(acc: Self::Acc) -> Seq<FieldPath> {
        A::cells(acc.0) + B::cells(acc.1) + C::cells(acc.2) + D::cells(acc.3)
    }

    open spec fn sources(acc: Self::Acc) -> Seq<FieldPath> {
        A::sources(acc.0) + B::sources(acc.1) + C::sources(acc.2) + D::sources(acc.3)
    }

    open spec fn copies(snapshot: Self::Snapshot) -> Seq<FieldPath> {
        A::copies(snapshot.0) + B::copies(snapshot.1) + C::copies(snapshot.2) + D::copies(snapshot.3)
    }

    open spec fn entry_storable(value: (SA, SB, SC, SD)) -> bool {
        A::entry_storable(value.0) && B::entry_storable(value.1) && C::entry_storable(value.2) && D::entry_storable(value.3)
    }

    open spec fn entry_values(value: (SA, SB, SC, SD)) -> Seq<Aligned> {
        A::entry_values(value.0) + B::entry_values(value.1) + C::entry_values(value.2) + D::entry_values(value.3)
    }

    proof fn law_value_fills_its_sources(acc: Self::Acc, value: (SA, SB, SC, SD)) {
        A::law_value_fills_its_sources(acc.0, value.0);
        B::law_value_fills_its_sources(acc.1, value.1);
        C::law_value_fills_its_sources(acc.2, value.2);
        D::law_value_fills_its_sources(acc.3, value.3);
    }

    proof fn law_entry_reads_back(
        run: Run,
        snapshot: Self::Snapshot,
        key: Aligned,
        value: (SA, SB, SC, SD),
        more: Seq<Seq<Seq<u8>>>,
    ) {
        let v0 = A::entry_values(value.0);
        let p0 = A::copies(snapshot.0);
        let v1 = B::entry_values(value.1);
        let p1 = B::copies(snapshot.1);
        let v2 = C::entry_values(value.2);
        let p2 = C::copies(snapshot.2);
        let v3 = D::entry_values(value.3);
        let p3 = D::copies(snapshot.3);
        let more3 = more;
        let more2 = limbs_of(v3) + more3;
        let more1 = limbs_of(v2) + more2;
        let more0 = limbs_of(v1) + more1;
        assert(limbs_of(Self::entry_values(value)) + more =~= limbs_of(v0) + more0);
        let r = run;
        A::law_entry_reads_back(r, snapshot.0, key, value.0, more0);
        let r = A::looked_up(r, snapshot.0, key).0;
        B::law_entry_reads_back(r, snapshot.1, key, value.1, more1);
        let r = B::looked_up(r, snapshot.1, key).0;
        C::law_entry_reads_back(r, snapshot.2, key, value.2, more2);
        let r = C::looked_up(r, snapshot.2, key).0;
        D::law_entry_reads_back(r, snapshot.3, key, value.3, more3);
        lemma_entries_concat(p0, v0, p1, v1, key);
        lemma_entries_concat(p0 + p1, v0 + v1, p2, v2, key);
        lemma_entries_concat(p0 + p1 + p2, v0 + v1 + v2, p3, v3, key);
        assert(run.ops + read_all_ops(
            Self::copies(snapshot),
            key,
            Self::entry_values(value),
        ) =~= run.ops + read_all_ops(p0, key, v0) + read_all_ops(p1, key, v1) + read_all_ops(p2, key, v2) + read_all_ops(p3, key, v3));
    }

    proof fn law_entry_is_cleared(run: Run, snapshot: Self::Snapshot, key: Aligned) {
        let p0 = A::copies(snapshot.0);
        let v0 = Seq::new(p0.len(), |j: int| key);
        let p1 = B::copies(snapshot.1);
        let v1 = Seq::new(p1.len(), |j: int| key);
        let p2 = C::copies(snapshot.2);
        let v2 = Seq::new(p2.len(), |j: int| key);
        let p3 = D::copies(snapshot.3);
        let v3 = Seq::new(p3.len(), |j: int| key);
        let r = run;
        A::law_entry_is_cleared(r, snapshot.0, key);
        let r = A::removed(r, snapshot.0, key);
        B::law_entry_is_cleared(r, snapshot.1, key);
        let r = B::removed(r, snapshot.1, key);
        C::law_entry_is_cleared(r, snapshot.2, key);
        let r = C::removed(r, snapshot.2, key);
        D::law_entry_is_cleared(r, snapshot.3, key);
        lemma_entries_concat(p0, v0, p1, v1, key);
        lemma_entries_concat(p0 + p1, v0 + v1, p2, v2, key);
        lemma_entries_concat(p0 + p1 + p2, v0 + v1 + v2, p3, v3, key);
        assert(run.ops + clear_all_ops(Self::copies(snapshot), key) =~= run.ops + clear_all_ops(p0, key) + clear_all_ops(p1, key) + clear_all_ops(p2, key) + clear_all_ops(p3, key));
    }

    proof fn law_laid_out(layout: BlockLayout, start: nat, other: nat) {
        <(((A, B), C), D) as Primitive<(((SA, SB), SC), SD)>>::law_laid_out(layout, start, other);
    }

    proof fn law_fields_in_order(layout: BlockLayout, start: nat) {
        <((A, B, C), D) as Primitive<((SA, SB, SC), SD)>>::law_fields_in_order(layout, start);
        let (cells, nested) = (
            Self::cells(Self::acc_at(layout, start)),
            <((A, B, C), D) as Primitive<((SA, SB, SC), SD)>>::cells(<((A, B, C), D) as Primitive<((SA, SB, SC), SD)>>::acc_at(layout, start)),
        );
        assert(cells =~= nested);
        let (copies, nested) = (
            Self::copies(Self::snapshot_at(layout, start)),
            <((A, B, C), D) as Primitive<((SA, SB, SC), SD)>>::copies(<((A, B, C), D) as Primitive<((SA, SB, SC), SD)>>::snapshot_at(layout, start)),
        );
        assert(copies =~= nested);
    }

    proof fn law_step_reads_its_cells(
        layout: BlockLayout,
        start: nat,
        delta: (SA, SB, SC, SD),
        one: Tree,
        two: Tree,
    ) {
        let nested = ((delta.0, delta.1, delta.2), delta.3);
        <((A, B, C), D) as Primitive<((SA, SB, SC), SD)>>::law_step_reads_its_cells(layout, start, nested, one, two);
    }

    proof fn law_snapshot_lands(
        layout: BlockLayout,
        start: nat,
        other: nat,
        key: Aligned,
        state: Tree,
    ) {
        <((A, B, C), D) as Primitive<((SA, SB, SC), SD)>>::law_snapshot_lands(layout, start, other, key, state);
        let (sources, nested) = (
            Self::sources(Self::acc_at(layout, start)),
            <((A, B, C), D) as Primitive<((SA, SB, SC), SD)>>::sources(<((A, B, C), D) as Primitive<((SA, SB, SC), SD)>>::acc_at(layout, start)),
        );
        assert(sources =~= nested);
        let (copies, nested) = (
            Self::copies(Self::snapshot_at(layout, other)),
            <((A, B, C), D) as Primitive<((SA, SB, SC), SD)>>::copies(<((A, B, C), D) as Primitive<((SA, SB, SC), SD)>>::snapshot_at(layout, other)),
        );
        assert(copies =~= nested);
    }

    proof fn law_step_keeps_the_rest(
        acc: Self::Acc,
        delta: (SA, SB, SC, SD),
        state: Tree,
        other: Seq<Aligned>,
    ) {
        <(((A, B), C), D) as Primitive<(((SA, SB), SC), SD)>>::law_step_keeps_the_rest(
            (((acc.0, acc.1), acc.2), acc.3),
            (((delta.0, delta.1), delta.2), delta.3),
            state,
            other,
        );
    }

    proof fn law_snapshot_keeps_the_rest(
        acc: Self::Acc,
        snapshot: Self::Snapshot,
        key: Aligned,
        state: Tree,
        other: Seq<Aligned>,
    ) {
        <(((A, B), C), D) as Primitive<(((SA, SB), SC), SD)>>::law_snapshot_keeps_the_rest(
            (((acc.0, acc.1), acc.2), acc.3),
            (((snapshot.0, snapshot.1), snapshot.2), snapshot.3),
            key,
            state,
            other,
        );
    }

    proof fn law_snapshot_keeps_other_keys(
        layout: BlockLayout,
        start: nat,
        other: nat,
        key: Aligned,
        state: Tree,
    ) {
        <(((A, B), C), D) as Primitive<(((SA, SB), SC), SD)>>::law_snapshot_keeps_other_keys(layout, start, other, key, state);
        let all = Self::copies(Self::snapshot_at(layout, other));
        let nested = <(((A, B), C), D) as Primitive<(((SA, SB), SC), SD)>>::copies(
            <(((A, B), C), D) as Primitive<(((SA, SB), SC), SD)>>::snapshot_at(layout, other),
        );
        let next = Self::snapshot_effect(
            Self::acc_at(layout, start),
            Self::snapshot_at(layout, other),
            key,
        )(state)->0;
        assert(all =~= nested);
        assert forall|k: int| 0 <= k < all.len() implies enters(
            state,
            next,
            (#[trigger] all[k]).keys(),
            key,
        ) by {
            assert(nested[k] == all[k]);
        }
    }

    proof fn law_snapshot_copies(
        layout: BlockLayout,
        start: nat,
        other: nat,
        key: Aligned,
        state: Tree,
    ) {
        <(((A, B), C), D) as Primitive<(((SA, SB), SC), SD)>>::law_snapshot_copies(layout, start, other, key, state);
    }

    proof fn law_entry_is_guarded(run: Run, snapshot: Self::Snapshot, key: Aligned) {
        let r = run;
        A::law_entry_is_guarded(r, snapshot.0, key);
        let r = A::looked_up(r, snapshot.0, key).0;
        B::law_entry_is_guarded(r, snapshot.1, key);
        let r = B::looked_up(r, snapshot.1, key).0;
        C::law_entry_is_guarded(r, snapshot.2, key);
        let r = C::looked_up(r, snapshot.2, key).0;
        D::law_entry_is_guarded(r, snapshot.3, key);
        let r = D::looked_up(r, snapshot.3, key).0;
        let r = run;
        A::law_entry_is_guarded(r, snapshot.0, key);
        let r = A::removed(r, snapshot.0, key);
        B::law_entry_is_guarded(r, snapshot.1, key);
        let r = B::removed(r, snapshot.1, key);
        C::law_entry_is_guarded(r, snapshot.2, key);
        let r = C::removed(r, snapshot.2, key);
        D::law_entry_is_guarded(r, snapshot.3, key);
        let r = D::removed(r, snapshot.3, key);
    }

    proof fn law_fields() {
        A::law_fields();
        B::law_fields();
        C::law_fields();
        D::law_fields();
    }

    proof fn law_ready(layout: BlockLayout, start: nat) {
        A::law_ready(layout, start);
        B::law_ready(layout, start + A::acc_fields());
        B::law_ready(layout, start + A::snapshot_fields());
        C::law_ready(layout, start + A::acc_fields() + B::acc_fields());
        C::law_ready(layout, start + A::snapshot_fields() + B::snapshot_fields());
        D::law_ready(layout, start + A::acc_fields() + B::acc_fields() + C::acc_fields());
        D::law_ready(layout, start + A::snapshot_fields() + B::snapshot_fields() + C::snapshot_fields());
        let acc = (
            A::acc_at(layout, start),
            B::acc_at(layout, start + A::acc_fields()),
            C::acc_at(layout, start + A::acc_fields() + B::acc_fields()),
            D::acc_at(layout, start + A::acc_fields() + B::acc_fields() + C::acc_fields()),
        );
        assert(acc.ready());
        let snapshot = (
            A::snapshot_at(layout, start),
            B::snapshot_at(layout, start + A::snapshot_fields()),
            C::snapshot_at(layout, start + A::snapshot_fields() + B::snapshot_fields()),
            D::snapshot_at(layout, start + A::snapshot_fields() + B::snapshot_fields() + C::snapshot_fields()),
        );
        assert(snapshot.ready());
    }

    fn acc_at_layout(layout: BlockLayout, start: usize) -> (r: Self::Acc) {
        proof {
            A::law_fields();
            B::law_fields();
            C::law_fields();
            D::law_fields();
        }
        let at: usize = start;
        let first = A::acc_at_layout(layout, at);
        let at: usize = at + A::ACC_FIELDS;
        let second = B::acc_at_layout(layout, at);
        let at: usize = at + B::ACC_FIELDS;
        let third = C::acc_at_layout(layout, at);
        let at: usize = at + C::ACC_FIELDS;
        let fourth = D::acc_at_layout(layout, at);
        (first, second, third, fourth)
    }

    fn snapshot_at_layout(layout: BlockLayout, start: usize) -> (r: Self::Snapshot) {
        proof {
            A::law_fields();
            B::law_fields();
            C::law_fields();
            D::law_fields();
        }
        let at: usize = start;
        let first = A::snapshot_at_layout(layout, at);
        let at: usize = at + A::SNAPSHOT_FIELDS;
        let second = B::snapshot_at_layout(layout, at);
        let at: usize = at + B::SNAPSHOT_FIELDS;
        let third = C::snapshot_at_layout(layout, at);
        let at: usize = at + C::SNAPSHOT_FIELDS;
        let fourth = D::snapshot_at_layout(layout, at);
        (first, second, third, fourth)
    }

    fn combine_hook(hook: Hook, acc: &Self::Acc, delta: &(SA, SB, SC, SD)) -> (r: Hook) {
        let ghost before = hook@;
        let hook = A::combine_hook(hook, &acc.0, &delta.0);
        let hook = B::combine_hook(hook, &acc.1, &delta.1);
        let hook = C::combine_hook(hook, &acc.2, &delta.2);
        let hook = D::combine_hook(hook, &acc.3, &delta.3);
        assert(hook@ =~= before + Self::combine_ops(*acc, *delta));
        hook
    }

    fn snapshot_hook<K: LedgerRepr>(
        hook: Hook,
        acc: &Self::Acc,
        snapshot: &Self::Snapshot,
        key: &K,
    ) -> (r: Hook) {
        let ghost before = hook@;
        let hook = A::snapshot_hook(hook, &acc.0, &snapshot.0, key);
        let hook = B::snapshot_hook(hook, &acc.1, &snapshot.1, key);
        let hook = C::snapshot_hook(hook, &acc.2, &snapshot.2, key);
        let hook = D::snapshot_hook(hook, &acc.3, &snapshot.3, key);
        assert(hook@ =~= before + Self::snapshot_ops(*acc, *snapshot, stored(*key)));
        hook
    }

    fn lookup<K: LedgerRepr>(c: &mut Circuit3, snapshot: &Self::Snapshot, key: &K) -> (r: Assumed<
        (SA, SB, SC, SD),
    >) {
        let first = A::lookup(c, &snapshot.0, key);
        let second = B::lookup(c, &snapshot.1, key);
        let third = C::lookup(c, &snapshot.2, key);
        let fourth = D::lookup(c, &snapshot.3, key);
        Assumed::of_read((first.into_inner(), second.into_inner(), third.into_inner(), fourth.into_inner()))
    }

    fn remove<K: LedgerRepr>(c: &mut Circuit3, snapshot: &Self::Snapshot, key: &K) {
        A::remove(c, &snapshot.0, key);
        B::remove(c, &snapshot.1, key);
        C::remove(c, &snapshot.2, key);
        D::remove(c, &snapshot.3, key);
    }
}

// ---- a tuple is its components ------------------------------------------------------------------

/// A pair steps each component as it steps alone: it lands exactly where all of
/// them do, and leaves in each component's cells what that component's own step
/// leaves there.
pub proof fn law_pair_steps_each<A: Primitive<SA>, B: Primitive<SB>, SA, SB>(
    layout: BlockLayout,
    start: nat,
    delta: (SA, SB),
    state: Tree,
)
    requires
        start + A::acc_fields() + B::acc_fields() <= layout.total() <= MAX_FIELDS,
    ensures
        match <(A, B) as Primitive<(SA, SB)>>::combine_effect(
            <(A, B) as Primitive<(SA, SB)>>::acc_at(layout, start),
            delta,
        )(state) {
            Some(next) => {
                &&& A::combine_effect(A::acc_at(layout, start), delta.0)(state) matches Some(own)
                    && same_fields(next, own, layout, start, start + A::acc_fields())
                &&& B::combine_effect(B::acc_at(layout, start + A::acc_fields()), delta.1)(state) matches Some(own)
                    && same_fields(next, own, layout, start + A::acc_fields(), start + A::acc_fields() + B::acc_fields())
            },
            None => {
                ||| A::combine_effect(A::acc_at(layout, start), delta.0)(state) is None
                ||| B::combine_effect(B::acc_at(layout, start + A::acc_fields()), delta.1)(state) is None
            },
        },
{
    let next = start + A::acc_fields();
    let end = next + B::acc_fields();
    if A::combine_effect(A::acc_at(layout, start), delta.0)(state) is Some {
        let mid = A::combine_effect(A::acc_at(layout, start), delta.0)(state)->0;
        lemma_step_keeps_fields::<SA, A>(layout, start, delta.0, state, next, end);
        B::law_step_reads_its_cells(layout, next, delta.1, mid, state);
        if B::combine_effect(B::acc_at(layout, next), delta.1)(mid) is Some {
            lemma_step_keeps_fields::<SB, B>(layout, next, delta.1, mid, start, next);
        }
    }
}

/// A pair copies each component as it is copied alone: the snapshot lands exactly
/// where all of them do, and each component's maps hold under the key what that
/// component's own snapshot puts there.
pub proof fn law_pair_snapshots_each<A: Primitive<SA>, B: Primitive<SB>, SA, SB>(
    layout: BlockLayout,
    start: nat,
    other: nat,
    key: Aligned,
    state: Tree,
)
    requires
        start + A::acc_fields() + B::acc_fields() <= other,
        other + A::snapshot_fields() + B::snapshot_fields() <= layout.total() <= MAX_FIELDS,
    ensures
        match <(A, B) as Primitive<(SA, SB)>>::snapshot_effect(
            <(A, B) as Primitive<(SA, SB)>>::acc_at(layout, start),
            <(A, B) as Primitive<(SA, SB)>>::snapshot_at(layout, other),
            key,
        )(state) {
            Some(next) => {
                &&& A::snapshot_effect(
                    A::acc_at(layout, start),
                    A::snapshot_at(layout, other),
                    key,
                )(state) matches Some(own)
                    && same_entries(next, own, layout, other, other + A::snapshot_fields(), key)
                &&& B::snapshot_effect(
                    B::acc_at(layout, start + A::acc_fields()),
                    B::snapshot_at(layout, other + A::snapshot_fields()),
                    key,
                )(state) matches Some(own)
                    && same_entries(next, own, layout, other + A::snapshot_fields(), other + A::snapshot_fields() + B::snapshot_fields(), key)
            },
            None => {
                ||| A::snapshot_effect(
                    A::acc_at(layout, start),
                    A::snapshot_at(layout, other),
                    key,
                )(state) is None
                ||| B::snapshot_effect(
                    B::acc_at(layout, start + A::acc_fields()),
                    B::snapshot_at(layout, other + A::snapshot_fields()),
                    key,
                )(state) is None
            },
        },
{
    let (next, after) = (start + A::acc_fields(), other + A::snapshot_fields());
    let end = after + B::snapshot_fields();
    let (a, b) = (A::acc_at(layout, start), B::acc_at(layout, next));
    let (p, q) = (A::snapshot_at(layout, other), B::snapshot_at(layout, after));
    B::law_laid_out(layout, next, after);
    B::law_fields_in_order(layout, after);
    B::law_snapshot_lands(layout, next, after, key, state);
    if A::snapshot_effect(a, p, key)(state) is Some {
        let mid = A::snapshot_effect(a, p, key)(state)->0;
        lemma_snapshot_keeps_fields::<SA, A>(layout, start, other, key, state, next, other);
        lemma_snapshot_keeps_fields::<SA, A>(layout, start, other, key, state, after, end);
        B::law_snapshot_lands(layout, next, after, key, mid);
        assert forall|k: int| 0 <= k < B::sources(b).len() implies lookup(
            mid,
            (#[trigger] B::sources(b)[k]).keys(),
        ) == lookup(state, B::sources(b)[k].keys()) && lookup(
            mid,
            B::copies(q)[k].keys().push(key),
        ) == lookup(state, B::copies(q)[k].keys().push(key)) by {
            assert(within(B::sources(b)[k], layout, next, next + B::acc_fields()));
            assert(within(B::copies(q)[k], layout, after, end));
        }
        if B::snapshot_effect(b, q, key)(mid) is Some {
            let (last, own) = (
                B::snapshot_effect(b, q, key)(mid)->0,
                B::snapshot_effect(b, q, key)(state)->0,
            );
            lemma_snapshot_keeps_fields::<SB, B>(layout, next, after, key, mid, other, after);
            lemma_snapshot_keeps_fields::<SB, B>(layout, next, after, key, mid, next, after);
            lemma_snapshot_keeps_fields::<SB, B>(layout, next, after, key, state, next, after);
            B::law_snapshot_copies(layout, next, after, key, mid);
            B::law_snapshot_copies(layout, next, after, key, state);
            assert forall|i: nat| after <= i < end implies lookup(
                last,
                (#[trigger] layout.field(i)).keys().push(key),
            ) == lookup(own, layout.field(i).keys().push(key)) by {
                let k = i - after;
                assert(B::copies(q)[k] == layout.field(i));
                assert(within(B::sources(b)[k], layout, next, next + B::acc_fields()));
                assert(lookup(last, B::copies(q)[k].keys().push(key)) == lookup(
                    last,
                    B::sources(b)[k].keys(),
                ));
                assert(lookup(own, B::copies(q)[k].keys().push(key)) == lookup(
                    own,
                    B::sources(b)[k].keys(),
                ));
            }
        }
    }
}

/// A pair's entry is its components' entries: supplied with what each of them
/// holds for its part, in order, a lookup returns the parts, having read each from
/// that component's own maps, and a removal clears the key in each of them.
pub proof fn law_pair_reads_each<A: Primitive<SA>, B: Primitive<SB>, SA, SB>(
    run: Run,
    layout: BlockLayout,
    start: nat,
    key: Aligned,
    value: (SA, SB),
    more: Seq<Seq<Seq<u8>>>,
)
    ensures
        <(A, B) as Primitive<(SA, SB)>>::entry_storable(value) <==> A::entry_storable(value.0) && B::entry_storable(value.1),
        run.guard && <(A, B) as Primitive<(SA, SB)>>::entry_storable(value) && run.supplied == limbs_of(A::entry_values(value.0)) + limbs_of(B::entry_values(value.1)) + more
            ==> <(A, B) as Primitive<(SA, SB)>>::looked_up(
            run,
            <(A, B) as Primitive<(SA, SB)>>::snapshot_at(layout, start),
            key,
        ) == (
            Run {
                ops: run.ops + read_all_ops(
                    A::copies(A::snapshot_at(layout, start)),
                    key,
                    A::entry_values(value.0),
                ) + read_all_ops(
                    B::copies(B::snapshot_at(layout, start + A::snapshot_fields())),
                    key,
                    B::entry_values(value.1),
                ),
                supplied: more,
                ..run
            },
            value,
        ),
        <(A, B) as Primitive<(SA, SB)>>::removed(run, <(A, B) as Primitive<(SA, SB)>>::snapshot_at(layout, start), key) == run.emit(
            clear_all_ops(A::copies(A::snapshot_at(layout, start)), key)
                + clear_all_ops(B::copies(B::snapshot_at(layout, start + A::snapshot_fields())), key),
        ),
{
    let p0 = A::copies(A::snapshot_at(layout, start));
    let v0 = A::entry_values(value.0);
    let k0 = Seq::new(p0.len(), |j: int| key);
    let p1 = B::copies(B::snapshot_at(layout, start + A::snapshot_fields()));
    let v1 = B::entry_values(value.1);
    let k1 = Seq::new(p1.len(), |j: int| key);
    let snapshot = <(A, B) as Primitive<(SA, SB)>>::snapshot_at(layout, start);
    <(A, B) as Primitive<(SA, SB)>>::law_entry_is_cleared(run, snapshot, key);
    lemma_entries_concat(p0, k0, p1, k1, key);
    assert(<(A, B) as Primitive<(SA, SB)>>::copies(snapshot) =~= p0 + p1);
    if run.guard && <(A, B) as Primitive<(SA, SB)>>::entry_storable(value) && run.supplied == limbs_of(A::entry_values(value.0)) + limbs_of(B::entry_values(value.1)) + more {
        assert(limbs_of(v0 + v1) =~= limbs_of(v0) + limbs_of(v1));
        assert(<(A, B) as Primitive<(SA, SB)>>::entry_values(value) =~= v0 + v1);
        <(A, B) as Primitive<(SA, SB)>>::law_entry_reads_back(run, snapshot, key, value, more);
        let tail0 = Run { supplied: limbs_of(v0) + more, ..run };
        A::law_entry_reads_back(tail0, snapshot.0, key, value.0, more);
        let tail1 = Run { supplied: limbs_of(v1) + more, ..run };
        B::law_entry_reads_back(tail1, snapshot.1, key, value.1, more);
        lemma_entries_concat(p0, v0, p1, v1, key);
        assert(run.ops + read_all_ops(p0 + p1, key, v0 + v1) =~= run.ops + read_all_ops(p0, key, v0) + read_all_ops(p1, key, v1));
    }
}

/// A triple steps each component as it steps alone: it lands exactly where all of
/// them do, and leaves in each component's cells what that component's own step
/// leaves there.
pub proof fn law_triple_steps_each<A: Primitive<SA>, B: Primitive<SB>, C: Primitive<SC>, SA, SB, SC>(
    layout: BlockLayout,
    start: nat,
    delta: (SA, SB, SC),
    state: Tree,
)
    requires
        start + A::acc_fields() + B::acc_fields() + C::acc_fields() <= layout.total() <= MAX_FIELDS,
    ensures
        match <(A, B, C) as Primitive<(SA, SB, SC)>>::combine_effect(
            <(A, B, C) as Primitive<(SA, SB, SC)>>::acc_at(layout, start),
            delta,
        )(state) {
            Some(next) => {
                &&& A::combine_effect(A::acc_at(layout, start), delta.0)(state) matches Some(own)
                    && same_fields(next, own, layout, start, start + A::acc_fields())
                &&& B::combine_effect(B::acc_at(layout, start + A::acc_fields()), delta.1)(state) matches Some(own)
                    && same_fields(next, own, layout, start + A::acc_fields(), start + A::acc_fields() + B::acc_fields())
                &&& C::combine_effect(C::acc_at(layout, start + A::acc_fields() + B::acc_fields()), delta.2)(state) matches Some(own)
                    && same_fields(next, own, layout, start + A::acc_fields() + B::acc_fields(), start + A::acc_fields() + B::acc_fields() + C::acc_fields())
            },
            None => {
                ||| A::combine_effect(A::acc_at(layout, start), delta.0)(state) is None
                ||| B::combine_effect(B::acc_at(layout, start + A::acc_fields()), delta.1)(state) is None
                ||| C::combine_effect(C::acc_at(layout, start + A::acc_fields() + B::acc_fields()), delta.2)(state) is None
            },
        },
{
    let fewer = (delta.0, delta.1);
    law_pair_steps_each::<(A, B), C, (SA, SB), SC>(layout, start, (fewer, delta.2), state);
    law_pair_steps_each::<A, B, SA, SB>(layout, start, fewer, state);
}

/// A triple copies each component as it is copied alone: the snapshot lands exactly
/// where all of them do, and each component's maps hold under the key what that
/// component's own snapshot puts there.
pub proof fn law_triple_snapshots_each<A: Primitive<SA>, B: Primitive<SB>, C: Primitive<SC>, SA, SB, SC>(
    layout: BlockLayout,
    start: nat,
    other: nat,
    key: Aligned,
    state: Tree,
)
    requires
        start + A::acc_fields() + B::acc_fields() + C::acc_fields() <= other,
        other + A::snapshot_fields() + B::snapshot_fields() + C::snapshot_fields() <= layout.total() <= MAX_FIELDS,
    ensures
        match <(A, B, C) as Primitive<(SA, SB, SC)>>::snapshot_effect(
            <(A, B, C) as Primitive<(SA, SB, SC)>>::acc_at(layout, start),
            <(A, B, C) as Primitive<(SA, SB, SC)>>::snapshot_at(layout, other),
            key,
        )(state) {
            Some(next) => {
                &&& A::snapshot_effect(
                    A::acc_at(layout, start),
                    A::snapshot_at(layout, other),
                    key,
                )(state) matches Some(own)
                    && same_entries(next, own, layout, other, other + A::snapshot_fields(), key)
                &&& B::snapshot_effect(
                    B::acc_at(layout, start + A::acc_fields()),
                    B::snapshot_at(layout, other + A::snapshot_fields()),
                    key,
                )(state) matches Some(own)
                    && same_entries(next, own, layout, other + A::snapshot_fields(), other + A::snapshot_fields() + B::snapshot_fields(), key)
                &&& C::snapshot_effect(
                    C::acc_at(layout, start + A::acc_fields() + B::acc_fields()),
                    C::snapshot_at(layout, other + A::snapshot_fields() + B::snapshot_fields()),
                    key,
                )(state) matches Some(own)
                    && same_entries(next, own, layout, other + A::snapshot_fields() + B::snapshot_fields(), other + A::snapshot_fields() + B::snapshot_fields() + C::snapshot_fields(), key)
            },
            None => {
                ||| A::snapshot_effect(
                    A::acc_at(layout, start),
                    A::snapshot_at(layout, other),
                    key,
                )(state) is None
                ||| B::snapshot_effect(
                    B::acc_at(layout, start + A::acc_fields()),
                    B::snapshot_at(layout, other + A::snapshot_fields()),
                    key,
                )(state) is None
                ||| C::snapshot_effect(
                    C::acc_at(layout, start + A::acc_fields() + B::acc_fields()),
                    C::snapshot_at(layout, other + A::snapshot_fields() + B::snapshot_fields()),
                    key,
                )(state) is None
            },
        },
{
    law_pair_snapshots_each::<(A, B), C, (SA, SB), SC>(layout, start, other, key, state);
    law_pair_snapshots_each::<A, B, SA, SB>(layout, start, other, key, state);
}

/// A triple's entry is its components' entries: supplied with what each of them
/// holds for its part, in order, a lookup returns the parts, having read each from
/// that component's own maps, and a removal clears the key in each of them.
pub proof fn law_triple_reads_each<A: Primitive<SA>, B: Primitive<SB>, C: Primitive<SC>, SA, SB, SC>(
    run: Run,
    layout: BlockLayout,
    start: nat,
    key: Aligned,
    value: (SA, SB, SC),
    more: Seq<Seq<Seq<u8>>>,
)
    ensures
        <(A, B, C) as Primitive<(SA, SB, SC)>>::entry_storable(value) <==> A::entry_storable(value.0) && B::entry_storable(value.1) && C::entry_storable(value.2),
        run.guard && <(A, B, C) as Primitive<(SA, SB, SC)>>::entry_storable(value) && run.supplied == limbs_of(A::entry_values(value.0)) + limbs_of(B::entry_values(value.1)) + limbs_of(C::entry_values(value.2)) + more
            ==> <(A, B, C) as Primitive<(SA, SB, SC)>>::looked_up(
            run,
            <(A, B, C) as Primitive<(SA, SB, SC)>>::snapshot_at(layout, start),
            key,
        ) == (
            Run {
                ops: run.ops + read_all_ops(
                    A::copies(A::snapshot_at(layout, start)),
                    key,
                    A::entry_values(value.0),
                ) + read_all_ops(
                    B::copies(B::snapshot_at(layout, start + A::snapshot_fields())),
                    key,
                    B::entry_values(value.1),
                ) + read_all_ops(
                    C::copies(C::snapshot_at(layout, start + A::snapshot_fields() + B::snapshot_fields())),
                    key,
                    C::entry_values(value.2),
                ),
                supplied: more,
                ..run
            },
            value,
        ),
        <(A, B, C) as Primitive<(SA, SB, SC)>>::removed(run, <(A, B, C) as Primitive<(SA, SB, SC)>>::snapshot_at(layout, start), key) == run.emit(
            clear_all_ops(A::copies(A::snapshot_at(layout, start)), key)
                + clear_all_ops(B::copies(B::snapshot_at(layout, start + A::snapshot_fields())), key)
                + clear_all_ops(C::copies(C::snapshot_at(layout, start + A::snapshot_fields() + B::snapshot_fields())), key),
        ),
{
    let p0 = A::copies(A::snapshot_at(layout, start));
    let v0 = A::entry_values(value.0);
    let k0 = Seq::new(p0.len(), |j: int| key);
    let p1 = B::copies(B::snapshot_at(layout, start + A::snapshot_fields()));
    let v1 = B::entry_values(value.1);
    let k1 = Seq::new(p1.len(), |j: int| key);
    let p2 = C::copies(C::snapshot_at(layout, start + A::snapshot_fields() + B::snapshot_fields()));
    let v2 = C::entry_values(value.2);
    let k2 = Seq::new(p2.len(), |j: int| key);
    let snapshot = <(A, B, C) as Primitive<(SA, SB, SC)>>::snapshot_at(layout, start);
    <(A, B, C) as Primitive<(SA, SB, SC)>>::law_entry_is_cleared(run, snapshot, key);
    lemma_entries_concat(p0, k0, p1, k1, key);
    lemma_entries_concat(p0 + p1, k0 + k1, p2, k2, key);
    assert(<(A, B, C) as Primitive<(SA, SB, SC)>>::copies(snapshot) =~= p0 + p1 + p2);
    if run.guard && <(A, B, C) as Primitive<(SA, SB, SC)>>::entry_storable(value) && run.supplied == limbs_of(A::entry_values(value.0)) + limbs_of(B::entry_values(value.1)) + limbs_of(C::entry_values(value.2)) + more {
        assert(limbs_of(v0 + v1 + v2) =~= limbs_of(v0) + limbs_of(v1) + limbs_of(v2));
        assert(<(A, B, C) as Primitive<(SA, SB, SC)>>::entry_values(value) =~= v0 + v1 + v2);
        <(A, B, C) as Primitive<(SA, SB, SC)>>::law_entry_reads_back(run, snapshot, key, value, more);
        let tail0 = Run { supplied: limbs_of(v0) + more, ..run };
        A::law_entry_reads_back(tail0, snapshot.0, key, value.0, more);
        let tail1 = Run { supplied: limbs_of(v1) + more, ..run };
        B::law_entry_reads_back(tail1, snapshot.1, key, value.1, more);
        let tail2 = Run { supplied: limbs_of(v2) + more, ..run };
        C::law_entry_reads_back(tail2, snapshot.2, key, value.2, more);
        lemma_entries_concat(p0, v0, p1, v1, key);
        lemma_entries_concat(p0 + p1, v0 + v1, p2, v2, key);
        assert(run.ops + read_all_ops(p0 + p1 + p2, key, v0 + v1 + v2) =~= run.ops + read_all_ops(p0, key, v0) + read_all_ops(p1, key, v1) + read_all_ops(p2, key, v2));
    }
}

/// A quadruple steps each component as it steps alone: it lands exactly where all of
/// them do, and leaves in each component's cells what that component's own step
/// leaves there.
pub proof fn law_quadruple_steps_each<A: Primitive<SA>, B: Primitive<SB>, C: Primitive<SC>, D: Primitive<SD>, SA, SB, SC, SD>(
    layout: BlockLayout,
    start: nat,
    delta: (SA, SB, SC, SD),
    state: Tree,
)
    requires
        start + A::acc_fields() + B::acc_fields() + C::acc_fields() + D::acc_fields() <= layout.total() <= MAX_FIELDS,
    ensures
        match <(A, B, C, D) as Primitive<(SA, SB, SC, SD)>>::combine_effect(
            <(A, B, C, D) as Primitive<(SA, SB, SC, SD)>>::acc_at(layout, start),
            delta,
        )(state) {
            Some(next) => {
                &&& A::combine_effect(A::acc_at(layout, start), delta.0)(state) matches Some(own)
                    && same_fields(next, own, layout, start, start + A::acc_fields())
                &&& B::combine_effect(B::acc_at(layout, start + A::acc_fields()), delta.1)(state) matches Some(own)
                    && same_fields(next, own, layout, start + A::acc_fields(), start + A::acc_fields() + B::acc_fields())
                &&& C::combine_effect(C::acc_at(layout, start + A::acc_fields() + B::acc_fields()), delta.2)(state) matches Some(own)
                    && same_fields(next, own, layout, start + A::acc_fields() + B::acc_fields(), start + A::acc_fields() + B::acc_fields() + C::acc_fields())
                &&& D::combine_effect(D::acc_at(layout, start + A::acc_fields() + B::acc_fields() + C::acc_fields()), delta.3)(state) matches Some(own)
                    && same_fields(next, own, layout, start + A::acc_fields() + B::acc_fields() + C::acc_fields(), start + A::acc_fields() + B::acc_fields() + C::acc_fields() + D::acc_fields())
            },
            None => {
                ||| A::combine_effect(A::acc_at(layout, start), delta.0)(state) is None
                ||| B::combine_effect(B::acc_at(layout, start + A::acc_fields()), delta.1)(state) is None
                ||| C::combine_effect(C::acc_at(layout, start + A::acc_fields() + B::acc_fields()), delta.2)(state) is None
                ||| D::combine_effect(D::acc_at(layout, start + A::acc_fields() + B::acc_fields() + C::acc_fields()), delta.3)(state) is None
            },
        },
{
    let fewer = (delta.0, delta.1, delta.2);
    law_pair_steps_each::<(A, B, C), D, (SA, SB, SC), SD>(layout, start, (fewer, delta.3), state);
    law_triple_steps_each::<A, B, C, SA, SB, SC>(layout, start, fewer, state);
}

/// A quadruple copies each component as it is copied alone: the snapshot lands exactly
/// where all of them do, and each component's maps hold under the key what that
/// component's own snapshot puts there.
pub proof fn law_quadruple_snapshots_each<A: Primitive<SA>, B: Primitive<SB>, C: Primitive<SC>, D: Primitive<SD>, SA, SB, SC, SD>(
    layout: BlockLayout,
    start: nat,
    other: nat,
    key: Aligned,
    state: Tree,
)
    requires
        start + A::acc_fields() + B::acc_fields() + C::acc_fields() + D::acc_fields() <= other,
        other + A::snapshot_fields() + B::snapshot_fields() + C::snapshot_fields() + D::snapshot_fields() <= layout.total() <= MAX_FIELDS,
    ensures
        match <(A, B, C, D) as Primitive<(SA, SB, SC, SD)>>::snapshot_effect(
            <(A, B, C, D) as Primitive<(SA, SB, SC, SD)>>::acc_at(layout, start),
            <(A, B, C, D) as Primitive<(SA, SB, SC, SD)>>::snapshot_at(layout, other),
            key,
        )(state) {
            Some(next) => {
                &&& A::snapshot_effect(
                    A::acc_at(layout, start),
                    A::snapshot_at(layout, other),
                    key,
                )(state) matches Some(own)
                    && same_entries(next, own, layout, other, other + A::snapshot_fields(), key)
                &&& B::snapshot_effect(
                    B::acc_at(layout, start + A::acc_fields()),
                    B::snapshot_at(layout, other + A::snapshot_fields()),
                    key,
                )(state) matches Some(own)
                    && same_entries(next, own, layout, other + A::snapshot_fields(), other + A::snapshot_fields() + B::snapshot_fields(), key)
                &&& C::snapshot_effect(
                    C::acc_at(layout, start + A::acc_fields() + B::acc_fields()),
                    C::snapshot_at(layout, other + A::snapshot_fields() + B::snapshot_fields()),
                    key,
                )(state) matches Some(own)
                    && same_entries(next, own, layout, other + A::snapshot_fields() + B::snapshot_fields(), other + A::snapshot_fields() + B::snapshot_fields() + C::snapshot_fields(), key)
                &&& D::snapshot_effect(
                    D::acc_at(layout, start + A::acc_fields() + B::acc_fields() + C::acc_fields()),
                    D::snapshot_at(layout, other + A::snapshot_fields() + B::snapshot_fields() + C::snapshot_fields()),
                    key,
                )(state) matches Some(own)
                    && same_entries(next, own, layout, other + A::snapshot_fields() + B::snapshot_fields() + C::snapshot_fields(), other + A::snapshot_fields() + B::snapshot_fields() + C::snapshot_fields() + D::snapshot_fields(), key)
            },
            None => {
                ||| A::snapshot_effect(
                    A::acc_at(layout, start),
                    A::snapshot_at(layout, other),
                    key,
                )(state) is None
                ||| B::snapshot_effect(
                    B::acc_at(layout, start + A::acc_fields()),
                    B::snapshot_at(layout, other + A::snapshot_fields()),
                    key,
                )(state) is None
                ||| C::snapshot_effect(
                    C::acc_at(layout, start + A::acc_fields() + B::acc_fields()),
                    C::snapshot_at(layout, other + A::snapshot_fields() + B::snapshot_fields()),
                    key,
                )(state) is None
                ||| D::snapshot_effect(
                    D::acc_at(layout, start + A::acc_fields() + B::acc_fields() + C::acc_fields()),
                    D::snapshot_at(layout, other + A::snapshot_fields() + B::snapshot_fields() + C::snapshot_fields()),
                    key,
                )(state) is None
            },
        },
{
    law_pair_snapshots_each::<(A, B, C), D, (SA, SB, SC), SD>(layout, start, other, key, state);
    law_triple_snapshots_each::<A, B, C, SA, SB, SC>(layout, start, other, key, state);
}

/// A quadruple's entry is its components' entries: supplied with what each of them
/// holds for its part, in order, a lookup returns the parts, having read each from
/// that component's own maps, and a removal clears the key in each of them.
pub proof fn law_quadruple_reads_each<A: Primitive<SA>, B: Primitive<SB>, C: Primitive<SC>, D: Primitive<SD>, SA, SB, SC, SD>(
    run: Run,
    layout: BlockLayout,
    start: nat,
    key: Aligned,
    value: (SA, SB, SC, SD),
    more: Seq<Seq<Seq<u8>>>,
)
    ensures
        <(A, B, C, D) as Primitive<(SA, SB, SC, SD)>>::entry_storable(value) <==> A::entry_storable(value.0) && B::entry_storable(value.1) && C::entry_storable(value.2) && D::entry_storable(value.3),
        run.guard && <(A, B, C, D) as Primitive<(SA, SB, SC, SD)>>::entry_storable(value) && run.supplied == limbs_of(A::entry_values(value.0)) + limbs_of(B::entry_values(value.1)) + limbs_of(C::entry_values(value.2)) + limbs_of(D::entry_values(value.3)) + more
            ==> <(A, B, C, D) as Primitive<(SA, SB, SC, SD)>>::looked_up(
            run,
            <(A, B, C, D) as Primitive<(SA, SB, SC, SD)>>::snapshot_at(layout, start),
            key,
        ) == (
            Run {
                ops: run.ops + read_all_ops(
                    A::copies(A::snapshot_at(layout, start)),
                    key,
                    A::entry_values(value.0),
                ) + read_all_ops(
                    B::copies(B::snapshot_at(layout, start + A::snapshot_fields())),
                    key,
                    B::entry_values(value.1),
                ) + read_all_ops(
                    C::copies(C::snapshot_at(layout, start + A::snapshot_fields() + B::snapshot_fields())),
                    key,
                    C::entry_values(value.2),
                ) + read_all_ops(
                    D::copies(D::snapshot_at(layout, start + A::snapshot_fields() + B::snapshot_fields() + C::snapshot_fields())),
                    key,
                    D::entry_values(value.3),
                ),
                supplied: more,
                ..run
            },
            value,
        ),
        <(A, B, C, D) as Primitive<(SA, SB, SC, SD)>>::removed(run, <(A, B, C, D) as Primitive<(SA, SB, SC, SD)>>::snapshot_at(layout, start), key) == run.emit(
            clear_all_ops(A::copies(A::snapshot_at(layout, start)), key)
                + clear_all_ops(B::copies(B::snapshot_at(layout, start + A::snapshot_fields())), key)
                + clear_all_ops(C::copies(C::snapshot_at(layout, start + A::snapshot_fields() + B::snapshot_fields())), key)
                + clear_all_ops(D::copies(D::snapshot_at(layout, start + A::snapshot_fields() + B::snapshot_fields() + C::snapshot_fields())), key),
        ),
{
    let p0 = A::copies(A::snapshot_at(layout, start));
    let v0 = A::entry_values(value.0);
    let k0 = Seq::new(p0.len(), |j: int| key);
    let p1 = B::copies(B::snapshot_at(layout, start + A::snapshot_fields()));
    let v1 = B::entry_values(value.1);
    let k1 = Seq::new(p1.len(), |j: int| key);
    let p2 = C::copies(C::snapshot_at(layout, start + A::snapshot_fields() + B::snapshot_fields()));
    let v2 = C::entry_values(value.2);
    let k2 = Seq::new(p2.len(), |j: int| key);
    let p3 = D::copies(D::snapshot_at(layout, start + A::snapshot_fields() + B::snapshot_fields() + C::snapshot_fields()));
    let v3 = D::entry_values(value.3);
    let k3 = Seq::new(p3.len(), |j: int| key);
    let snapshot = <(A, B, C, D) as Primitive<(SA, SB, SC, SD)>>::snapshot_at(layout, start);
    <(A, B, C, D) as Primitive<(SA, SB, SC, SD)>>::law_entry_is_cleared(run, snapshot, key);
    lemma_entries_concat(p0, k0, p1, k1, key);
    lemma_entries_concat(p0 + p1, k0 + k1, p2, k2, key);
    lemma_entries_concat(p0 + p1 + p2, k0 + k1 + k2, p3, k3, key);
    assert(<(A, B, C, D) as Primitive<(SA, SB, SC, SD)>>::copies(snapshot) =~= p0 + p1 + p2 + p3);
    if run.guard && <(A, B, C, D) as Primitive<(SA, SB, SC, SD)>>::entry_storable(value) && run.supplied == limbs_of(A::entry_values(value.0)) + limbs_of(B::entry_values(value.1)) + limbs_of(C::entry_values(value.2)) + limbs_of(D::entry_values(value.3)) + more {
        assert(limbs_of(v0 + v1 + v2 + v3) =~= limbs_of(v0) + limbs_of(v1) + limbs_of(v2) + limbs_of(v3));
        assert(<(A, B, C, D) as Primitive<(SA, SB, SC, SD)>>::entry_values(value) =~= v0 + v1 + v2 + v3);
        <(A, B, C, D) as Primitive<(SA, SB, SC, SD)>>::law_entry_reads_back(run, snapshot, key, value, more);
        let tail0 = Run { supplied: limbs_of(v0) + more, ..run };
        A::law_entry_reads_back(tail0, snapshot.0, key, value.0, more);
        let tail1 = Run { supplied: limbs_of(v1) + more, ..run };
        B::law_entry_reads_back(tail1, snapshot.1, key, value.1, more);
        let tail2 = Run { supplied: limbs_of(v2) + more, ..run };
        C::law_entry_reads_back(tail2, snapshot.2, key, value.2, more);
        let tail3 = Run { supplied: limbs_of(v3) + more, ..run };
        D::law_entry_reads_back(tail3, snapshot.3, key, value.3, more);
        lemma_entries_concat(p0, v0, p1, v1, key);
        lemma_entries_concat(p0 + p1, v0 + v1, p2, v2, key);
        lemma_entries_concat(p0 + p1 + p2, v0 + v1 + v2, p3, v3, key);
        assert(run.ops + read_all_ops(p0 + p1 + p2 + p3, key, v0 + v1 + v2 + v3) =~= run.ops + read_all_ops(p0, key, v0) + read_all_ops(p1, key, v1) + read_all_ops(p2, key, v2) + read_all_ops(p3, key, v3));
    }
}

// ---- the circuit side ---------------------------------------------------------------------------

/// The largest number of `bits` bits.
pub open spec fn largest(bits: u32) -> u64 {
    (two_to(bits as nat) - 1) as u64
}

proof fn lemma_width<const BITS: u32>() where Uint<BITS, Public>: CellArith
    ensures
        BITS <= 64,
        0 < byte_width(BITS) <= 8,
        two_to(BITS as nat) <= capacity(byte_width(BITS) as nat),
        0 < two_to(BITS as nat) <= 0x1_0000_0000_0000_0000,
        BITS == 64 ==> two_to(BITS as nat) == 0x1_0000_0000_0000_0000,
        capacity(8) == 0x1_0000_0000_0000_0000,
{
    Uint::<BITS, Public>::law_decodable();
    law_bits_fit_their_bytes(BITS);
    assert(capacity(8) == 0x1_0000_0000_0000_0000) by {
        reveal_with_fuel(capacity, 9);
    }
}

/// The largest number of `BITS` bits.
fn top<const BITS: u32>() -> (r: u64) where Uint<BITS, Public>: CellArith
    ensures
        r == largest(BITS),
{
    proof {
        lemma_width::<BITS>();
    }
    if BITS == 64 {
        u64::MAX
    } else {
        two_to_the(BITS) - 1
    }
}

impl<const BITS: u32> Monoid<Uint<BITS, Public>> for Add where Uint<BITS, Public>: CellArith {
    open spec fn unit() -> Uint<BITS, Public> {
        Uint::word(0)
    }

    open spec fn sum(a: Uint<BITS, Public>, b: Uint<BITS, Public>) -> Uint<BITS, Public> {
        Uint { value: Number::exactly(a.value@ + b.value@), vis: PhantomData }
    }

    open spec fn fits(a: Uint<BITS, Public>, b: Uint<BITS, Public>) -> bool {
        a.value@ + b.value@ <= u64::MAX
    }

    open spec fn is_value(a: Uint<BITS, Public>) -> bool {
        a.fits()
    }

    proof fn law_identity(a: Uint<BITS, Public>) {
        lemma_width::<BITS>();
    }

    proof fn law_associative(a: Uint<BITS, Public>, b: Uint<BITS, Public>, c: Uint<BITS, Public>) {
    }

    open spec fn holds(acc: Self::Acc, a: Uint<BITS, Public>, state: Tree) -> bool {
        &&& a.value@ <= u64::MAX
        &&& lookup(state, acc.path.keys()) matches Some(node) && as_number(node) == Some(
            a.value@ as u64,
        )
    }

    proof fn law_stored_is_held(acc: Self::Acc, a: Uint<BITS, Public>, state: Tree) {
        lemma_width::<BITS>();
        assert(<Add as Primitive<Uint<BITS, Public>>>::sources(acc)[0] == acc.path);
        let width = byte_width(BITS) as nat;
        assert(stored(a) =~= number(a.value@, width));
        law_number_round_trip(a.value@ as u64, width);
    }

    proof fn law_one_value_is_held(acc: Self::Acc, a: Uint<BITS, Public>, b: Uint<BITS, Public>, state: Tree) {
        lemma_width::<BITS>();
        lemma_number_is_its_value(a.value, b.value);
    }

    proof fn law_held_in_its_cells(
        layout: BlockLayout,
        start: nat,
        a: Uint<BITS, Public>,
        one: Tree,
        two: Tree,
    ) {
    }

    proof fn law_ledger_sums(
        layout: BlockLayout,
        start: nat,
        a: Uint<BITS, Public>,
        b: Uint<BITS, Public>,
        state: Tree,
    ) {
        lemma_width::<BITS>();
        let width = byte_width(BITS) as nat;
        assert(stored(b) =~= number(b.value@, width));
        law_number_round_trip(b.value@ as u64, width);
        if a.value@ + b.value@ <= u64::MAX {
            law_number_round_trip((a.value@ + b.value@) as u64, 8);
            lemma_exactly(a.value@ + b.value@);
        }
        lemma_at_path_reads_back(state, layout.field(start).keys(), added(stored(b)));
    }

    fn identity(c: &mut Circuit3) -> (r: Uint<BITS, Public>) {
        Uint::of(0)
    }

    fn combine(c: &mut Circuit3, a: Uint<BITS, Public>, b: Uint<BITS, Public>) -> (r: Uint<BITS, Public>) {
        let sum = a.value.plus(&b.value);
        proof {
            lemma_is_exactly(sum);
        }
        Uint::from_field_unchecked(sum)
    }
}

impl<const BITS: u32> Monoid<Uint<BITS, Public>> for Max where Uint<BITS, Public>: CellArith {
    open spec fn unit() -> Uint<BITS, Public> {
        Uint::word(0)
    }

    open spec fn sum(a: Uint<BITS, Public>, b: Uint<BITS, Public>) -> Uint<BITS, Public> {
        if a.value@ < b.value@ {
            b
        } else {
            a
        }
    }

    open spec fn fits(a: Uint<BITS, Public>, b: Uint<BITS, Public>) -> bool {
        a.fits() && b.fits()
    }

    open spec fn is_value(a: Uint<BITS, Public>) -> bool {
        a.fits()
    }

    proof fn law_identity(a: Uint<BITS, Public>) {
        lemma_width::<BITS>();
    }

    proof fn law_associative(a: Uint<BITS, Public>, b: Uint<BITS, Public>, c: Uint<BITS, Public>) {
    }

    open spec fn holds(acc: Self::Acc, a: Uint<BITS, Public>, state: Tree) -> bool {
        &&& a.fits()
        &&& lookup(state, acc.path.keys()) matches Some(node) && as_number(node) == Some(
            a.value@ as u64,
        )
    }

    proof fn law_stored_is_held(acc: Self::Acc, a: Uint<BITS, Public>, state: Tree) {
        lemma_width::<BITS>();
        assert(<Max as Primitive<Uint<BITS, Public>>>::sources(acc)[0] == acc.path);
        let width = byte_width(BITS) as nat;
        assert(stored(a) =~= number(a.value@, width));
        law_number_round_trip(a.value@ as u64, width);
    }

    proof fn law_one_value_is_held(acc: Self::Acc, a: Uint<BITS, Public>, b: Uint<BITS, Public>, state: Tree) {
        lemma_width::<BITS>();
        lemma_number_is_its_value(a.value, b.value);
    }

    proof fn law_held_in_its_cells(
        layout: BlockLayout,
        start: nat,
        a: Uint<BITS, Public>,
        one: Tree,
        two: Tree,
    ) {
    }

    proof fn law_ledger_sums(
        layout: BlockLayout,
        start: nat,
        a: Uint<BITS, Public>,
        b: Uint<BITS, Public>,
        state: Tree,
    ) {
        lemma_width::<BITS>();
        let width = byte_width(BITS) as nat;
        assert(stored(b) =~= number(b.value@, width));
        law_number_round_trip(b.value@ as u64, width);
        if a.value@ + b.value@ <= u64::MAX {
            law_number_round_trip((a.value@ + b.value@) as u64, 8);
            lemma_exactly(a.value@ + b.value@);
        }
        lemma_at_path_reads_back(state, layout.field(start).keys(), raised(stored(b)));
    }

    fn identity(c: &mut Circuit3) -> (r: Uint<BITS, Public>) {
        Uint::of(0)
    }

    fn combine(c: &mut Circuit3, a: Uint<BITS, Public>, b: Uint<BITS, Public>) -> (r: Uint<BITS, Public>) {
        if a.value.below(&b.value) {
            b
        } else {
            a
        }
    }
}

impl<const BITS: u32> Monoid<Uint<BITS, Public>> for Min where Uint<BITS, Public>: CellArith {
    open spec fn unit() -> Uint<BITS, Public> {
        Uint::word(largest(BITS))
    }

    open spec fn sum(a: Uint<BITS, Public>, b: Uint<BITS, Public>) -> Uint<BITS, Public> {
        if a.value@ < b.value@ {
            a
        } else {
            b
        }
    }

    open spec fn fits(a: Uint<BITS, Public>, b: Uint<BITS, Public>) -> bool {
        a.fits() && b.fits()
    }

    open spec fn is_value(a: Uint<BITS, Public>) -> bool {
        a.fits()
    }

    proof fn law_identity(a: Uint<BITS, Public>) {
        lemma_width::<BITS>();
    }

    proof fn law_associative(a: Uint<BITS, Public>, b: Uint<BITS, Public>, c: Uint<BITS, Public>) {
    }

    open spec fn holds(acc: Self::Acc, a: Uint<BITS, Public>, state: Tree) -> bool {
        &&& a.fits()
        &&& lookup(state, acc.path.keys()) matches Some(node) && as_number(node) == Some(
            a.value@ as u64,
        )
    }

    proof fn law_stored_is_held(acc: Self::Acc, a: Uint<BITS, Public>, state: Tree) {
        lemma_width::<BITS>();
        assert(<Min as Primitive<Uint<BITS, Public>>>::sources(acc)[0] == acc.path);
        let width = byte_width(BITS) as nat;
        assert(stored(a) =~= number(a.value@, width));
        law_number_round_trip(a.value@ as u64, width);
    }

    proof fn law_one_value_is_held(acc: Self::Acc, a: Uint<BITS, Public>, b: Uint<BITS, Public>, state: Tree) {
        lemma_width::<BITS>();
        lemma_number_is_its_value(a.value, b.value);
    }

    proof fn law_held_in_its_cells(
        layout: BlockLayout,
        start: nat,
        a: Uint<BITS, Public>,
        one: Tree,
        two: Tree,
    ) {
    }

    proof fn law_ledger_sums(
        layout: BlockLayout,
        start: nat,
        a: Uint<BITS, Public>,
        b: Uint<BITS, Public>,
        state: Tree,
    ) {
        lemma_width::<BITS>();
        let width = byte_width(BITS) as nat;
        assert(stored(b) =~= number(b.value@, width));
        law_number_round_trip(b.value@ as u64, width);
        if a.value@ + b.value@ <= u64::MAX {
            law_number_round_trip((a.value@ + b.value@) as u64, 8);
            lemma_exactly(a.value@ + b.value@);
        }
        lemma_at_path_reads_back(state, layout.field(start).keys(), lowered(stored(b)));
    }

    fn identity(c: &mut Circuit3) -> (r: Uint<BITS, Public>) {
        Uint::of(top::<BITS>())
    }

    fn combine(c: &mut Circuit3, a: Uint<BITS, Public>, b: Uint<BITS, Public>) -> (r: Uint<BITS, Public>) {
        if a.value.below(&b.value) {
            a
        } else {
            b
        }
    }
}

impl Monoid<Bool<Public>> for And {
    open spec fn unit() -> Bool<Public> {
        Bool { value: true, vis: PhantomData }
    }

    open spec fn sum(a: Bool<Public>, b: Bool<Public>) -> Bool<Public> {
        Bool { value: a.value && b.value, vis: PhantomData }
    }

    open spec fn fits(a: Bool<Public>, b: Bool<Public>) -> bool {
        true
    }

    open spec fn is_value(a: Bool<Public>) -> bool {
        true
    }

    proof fn law_identity(a: Bool<Public>) {
    }

    proof fn law_associative(a: Bool<Public>, b: Bool<Public>, c: Bool<Public>) {
    }

    open spec fn holds(acc: Self::Acc, a: Bool<Public>, state: Tree) -> bool {
        lookup(state, acc.path.keys()) matches Some(node) && as_truth(node) == Some(a.value)
    }

    proof fn law_stored_is_held(acc: Self::Acc, a: Bool<Public>, state: Tree) {
        assert(<And as Primitive<Bool<Public>>>::sources(acc)[0] == acc.path);
        let bit = |v: bool| number(if v { 1 } else { 0 }, 1);
        assert(stored(a) =~= bit(a.value));
        law_truth_round_trip(a.value);
    }

    proof fn law_one_value_is_held(acc: Self::Acc, a: Bool<Public>, b: Bool<Public>, state: Tree) {
    }

    proof fn law_held_in_its_cells(
        layout: BlockLayout,
        start: nat,
        a: Bool<Public>,
        one: Tree,
        two: Tree,
    ) {
    }

    proof fn law_ledger_sums(
        layout: BlockLayout,
        start: nat,
        a: Bool<Public>,
        b: Bool<Public>,
        state: Tree,
    ) {
        let bit = |v: bool| number(if v { 1 } else { 0 }, 1);
        assert(stored(b) =~= bit(b.value));
        law_truth_round_trip(b.value);
        law_truth_round_trip(And::sum(a, b).value);
        lemma_at_path_reads_back(state, layout.field(start).keys(), both(stored(b)));
    }

    fn identity(c: &mut Circuit3) -> (r: Bool<Public>) {
        Bool::of(true)
    }

    fn combine(c: &mut Circuit3, a: Bool<Public>, b: Bool<Public>) -> (r: Bool<Public>) {
        Bool::of(a.value && b.value)
    }
}

impl Monoid<Bool<Public>> for Or {
    open spec fn unit() -> Bool<Public> {
        Bool { value: false, vis: PhantomData }
    }

    open spec fn sum(a: Bool<Public>, b: Bool<Public>) -> Bool<Public> {
        Bool { value: a.value || b.value, vis: PhantomData }
    }

    open spec fn fits(a: Bool<Public>, b: Bool<Public>) -> bool {
        true
    }

    open spec fn is_value(a: Bool<Public>) -> bool {
        true
    }

    proof fn law_identity(a: Bool<Public>) {
    }

    proof fn law_associative(a: Bool<Public>, b: Bool<Public>, c: Bool<Public>) {
    }

    open spec fn holds(acc: Self::Acc, a: Bool<Public>, state: Tree) -> bool {
        lookup(state, acc.path.keys()) matches Some(node) && as_truth(node) == Some(a.value)
    }

    proof fn law_stored_is_held(acc: Self::Acc, a: Bool<Public>, state: Tree) {
        assert(<Or as Primitive<Bool<Public>>>::sources(acc)[0] == acc.path);
        let bit = |v: bool| number(if v { 1 } else { 0 }, 1);
        assert(stored(a) =~= bit(a.value));
        law_truth_round_trip(a.value);
    }

    proof fn law_one_value_is_held(acc: Self::Acc, a: Bool<Public>, b: Bool<Public>, state: Tree) {
    }

    proof fn law_held_in_its_cells(
        layout: BlockLayout,
        start: nat,
        a: Bool<Public>,
        one: Tree,
        two: Tree,
    ) {
    }

    proof fn law_ledger_sums(
        layout: BlockLayout,
        start: nat,
        a: Bool<Public>,
        b: Bool<Public>,
        state: Tree,
    ) {
        let bit = |v: bool| number(if v { 1 } else { 0 }, 1);
        assert(stored(b) =~= bit(b.value));
        law_truth_round_trip(b.value);
        law_truth_round_trip(Or::sum(a, b).value);
        lemma_at_path_reads_back(state, layout.field(start).keys(), either(stored(b)));
    }

    fn identity(c: &mut Circuit3) -> (r: Bool<Public>) {
        Bool::of(false)
    }

    fn combine(c: &mut Circuit3, a: Bool<Public>, b: Bool<Public>) -> (r: Bool<Public>) {
        Bool::of(a.value || b.value)
    }
}

impl<A: Monoid<SA>, B: Monoid<SB>, SA, SB> Monoid<(SA, SB)> for (A, B) {
    open spec fn unit() -> (SA, SB) {
        (A::unit(), B::unit())
    }

    open spec fn sum(a: (SA, SB), b: (SA, SB)) -> (SA, SB) {
        (A::sum(a.0, b.0), B::sum(a.1, b.1))
    }

    open spec fn fits(a: (SA, SB), b: (SA, SB)) -> bool {
        A::fits(a.0, b.0) && B::fits(a.1, b.1)
    }

    open spec fn is_value(a: (SA, SB)) -> bool {
        A::is_value(a.0) && B::is_value(a.1)
    }

    proof fn law_identity(a: (SA, SB)) {
        A::law_identity(a.0);
        B::law_identity(a.1);
    }

    proof fn law_associative(a: (SA, SB), b: (SA, SB), c: (SA, SB)) {
        A::law_associative(a.0, b.0, c.0);
        B::law_associative(a.1, b.1, c.1);
    }

    open spec fn holds(acc: Self::Acc, a: (SA, SB), state: Tree) -> bool {
        A::holds(acc.0, a.0, state) && B::holds(acc.1, a.1, state)
    }

    proof fn law_stored_is_held(acc: Self::Acc, a: (SA, SB), state: Tree) {
        let (sources, values) = (<(A, B) as Primitive<(SA, SB)>>::sources(acc), <(A, B) as Primitive<(SA, SB)>>::entry_values(a));
        let (s0, v0) = (A::sources(acc.0), A::entry_values(a.0));
        let (s1, v1) = (B::sources(acc.1), B::entry_values(a.1));
        A::law_value_fills_its_sources(acc.0, a.0);
        B::law_value_fills_its_sources(acc.1, a.1);
        assert forall|k: int| 0 <= k < s0.len() implies lookup(state, (#[trigger] s0[k]).keys())
            == Some(Tree::Cell(v0[k])) by {
            assert(sources[k] == s0[k]);
            assert(values[k] == v0[k]);
        }
        assert forall|k: int| 0 <= k < s1.len() implies lookup(state, (#[trigger] s1[k]).keys())
            == Some(Tree::Cell(v1[k])) by {
            assert(sources[k + s0.len()] == s1[k]);
            assert(values[k + s0.len()] == v1[k]);
        }
        A::law_stored_is_held(acc.0, a.0, state);
        B::law_stored_is_held(acc.1, a.1, state);
    }

    proof fn law_one_value_is_held(acc: Self::Acc, a: (SA, SB), b: (SA, SB), state: Tree) {
        A::law_one_value_is_held(acc.0, a.0, b.0, state);
        B::law_one_value_is_held(acc.1, a.1, b.1, state);
    }

    proof fn law_held_in_its_cells(
        layout: BlockLayout,
        start: nat,
        a: (SA, SB),
        one: Tree,
        two: Tree,
    ) {
        A::law_held_in_its_cells(layout, start, a.0, one, two);
        B::law_held_in_its_cells(layout, start + A::acc_fields(), a.1, one, two);
    }

    proof fn law_ledger_sums(layout: BlockLayout, start: nat, a: (SA, SB), b: (SA, SB), state: Tree) {
        law_pair_steps_each::<A, B, SA, SB>(layout, start, b, state);
        A::law_ledger_sums(layout, start, a.0, b.0, state);
        B::law_ledger_sums(layout, start + A::acc_fields(), a.1, b.1, state);
        if let Some(next) = Self::combine_effect(Self::acc_at(layout, start), b)(state) {
            let own = A::combine_effect(A::acc_at(layout, start), b.0)(state)->0;
            A::law_held_in_its_cells(layout, start, A::sum(a.0, b.0), own, next);
            let own = B::combine_effect(B::acc_at(layout, start + A::acc_fields()), b.1)(state)->0;
            B::law_held_in_its_cells(layout, start + A::acc_fields(), B::sum(a.1, b.1), own, next);
        }
    }

    fn identity(c: &mut Circuit3) -> (r: (SA, SB)) {
        (A::identity(c), B::identity(c))
    }

    fn combine(c: &mut Circuit3, a: (SA, SB), b: (SA, SB)) -> (r: (SA, SB)) {
        (A::combine(c, a.0, b.0), B::combine(c, a.1, b.1))
    }
}

impl<A: Monoid<SA>, B: Monoid<SB>, C: Monoid<SC>, SA, SB, SC> Monoid<(SA, SB, SC)> for (A, B, C) {
    open spec fn unit() -> (SA, SB, SC) {
        (A::unit(), B::unit(), C::unit())
    }

    open spec fn sum(a: (SA, SB, SC), b: (SA, SB, SC)) -> (SA, SB, SC) {
        (A::sum(a.0, b.0), B::sum(a.1, b.1), C::sum(a.2, b.2))
    }

    open spec fn fits(a: (SA, SB, SC), b: (SA, SB, SC)) -> bool {
        A::fits(a.0, b.0) && B::fits(a.1, b.1) && C::fits(a.2, b.2)
    }

    open spec fn is_value(a: (SA, SB, SC)) -> bool {
        A::is_value(a.0) && B::is_value(a.1) && C::is_value(a.2)
    }

    proof fn law_identity(a: (SA, SB, SC)) {
        A::law_identity(a.0);
        B::law_identity(a.1);
        C::law_identity(a.2);
    }

    proof fn law_associative(a: (SA, SB, SC), b: (SA, SB, SC), c: (SA, SB, SC)) {
        A::law_associative(a.0, b.0, c.0);
        B::law_associative(a.1, b.1, c.1);
        C::law_associative(a.2, b.2, c.2);
    }

    open spec fn holds(acc: Self::Acc, a: (SA, SB, SC), state: Tree) -> bool {
        A::holds(acc.0, a.0, state) && B::holds(acc.1, a.1, state) && C::holds(acc.2, a.2, state)
    }

    proof fn law_stored_is_held(acc: Self::Acc, a: (SA, SB, SC), state: Tree) {
        let (sources, values) = (<(A, B, C) as Primitive<(SA, SB, SC)>>::sources(acc), <(A, B, C) as Primitive<(SA, SB, SC)>>::entry_values(a));
        let (s0, v0) = (A::sources(acc.0), A::entry_values(a.0));
        let (s1, v1) = (B::sources(acc.1), B::entry_values(a.1));
        let (s2, v2) = (C::sources(acc.2), C::entry_values(a.2));
        A::law_value_fills_its_sources(acc.0, a.0);
        B::law_value_fills_its_sources(acc.1, a.1);
        C::law_value_fills_its_sources(acc.2, a.2);
        assert forall|k: int| 0 <= k < s0.len() implies lookup(state, (#[trigger] s0[k]).keys())
            == Some(Tree::Cell(v0[k])) by {
            assert(sources[k] == s0[k]);
            assert(values[k] == v0[k]);
        }
        assert forall|k: int| 0 <= k < s1.len() implies lookup(state, (#[trigger] s1[k]).keys())
            == Some(Tree::Cell(v1[k])) by {
            assert(sources[k + s0.len()] == s1[k]);
            assert(values[k + s0.len()] == v1[k]);
        }
        assert forall|k: int| 0 <= k < s2.len() implies lookup(state, (#[trigger] s2[k]).keys())
            == Some(Tree::Cell(v2[k])) by {
            assert(sources[k + s0.len() + s1.len()] == s2[k]);
            assert(values[k + s0.len() + s1.len()] == v2[k]);
        }
        A::law_stored_is_held(acc.0, a.0, state);
        B::law_stored_is_held(acc.1, a.1, state);
        C::law_stored_is_held(acc.2, a.2, state);
    }

    proof fn law_one_value_is_held(acc: Self::Acc, a: (SA, SB, SC), b: (SA, SB, SC), state: Tree) {
        A::law_one_value_is_held(acc.0, a.0, b.0, state);
        B::law_one_value_is_held(acc.1, a.1, b.1, state);
        C::law_one_value_is_held(acc.2, a.2, b.2, state);
    }

    proof fn law_held_in_its_cells(
        layout: BlockLayout,
        start: nat,
        a: (SA, SB, SC),
        one: Tree,
        two: Tree,
    ) {
        A::law_held_in_its_cells(layout, start, a.0, one, two);
        B::law_held_in_its_cells(layout, start + A::acc_fields(), a.1, one, two);
        C::law_held_in_its_cells(layout, start + A::acc_fields() + B::acc_fields(), a.2, one, two);
    }

    proof fn law_ledger_sums(layout: BlockLayout, start: nat, a: (SA, SB, SC), b: (SA, SB, SC), state: Tree) {
        law_triple_steps_each::<A, B, C, SA, SB, SC>(layout, start, b, state);
        A::law_ledger_sums(layout, start, a.0, b.0, state);
        B::law_ledger_sums(layout, start + A::acc_fields(), a.1, b.1, state);
        C::law_ledger_sums(layout, start + A::acc_fields() + B::acc_fields(), a.2, b.2, state);
        if let Some(next) = Self::combine_effect(Self::acc_at(layout, start), b)(state) {
            let own = A::combine_effect(A::acc_at(layout, start), b.0)(state)->0;
            A::law_held_in_its_cells(layout, start, A::sum(a.0, b.0), own, next);
            let own = B::combine_effect(B::acc_at(layout, start + A::acc_fields()), b.1)(state)->0;
            B::law_held_in_its_cells(layout, start + A::acc_fields(), B::sum(a.1, b.1), own, next);
            let own = C::combine_effect(C::acc_at(layout, start + A::acc_fields() + B::acc_fields()), b.2)(state)->0;
            C::law_held_in_its_cells(layout, start + A::acc_fields() + B::acc_fields(), C::sum(a.2, b.2), own, next);
        }
    }

    fn identity(c: &mut Circuit3) -> (r: (SA, SB, SC)) {
        (A::identity(c), B::identity(c), C::identity(c))
    }

    fn combine(c: &mut Circuit3, a: (SA, SB, SC), b: (SA, SB, SC)) -> (r: (SA, SB, SC)) {
        (A::combine(c, a.0, b.0), B::combine(c, a.1, b.1), C::combine(c, a.2, b.2))
    }
}

impl<A: Monoid<SA>, B: Monoid<SB>, C: Monoid<SC>, D: Monoid<SD>, SA, SB, SC, SD> Monoid<(SA, SB, SC, SD)> for (A, B, C, D) {
    open spec fn unit() -> (SA, SB, SC, SD) {
        (A::unit(), B::unit(), C::unit(), D::unit())
    }

    open spec fn sum(a: (SA, SB, SC, SD), b: (SA, SB, SC, SD)) -> (SA, SB, SC, SD) {
        (A::sum(a.0, b.0), B::sum(a.1, b.1), C::sum(a.2, b.2), D::sum(a.3, b.3))
    }

    open spec fn fits(a: (SA, SB, SC, SD), b: (SA, SB, SC, SD)) -> bool {
        A::fits(a.0, b.0) && B::fits(a.1, b.1) && C::fits(a.2, b.2) && D::fits(a.3, b.3)
    }

    open spec fn is_value(a: (SA, SB, SC, SD)) -> bool {
        A::is_value(a.0) && B::is_value(a.1) && C::is_value(a.2) && D::is_value(a.3)
    }

    proof fn law_identity(a: (SA, SB, SC, SD)) {
        A::law_identity(a.0);
        B::law_identity(a.1);
        C::law_identity(a.2);
        D::law_identity(a.3);
    }

    proof fn law_associative(a: (SA, SB, SC, SD), b: (SA, SB, SC, SD), c: (SA, SB, SC, SD)) {
        A::law_associative(a.0, b.0, c.0);
        B::law_associative(a.1, b.1, c.1);
        C::law_associative(a.2, b.2, c.2);
        D::law_associative(a.3, b.3, c.3);
    }

    open spec fn holds(acc: Self::Acc, a: (SA, SB, SC, SD), state: Tree) -> bool {
        A::holds(acc.0, a.0, state) && B::holds(acc.1, a.1, state) && C::holds(acc.2, a.2, state) && D::holds(acc.3, a.3, state)
    }

    proof fn law_stored_is_held(acc: Self::Acc, a: (SA, SB, SC, SD), state: Tree) {
        let (sources, values) = (<(A, B, C, D) as Primitive<(SA, SB, SC, SD)>>::sources(acc), <(A, B, C, D) as Primitive<(SA, SB, SC, SD)>>::entry_values(a));
        let (s0, v0) = (A::sources(acc.0), A::entry_values(a.0));
        let (s1, v1) = (B::sources(acc.1), B::entry_values(a.1));
        let (s2, v2) = (C::sources(acc.2), C::entry_values(a.2));
        let (s3, v3) = (D::sources(acc.3), D::entry_values(a.3));
        A::law_value_fills_its_sources(acc.0, a.0);
        B::law_value_fills_its_sources(acc.1, a.1);
        C::law_value_fills_its_sources(acc.2, a.2);
        D::law_value_fills_its_sources(acc.3, a.3);
        assert forall|k: int| 0 <= k < s0.len() implies lookup(state, (#[trigger] s0[k]).keys())
            == Some(Tree::Cell(v0[k])) by {
            assert(sources[k] == s0[k]);
            assert(values[k] == v0[k]);
        }
        assert forall|k: int| 0 <= k < s1.len() implies lookup(state, (#[trigger] s1[k]).keys())
            == Some(Tree::Cell(v1[k])) by {
            assert(sources[k + s0.len()] == s1[k]);
            assert(values[k + s0.len()] == v1[k]);
        }
        assert forall|k: int| 0 <= k < s2.len() implies lookup(state, (#[trigger] s2[k]).keys())
            == Some(Tree::Cell(v2[k])) by {
            assert(sources[k + s0.len() + s1.len()] == s2[k]);
            assert(values[k + s0.len() + s1.len()] == v2[k]);
        }
        assert forall|k: int| 0 <= k < s3.len() implies lookup(state, (#[trigger] s3[k]).keys())
            == Some(Tree::Cell(v3[k])) by {
            assert(sources[k + s0.len() + s1.len() + s2.len()] == s3[k]);
            assert(values[k + s0.len() + s1.len() + s2.len()] == v3[k]);
        }
        A::law_stored_is_held(acc.0, a.0, state);
        B::law_stored_is_held(acc.1, a.1, state);
        C::law_stored_is_held(acc.2, a.2, state);
        D::law_stored_is_held(acc.3, a.3, state);
    }

    proof fn law_one_value_is_held(acc: Self::Acc, a: (SA, SB, SC, SD), b: (SA, SB, SC, SD), state: Tree) {
        A::law_one_value_is_held(acc.0, a.0, b.0, state);
        B::law_one_value_is_held(acc.1, a.1, b.1, state);
        C::law_one_value_is_held(acc.2, a.2, b.2, state);
        D::law_one_value_is_held(acc.3, a.3, b.3, state);
    }

    proof fn law_held_in_its_cells(
        layout: BlockLayout,
        start: nat,
        a: (SA, SB, SC, SD),
        one: Tree,
        two: Tree,
    ) {
        A::law_held_in_its_cells(layout, start, a.0, one, two);
        B::law_held_in_its_cells(layout, start + A::acc_fields(), a.1, one, two);
        C::law_held_in_its_cells(layout, start + A::acc_fields() + B::acc_fields(), a.2, one, two);
        D::law_held_in_its_cells(layout, start + A::acc_fields() + B::acc_fields() + C::acc_fields(), a.3, one, two);
    }

    proof fn law_ledger_sums(layout: BlockLayout, start: nat, a: (SA, SB, SC, SD), b: (SA, SB, SC, SD), state: Tree) {
        law_quadruple_steps_each::<A, B, C, D, SA, SB, SC, SD>(layout, start, b, state);
        A::law_ledger_sums(layout, start, a.0, b.0, state);
        B::law_ledger_sums(layout, start + A::acc_fields(), a.1, b.1, state);
        C::law_ledger_sums(layout, start + A::acc_fields() + B::acc_fields(), a.2, b.2, state);
        D::law_ledger_sums(layout, start + A::acc_fields() + B::acc_fields() + C::acc_fields(), a.3, b.3, state);
        if let Some(next) = Self::combine_effect(Self::acc_at(layout, start), b)(state) {
            let own = A::combine_effect(A::acc_at(layout, start), b.0)(state)->0;
            A::law_held_in_its_cells(layout, start, A::sum(a.0, b.0), own, next);
            let own = B::combine_effect(B::acc_at(layout, start + A::acc_fields()), b.1)(state)->0;
            B::law_held_in_its_cells(layout, start + A::acc_fields(), B::sum(a.1, b.1), own, next);
            let own = C::combine_effect(C::acc_at(layout, start + A::acc_fields() + B::acc_fields()), b.2)(state)->0;
            C::law_held_in_its_cells(layout, start + A::acc_fields() + B::acc_fields(), C::sum(a.2, b.2), own, next);
            let own = D::combine_effect(D::acc_at(layout, start + A::acc_fields() + B::acc_fields() + C::acc_fields()), b.3)(state)->0;
            D::law_held_in_its_cells(layout, start + A::acc_fields() + B::acc_fields() + C::acc_fields(), D::sum(a.3, b.3), own, next);
        }
    }

    fn identity(c: &mut Circuit3) -> (r: (SA, SB, SC, SD)) {
        (A::identity(c), B::identity(c), C::identity(c), D::identity(c))
    }

    fn combine(c: &mut Circuit3, a: (SA, SB, SC, SD), b: (SA, SB, SC, SD)) -> (r: (SA, SB, SC, SD)) {
        (A::combine(c, a.0, b.0), B::combine(c, a.1, b.1), C::combine(c, a.2, b.2), D::combine(c, a.3, b.3))
    }
}

/// A pair sums each component as that component does.
pub proof fn law_pair_sums_each<A: Monoid<SA>, B: Monoid<SB>, SA, SB>(a: (SA, SB), b: (SA, SB))
    ensures
        <(A, B) as Monoid<(SA, SB)>>::unit().0 == A::unit(),
        <(A, B) as Monoid<(SA, SB)>>::sum(a, b).0 == A::sum(a.0, b.0),
        <(A, B) as Monoid<(SA, SB)>>::unit().1 == B::unit(),
        <(A, B) as Monoid<(SA, SB)>>::sum(a, b).1 == B::sum(a.1, b.1),
        <(A, B) as Monoid<(SA, SB)>>::fits(a, b) <==> A::fits(a.0, b.0) && B::fits(a.1, b.1),
        <(A, B) as Monoid<(SA, SB)>>::is_value(a) <==> A::is_value(a.0) && B::is_value(a.1),
{
}

/// A triple sums each component as that component does.
pub proof fn law_triple_sums_each<A: Monoid<SA>, B: Monoid<SB>, C: Monoid<SC>, SA, SB, SC>(a: (SA, SB, SC), b: (SA, SB, SC))
    ensures
        <(A, B, C) as Monoid<(SA, SB, SC)>>::unit().0 == A::unit(),
        <(A, B, C) as Monoid<(SA, SB, SC)>>::sum(a, b).0 == A::sum(a.0, b.0),
        <(A, B, C) as Monoid<(SA, SB, SC)>>::unit().1 == B::unit(),
        <(A, B, C) as Monoid<(SA, SB, SC)>>::sum(a, b).1 == B::sum(a.1, b.1),
        <(A, B, C) as Monoid<(SA, SB, SC)>>::unit().2 == C::unit(),
        <(A, B, C) as Monoid<(SA, SB, SC)>>::sum(a, b).2 == C::sum(a.2, b.2),
        <(A, B, C) as Monoid<(SA, SB, SC)>>::fits(a, b) <==> A::fits(a.0, b.0) && B::fits(a.1, b.1) && C::fits(a.2, b.2),
        <(A, B, C) as Monoid<(SA, SB, SC)>>::is_value(a) <==> A::is_value(a.0) && B::is_value(a.1) && C::is_value(a.2),
{
}

/// A quadruple sums each component as that component does.
pub proof fn law_quadruple_sums_each<A: Monoid<SA>, B: Monoid<SB>, C: Monoid<SC>, D: Monoid<SD>, SA, SB, SC, SD>(a: (SA, SB, SC, SD), b: (SA, SB, SC, SD))
    ensures
        <(A, B, C, D) as Monoid<(SA, SB, SC, SD)>>::unit().0 == A::unit(),
        <(A, B, C, D) as Monoid<(SA, SB, SC, SD)>>::sum(a, b).0 == A::sum(a.0, b.0),
        <(A, B, C, D) as Monoid<(SA, SB, SC, SD)>>::unit().1 == B::unit(),
        <(A, B, C, D) as Monoid<(SA, SB, SC, SD)>>::sum(a, b).1 == B::sum(a.1, b.1),
        <(A, B, C, D) as Monoid<(SA, SB, SC, SD)>>::unit().2 == C::unit(),
        <(A, B, C, D) as Monoid<(SA, SB, SC, SD)>>::sum(a, b).2 == C::sum(a.2, b.2),
        <(A, B, C, D) as Monoid<(SA, SB, SC, SD)>>::unit().3 == D::unit(),
        <(A, B, C, D) as Monoid<(SA, SB, SC, SD)>>::sum(a, b).3 == D::sum(a.3, b.3),
        <(A, B, C, D) as Monoid<(SA, SB, SC, SD)>>::fits(a, b) <==> A::fits(a.0, b.0) && B::fits(a.1, b.1) && C::fits(a.2, b.2) && D::fits(a.3, b.3),
        <(A, B, C, D) as Monoid<(SA, SB, SC, SD)>>::is_value(a) <==> A::is_value(a.0) && B::is_value(a.1) && C::is_value(a.2) && D::is_value(a.3),
{
}

/// What a snapshot map and a first-wins accumulator start as: no entries; the value's
/// default, and nothing written yet.
pub proof fn law_accumulators_start_empty<S: LedgerRepr>(map: SnapshotMap<S>, acc: FirstAcc<S>)
    ensures
        map.contributions() == seq![
            Contribution { path: map.path@, value: Tree::Mapping(Map::empty()), sealed: false },
        ],
        acc.contributions() == seq![
            Contribution {
                path: acc.value.path@,
                value: Tree::Cell(stored_default::<S>()),
                sealed: false,
            },
            Contribution {
                path: acc.written.path@,
                value: Tree::Cell(stored_default::<Bool<Public>>()),
                sealed: false,
            },
        ],
{
    assert(acc.contributions() =~= seq![
        Contribution {
            path: acc.value.path@,
            value: Tree::Cell(stored_default::<S>()),
            sealed: false,
        },
        Contribution {
            path: acc.written.path@,
            value: Tree::Cell(stored_default::<Bool<Public>>()),
            sealed: false,
        },
    ]);
}

// ---- the two sides agree ------------------------------------------------------------------------

proof fn lemma_at_path_reads_back(state: Tree, path: Seq<Aligned>, effect: Effect)
    requires
        lookup(state, path) is Some,
    ensures
        match effect(lookup(state, path)->0) {
            Some(node) => at_path(path, effect)(state) matches Some(next) && lookup(next, path)
                == Some(node),
            None => at_path(path, effect)(state) is None,
        },
{
    if let Some(node) = effect(lookup(state, path)->0) {
        law_written_where_read(state, path, node);
        law_write_reads_back(state, path, node);
    }
}

/// The ledger adds as the circuit does, and fails where the sum does not fit.
pub proof fn law_ledger_adds<const BITS: u32>(
    state: Tree,
    acc: LedgerCell<Uint<BITS, Public>>,
    a: Uint<BITS, Public>,
    b: Uint<BITS, Public>,
) where Uint<BITS, Public>: CellArith
    requires
        a.fits(),
        b.fits(),
        lookup(state, acc.path.keys()) == Some(Tree::Cell(stored(a))),
    ensures
        match <Add as Primitive<Uint<BITS, Public>>>::combine_effect(acc, b)(state) {
            Some(next) => Add::fits(a, b) && (lookup(next, acc.path.keys()) matches Some(node)
                && as_number(node) == Some(Add::sum(a, b).value@ as u64)),
            None => !Add::fits(a, b),
        },
{
    lemma_width::<BITS>();
    let (path, width) = (acc.path.keys(), byte_width(BITS) as nat);
    assert(stored(a) =~= number(a.value@, width));
    assert(stored(b) =~= number(b.value@, width));
    law_number_round_trip(a.value@ as u64, width);
    law_number_round_trip(b.value@ as u64, width);
    if a.value@ + b.value@ <= u64::MAX {
        law_number_round_trip((a.value@ + b.value@) as u64, 8);
    }
    lemma_at_path_reads_back(state, path, added(stored(b)));
}

/// The ledger keeps the larger number, as the circuit does.
pub proof fn law_ledger_keeps_the_larger<const BITS: u32>(
    state: Tree,
    acc: LedgerCell<Uint<BITS, Public>>,
    a: Uint<BITS, Public>,
    b: Uint<BITS, Public>,
) where Uint<BITS, Public>: CellArith
    requires
        a.fits(),
        b.fits(),
        lookup(state, acc.path.keys()) == Some(Tree::Cell(stored(a))),
    ensures
        match <Max as Primitive<Uint<BITS, Public>>>::combine_effect(acc, b)(state) {
            Some(next) => lookup(next, acc.path.keys()) matches Some(node)
                && as_number(node) == Some(Max::sum(a, b).value@ as u64),
            None => false,
        },
{
    lemma_width::<BITS>();
    let (path, width) = (acc.path.keys(), byte_width(BITS) as nat);
    assert(stored(a) =~= number(a.value@, width));
    assert(stored(b) =~= number(b.value@, width));
    law_number_round_trip(a.value@ as u64, width);
    law_number_round_trip(b.value@ as u64, width);
    if a.value@ + b.value@ <= u64::MAX {
        law_number_round_trip((a.value@ + b.value@) as u64, 8);
    }
    lemma_at_path_reads_back(state, path, raised(stored(b)));
}

/// The ledger keeps the smaller number, as the circuit does.
pub proof fn law_ledger_keeps_the_smaller<const BITS: u32>(
    state: Tree,
    acc: LedgerCell<Uint<BITS, Public>>,
    a: Uint<BITS, Public>,
    b: Uint<BITS, Public>,
) where Uint<BITS, Public>: CellArith
    requires
        a.fits(),
        b.fits(),
        lookup(state, acc.path.keys()) == Some(Tree::Cell(stored(a))),
    ensures
        match <Min as Primitive<Uint<BITS, Public>>>::combine_effect(acc, b)(state) {
            Some(next) => lookup(next, acc.path.keys()) matches Some(node)
                && as_number(node) == Some(Min::sum(a, b).value@ as u64),
            None => false,
        },
{
    lemma_width::<BITS>();
    let (path, width) = (acc.path.keys(), byte_width(BITS) as nat);
    assert(stored(a) =~= number(a.value@, width));
    assert(stored(b) =~= number(b.value@, width));
    law_number_round_trip(a.value@ as u64, width);
    law_number_round_trip(b.value@ as u64, width);
    if a.value@ + b.value@ <= u64::MAX {
        law_number_round_trip((a.value@ + b.value@) as u64, 8);
    }
    lemma_at_path_reads_back(state, path, lowered(stored(b)));
}

/// The ledger conjoins as the circuit does.
pub proof fn law_ledger_conjoins(
    state: Tree,
    acc: LedgerCell<Bool<Public>>,
    a: Bool<Public>,
    b: Bool<Public>,
)
    requires
        lookup(state, acc.path.keys()) == Some(Tree::Cell(stored(a))),
    ensures
        <And as Primitive<Bool<Public>>>::combine_effect(acc, b)(state) matches Some(next)
            && (lookup(next, acc.path.keys()) matches Some(node) && as_truth(node) == Some(
            And::sum(a, b).value,
        )),
{
    let bit = |v: bool| number(if v { 1 } else { 0 }, 1);
    assert(stored(a) =~= bit(a.value));
    assert(stored(b) =~= bit(b.value));
    law_truth_round_trip(a.value);
    law_truth_round_trip(b.value);
    law_truth_round_trip(And::sum(a, b).value);
    lemma_at_path_reads_back(state, acc.path.keys(), both(stored(b)));
}

/// The ledger disjoins as the circuit does.
pub proof fn law_ledger_disjoins(
    state: Tree,
    acc: LedgerCell<Bool<Public>>,
    a: Bool<Public>,
    b: Bool<Public>,
)
    requires
        lookup(state, acc.path.keys()) == Some(Tree::Cell(stored(a))),
    ensures
        <Or as Primitive<Bool<Public>>>::combine_effect(acc, b)(state) matches Some(next)
            && (lookup(next, acc.path.keys()) matches Some(node) && as_truth(node) == Some(
            Or::sum(a, b).value,
        )),
{
    let bit = |v: bool| number(if v { 1 } else { 0 }, 1);
    assert(stored(a) =~= bit(a.value));
    assert(stored(b) =~= bit(b.value));
    law_truth_round_trip(a.value);
    law_truth_round_trip(b.value);
    law_truth_round_trip(Or::sum(a, b).value);
    lemma_at_path_reads_back(state, acc.path.keys(), either(stored(b)));
}

/// What the sums of numbers are, and their identities: the total, from zero; the
/// larger of the two, from zero; the smaller of the two, from a number of the
/// type that none exceeds.
pub proof fn law_number_sums<const BITS: u32>(a: Uint<BITS, Public>, b: Uint<BITS, Public>) where
    Uint<BITS, Public>: CellArith,

    ensures
        Add::fits(a, b) <==> a.value@ + b.value@ <= u64::MAX,
        Add::fits(a, b) ==> Add::sum(a, b).value@ == a.value@ + b.value@,
        <Add as Monoid<Uint<BITS, Public>>>::unit().value@ == 0,
        Max::sum(a, b) == a || Max::sum(a, b) == b,
        Max::sum(a, b).value@ >= a.value@,
        Max::sum(a, b).value@ >= b.value@,
        <Max as Monoid<Uint<BITS, Public>>>::unit().value@ == 0,
        Min::sum(a, b) == a || Min::sum(a, b) == b,
        Min::sum(a, b).value@ <= a.value@,
        Min::sum(a, b).value@ <= b.value@,
        <Min as Monoid<Uint<BITS, Public>>>::unit().fits(),
        a.fits() ==> a.value@ <= <Min as Monoid<Uint<BITS, Public>>>::unit().value@,
{
    lemma_width::<BITS>();
    if a.value@ + b.value@ <= u64::MAX {
        lemma_exactly(a.value@ + b.value@);
    }
}

/// What the sums of truth values are, and their identities.
pub proof fn law_truth_sums(a: Bool<Public>, b: Bool<Public>)
    ensures
        And::sum(a, b).value <==> a.value && b.value,
        <And as Monoid<Bool<Public>>>::unit().value,
        Or::sum(a, b).value <==> a.value || b.value,
        !<Or as Monoid<Bool<Public>>>::unit().value,
{
}

/// The delta itself is written, wherever there is a cell.
pub proof fn law_last_writes_the_delta<S: LedgerRepr>(state: Tree, acc: LedgerCell<S>, delta: S)
    ensures
        match Last::combine_effect(acc, delta)(state) {
            Some(next) => lookup(next, acc.path.keys()) == Some(Tree::Cell(stored(delta))),
            None => lookup(state, acc.path.keys()) is None,
        },
{
    law_written_where_read(state, acc.path.keys(), Tree::Cell(stored(delta)));
    if lookup(state, acc.path.keys()) is Some {
        law_write_reads_back(state, acc.path.keys(), Tree::Cell(stored(delta)));
    }
}

/// The delta is written, and the flag set, where the flag is there and unset;
/// where it is set everything stays.
pub proof fn law_first_writes_once<S: LedgerRepr>(
    layout: BlockLayout,
    start: nat,
    delta: S,
    state: Tree,
    set: bool,
)
    requires
        start + 2 <= layout.total() <= MAX_FIELDS,
        lookup(state, layout.field(start).keys()) is Some,
        lookup(state, layout.field(start + 1).keys()) == Some(truth(set)),
    ensures
        <First as Primitive<S>>::combine_effect(
            <First as Primitive<S>>::acc_at(layout, start),
            delta,
        )(state) matches Some(next) && if set {
            next == state
        } else {
            lookup(next, layout.field(start).keys()) == Some(Tree::Cell(stored(delta))) && lookup(
                next,
                layout.field(start + 1).keys(),
            ) == Some(truth(true))
        },
{
    lemma_bits_differ();
    lemma_first_lands::<S>(layout, start, stored(delta), state);
}

/// A snapshot of a cell of the last delta holds the delta.
pub proof fn law_last_is_snapshotted<S: LedgerRepr>(
    layout: BlockLayout,
    start: nat,
    other: nat,
    delta: S,
    key: Aligned,
    state: Tree,
)
    requires
        start < other < layout.total() <= MAX_FIELDS,
        lookup(state, layout.field(start).keys()) is Some,
        lookup(state, layout.field(other).keys().push(key)) is Some,
    ensures
        in_turn(
            Last::combine_effect(<Last as Primitive<S>>::acc_at(layout, start), delta),
            <Last as Primitive<S>>::snapshot_effect(
                <Last as Primitive<S>>::acc_at(layout, start),
                <Last as Primitive<S>>::snapshot_at(layout, other),
                key,
            ),
        )(state) matches Some(next) && lookup(next, layout.field(other).keys().push(key)) == Some(
            Tree::Cell(stored(delta)),
        ),
{
    let acc = <Last as Primitive<S>>::acc_at(layout, start);
    let entry = layout.field(other).keys().push(key);
    law_last_writes_the_delta(state, acc, delta);
    let mid = Last::combine_effect(acc, delta)(state)->0;
    lemma_entry_stays(layout, start, Tree::Cell(stored(delta)), state, other, key);
    law_written_where_read(mid, entry, Tree::Cell(stored(delta)));
    law_write_reads_back(mid, entry, Tree::Cell(stored(delta)));
}

proof fn lemma_entry_stays(
    layout: BlockLayout,
    start: nat,
    value: Tree,
    state: Tree,
    other: nat,
    key: Aligned,
)
    requires
        start < other < layout.total() <= MAX_FIELDS,
        update(state, layout.field(start).keys(), value) is Some,
    ensures
        lookup(
            update(state, layout.field(start).keys(), value)->0,
            layout.field(other).keys().push(key),
        ) == lookup(state, layout.field(other).keys().push(key)),
{
    let (path, field) = (layout.field(start).keys(), layout.field(other).keys());
    law_fields_part(layout, start, other, Seq::empty(), seq![key]);
    assert(path + Seq::<Aligned>::empty() =~= path);
    assert(field + seq![key] =~= field.push(key));
    law_write_keeps_the_rest(state, path, value, field.push(key));
}

/// A snapshot of a first-wins accumulator that nothing was written to holds the
/// delta, and not the flag.
pub proof fn law_first_is_snapshotted<S: LedgerRepr>(
    layout: BlockLayout,
    start: nat,
    other: nat,
    delta: S,
    key: Aligned,
    state: Tree,
)
    requires
        start + 1 < other < layout.total() <= MAX_FIELDS,
        lookup(state, layout.field(start).keys()) is Some,
        lookup(state, layout.field(start + 1).keys()) == Some(truth(false)),
        lookup(state, layout.field(other).keys().push(key)) is Some,
    ensures
        in_turn(
            First::combine_effect(<First as Primitive<S>>::acc_at(layout, start), delta),
            <First as Primitive<S>>::snapshot_effect(
                <First as Primitive<S>>::acc_at(layout, start),
                <First as Primitive<S>>::snapshot_at(layout, other),
                key,
            ),
        )(state) matches Some(next) && lookup(next, layout.field(other).keys().push(key)) == Some(
            Tree::Cell(stored(delta)),
        ),
{
    let acc = <First as Primitive<S>>::acc_at(layout, start);
    let entry = layout.field(other).keys().push(key);
    let value = Tree::Cell(stored(delta));
    law_first_writes_once(layout, start, delta, state, false);
    let next = First::combine_effect(acc, delta)(state)->0;
    let mid = update(state, layout.field(start).keys(), value)->0;
    lemma_bits_differ();
    assert(next == update(mid, layout.field(start + 1).keys(), truth(true))->0);
    lemma_entry_stays(layout, start, value, state, other, key);
    lemma_entry_stays(layout, start + 1, truth(true), mid, other, key);
    law_written_where_read(next, entry, value);
    law_write_reads_back(next, entry, value);
}

/// Of two deltas the last one wins.
pub proof fn law_last_delta_wins<S: LedgerRepr>(
    state: Tree,
    acc: LedgerCell<S>,
    first: S,
    second: S,
)
    ensures
        in_turn(Last::combine_effect(acc, first), Last::combine_effect(acc, second))(state)
            == Last::combine_effect(acc, second)(state),
{
    law_later_write_stays(
        state,
        acc.path.keys(),
        Tree::Cell(stored(first)),
        Tree::Cell(stored(second)),
    );
}

/// Of two deltas the first one wins: once one has landed, the next changes
/// nothing, and what the first wrote is still there.
pub proof fn law_first_delta_wins<S: LedgerRepr>(
    state: Tree,
    acc: FirstAcc<S>,
    first: S,
    second: S,
)
    requires
        lookup(state, acc.written.path.keys()) == Some(truth(false)),
        part(acc.written.path.keys(), acc.value.path.keys()),
        First::combine_effect(acc, first)(state) is Some,
    ensures
        in_turn(First::combine_effect(acc, first), First::combine_effect(acc, second))(state)
            == First::combine_effect(acc, first)(state),
        lookup(First::combine_effect(acc, first)(state)->0, acc.value.path.keys()) == Some(
            Tree::Cell(stored(first)),
        ),
{
    let (value, flag) = (acc.value.path.keys(), acc.written.path.keys());
    lemma_bits_differ();
    let mid = update(state, value, Tree::Cell(stored(first)))->0;
    let after = update(mid, flag, truth(true))->0;
    law_write_reads_back(state, value, Tree::Cell(stored(first)));
    law_write_reads_back(mid, flag, truth(true));
    law_write_keeps_the_rest(mid, flag, truth(true), value);
    assert(First::combine_effect(acc, first)(state) == Some(after));
}

/// A snapshot holds what the accumulator's cell holds: taken after a step, the
/// value after that step.
pub proof fn law_snapshot_holds_the_accumulator<S>(
    state: Tree,
    acc: LedgerCell<S>,
    snapshot: SnapshotMap<S>,
    key: Aligned,
)
    requires
        part(snapshot.path.keys().push(key), acc.path.keys()),
        cell_snapshot_effect(acc, snapshot, key)(state) is Some,
    ensures
        ({
            let next = cell_snapshot_effect(acc, snapshot, key)(state)->0;
            &&& lookup(next, snapshot.path.keys().push(key)) == lookup(state, acc.path.keys())
            &&& lookup(next, acc.path.keys()) == lookup(state, acc.path.keys())
        }),
{
    let node = lookup(state, acc.path.keys())->0;
    law_write_reads_back(state, snapshot.path.keys().push(key), node);
    law_write_keeps_the_rest(state, snapshot.path.keys().push(key), node, acc.path.keys());
}

proof fn lemma_bits_differ()
    ensures
        is_false(truth(false)),
        !is_false(truth(true)),
{
    law_truth_round_trip(true);
    law_truth_round_trip(false);
    let zero = number(0, 1);
    assert(trimmed(le_bytes(0, 1)).len() == 0) by {
        reveal_with_fuel(le_bytes, 2);
        reveal_with_fuel(trimmed, 3);
    }
    assert(le_value(Seq::<u8>::empty()) == 0);
}

} // verus!
