//! What a serial stream promises: what landing an insert, a flush and a take does
//! to the ledger, and that a take gives back what was stored.
use crate::assumed::{ProofWires, Select};
use crate::blind::{lemma_field_cleared, lemma_field_entered, lemma_field_written};
use crate::circuit::{fresh, law_read_gives_back_the_stored_value, lemma_stored_truth, Run};
use crate::fab::Aligned;
use crate::impact::{
    assumed, at_path, flag_of, flag_test, has_entry, in_turn, law_empty_program, law_flag_test,
    law_member_test, law_programs_compose, law_read_is_an_assumption, law_remove, law_write,
    lemma_entry, lookup, member_test, performs, present, read_member_ops, read_ops, remove_ops,
    truth, without, write_ops, written, Effect, Op,
};
use crate::ledger::LedgerPath;
use crate::stream::{
    delta_alone, flushed_key, head_alone, law_flush_is_the_plain_fold, quiet, sequenced,
    serial_combined, serial_inserted, serial_taken, Fold, Serial, Stream, StreamSpec,
};
use crate::value::Tree;
use crate::vector::{items_of, native, NonEmpty};
use crate::wire::{stored, LedgerRepr, Public};
use vstd::prelude::*;

verus! {

/// Whether field `i` of a stream holds a map.
pub open spec fn holds_entries<P: StreamSpec>(s: Stream<P>, i: nat, ledger: Tree) -> bool {
    lookup(ledger, s.at(i).keys()) matches Some(Tree::Mapping(_))
}

/// The entries of field `i` of a stream.
pub open spec fn entries_at<P: StreamSpec>(s: Stream<P>, i: nat, ledger: Tree) -> Map<
    Aligned,
    Tree,
> {
    lookup(ledger, s.at(i).keys())->0->Mapping_0
}

// ---- insert ---------------------------------------------------------------------------------

/// The ops of a serial insert that finds its key absent.
pub open spec fn serial_insert_ops<P: StreamSpec>(
    s: Stream<P>,
    key: P::Key,
    body: P::Body,
    head: P::Head,
) -> Seq<Op> where P::Head: LedgerRepr {
    let k = stored(key);
    read_member_ops(s.at(0).keys(), k, false) + write_ops(
        s.at(1).keys().push(k),
        stored(head),
    ) + write_ops(s.at(0).keys().push(k), stored(body))
}

/// What landing a serial insert does to the ledger: a failure where the key is
/// there.
pub open spec fn serial_insert_landed<P: StreamSpec>(
    s: Stream<P>,
    key: P::Key,
    body: P::Body,
    head: P::Head,
) -> Effect where P::Head: LedgerRepr {
    let k = stored(key);
    in_turn(
        in_turn(
            assumed(present(s.at(0).keys(), k), truth(false)->Cell_0),
            written(s.at(1).keys().push(k), Tree::Cell(stored(head))),
        ),
        written(s.at(0).keys().push(k), Tree::Cell(stored(body))),
    )
}

/// A serial insert emits that program, and it does that.
pub proof fn law_serial_insert_lands<P: StreamSpec>(
    s: Stream<P>,
    run: Run,
    key: P::Key,
    body: P::Body,
) where P::Head: LedgerRepr
    requires
        quiet::<P>(),
        run.guard,
        run.supplied.len() > 0,
        run.supplied[0] == truth(false)->Cell_0.value,
    ensures
        serial_inserted(s, run, key, body) == (Run {
            ops: run.ops + serial_insert_ops(s, key, body, head_alone::<P>(body)),
            supplied: run.supplied.skip(1),
            ..run
        }),
        performs(
            serial_insert_ops(s, key, body, head_alone::<P>(body)),
            serial_insert_landed(s, key, body, head_alone::<P>(body)),
        ),
{
    let (bodies, heads, k) = (s.at(0).keys(), s.at(1).keys(), stored(key));
    let (no, head) = (truth(false)->Cell_0, head_alone::<P>(body));
    lemma_stored_truth(false);
    let (one, there) = run.read_member(bodies, k);
    let first = one.check(!there, "Stream key already present"@);
    assert(P::head_of(first, body) == (first, head));
    assert(serial_inserted(s, run, key, body).ops =~= run.ops + serial_insert_ops(
        s,
        key,
        body,
        head,
    ));
    law_member_test(bodies, k);
    law_read_is_an_assumption(member_test(bodies, k), present(bodies, k), no);
    law_write(heads.push(k), stored(head));
    law_write(bodies.push(k), stored(body));
    law_programs_compose(
        read_member_ops(bodies, k, false),
        assumed(present(bodies, k), no),
        write_ops(heads.push(k), stored(head)),
        written(heads.push(k), Tree::Cell(stored(head))),
    );
    law_programs_compose(
        read_member_ops(bodies, k, false) + write_ops(heads.push(k), stored(head)),
        in_turn(
            assumed(present(bodies, k), no),
            written(heads.push(k), Tree::Cell(stored(head))),
        ),
        write_ops(bodies.push(k), stored(body)),
        written(bodies.push(k), Tree::Cell(stored(body))),
    );
}

/// A serial insert is a pure insert: it lands where its key is not there, and
/// exactly there; the key then has the body and its head, and every other entry
/// and every other field of the block, the accumulator among them, is as it was.
pub proof fn law_serial_insert_stores<P: StreamSpec>(
    s: Stream<P>,
    key: P::Key,
    body: P::Body,
    head: P::Head,
    ledger: Tree,
) where P::Head: LedgerRepr
    requires
        s.has_room(3),
        holds_entries(s, 0, ledger),
        holds_entries(s, 1, ledger),
    ensures
        match serial_insert_landed(s, key, body, head)(ledger) {
            None => has_entry(ledger, s.at(0).keys(), stored(key)),
            Some(next) => !has_entry(ledger, s.at(0).keys(), stored(key)) && forall|f: nat|
                f < s.layout().total() ==> lookup(next, (#[trigger] s.layout().field(f)).keys())
                    == if f == s.start() {
                    Some(
                        Tree::Mapping(
                            entries_at(s, 0, ledger).insert(stored(key), Tree::Cell(stored(body))),
                        ),
                    )
                } else if f == s.start() + 1 {
                    Some(
                        Tree::Mapping(
                            entries_at(s, 1, ledger).insert(stored(key), Tree::Cell(stored(head))),
                        ),
                    )
                } else {
                    lookup(ledger, s.layout().field(f).keys())
                },
        },
{
    let (layout, start, k) = (s.layout(), s.start(), stored(key));
    assert(s.at(0) == layout.field(start) && s.at(1) == layout.field(start + 1));
    if !has_entry(ledger, s.at(0).keys(), k) {
        lemma_field_entered(layout, start + 1, k, Tree::Cell(stored(head)), ledger);
        let mid = written(s.at(1).keys().push(k), Tree::Cell(stored(head)))(ledger)->0;
        assert(lookup(mid, layout.field(start).keys()) == lookup(
            ledger,
            layout.field(start).keys(),
        ));
        lemma_field_entered(layout, start, k, Tree::Cell(stored(body)), mid);
        let next = written(s.at(0).keys().push(k), Tree::Cell(stored(body)))(mid)->0;
        assert(serial_insert_landed(s, key, body, head)(ledger) == Some(next));
    } else {
        assert(truth(true) != truth(false)) by {
            lemma_stored_truth(true);
            lemma_stored_truth(false);
        }
    }
}

// ---- take -----------------------------------------------------------------------------------

/// The ops of a serial take that finds this body and this state.
pub open spec fn serial_take_ops<P: StreamSpec>(
    s: Stream<P>,
    key: P::Key,
    body: P::Body,
    state: P::State,
) -> Seq<Op> where P::State: LedgerRepr {
    let (bodies, staged, k) = (s.at(0).keys(), s.at(3).keys(), stored(key));
    read_member_ops(staged, k, true) + read_ops(staged.push(k), stored(state)) + remove_ops(
        staged,
        k,
    ) + read_ops(bodies.push(k), stored(body)) + remove_ops(bodies, k)
}

/// What landing a serial take does to the ledger: a failure where the ledger
/// holds something else under the key.
pub open spec fn serial_take_landed<P: StreamSpec>(
    s: Stream<P>,
    key: P::Key,
    body: P::Body,
    state: P::State,
) -> Effect where P::State: LedgerRepr {
    let (bodies, staged, k) = (s.at(0).keys(), s.at(3).keys(), stored(key));
    in_turn(
        in_turn(
            in_turn(
                in_turn(
                    assumed(present(staged, k), truth(true)->Cell_0),
                    assumed(flag_of(staged.push(k)), stored(state)),
                ),
                at_path(staged, without(k)),
            ),
            assumed(flag_of(bodies.push(k)), stored(body)),
        ),
        at_path(bodies, without(k)),
    )
}

/// A serial take gives back what is stored under its key: run against what the
/// ledger holds there, it returns the body and the staged state, nothing unmet,
/// and emits the program that takes them.
pub proof fn law_serial_take_gives_back_what_is_stored<P: StreamSpec>(
    s: Stream<P>,
    run: Run,
    key: P::Key,
    body: P::Body,
    state: P::State,
    more: Seq<Seq<Seq<u8>>>,
) where P::State: LedgerRepr
    requires
        run.guard,
        body.storable(),
        state.storable(),
        run.supplied == seq![truth(true)->Cell_0.value, stored(state).value, stored(body).value]
            + more,
    ensures
        serial_taken(s, run, key) == (
            Run { ops: run.ops + serial_take_ops(s, key, body, state), supplied: more, ..run },
            body,
            state,
        ),
        performs(
            serial_take_ops(s, key, body, state),
            serial_take_landed(s, key, body, state),
        ),
{
    let (bodies, staged, k) = (s.at(0).keys(), s.at(3).keys(), stored(key));
    let yes = truth(true)->Cell_0;
    lemma_stored_truth(true);
    let (one, there) = run.read_member(staged, k);
    let first = one.check(there, "Stream key not sequenced"@);
    assert(first.supplied =~= seq![stored(state).value, stored(body).value] + more);
    assert(first.supplied[0] == state.limbs());
    law_read_gives_back_the_stored_value(first, staged.push(k), state);
    let second = first.read::<P::State>(staged.push(k)).0.emit(remove_ops(staged, k));
    assert(second.supplied =~= seq![stored(body).value] + more);
    assert(second.supplied[0] == body.limbs());
    law_read_gives_back_the_stored_value(second, bodies.push(k), body);
    assert(second.supplied.skip(1) =~= more);
    assert(serial_taken(s, run, key).0.ops =~= run.ops + serial_take_ops(s, key, body, state));
    law_member_test(staged, k);
    law_read_is_an_assumption(member_test(staged, k), present(staged, k), yes);
    let (a, f) = (read_member_ops(staged, k, true), assumed(present(staged, k), yes));
    let (b, g) = (
        read_ops(staged.push(k), stored(state)),
        assumed(flag_of(staged.push(k)), stored(state)),
    );
    law_programs_compose(a, f, b, g);
    let (a, f) = (a + b, in_turn(f, g));
    law_remove(staged, k);
    let (b, g) = (remove_ops(staged, k), at_path(staged, without(k)));
    law_programs_compose(a, f, b, g);
    let (a, f) = (a + b, in_turn(f, g));
    let (b, g) = (
        read_ops(bodies.push(k), stored(body)),
        assumed(flag_of(bodies.push(k)), stored(body)),
    );
    law_programs_compose(a, f, b, g);
    let (a, f) = (a + b, in_turn(f, g));
    law_remove(bodies, k);
    law_programs_compose(a, f, remove_ops(bodies, k), at_path(bodies, without(k)));
}

/// A serial take lands where the key is staged with this state and has this body,
/// and only there: it removes both entries, and leaves every other entry and
/// every other field of the block as it was.
pub proof fn law_serial_take_clears_its_key<P: StreamSpec>(
    s: Stream<P>,
    key: P::Key,
    body: P::Body,
    state: P::State,
    ledger: Tree,
) where P::State: LedgerRepr
    requires
        s.has_room(3),
        holds_entries(s, 0, ledger),
        holds_entries(s, 3, ledger),
    ensures
        ({
            let there = has_entry(ledger, s.at(3).keys(), stored(key)) && lookup(
                ledger,
                s.at(3).keys().push(stored(key)),
            ) == Some(Tree::Cell(stored(state))) && lookup(
                ledger,
                s.at(0).keys().push(stored(key)),
            ) == Some(Tree::Cell(stored(body)));
            match serial_take_landed(s, key, body, state)(ledger) {
                None => !there,
                Some(next) => there && forall|f: nat|
                    f < s.layout().total() ==> lookup(
                        next,
                        (#[trigger] s.layout().field(f)).keys(),
                    ) == if f == s.start() {
                        Some(Tree::Mapping(entries_at(s, 0, ledger).remove(stored(key))))
                    } else if f == s.start() + 3 {
                        Some(Tree::Mapping(entries_at(s, 3, ledger).remove(stored(key))))
                    } else {
                        lookup(ledger, s.layout().field(f).keys())
                    },
            }
        }),
{
    let (layout, start, k) = (s.layout(), s.start(), stored(key));
    let (bodies, staged) = (s.at(0).keys(), s.at(3).keys());
    assert(s.at(0) == layout.field(start) && s.at(3) == layout.field(start + 3));
    assert(truth(true) != truth(false)) by {
        lemma_stored_truth(true);
        lemma_stored_truth(false);
    }
    lemma_field_cleared(layout, start + 3, k, ledger);
    let mid = at_path(staged, without(k))(ledger)->0;
    assert(lookup(mid, layout.field(start).keys()) == lookup(ledger, layout.field(start).keys()));
    lemma_entry(mid, bodies, k);
    lemma_entry(ledger, bodies, k);
    lemma_field_cleared(layout, start, k, mid);
}

// ---- steps ----------------------------------------------------------------------------------

/// The state after a step, where it is computed from the state and the delta
/// alone.
pub open spec fn step_alone<F: Fold<S>, S>(state: S, delta: F::Delta) -> S {
    F::folds(fresh(Seq::empty(), Seq::empty()), state, delta).1
}

/// Whether steps are computed from the state and the delta alone, and leave the
/// run as it was.
pub open spec fn quiet_fold<F: Fold<S>, S>() -> bool {
    forall|run: Run, state: S, delta: F::Delta|
        #[trigger] F::folds(run, state, delta) == (run, step_alone::<F, S>(state, delta))
}

// ---- combine --------------------------------------------------------------------------------

/// The ops of a serial combine that finds this accumulator.
pub open spec fn serial_combine_ops<
    P: StreamSpec<State = S, Delta = D>,
    F: Fold<S, Delta = D>,
    S: LedgerRepr,
    D,
>(s: Stream<P>, first: S, delta: D) -> Seq<Op> {
    let acc = s.at(2).keys();
    read_ops(acc, stored(first)) + write_ops(acc, stored(step_alone::<F, S>(first, delta)))
}

/// What landing a serial combine does to the ledger: a failure where the
/// accumulator is another.
pub open spec fn serial_combine_landed<
    P: StreamSpec<State = S, Delta = D>,
    F: Fold<S, Delta = D>,
    S: LedgerRepr,
    D,
>(s: Stream<P>, first: S, delta: D) -> Effect {
    let acc = s.at(2).keys();
    in_turn(
        assumed(flag_of(acc), stored(first)),
        written(acc, Tree::Cell(stored(step_alone::<F, S>(first, delta)))),
    )
}

/// A serial combine emits that program, run against the accumulator, and it does
/// that.
pub proof fn law_serial_combine_lands<
    P: StreamSpec<State = S, Delta = D>,
    F: Fold<S, Delta = D>,
    S: LedgerRepr + ProofWires + Copy,
    D,
>(s: Stream<P>, run: Run, first: S, delta: D)
    requires
        quiet_fold::<F, S>(),
        run.guard,
        first.storable(),
        run.supplied.len() > 0,
        run.supplied[0] == stored(first).value,
    ensures
        ({
            let after = serial_combined::<P, F, S>(s, run, delta);
            &&& after.ops == run.ops + serial_combine_ops::<P, F, S, D>(s, first, delta)
            &&& after.supplied == run.supplied.skip(1)
            &&& after.unmet == run.unmet
            &&& after.deferred == run.deferred
        }),
        performs(
            serial_combine_ops::<P, F, S, D>(s, first, delta),
            serial_combine_landed::<P, F, S, D>(s, first, delta),
        ),
{
    let acc = s.at(2).keys();
    let next = step_alone::<F, S>(first, delta);
    assert(run.supplied[0] == first.limbs());
    law_read_gives_back_the_stored_value(run, acc, first);
    let read = run.read::<S>(acc).0.acknowledge(first.wires());
    assert(F::folds(read, first, delta) == (read, next));
    assert(serial_combined::<P, F, S>(s, run, delta).ops =~= run.ops + serial_combine_ops::<
        P,
        F,
        S,
        D,
    >(s, first, delta));
    law_flag_test(acc);
    law_read_is_an_assumption(flag_test(acc), flag_of(acc), stored(first));
    law_write(acc, stored(next));
    law_programs_compose(
        read_ops(acc, stored(first)),
        assumed(flag_of(acc), stored(first)),
        write_ops(acc, stored(next)),
        written(acc, Tree::Cell(stored(next))),
    );
}

/// A serial combine lands where the accumulator is the one it read, and only
/// there: the accumulator is then the state after the step, and every other field
/// of the block is as it was.
pub proof fn law_serial_combine_steps_the_accumulator<
    P: StreamSpec<State = S, Delta = D>,
    F: Fold<S, Delta = D>,
    S: LedgerRepr,
    D,
>(s: Stream<P>, first: S, delta: D, ledger: Tree)
    requires
        s.has_room(3),
    ensures
        match serial_combine_landed::<P, F, S, D>(s, first, delta)(ledger) {
            None => lookup(ledger, s.at(2).keys()) != Some(Tree::Cell(stored(first))),
            Some(next) => lookup(ledger, s.at(2).keys()) == Some(Tree::Cell(stored(first)))
                && forall|f: nat|
                f < s.layout().total() ==> lookup(next, (#[trigger] s.layout().field(f)).keys())
                    == if f == s.start() + 2 {
                    Some(Tree::Cell(stored(step_alone::<F, S>(first, delta))))
                } else {
                    lookup(ledger, s.layout().field(f).keys())
                },
        },
{
    let (layout, start) = (s.layout(), s.start());
    assert(s.at(2) == layout.field(start + 2));
    if lookup(ledger, s.at(2).keys()) is Some {
        lemma_field_written(
            layout,
            start + 2,
            Tree::Cell(stored(step_alone::<F, S>(first, delta))),
            ledger,
        );
    }
}

// ---- sequence -------------------------------------------------------------------------------

/// The state after the steps of the first `n` of these heads.
pub open spec fn state_after<P: StreamSpec<State = S, Delta = D>, F: Fold<S, Delta = D>, S, D>(
    first: S,
    heads: Seq<P::Head>,
    n: int,
) -> S
    decreases n,
{
    if n <= 0 {
        first
    } else {
        step_alone::<F, S>(
            state_after::<P, F, S, D>(first, heads, n - 1),
            delta_alone::<P>(heads[n - 1]),
        )
    }
}

/// What a flush of the first `n` of these heads reads.
pub open spec fn flush_reads<H: LedgerRepr>(heads: Seq<H>, n: int) -> Seq<Seq<Seq<u8>>>
    decreases n,
{
    if n <= 0 {
        Seq::empty()
    } else {
        flush_reads(heads, n - 1) + seq![truth(true)->Cell_0.value, stored(heads[n - 1]).value]
    }
}

/// The ops of one key of a flush that finds this head and stages this state.
pub open spec fn key_ops<P: StreamSpec<State = S>, S: LedgerRepr>(
    s: Stream<P>,
    key: P::Key,
    head: P::Head,
    state: S,
) -> Seq<Op> where P::Head: LedgerRepr {
    let (heads, k) = (s.at(1).keys(), stored(key));
    read_member_ops(heads, k, true) + read_ops(heads.push(k), stored(head)) + remove_ops(
        heads,
        k,
    ) + write_ops(s.at(3).keys().push(k), stored(state))
}

/// What landing them does to the ledger.
pub open spec fn key_landed<P: StreamSpec<State = S>, S: LedgerRepr>(
    s: Stream<P>,
    key: P::Key,
    head: P::Head,
    state: S,
) -> Effect where P::Head: LedgerRepr {
    let (heads, k) = (s.at(1).keys(), stored(key));
    in_turn(
        in_turn(
            in_turn(
                assumed(present(heads, k), truth(true)->Cell_0),
                assumed(flag_of(heads.push(k)), stored(head)),
            ),
            at_path(heads, without(k)),
        ),
        written(s.at(3).keys().push(k), Tree::Cell(stored(state))),
    )
}

/// The ops of the first `n` keys of a flush.
pub open spec fn flush_ops<
    P: StreamSpec<State = S, Delta = D>,
    F: Fold<S, Delta = D>,
    S: LedgerRepr,
    D,
>(s: Stream<P>, first: S, keys: Seq<P::Key>, heads: Seq<P::Head>, n: int) -> Seq<Op> where
    P::Head: LedgerRepr,

    decreases n,
{
    if n <= 0 {
        Seq::empty()
    } else {
        flush_ops::<P, F, S, D>(s, first, keys, heads, n - 1) + key_ops::<P, S>(
            s,
            keys[n - 1],
            heads[n - 1],
            state_after::<P, F, S, D>(first, heads, n),
        )
    }
}

/// What landing them does to the ledger.
pub open spec fn flush_landed<
    P: StreamSpec<State = S, Delta = D>,
    F: Fold<S, Delta = D>,
    S: LedgerRepr,
    D,
>(s: Stream<P>, first: S, keys: Seq<P::Key>, heads: Seq<P::Head>, n: int) -> Effect where
    P::Head: LedgerRepr,

    decreases n,
{
    if n <= 0 {
        |ledger: Tree| Some(ledger)
    } else {
        in_turn(
            flush_landed::<P, F, S, D>(s, first, keys, heads, n - 1),
            key_landed::<P, S>(
                s,
                keys[n - 1],
                heads[n - 1],
                state_after::<P, F, S, D>(first, heads, n),
            ),
        )
    }
}

/// The ops of a flush of these keys that finds this accumulator and these heads.
pub open spec fn sequence_ops<
    P: StreamSpec<State = S, Delta = D>,
    F: Fold<S, Delta = D>,
    S: LedgerRepr,
    D,
>(s: Stream<P>, first: S, keys: Seq<P::Key>, heads: Seq<P::Head>) -> Seq<Op> where
    P::Head: LedgerRepr,
 {
    let (acc, n) = (s.at(2).keys(), keys.len() as int);
    read_ops(acc, stored(first)) + flush_ops::<P, F, S, D>(s, first, keys, heads, n) + write_ops(
        acc,
        stored(state_after::<P, F, S, D>(first, heads, n)),
    )
}

/// What landing a flush does to the ledger: a failure where the accumulator is
/// another, or a key is not queued with its head.
pub open spec fn sequence_landed<
    P: StreamSpec<State = S, Delta = D>,
    F: Fold<S, Delta = D>,
    S: LedgerRepr,
    D,
>(s: Stream<P>, first: S, keys: Seq<P::Key>, heads: Seq<P::Head>) -> Effect where
    P::Head: LedgerRepr,
 {
    let (acc, n) = (s.at(2).keys(), keys.len() as int);
    in_turn(
        in_turn(
            assumed(flag_of(acc), stored(first)),
            flush_landed::<P, F, S, D>(s, first, keys, heads, n),
        ),
        written(acc, Tree::Cell(stored(state_after::<P, F, S, D>(first, heads, n)))),
    )
}

proof fn lemma_key_lands<P: StreamSpec<State = S>, S: LedgerRepr>(
    s: Stream<P>,
    key: P::Key,
    head: P::Head,
    state: S,
) where P::Head: LedgerRepr
    ensures
        performs(key_ops::<P, S>(s, key, head, state), key_landed::<P, S>(s, key, head, state)),
{
    let (heads, k) = (s.at(1).keys(), stored(key));
    let yes = truth(true)->Cell_0;
    law_member_test(heads, k);
    law_read_is_an_assumption(member_test(heads, k), present(heads, k), yes);
    law_flag_test(heads.push(k));
    law_read_is_an_assumption(flag_test(heads.push(k)), flag_of(heads.push(k)), stored(head));
    let (a, f) = (read_member_ops(heads, k, true), assumed(present(heads, k), yes));
    let (b, g) = (
        read_ops(heads.push(k), stored(head)),
        assumed(flag_of(heads.push(k)), stored(head)),
    );
    law_programs_compose(a, f, b, g);
    let (a, f) = (a + b, in_turn(f, g));
    law_remove(heads, k);
    let (b, g) = (remove_ops(heads, k), at_path(heads, without(k)));
    law_programs_compose(a, f, b, g);
    let (a, f) = (a + b, in_turn(f, g));
    law_write(s.at(3).keys().push(k), stored(state));
    law_programs_compose(
        a,
        f,
        write_ops(s.at(3).keys().push(k), stored(state)),
        written(s.at(3).keys().push(k), Tree::Cell(stored(state))),
    );
}

proof fn lemma_flush_lands<
    P: StreamSpec<State = S, Delta = D>,
    F: Fold<S, Delta = D>,
    S: LedgerRepr,
    D,
>(s: Stream<P>, first: S, keys: Seq<P::Key>, heads: Seq<P::Head>, n: int) where
    P::Head: LedgerRepr,

    ensures
        performs(
            flush_ops::<P, F, S, D>(s, first, keys, heads, n),
            flush_landed::<P, F, S, D>(s, first, keys, heads, n),
        ),
    decreases n,
{
    if n <= 0 {
        law_empty_program();
    } else {
        let state = state_after::<P, F, S, D>(first, heads, n);
        lemma_flush_lands::<P, F, S, D>(s, first, keys, heads, n - 1);
        lemma_key_lands::<P, S>(s, keys[n - 1], heads[n - 1], state);
        law_programs_compose(
            flush_ops::<P, F, S, D>(s, first, keys, heads, n - 1),
            flush_landed::<P, F, S, D>(s, first, keys, heads, n - 1),
            key_ops::<P, S>(s, keys[n - 1], heads[n - 1], state),
            key_landed::<P, S>(s, keys[n - 1], heads[n - 1], state),
        );
    }
}

/// The program of a flush does that.
pub proof fn law_sequence_lands<
    P: StreamSpec<State = S, Delta = D>,
    F: Fold<S, Delta = D>,
    S: LedgerRepr,
    D,
>(s: Stream<P>, first: S, keys: Seq<P::Key>, heads: Seq<P::Head>) where P::Head: LedgerRepr
    ensures
        performs(
            sequence_ops::<P, F, S, D>(s, first, keys, heads),
            sequence_landed::<P, F, S, D>(s, first, keys, heads),
        ),
{
    let (acc, n) = (s.at(2).keys(), keys.len() as int);
    let last = stored(state_after::<P, F, S, D>(first, heads, n));
    law_flag_test(acc);
    law_read_is_an_assumption(flag_test(acc), flag_of(acc), stored(first));
    lemma_flush_lands::<P, F, S, D>(s, first, keys, heads, n);
    let (a, f) = (read_ops(acc, stored(first)), assumed(flag_of(acc), stored(first)));
    let (b, g) = (
        flush_ops::<P, F, S, D>(s, first, keys, heads, n),
        flush_landed::<P, F, S, D>(s, first, keys, heads, n),
    );
    law_programs_compose(a, f, b, g);
    law_write(acc, last);
    law_programs_compose(
        a + b,
        in_turn(f, g),
        write_ops(acc, last),
        written(acc, Tree::Cell(last)),
    );
}

proof fn lemma_flush_runs<P, F, S, D, const REST: usize>(
    s: Stream<P>,
    run: Run,
    first: S,
    keys: Seq<P::Key>,
    heads: Seq<P::Head>,
    n: int,
    more: Seq<Seq<Seq<u8>>>,
) where
    P: StreamSpec<Step = Serial<F, REST>, State = S, Delta = D>,
    P::Head: LedgerRepr + ProofWires,
    F: Fold<S, Delta = D>,
    S: LedgerRepr + ProofWires + Copy + Select,

    requires
        quiet::<P>(),
        quiet_fold::<F, S>(),
        run.guard,
        n <= keys.len() == heads.len(),
        forall|j: int| 0 <= j < n ==> (#[trigger] heads[j]).storable(),
        run.supplied == flush_reads(heads, n) + more,
        s.flush().stream() == s,
    ensures
        ({
            let (after, last) = native(s.flush(), run, first, keys, n);
            &&& last == state_after::<P, F, S, D>(first, heads, n)
            &&& after.ops == run.ops + flush_ops::<P, F, S, D>(s, first, keys, heads, n)
            &&& after.supplied == more
            &&& after.guard
            &&& after.unmet == run.unmet
            &&& after.deferred == run.deferred
        }),
    decreases n,
{
    if n <= 0 {
        assert(run.supplied =~= more);
        assert(run.ops + flush_ops::<P, F, S, D>(s, first, keys, heads, n) =~= run.ops);
    } else {
        let (key, head) = (keys[n - 1], heads[n - 1]);
        let two = seq![truth(true)->Cell_0.value, stored(head).value];
        assert(run.supplied =~= flush_reads(heads, n - 1) + (two + more));
        lemma_flush_runs::<P, F, S, D, REST>(s, run, first, keys, heads, n - 1, two + more);
        let (mid, state) = native(s.flush(), run, first, keys, n - 1);
        let (queue, k) = (s.at(1).keys(), stored(key));
        lemma_stored_truth(true);
        let (one, there) = mid.read_member(queue, k);
        let second = one.check(there, "Stream key not queued"@);
        assert(second.supplied =~= seq![stored(head).value] + more);
        assert(second.supplied[0] == head.limbs());
        law_read_gives_back_the_stored_value(second, queue.push(k), head);
        let third = second.read::<P::Head>(queue.push(k)).0.acknowledge(head.wires()).emit(
            remove_ops(queue, k),
        );
        assert(third.supplied =~= more);
        let delta = delta_alone::<P>(head);
        assert(P::delta_of(third, head) == (third, delta));
        assert(F::folds(third, state, delta) == (third, step_alone::<F, S>(state, delta)));
        let (after, last) = native(s.flush(), run, first, keys, n);
        assert((after, last) == flushed_key::<P, F, S, D>(s, mid, state, key));
        assert(after.ops =~= run.ops + flush_ops::<P, F, S, D>(s, first, keys, heads, n));
    }
}

/// A flush run against what the ledger holds emits that program: it reads the
/// accumulator once, takes each key's head in the order chosen, stages the state
/// after each step, and writes the accumulator once, nothing unmet.
pub proof fn law_sequence_runs_the_flush<P, F, S, D, const REST: usize>(
    s: Stream<P>,
    run: Run,
    keys: NonEmpty<P::Key, REST, Public>,
    first: S,
    heads: Seq<P::Head>,
    more: Seq<Seq<Seq<u8>>>,
) where
    P: StreamSpec<Step = Serial<F, REST>, State = S, Delta = D>,
    P::Head: LedgerRepr + ProofWires,
    F: Fold<S, Delta = D>,
    S: LedgerRepr + ProofWires + Copy + Select,

    requires
        quiet::<P>(),
        quiet_fold::<F, S>(),
        run.guard,
        first.storable(),
        heads.len() == items_of(keys).len(),
        forall|j: int| 0 <= j < heads.len() ==> (#[trigger] heads[j]).storable(),
        run.supplied == seq![stored(first).value] + flush_reads(heads, heads.len() as int) + more,
    ensures
        ({
            let after = sequenced(s, run, keys);
            &&& after.ops == run.ops + sequence_ops::<P, F, S, D>(s, first, items_of(keys), heads)
            &&& after.supplied == more
            &&& after.unmet == run.unmet
            &&& after.deferred == run.deferred
        }),
{
    let (acc, items) = (s.at(2).keys(), items_of(keys));
    law_flush_is_the_plain_fold(s, run, keys);
    assert(run.supplied[0] == first.limbs());
    law_read_gives_back_the_stored_value(run, acc, first);
    let begun = run.read::<S>(acc).0.acknowledge(first.wires());
    assert(begun.supplied =~= flush_reads(heads, heads.len() as int) + more);
    lemma_flush_runs::<P, F, S, D, REST>(
        s,
        begun,
        first,
        items,
        heads,
        items.len() as int,
        more,
    );
    assert(sequenced(s, run, keys).ops =~= run.ops + sequence_ops::<P, F, S, D>(
        s,
        first,
        items,
        heads,
    ));
}

/// The stored forms of the first `n` keys.
pub open spec fn key_set<K: LedgerRepr>(keys: Seq<K>, n: int) -> Set<Aligned> {
    Set::new(|k: Aligned| exists|j: int| 0 <= j < n && k == stored(#[trigger] keys[j]))
}

/// Whether each of the first `n` keys is queued with its head, and none of them
/// twice.
pub open spec fn all_queued<K: LedgerRepr, H: LedgerRepr>(
    queue: Map<Aligned, Tree>,
    keys: Seq<K>,
    heads: Seq<H>,
    n: int,
) -> bool {
    &&& forall|j: int|
        0 <= j < n ==> queue.contains_key(stored(#[trigger] keys[j])) && queue[stored(keys[j])]
            == Tree::Cell(stored(heads[j]))
    &&& forall|i: int, j: int|
        0 <= i < j < n ==> stored(#[trigger] keys[i]) != stored(#[trigger] keys[j])
}

/// Whether a map is `before` with the state after step `j + 1` under key `j`, for
/// the first `n` keys.
pub open spec fn staged_by<
    P: StreamSpec<State = S, Delta = D>,
    F: Fold<S, Delta = D>,
    S: LedgerRepr,
    D,
>(
    before: Map<Aligned, Tree>,
    after: Map<Aligned, Tree>,
    first: S,
    keys: Seq<P::Key>,
    heads: Seq<P::Head>,
    n: int,
) -> bool {
    &&& forall|k: Aligned| #[trigger]
        after.contains_key(k) <==> before.contains_key(k) || key_set(keys, n).contains(k)
    &&& forall|k: Aligned|
        before.contains_key(k) && !key_set(keys, n).contains(k) ==> #[trigger] after[k]
            == before[k]
    &&& forall|j: int|
        0 <= j < n ==> after[stored(#[trigger] keys[j])] == Tree::Cell(
            stored(state_after::<P, F, S, D>(first, heads, j + 1)),
        )
}

proof fn lemma_key_set_grows<K: LedgerRepr>(keys: Seq<K>, n: int)
    requires
        0 < n <= keys.len(),
    ensures
        key_set(keys, n) == key_set(keys, n - 1).insert(stored(keys[n - 1])),
{
    let (less, more) = (key_set(keys, n - 1), key_set(keys, n));
    assert forall|k: Aligned| #[trigger] more.contains(k) == less.insert(
        stored(keys[n - 1]),
    ).contains(k) by {
        if more.contains(k) {
            let j = choose|j: int| 0 <= j < n && k == stored(#[trigger] keys[j]);
            if j < n - 1 {
                assert(less.contains(k));
            }
        }
        if less.contains(k) {
            let j = choose|j: int| 0 <= j < n - 1 && k == stored(#[trigger] keys[j]);
            assert(k == stored(keys[j]));
        }
        if k == stored(keys[n - 1]) {
            assert(more.contains(k));
        }
    }
    assert(more =~= less.insert(stored(keys[n - 1])));
}

/// What the first `n` keys of a flush do to a block: they land where each is
/// queued with its head, and only there.
proof fn lemma_flush_effect<
    P: StreamSpec<State = S, Delta = D>,
    F: Fold<S, Delta = D>,
    S: LedgerRepr,
    D,
>(s: Stream<P>, first: S, keys: Seq<P::Key>, heads: Seq<P::Head>, n: int, ledger: Tree) where
    P::Head: LedgerRepr,

    requires
        s.has_room(3),
        holds_entries(s, 1, ledger),
        holds_entries(s, 3, ledger),
        0 <= n <= keys.len() == heads.len(),
    ensures
        match flush_landed::<P, F, S, D>(s, first, keys, heads, n)(ledger) {
            None => !all_queued(entries_at(s, 1, ledger), keys, heads, n),
            Some(next) => {
                &&& all_queued(entries_at(s, 1, ledger), keys, heads, n)
                &&& holds_entries(s, 1, next) && entries_at(s, 1, next) == entries_at(
                    s,
                    1,
                    ledger,
                ).remove_keys(key_set(keys, n))
                &&& holds_entries(s, 3, next) && staged_by::<P, F, S, D>(
                    entries_at(s, 3, ledger),
                    entries_at(s, 3, next),
                    first,
                    keys,
                    heads,
                    n,
                )
                &&& forall|f: nat|
                    f < s.layout().total() && f != s.start() + 1 && f != s.start() + 3 ==> lookup(
                        next,
                        (#[trigger] s.layout().field(f)).keys(),
                    ) == lookup(ledger, s.layout().field(f).keys())
            },
        },
    decreases n,
{
    let (layout, start) = (s.layout(), s.start());
    let (queue, staged) = (entries_at(s, 1, ledger), entries_at(s, 3, ledger));
    assert(s.at(1) == layout.field(start + 1) && s.at(3) == layout.field(start + 3));
    if n <= 0 {
        assert(key_set(keys, n) =~= Set::empty());
        assert(queue.remove_keys(key_set(keys, n)) =~= queue);
    } else {
        lemma_flush_effect::<P, F, S, D>(s, first, keys, heads, n - 1, ledger);
        let before = flush_landed::<P, F, S, D>(s, first, keys, heads, n - 1)(ledger);
        let (key, head) = (keys[n - 1], heads[n - 1]);
        let state = state_after::<P, F, S, D>(first, heads, n);
        let k = stored(key);
        if before is None {
            assert(!all_queued(queue, keys, heads, n)) by {
                if all_queued(queue, keys, heads, n) {
                    assert(all_queued(queue, keys, heads, n - 1));
                }
            }
        } else {
            let mid = before->0;
            let waiting = entries_at(s, 1, mid);
            lemma_key_set_grows(keys, n);
            lemma_key_effect::<P, S>(s, key, head, state, mid);
            let good = waiting.contains_key(k) && waiting[k] == Tree::Cell(stored(head));
            assert(good == all_queued(queue, keys, heads, n)) by {
                if good {
                    assert(!key_set(keys, n - 1).contains(k));
                    assert forall|i: int, j: int| 0 <= i < j < n implies stored(
                        #[trigger] keys[i],
                    ) != stored(#[trigger] keys[j]) by {
                        if j == n - 1 && stored(keys[i]) == k {
                            assert(key_set(keys, n - 1).contains(k));
                        }
                    }
                }
                if all_queued(queue, keys, heads, n) {
                    assert(queue.contains_key(stored(keys[n - 1])));
                    if key_set(keys, n - 1).contains(k) {
                        let i = choose|i: int| 0 <= i < n - 1 && k == stored(#[trigger] keys[i]);
                        assert(stored(keys[i]) != stored(keys[n - 1]));
                    }
                }
            }
            if good {
                let next = key_landed::<P, S>(s, key, head, state)(mid)->0;
                assert(flush_landed::<P, F, S, D>(s, first, keys, heads, n)(ledger) == Some(next));
                assert(entries_at(s, 1, next) =~= queue.remove_keys(key_set(keys, n)));
                let (held, after) = (entries_at(s, 3, mid), entries_at(s, 3, next));
                assert(after == held.insert(k, Tree::Cell(stored(state))));
                assert forall|x: Aligned| #[trigger]
                    after.contains_key(x) <==> staged.contains_key(x) || key_set(
                        keys,
                        n,
                    ).contains(x) by {
                    assert(held.contains_key(x) <==> staged.contains_key(x) || key_set(
                        keys,
                        n - 1,
                    ).contains(x));
                }
                assert forall|x: Aligned|
                    staged.contains_key(x) && !key_set(keys, n).contains(x) implies #[trigger] after[x]
                    == staged[x] by {
                    assert(held[x] == staged[x]);
                }
                assert forall|j: int| 0 <= j < n implies after[stored(#[trigger] keys[j])]
                    == Tree::Cell(stored(state_after::<P, F, S, D>(first, heads, j + 1))) by {
                    if j < n - 1 {
                        assert(stored(keys[j]) != stored(keys[n - 1]));
                    }
                }
            }
        }
    }
}

/// What one key of a flush does to a block.
proof fn lemma_key_effect<P: StreamSpec<State = S>, S: LedgerRepr>(
    s: Stream<P>,
    key: P::Key,
    head: P::Head,
    state: S,
    ledger: Tree,
) where P::Head: LedgerRepr
    requires
        s.has_room(3),
        holds_entries(s, 1, ledger),
        holds_entries(s, 3, ledger),
    ensures
        ({
            let (queue, k) = (entries_at(s, 1, ledger), stored(key));
            let good = queue.contains_key(k) && queue[k] == Tree::Cell(stored(head));
            match key_landed::<P, S>(s, key, head, state)(ledger) {
                None => !good,
                Some(next) => good && forall|f: nat|
                    f < s.layout().total() ==> lookup(
                        next,
                        (#[trigger] s.layout().field(f)).keys(),
                    ) == if f == s.start() + 1 {
                        Some(Tree::Mapping(queue.remove(k)))
                    } else if f == s.start() + 3 {
                        Some(
                            Tree::Mapping(
                                entries_at(s, 3, ledger).insert(k, Tree::Cell(stored(state))),
                            ),
                        )
                    } else {
                        lookup(ledger, s.layout().field(f).keys())
                    },
            }
        }),
{
    let (layout, start, k) = (s.layout(), s.start(), stored(key));
    assert(s.at(1) == layout.field(start + 1) && s.at(3) == layout.field(start + 3));
    assert(truth(true) != truth(false)) by {
        lemma_stored_truth(true);
        lemma_stored_truth(false);
    }
    lemma_entry(ledger, s.at(1).keys(), k);
    lemma_field_cleared(layout, start + 1, k, ledger);
    let mid = at_path(s.at(1).keys(), without(k))(ledger)->0;
    assert(lookup(mid, layout.field(start + 3).keys()) == lookup(
        ledger,
        layout.field(start + 3).keys(),
    ));
    lemma_field_entered(layout, start + 3, k, Tree::Cell(stored(state)), mid);
}

/// A flush lands where the accumulator is the one it read and every key is queued
/// with its head, none twice, and only there. Each key is then staged with the
/// state after its own step, the queue has lost exactly these keys, the
/// accumulator is the last state, and every other entry, the bodies, and every
/// other field of the block are as they were.
pub proof fn law_sequence_stages_each_key<
    P: StreamSpec<State = S, Delta = D>,
    F: Fold<S, Delta = D>,
    S: LedgerRepr,
    D,
>(s: Stream<P>, first: S, keys: Seq<P::Key>, heads: Seq<P::Head>, ledger: Tree) where
    P::Head: LedgerRepr,

    requires
        s.has_room(3),
        holds_entries(s, 1, ledger),
        holds_entries(s, 3, ledger),
        keys.len() == heads.len(),
    ensures
        ({
            let n = keys.len() as int;
            let lands = lookup(ledger, s.at(2).keys()) == Some(Tree::Cell(stored(first)))
                && all_queued(entries_at(s, 1, ledger), keys, heads, n);
            match sequence_landed::<P, F, S, D>(s, first, keys, heads)(ledger) {
                None => !lands,
                Some(next) => {
                    &&& lands
                    &&& lookup(next, s.at(2).keys()) == Some(
                        Tree::Cell(stored(state_after::<P, F, S, D>(first, heads, n))),
                    )
                    &&& holds_entries(s, 1, next) && entries_at(s, 1, next) == entries_at(
                        s,
                        1,
                        ledger,
                    ).remove_keys(key_set(keys, n))
                    &&& holds_entries(s, 3, next) && staged_by::<P, F, S, D>(
                        entries_at(s, 3, ledger),
                        entries_at(s, 3, next),
                        first,
                        keys,
                        heads,
                        n,
                    )
                    &&& forall|f: nat|
                        f < s.layout().total() && !(s.start() + 1 <= f <= s.start() + 3)
                            ==> lookup(next, (#[trigger] s.layout().field(f)).keys()) == lookup(
                            ledger,
                            s.layout().field(f).keys(),
                        )
                },
            }
        }),
{
    let (layout, start, n) = (s.layout(), s.start(), keys.len() as int);
    assert(s.at(2) == layout.field(start + 2));
    assert(s.at(1) == layout.field(start + 1) && s.at(3) == layout.field(start + 3));
    lemma_flush_effect::<P, F, S, D>(s, first, keys, heads, n, ledger);
    let flushed = flush_landed::<P, F, S, D>(s, first, keys, heads, n)(ledger);
    if lookup(ledger, s.at(2).keys()) == Some(Tree::Cell(stored(first))) && flushed is Some {
        let mid = flushed->0;
        let last = Tree::Cell(stored(state_after::<P, F, S, D>(first, heads, n)));
        assert(lookup(mid, layout.field(start + 2).keys()) == lookup(
            ledger,
            layout.field(start + 2).keys(),
        ));
        lemma_field_written(layout, start + 2, last, mid);
        let next = written(s.at(2).keys(), last)(mid)->0;
        assert(sequence_landed::<P, F, S, D>(s, first, keys, heads)(ledger) == Some(next));
        assert(lookup(next, layout.field(start + 1).keys()) == lookup(
            mid,
            layout.field(start + 1).keys(),
        ));
        assert(lookup(next, layout.field(start + 3).keys()) == lookup(
            mid,
            layout.field(start + 3).keys(),
        ));
    }
}

// ---- refused keys -----------------------------------------------------------------------------

/// What is noted where a key is there that should not be, or is not there that
/// should be: an insert of a key that is read as present, a take of one that is
/// read as not staged, a flush of one that is read as not queued.
pub proof fn law_serial_refused_keys_are_noted<
    P: StreamSpec<State = S, Delta = D>,
    F: Fold<S, Delta = D>,
    S: LedgerRepr,
    D,
>(
    s: Stream<P>,
    run: Run,
    key: P::Key,
    body: P::Body,
    state: S,
    there: bool,
    more: Seq<Seq<Seq<u8>>>,
) where P::Head: LedgerRepr + ProofWires
    requires
        run.guard,
        run.unmet is None,
        quiet::<P>(),
        quiet_fold::<F, S>(),
        run.supplied == seq![truth(there)->Cell_0.value] + more,
    ensures
        serial_inserted(s, run, key, body).unmet == if there {
            Some("Stream key already present"@)
        } else {
            None
        },
        !there ==> serial_taken(s, run, key).0.unmet == Some("Stream key not sequenced"@),
        !there ==> flushed_key::<P, F, S, D>(s, run, state, key).0.unmet == Some(
            "Stream key not queued"@,
        ),
{
    lemma_stored_truth(there);
    let k = stored(key);
    assert(run.read_member(s.at(0).keys(), k).1 == there);
    assert(run.read_member(s.at(3).keys(), k).1 == there);
    assert(run.read_member(s.at(1).keys(), k).1 == there);
}

} // verus!
