//! Ledger hooks: the write program as a typed value.
//!
//! Inline is the read set; the hook is the write program. A read-modify-write
//! the ledger performs itself, a copy from one slot to another and a branch on
//! what a slot holds live on [`Hook`]. A hook runs after the whole body on
//! whatever the ledger holds at landing, cannot go stale, and cannot tell the
//! circuit anything: the builder has no read, so a hook is blind by
//! construction.
//!
//! | method | on chain | fails the transaction when |
//! |---|---|---|
//! | `add`, `sub`, `max`, `min`, `and`, `or` | read-modify-write, no read | overflow, underflow |
//! | `write`, `insert`, `remove` | the plain writes, as effects | never (removing an absent key is a no-op) |
//! | `copy`, `copy_cell`, `move_entry` | slot to slot | absent source (`move_entry`) |
//! | `if_absent`, `if_below`, `if_unset` | a branch over the arm | inside the arm only |
//! | `and_then` | concatenation | as its parts |
//!
//! Arguments are public: a value enters a hook through [`HookValue`], and only
//! public values have a stored form.
use crate::fab::{
    as_bool, law_truth_round_trip, number, store_number, Aligned, AlignedValue, AlignmentAtom,
};
use crate::impact::{
    add_ops, and_ops, below_test, blind, branch_ops, cell_add_at, cell_and_at, cell_copy_at,
    cell_max_at, cell_min_at, cell_or_at, cell_snapshot_into_map_at, cell_sub_at, cell_write_at,
    copy_ops, fetch_at, flag_test, in_container, joined, map_insert_at, map_move_entry_at,
    map_remove_at, max_ops, member_at, member_test, min_ops, move_ops, or_ops, program, remove_ops,
    require_ops, rework_ops, sub_ops, write_ops, ImpactOp, Op, MAX_STEPS,
};
use crate::ledger::{steps, LedgerCell, LedgerMap, LedgerPath, Reachable};
use crate::number::two_to;
use crate::wire::{
    byte_width, bytes_for, ledger_value, stored, Bool, LedgerRepr, Public, Uint,
};
use vstd::prelude::*;

verus! {

/// A value a hook pushes: a public ledger value, or a native literal. `u64`
/// stands for any number's cell value and `bool` for a truth value's.
pub trait HookValue<T>: Sized {
    /// The value as the ledger takes it.
    spec fn hooked(self) -> Aligned;

    /// Whether it is a value of `T`.
    spec fn admissible(self) -> bool;

    /// The value as the ledger takes it.
    fn hook_value(self) -> (r: AlignedValue)
        requires
            self.admissible(),
        ensures
            r@ == self.hooked(),
    ;
}

impl<T: LedgerRepr> HookValue<T> for T {
    open spec fn hooked(self) -> Aligned {
        stored(self)
    }

    open spec fn admissible(self) -> bool {
        true
    }

    fn hook_value(self) -> (r: AlignedValue) {
        ledger_value(&self)
    }
}

/// A literal fits the number it stands for.
impl<const BITS: u32> HookValue<Uint<BITS, Public>> for u64 {
    open spec fn hooked(self) -> Aligned {
        number(self as nat, byte_width(BITS) as nat)
    }

    open spec fn admissible(self) -> bool {
        self < two_to(BITS as nat)
    }

    fn hook_value(self) -> (r: AlignedValue) {
        store_number(self, bytes_for(BITS))
    }
}

impl HookValue<Bool<Public>> for bool {
    open spec fn hooked(self) -> Aligned {
        number(if self { 1 } else { 0 }, 1)
    }

    open spec fn admissible(self) -> bool {
        true
    }

    fn hook_value(self) -> (r: AlignedValue) {
        let bit: u64 = if self {
            1
        } else {
            0
        };
        store_number(bit, 1)
    }
}

/// A value already in its stored form. The check on its type is the caller's.
pub struct Lowered(pub AlignedValue);

impl<T> HookValue<T> for Lowered {
    open spec fn hooked(self) -> Aligned {
        self.0@
    }

    open spec fn admissible(self) -> bool {
        true
    }

    fn hook_value(self) -> (r: AlignedValue) {
        self.0
    }
}

/// A literal is stored as the truth value it stands for is.
pub proof fn law_literal_is_its_truth(literal: bool, value: Bool<Public>)
    requires
        value.value == literal,
    ensures
        HookValue::<Bool<Public>>::hooked(literal) == stored(value),
        as_bool(HookValue::<Bool<Public>>::hooked(literal)) == Some(literal),
{
    assert(HookValue::<Bool<Public>>::hooked(literal) =~= stored(value));
    law_truth_round_trip(literal);
}

/// A literal is stored as the number it stands for is.
pub proof fn law_literal_is_its_number<const BITS: u32>(literal: u64, value: Uint<BITS, Public>)
    requires
        value.value@ == literal,
    ensures
        HookValue::<Uint<BITS, Public>>::hooked(literal) == stored(value),
        HookValue::<Uint<BITS, Public>>::admissible(literal) <==> value.fits(),
{
    assert(HookValue::<Uint<BITS, Public>>::hooked(literal) =~= stored(value));
}

/// The cell types the ledger's arithmetic decodes: numbers of 8, 16, 32 and 64
/// bits.
pub trait CellArith: LedgerRepr {
    /// Such a number is one byte string of 1, 2, 4 or 8 bytes.
    proof fn law_decodable()
        ensures
            Self::shape().len() == 1,
            Self::shape()[0] matches AlignmentAtom::Bytes { length } && (length == 1 || length == 2
                || length == 4 || length == 8),
    ;
}

impl CellArith for Uint<8, Public> {
    proof fn law_decodable() {
    }
}

impl CellArith for Uint<16, Public> {
    proof fn law_decodable() {
    }
}

impl CellArith for Uint<32, Public> {
    proof fn law_decodable() {
    }
}

impl CellArith for Uint<64, Public> {
    proof fn law_decodable() {
    }
}

/// The write program: a chain of blind ledger operations. It does nothing until
/// it is attached to a circuit.
#[must_use]
pub struct Hook {
    ops: Vec<ImpactOp>,
}

proof fn lemma_blind_joined(a: Seq<Op>, b: Seq<Op>)
    requires
        blind(a),
        blind(b),
    ensures
        blind(a + b),
{
}

proof fn lemma_blind_rework(path: Seq<Aligned>, middle: Seq<Op>)
    requires
        blind(middle),
    ensures
        blind(rework_ops(path, middle)),
{
}

proof fn lemma_blind_inside(path: Seq<Aligned>, middle: Seq<Op>)
    requires
        blind(middle),
    ensures
        blind(in_container(path, middle)),
{
    lemma_blind_rework(path.drop_last(), middle);
}

impl Hook {
    #[verifier::type_invariant]
    spec fn inv(self) -> bool {
        blind(program(self.ops@))
    }

    /// The program.
    pub closed spec fn view(&self) -> Seq<Op> {
        program(self.ops@)
    }

    /// The empty program.
    pub fn new() -> (r: Self)
        ensures
            r@ == Seq::<Op>::empty(),
    {
        let ops: Vec<ImpactOp> = Vec::new();
        assert(program(ops@) =~= Seq::<Op>::empty());
        Hook { ops }
    }

    /// One more step.
    fn step(self, ops: Vec<ImpactOp>) -> (r: Self)
        requires
            blind(program(ops@)),
        ensures
            r@ == self@ + program(ops@),
    {
        proof {
            use_type_invariant(&self);
            lemma_blind_joined(program(self.ops@), program(ops@));
        }
        Hook { ops: joined(self.ops, ops) }
    }

    /// The ops, in program order. None of them is a read.
    pub fn into_ops(self) -> (r: Vec<ImpactOp>)
        ensures
            program(r@) == self@,
            blind(program(r@)),
    {
        proof {
            use_type_invariant(&self);
        }
        self.ops
    }

    // ---- the read-modify-writes ---------------------------------------------------

    /// `cell += delta`, blind; overflow fails the transaction.
    pub fn add<T: CellArith, H: HookValue<T>>(self, cell: &LedgerCell<T>, delta: H) -> (r: Self)
        requires
            delta.admissible(),
        ensures
            r@ == self@ + add_ops(cell.path.keys(), delta.hooked()),
    {
        let path = cell.path.ledger_path();
        assert(steps(path@).len() == path@.len());
        self.step(cell_add_at(&path, &delta.hook_value()))
    }

    /// `cell -= delta`, blind; underflow fails the transaction.
    pub fn sub<T: CellArith, H: HookValue<T>>(self, cell: &LedgerCell<T>, delta: H) -> (r: Self)
        requires
            delta.admissible(),
        ensures
            r@ == self@ + sub_ops(cell.path.keys(), delta.hooked()),
    {
        let path = cell.path.ledger_path();
        assert(steps(path@).len() == path@.len());
        self.step(cell_sub_at(&path, &delta.hook_value()))
    }

    /// `cell = max(cell, delta)`, blind.
    pub fn max<T: CellArith, H: HookValue<T>>(self, cell: &LedgerCell<T>, delta: H) -> (r: Self)
        requires
            delta.admissible(),
        ensures
            r@ == self@ + max_ops(cell.path.keys(), delta.hooked()),
    {
        let path = cell.path.ledger_path();
        assert(steps(path@).len() == path@.len());
        self.step(cell_max_at(&path, &delta.hook_value()))
    }

    /// `cell = min(cell, delta)`, blind.
    pub fn min<T: CellArith, H: HookValue<T>>(self, cell: &LedgerCell<T>, delta: H) -> (r: Self)
        requires
            delta.admissible(),
        ensures
            r@ == self@ + min_ops(cell.path.keys(), delta.hooked()),
    {
        let path = cell.path.ledger_path();
        assert(steps(path@).len() == path@.len());
        self.step(cell_min_at(&path, &delta.hook_value()))
    }

    /// `cell = cell && delta`, blind.
    pub fn and<H: HookValue<Bool<Public>>>(self, cell: &LedgerCell<Bool<Public>>, delta: H) -> (r:
        Self)
        requires
            delta.admissible(),
        ensures
            r@ == self@ + and_ops(cell.path.keys(), delta.hooked()),
    {
        let path = cell.path.ledger_path();
        assert(steps(path@).len() == path@.len());
        self.step(cell_and_at(&path, &delta.hook_value()))
    }

    /// `cell = cell || delta`, blind.
    pub fn or<H: HookValue<Bool<Public>>>(self, cell: &LedgerCell<Bool<Public>>, delta: H) -> (r:
        Self)
        requires
            delta.admissible(),
        ensures
            r@ == self@ + or_ops(cell.path.keys(), delta.hooked()),
    {
        let path = cell.path.ledger_path();
        assert(steps(path@).len() == path@.len());
        self.step(cell_or_at(&path, &delta.hook_value()))
    }

    // ---- the plain writes, as effects -----------------------------------------------

    /// `cell = value`.
    pub fn write<T: LedgerRepr, H: HookValue<T>>(self, cell: &LedgerCell<T>, value: H) -> (r: Self)
        requires
            value.admissible(),
        ensures
            r@ == self@ + write_ops(cell.path.keys(), value.hooked()),
    {
        let path = cell.path.ledger_path();
        assert(steps(path@).len() == path@.len());
        self.step(cell_write_at(&path, &value.hook_value()))
    }

    /// `map[key] = value`.
    pub fn insert<K: LedgerRepr, V: LedgerRepr, P: LedgerPath, H: HookValue<K>, W: HookValue<V>>(
        self,
        map: &LedgerMap<K, V, P>,
        key: H,
        value: W,
    ) -> (r: Self)
        requires
            map.path.keys().len() <= MAX_STEPS,
            key.admissible(),
            value.admissible(),
        ensures
            r@ == self@ + write_ops(map.path.keys().push(key.hooked()), value.hooked()),
    {
        let path = map.path.ledger_path();
        assert(steps(path@).len() == path@.len());
        let key = key.hook_value();
        let value = value.hook_value();
        self.step(map_insert_at(&path, &key, &value))
    }

    /// `map.remove(key)`; a no-op on an absent key.
    pub fn remove<K: LedgerRepr, V, P: LedgerPath, H: HookValue<K>>(
        self,
        map: &LedgerMap<K, V, P>,
        key: H,
    ) -> (r: Self)
        requires
            map.path.keys().len() <= MAX_STEPS,
            key.admissible(),
        ensures
            r@ == self@ + remove_ops(map.path.keys(), key.hooked()),
    {
        let path = map.path.ledger_path();
        assert(steps(path@).len() == path@.len());
        self.step(map_remove_at(&path, &key.hook_value()))
    }

    // ---- slot to slot -----------------------------------------------------------------

    /// `map[key] = cell`, the snapshot: the circuit never learns the value.
    pub fn copy<T: LedgerRepr, K: LedgerRepr, P: Reachable, H: HookValue<K>>(
        self,
        cell: &LedgerCell<T>,
        map: &LedgerMap<K, T, P>,
        key: H,
    ) -> (r: Self)
        requires
            key.admissible(),
        ensures
            r@ == self@ + copy_ops(cell.path.keys(), map.path.keys().push(key.hooked())),
    {
        map.path.within_reach();
        let source = cell.path.ledger_path();
        let path = map.path.ledger_path();
        assert(steps(path@).len() == path@.len());
        self.step(cell_snapshot_into_map_at(&source, &path, &key.hook_value()))
    }

    /// `dst = src`, cell to cell, blind.
    pub fn copy_cell<T: LedgerRepr>(self, src: &LedgerCell<T>, dst: &LedgerCell<T>) -> (r: Self)
        ensures
            r@ == self@ + copy_ops(src.path.keys(), dst.path.keys()),
    {
        let source = src.path.ledger_path();
        let path = dst.path.ledger_path();
        assert(steps(path@).len() == path@.len());
        self.step(cell_copy_at(&source, &path))
    }

    /// `map[to] = map[from]` and then no `from`, blind; an absent `from` fails
    /// the transaction.
    pub fn move_entry<K: LedgerRepr, V: LedgerRepr, P: Reachable, H: HookValue<K>, J: HookValue<K>>(
        self,
        map: &LedgerMap<K, V, P>,
        from: H,
        to: J,
    ) -> (r: Self)
        requires
            from.admissible(),
            to.admissible(),
        ensures
            r@ == self@ + move_ops(map.path.keys(), from.hooked(), to.hooked()),
    {
        map.path.within_reach();
        let path = map.path.ledger_path();
        assert(steps(path@).len() == path@.len());
        let from = from.hook_value();
        let to = to.hook_value();
        let ops = map_move_entry_at(&path, &from, &to);
        proof {
            let (keys, a, b) = (map.path.keys(), from@, to@);
            lemma_blind_inside(
                keys.push(b),
                seq![
                    Op::Push { storage: false, value: b },
                    Op::Dup { n: (2 * (keys.push(b).len() - 1) + 1) as nat },
                    Op::Idx { cached: false, push_path: false, path: keys.push(a) },
                    Op::Ins { cached: false, n: 1 },
                ],
            );
            assert(keys.push(b).last() == b);
            assert(blind(require_ops(keys, a)));
            assert(blind(copy_ops(keys.push(a), keys.push(b))));
            assert(blind(remove_ops(keys, a)));
        }
        self.step(ops)
    }

    // ---- the branches -------------------------------------------------------------------

    /// A branch over `arm`: `<test>; branch len(arm); <arm>`, the arm skipped
    /// where the test leaves true.
    fn branch_over(self, test: Vec<ImpactOp>, arm: Hook) -> (r: Self)
        requires
            blind(program(test@)),
            arm@.len() <= u32::MAX,
        ensures
            r@ == self@ + branch_ops(program(test@), arm@),
    {
        let ghost inner = arm@;
        let arm = arm.into_ops();
        assert(program(arm@).len() == arm@.len());
        let skip: u32 = arm.len() as u32;
        let mut ops = test;
        ops.push(ImpactOp::Branch { skip });
        assert(program(ops@) =~= program(test@) + seq![Op::Branch { skip: inner.len() }]);
        self.step(joined(ops, arm))
    }

    /// Runs `arm` only if `map` has no entry at `key`.
    pub fn if_absent<K: LedgerRepr, V, P: LedgerPath, H: HookValue<K>, F: FnOnce(Hook) -> Hook>(
        self,
        map: &LedgerMap<K, V, P>,
        key: H,
        arm: F,
    ) -> (r: Self)
        requires
            key.admissible(),
            arm_is_short(arm),
        ensures
            exists|inner: Hook|
                is_arm(arm, inner) && r@ == self@ + branch_ops(
                    member_test(map.path.keys(), key.hooked()),
                    #[trigger] inner@,
                ),
    {
        let path = map.path.ledger_path();
        let test = member_at(&path, &key.hook_value());
        let blank = Hook::new();
        let inner = arm(blank);
        assert(is_arm(arm, inner));
        self.branch_over(test, inner)
    }

    /// Runs `arm` only if `cell < bound`.
    pub fn if_below<T: CellArith, H: HookValue<T>, F: FnOnce(Hook) -> Hook>(
        self,
        cell: &LedgerCell<T>,
        bound: H,
        arm: F,
    ) -> (r: Self)
        requires
            bound.admissible(),
            arm_is_short(arm),
        ensures
            exists|inner: Hook|
                is_arm(arm, inner) && r@ == self@ + branch_ops(
                    below_test(cell.path.keys(), bound.hooked()),
                    #[trigger] inner@,
                ),
    {
        let path = cell.path.ledger_path();
        let mut test = fetch_at(&path);
        let ghost lead = test@;
        test.push(ImpactOp::Push { storage: false, value: bound.hook_value() });
        test.push(ImpactOp::Lt);
        test.push(ImpactOp::Neg);
        proof {
            assert(program(lead).len() == lead.len());
            assert forall|i: int| 0 <= i < test@.len() implies program(test@)[i] == below_test(
                cell.path.keys(),
                bound.hooked(),
            )[i] by {
                if i < lead.len() {
                    assert(program(lead)[i] == lead[i]@);
                }
            }
            assert(program(test@) =~= below_test(cell.path.keys(), bound.hooked()));
        }
        let blank = Hook::new();
        let inner = arm(blank);
        assert(is_arm(arm, inner));
        self.branch_over(test, inner)
    }

    /// Runs `arm` only if the `flag` cell is false.
    pub fn if_unset<F: FnOnce(Hook) -> Hook>(self, flag: &LedgerCell<Bool<Public>>, arm: F) -> (r:
        Self)
        requires
            arm_is_short(arm),
        ensures
            exists|inner: Hook|
                is_arm(arm, inner) && r@ == self@ + branch_ops(
                    flag_test(flag.path.keys()),
                    #[trigger] inner@,
                ),
    {
        let path = flag.path.ledger_path();
        let test = fetch_at(&path);
        let blank = Hook::new();
        let inner = arm(blank);
        assert(is_arm(arm, inner));
        self.branch_over(test, inner)
    }

    // ---- composition ----------------------------------------------------------------------

    /// This program, and then `other`.
    pub fn and_then(self, other: Hook) -> (r: Self)
        ensures
            r@ == self@ + other@,
    {
        let ops = other.into_ops();
        self.step(ops)
    }
}

impl Default for Hook {
    fn default() -> (r: Self)
        ensures
            r@ == Seq::<Op>::empty(),
    {
        Hook::new()
    }
}

/// Whether `inner` is what the arm makes of the empty program.
pub open spec fn is_arm<F: FnOnce(Hook) -> Hook>(arm: F, inner: Hook) -> bool {
    exists|blank: Hook| blank@.len() == 0 && #[trigger] call_ensures(arm, (blank,), inner)
}

/// Whether the arm can be built, and its length is one a branch can skip.
pub open spec fn arm_is_short<F: FnOnce(Hook) -> Hook>(arm: F) -> bool {
    &&& forall|blank: Hook| blank@.len() == 0 ==> #[trigger] call_requires(arm, (blank,))
    &&& forall|inner: Hook| #[trigger] is_arm(arm, inner) ==> inner@.len() <= u32::MAX
}

/// Concatenation is associative, and the empty program is its unit.
pub proof fn law_programs_concatenate(a: Hook, b: Hook, c: Hook)
    ensures
        (a@ + b@) + c@ == a@ + (b@ + c@),
        a@ + Seq::<Op>::empty() == a@,
        Seq::<Op>::empty() + a@ == a@,
{
    assert((a@ + b@) + c@ =~= a@ + (b@ + c@));
    assert(a@ + Seq::<Op>::empty() =~= a@);
    assert(Seq::<Op>::empty() + a@ =~= a@);
}

} // verus!
