//! The ledger's op language, and what the ops do.
//!
//! A transaction's public program is a list of ops over a stack whose bottom is
//! the contract's state. This module has the ops that the library emits, the op
//! lists behind the typed operations, and a model of their execution: what each
//! op does to the stack, on arrays, maps and cells, and when it fails. Gas, the
//! stack's height limit and the read cache are not in the model.
//!
//! An op list that runs on `[.., state]` and leaves `[.., state']` performs an
//! effect on the state ([`performs`]). The laws say which effect each list
//! performs, at a path of any length, with any ops after it.
use crate::fab::{
    as_bool, as_u64, capacity, law_number_round_trip, law_truth_round_trip, number, store_number,
    Aligned, AlignedValue,
};
use crate::ledger::{copy_steps, steps, LedgerKey};
use crate::value::Tree;
use vstd::prelude::*;

verus! {

// ---- the ops -------------------------------------------------------------------------

/// An op.
#[derive(Debug)]
pub enum ImpactOp {
    /// Copies the item `n` below the top.
    Dup { n: u8 },
    /// Swaps the top with the item `n` below the next one.
    Swap { n: u8 },
    /// Drops the top.
    Pop,
    /// Pushes a cell; `storage` where it may be stored.
    Push { storage: bool, value: AlignedValue },
    /// Replaces the top by what is at `path` in it; `push_path` leaves the
    /// containers and keys walked through below it.
    Idx { cached: bool, push_path: bool, path: Vec<LedgerKey> },
    /// Stores the top back through `n` containers and keys.
    Ins { cached: bool, n: u8 },
    /// Adds the two numbers on top.
    Add,
    /// Subtracts the top number from the next one.
    Sub,
    /// Whether the next number is below the top one.
    Lt,
    /// Negates the truth value on top.
    Neg,
    /// Both of the two truth values on top.
    And,
    /// Either of the two truth values on top.
    Or,
    /// Whether the map below has the key on top.
    Member,
    /// Removes the key on top from the map below.
    Rem { cached: bool },
    /// Skips `skip` ops where the top is not false.
    Branch { skip: u32 },
    /// Skips `skip` ops.
    Jmp { skip: u32 },
    /// Drops the top; fails where it is not `value`.
    Popeq { value: AlignedValue },
}

/// The model of an op.
pub enum Op {
    Dup { n: nat },
    Swap { n: nat },
    Pop,
    Push { storage: bool, value: Aligned },
    Idx { cached: bool, push_path: bool, path: Seq<Aligned> },
    Ins { cached: bool, n: nat },
    Add,
    Sub,
    Lt,
    Neg,
    And,
    Or,
    Member,
    Rem { cached: bool },
    Branch { skip: nat },
    Jmp { skip: nat },
    Popeq { value: Aligned },
}

impl ImpactOp {
    pub open spec fn view(&self) -> Op {
        match *self {
            ImpactOp::Dup { n } => Op::Dup { n: n as nat },
            ImpactOp::Swap { n } => Op::Swap { n: n as nat },
            ImpactOp::Pop => Op::Pop,
            ImpactOp::Push { storage, value } => Op::Push { storage, value: value@ },
            ImpactOp::Idx { cached, push_path, path } => Op::Idx {
                cached,
                push_path,
                path: steps(path@),
            },
            ImpactOp::Ins { cached, n } => Op::Ins { cached, n: n as nat },
            ImpactOp::Add => Op::Add,
            ImpactOp::Sub => Op::Sub,
            ImpactOp::Lt => Op::Lt,
            ImpactOp::Neg => Op::Neg,
            ImpactOp::And => Op::And,
            ImpactOp::Or => Op::Or,
            ImpactOp::Member => Op::Member,
            ImpactOp::Rem { cached } => Op::Rem { cached },
            ImpactOp::Branch { skip } => Op::Branch { skip: skip as nat },
            ImpactOp::Jmp { skip } => Op::Jmp { skip: skip as nat },
            ImpactOp::Popeq { value } => Op::Popeq { value: value@ },
        }
    }
}

/// The model of a list of ops.
pub open spec fn program(ops: Seq<ImpactOp>) -> Seq<Op> {
    ops.map_values(|op: ImpactOp| op@)
}

/// Whether a program reads nothing: no op of it compares what the ledger holds
/// with a value the transaction names.
pub open spec fn blind(ops: Seq<Op>) -> bool {
    forall|i: int| 0 <= i < ops.len() ==> !(#[trigger] ops[i] is Popeq)
}

/// The model of an op is the op of its name, with its operands.
pub proof fn law_ops_by_name(n: u8, skip: u32, flag: bool, cell: AlignedValue, path: Vec<LedgerKey>)
    ensures
        (ImpactOp::Dup { n })@ == (Op::Dup { n: n as nat }),
        (ImpactOp::Swap { n })@ == (Op::Swap { n: n as nat }),
        ImpactOp::Pop@ == Op::Pop,
        (ImpactOp::Push { storage: flag, value: cell })@ == (Op::Push {
            storage: flag,
            value: cell@,
        }),
        (ImpactOp::Idx { cached: flag, push_path: !flag, path })@ == (Op::Idx {
            cached: flag,
            push_path: !flag,
            path: steps(path@),
        }),
        (ImpactOp::Ins { cached: flag, n })@ == (Op::Ins { cached: flag, n: n as nat }),
        ImpactOp::Add@ == Op::Add,
        ImpactOp::Sub@ == Op::Sub,
        ImpactOp::Lt@ == Op::Lt,
        ImpactOp::Neg@ == Op::Neg,
        ImpactOp::And@ == Op::And,
        ImpactOp::Or@ == Op::Or,
        ImpactOp::Member@ == Op::Member,
        (ImpactOp::Rem { cached: flag })@ == (Op::Rem { cached: flag }),
        (ImpactOp::Branch { skip })@ == (Op::Branch { skip: skip as nat }),
        (ImpactOp::Jmp { skip })@ == (Op::Jmp { skip: skip as nat }),
        (ImpactOp::Popeq { value: cell })@ == (Op::Popeq { value: cell@ }),
{
}

// ---- the machine ------------------------------------------------------------------------

/// An item of the stack; a strong one may be stored.
pub struct Item {
    pub strong: bool,
    pub tree: Tree,
}

/// A cell that holds a truth value.
pub open spec fn truth(b: bool) -> Tree {
    Tree::Cell(number(if b { 1 } else { 0 }, 1))
}

/// The entry under `key`: of an array the item at that index, of a map the
/// entry or Null.
pub open spec fn child(tree: Tree, key: Aligned) -> Option<Tree> {
    match tree {
        Tree::Array(items) => match as_u64(key) {
            Some(i) if i < 256 && i < items.len() => Some(items[i as int]),
            _ => None,
        },
        Tree::Mapping(entries) => Some(
            if entries.contains_key(key) {
                entries[key]
            } else {
                Tree::Null
            },
        ),
        _ => None,
    }
}

/// The container with `value` under `key`.
pub open spec fn with_child(tree: Tree, key: Aligned, value: Tree) -> Option<Tree> {
    match tree {
        Tree::Array(items) => match as_u64(key) {
            Some(i) if i < 256 && i < items.len() => Some(
                Tree::Array(items.update(i as int, value)),
            ),
            _ => None,
        },
        Tree::Mapping(entries) => Some(Tree::Mapping(entries.insert(key, value))),
        _ => None,
    }
}

/// The stack after walking from `item` down `path`.
pub open spec fn walked(
    stack: Seq<Item>,
    item: Item,
    path: Seq<Aligned>,
    push_path: bool,
) -> Option<Seq<Item>>
    decreases path.len(),
{
    if path.len() == 0 {
        Some(stack.push(item))
    } else {
        match child(item.tree, path[0]) {
            Some(next) => walked(
                if push_path {
                    stack.push(item).push(Item { strong: false, tree: Tree::Cell(path[0]) })
                } else {
                    stack
                },
                Item { strong: item.strong, tree: next },
                path.skip(1),
                push_path,
            ),
            None => None,
        }
    }
}

/// The stack after storing `item` back through `n` containers and keys.
pub open spec fn unwound(stack: Seq<Item>, item: Item, n: nat) -> Option<Seq<Item>>
    decreases n,
{
    if n == 0 {
        Some(stack.push(item))
    } else if stack.len() < 2 {
        None
    } else {
        let (container, key) = (stack[stack.len() - 2], stack.last());
        match key.tree {
            Tree::Cell(at) => match with_child(container.tree, at, item.tree) {
                Some(tree) => unwound(
                    stack.take(stack.len() - 2),
                    Item { strong: item.strong && container.strong, tree },
                    (n - 1) as nat,
                ),
                None => None,
            },
            _ => None,
        }
    }
}

/// The two cells on top of the stack, the top one second.
pub open spec fn top_two(stack: Seq<Item>) -> Option<(Aligned, Aligned)> {
    if stack.len() < 2 {
        None
    } else {
        match (stack[stack.len() - 2].tree, stack.last().tree) {
            (Tree::Cell(a), Tree::Cell(b)) => Some((a, b)),
            _ => None,
        }
    }
}

/// The stack without its two top items and with `tree`, strong, on top.
pub open spec fn replace_two(stack: Seq<Item>, tree: Tree) -> Seq<Item> {
    stack.take(stack.len() - 2).push(Item { strong: true, tree })
}

/// What an op does to the stack; `None` where it fails. Branches and jumps drop
/// what they test and leave the rest to [`run`].
pub open spec fn step(op: Op, stack: Seq<Item>) -> Option<Seq<Item>> {
    let n = stack.len();
    match op {
        Op::Dup { n: k } => if k < n {
            Some(stack.push(stack[n - 1 - k]))
        } else {
            None
        },
        Op::Swap { n: k } => if k + 1 < n {
            Some(stack.update(n - 1, stack[n - 2 - k]).update(n - 2 - k, stack[n - 1]))
        } else {
            None
        },
        Op::Pop => if n > 0 {
            Some(stack.drop_last())
        } else {
            None
        },
        Op::Push { storage, value } => Some(
            stack.push(Item { strong: storage, tree: Tree::Cell(value) }),
        ),
        Op::Idx { push_path, path, .. } => if n > 0 {
            walked(stack.drop_last(), stack.last(), path, push_path)
        } else {
            None
        },
        Op::Ins { n: k, .. } => if n > 0 {
            unwound(stack.drop_last(), stack.last(), k)
        } else {
            None
        },
        Op::Add => match top_two(stack) {
            Some((a, b)) => match (as_u64(a), as_u64(b)) {
                (Some(x), Some(y)) if x + y <= u64::MAX => Some(
                    replace_two(stack, Tree::Cell(number((x + y) as nat, 8))),
                ),
                _ => None,
            },
            None => None,
        },
        Op::Sub => match top_two(stack) {
            Some((a, b)) => match (as_u64(a), as_u64(b)) {
                (Some(x), Some(y)) if x >= y => Some(
                    replace_two(stack, Tree::Cell(number((x - y) as nat, 8))),
                ),
                _ => None,
            },
            None => None,
        },
        Op::Lt => match top_two(stack) {
            Some((a, b)) => match (as_u64(a), as_u64(b)) {
                (Some(x), Some(y)) => Some(replace_two(stack, truth(x < y))),
                _ => None,
            },
            None => None,
        },
        Op::Neg => if n == 0 {
            None
        } else {
            match stack.last().tree {
                Tree::Cell(a) => match as_bool(a) {
                    Some(b) => Some(
                        stack.drop_last().push(Item { strong: true, tree: truth(!b) }),
                    ),
                    None => None,
                },
                _ => None,
            }
        },
        Op::And => match top_two(stack) {
            Some((a, b)) => match (as_bool(a), as_bool(b)) {
                (Some(x), Some(y)) => Some(replace_two(stack, truth(x && y))),
                _ => None,
            },
            None => None,
        },
        Op::Or => match top_two(stack) {
            Some((a, b)) => match (as_bool(a), as_bool(b)) {
                (Some(x), Some(y)) => Some(replace_two(stack, truth(x || y))),
                _ => None,
            },
            None => None,
        },
        Op::Member => if n < 2 {
            None
        } else {
            match (stack[n - 2].tree, stack.last().tree) {
                (Tree::Mapping(entries), Tree::Cell(key)) => Some(
                    replace_two(stack, truth(entries.contains_key(key))),
                ),
                _ => None,
            }
        },
        Op::Rem { .. } => if n < 2 {
            None
        } else {
            match (stack[n - 2].tree, stack.last().tree) {
                (Tree::Mapping(entries), Tree::Cell(key)) => Some(
                    stack.take(n - 2).push(
                        Item { strong: stack[n - 2].strong, tree: Tree::Mapping(entries.remove(key)) },
                    ),
                ),
                _ => None,
            }
        },
        Op::Branch { .. } => if n > 0 && stack.last().tree is Cell {
            Some(stack.drop_last())
        } else {
            None
        },
        Op::Jmp { .. } => Some(stack),
        Op::Popeq { value } => if n > 0 && stack.last().tree == Tree::Cell(value) {
            Some(stack.drop_last())
        } else {
            None
        },
    }
}

/// Whether a branch on this cell runs the ops after it: whether the cell is
/// false.
pub open spec fn is_false(tree: Tree) -> bool {
    tree matches Tree::Cell(cell) && cell.value.len() == 1 && cell.value[0].len() == 0
}

/// How many ops are skipped after this one.
pub open spec fn skipped(op: Op, stack: Seq<Item>) -> nat {
    match op {
        Op::Branch { skip } => if is_false(stack.last().tree) {
            0
        } else {
            skip
        },
        Op::Jmp { skip } => skip,
        _ => 0,
    }
}

/// The stack a program leaves; `None` where an op fails or a skip leaves the
/// program.
pub open spec fn run(ops: Seq<Op>, stack: Seq<Item>) -> Option<Seq<Item>>
    decreases ops.len(),
{
    if ops.len() == 0 {
        Some(stack)
    } else {
        match step(ops[0], stack) {
            Some(next) => if 1 + skipped(ops[0], stack) <= ops.len() {
                run(ops.skip((1 + skipped(ops[0], stack)) as int), next)
            } else {
                None
            },
            None => None,
        }
    }
}

// ---- effects -----------------------------------------------------------------------------

/// The node at `path`.
pub open spec fn lookup(tree: Tree, path: Seq<Aligned>) -> Option<Tree>
    decreases path.len(),
{
    if path.len() == 0 {
        Some(tree)
    } else {
        match child(tree, path[0]) {
            Some(next) => lookup(next, path.skip(1)),
            None => None,
        }
    }
}

/// The tree with `value` at `path`.
pub open spec fn update(tree: Tree, path: Seq<Aligned>, value: Tree) -> Option<Tree>
    decreases path.len(),
{
    if path.len() == 0 {
        Some(value)
    } else {
        match child(tree, path[0]) {
            Some(next) => match update(next, path.skip(1), value) {
                Some(below) => with_child(tree, path[0], below),
                None => None,
            },
            None => None,
        }
    }
}

/// A change to the state; `None` where it fails the transaction.
pub type Effect = spec_fn(Tree) -> Option<Tree>;

/// A stored state on top of the stack.
pub open spec fn holding(stack: Seq<Item>, state: Tree) -> Seq<Item> {
    stack.push(Item { strong: true, tree: state })
}

/// Whether a program performs an effect: on any stack with any state on top,
/// and whatever ops come after it, it replaces the state by the effect's and
/// goes on, or fails where the effect fails.
pub open spec fn performs(ops: Seq<Op>, effect: Effect) -> bool {
    forall|stack: Seq<Item>, state: Tree, rest: Seq<Op>|
        #![trigger run(ops + rest, holding(stack, state))]
        run(ops + rest, holding(stack, state)) == match effect(state) {
            Some(next) => run(rest, holding(stack, next)),
            None => None,
        }
}

/// One effect, then another.
pub open spec fn in_turn(first: Effect, second: Effect) -> Effect {
    |state: Tree|
        match first(state) {
            Some(next) => second(next),
            None => None,
        }
}

/// Programs compose: one after the other performs one effect after the other.
pub proof fn law_programs_compose(a: Seq<Op>, f: Effect, b: Seq<Op>, g: Effect)
    requires
        performs(a, f),
        performs(b, g),
    ensures
        performs(a + b, in_turn(f, g)),
{
    assert forall|stack: Seq<Item>, state: Tree, rest: Seq<Op>|
        #![trigger run((a + b) + rest, holding(stack, state))]
        run((a + b) + rest, holding(stack, state)) == match in_turn(f, g)(state) {
            Some(next) => run(rest, holding(stack, next)),
            None => None,
        } by {
        assert((a + b) + rest =~= a + (b + rest));
        assert(run(a + (b + rest), holding(stack, state)) == match f(state) {
            Some(next) => run(b + rest, holding(stack, next)),
            None => None,
        });
        if let Some(next) = f(state) {
            assert(run(b + rest, holding(stack, next)) == match g(next) {
                Some(last) => run(rest, holding(stack, last)),
                None => None,
            });
        }
    }
}

/// The empty program does nothing.
pub proof fn law_empty_program()
    ensures
        performs(Seq::empty(), |state: Tree| Some(state)),
{
    assert forall|stack: Seq<Item>, state: Tree, rest: Seq<Op>|
        #![trigger run(Seq::<Op>::empty() + rest, holding(stack, state))]
        run(Seq::<Op>::empty() + rest, holding(stack, state)) == run(rest, holding(stack, state)) by {
        assert(Seq::<Op>::empty() + rest =~= rest);
    }
}

/// What a read gives back of a write: the value that was written.
pub proof fn law_write_reads_back(state: Tree, path: Seq<Aligned>, value: Tree)
    requires
        update(state, path, value) is Some,
    ensures
        lookup(update(state, path, value)->0, path) == Some(value),
    decreases path.len(),
{
    if path.len() > 0 {
        let next = child(state, path[0])->0;
        law_write_reads_back(next, path.skip(1), value);
        let below = update(next, path.skip(1), value)->0;
        let after = with_child(state, path[0], below)->0;
        assert(child(after, path[0]) == Some(below));
    }
}

/// Whether two paths part: they agree up to some step, and there the keys are
/// different ones, as keys of a map and as indices of an array.
pub open spec fn part(a: Seq<Aligned>, b: Seq<Aligned>) -> bool {
    exists|k: int|
        0 <= k < a.len() && k < b.len() && a.take(k) == b.take(k) && #[trigger] a[k] != b[k]
            && as_u64(a[k]) != as_u64(b[k])
}

/// A write leaves every other slot as it was.
pub proof fn law_write_keeps_the_rest(
    state: Tree,
    path: Seq<Aligned>,
    value: Tree,
    other: Seq<Aligned>,
)
    requires
        update(state, path, value) is Some,
        part(path, other),
    ensures
        lookup(update(state, path, value)->0, other) == lookup(state, other),
    decreases path.len(),
{
    let k = choose|k: int|
        0 <= k < path.len() && k < other.len() && path.take(k) == other.take(k) && #[trigger] path[k]
            != other[k] && as_u64(path[k]) != as_u64(other[k]);
    let next = child(state, path[0])->0;
    let below = update(next, path.skip(1), value)->0;
    let after = with_child(state, path[0], below)->0;
    if k == 0 {
        assert(child(after, other[0]) == child(state, other[0]));
    } else {
        assert(path[0] == path.take(k)[0]);
        assert(other[0] == other.take(k)[0]);
        let (p, q) = (path.skip(1), other.skip(1));
        assert(p.take(k - 1) =~= path.take(k).skip(1));
        assert(q.take(k - 1) =~= other.take(k).skip(1));
        assert(p[k - 1] == path[k] && q[k - 1] == other[k]);
        assert(part(p, q));
        law_write_keeps_the_rest(next, p, value, q);
        assert(child(after, path[0]) == Some(below));
    }
}

/// A slot can be written where it can be read.
pub proof fn law_written_where_read(state: Tree, path: Seq<Aligned>, value: Tree)
    ensures
        update(state, path, value) is Some <==> lookup(state, path) is Some,
    decreases path.len(),
{
    if path.len() > 0 {
        if let Some(next) = child(state, path[0]) {
            law_written_where_read(next, path.skip(1), value);
        }
    }
}

/// Of two writes of one slot the later one stays.
pub proof fn law_later_write_stays(state: Tree, path: Seq<Aligned>, first: Tree, second: Tree)
    ensures
        in_turn(written(path, first), written(path, second))(state) == written(path, second)(state),
    decreases path.len(),
{
    if path.len() > 0 {
        if let Some(next) = child(state, path[0]) {
            law_later_write_stays(next, path.skip(1), first, second);
            law_written_where_read(next, path.skip(1), first);
            law_written_where_read(next, path.skip(1), second);
            if let Some(below) = update(next, path.skip(1), first) {
                let after = with_child(state, path[0], below)->0;
                assert(child(after, path[0]) == Some(below));
                let last = update(next, path.skip(1), second)->0;
                assert(with_child(after, path[0], last) == with_child(state, path[0], last)) by {
                    match state {
                        Tree::Array(items) => {
                            let at = as_u64(path[0])->0 as int;
                            assert(items.update(at, below).update(at, last) =~= items.update(
                                at,
                                last,
                            ));
                        },
                        Tree::Mapping(entries) => {
                            assert(entries.insert(path[0], below).insert(path[0], last)
                                =~= entries.insert(path[0], last));
                        },
                        _ => {},
                    }
                }
            }
        }
    }
}

/// An entry of a map is a step below the map.
pub proof fn lemma_entry(state: Tree, path: Seq<Aligned>, key: Aligned)
    ensures
        lookup(state, path.push(key)) == match lookup(state, path) {
            Some(node) => child(node, key),
            None => None,
        },
    decreases path.len(),
{
    if path.len() == 0 {
        reveal_with_fuel(lookup, 3);
        assert(path.push(key).skip(1).len() == 0);
        assert(path.push(key)[0] == key);
    } else {
        assert(path.push(key).skip(1) =~= path.skip(1).push(key));
        assert(path.push(key)[0] == path[0]);
        if let Some(next) = child(state, path[0]) {
            lemma_entry(next, path.skip(1), key);
        }
    }
}

/// Writing an entry of a map is an insertion into the map.
pub proof fn law_entry_write(
    state: Tree,
    path: Seq<Aligned>,
    entries: Map<Aligned, Tree>,
    key: Aligned,
    value: Tree,
)
    requires
        lookup(state, path) == Some(Tree::Mapping(entries)),
    ensures
        update(state, path.push(key), value) == update(
            state,
            path,
            Tree::Mapping(entries.insert(key, value)),
        ),
    decreases path.len(),
{
    if path.len() == 0 {
        reveal_with_fuel(update, 2);
        assert(path.push(key).skip(1).len() == 0);
        assert(path.push(key)[0] == key);
    } else {
        let next = child(state, path[0])->0;
        assert(path.push(key).skip(1) =~= path.skip(1).push(key));
        law_entry_write(next, path.skip(1), entries, key, value);
    }
}

// ---- walking down and storing back --------------------------------------------------------

proof fn lemma_unwound_splits(stack: Seq<Item>, item: Item, n: nat)
    ensures
        unwound(stack, item, n + 1) == match unwound(stack, item, n) {
            Some(mid) => unwound(mid.drop_last(), mid.last(), 1),
            None => None,
        },
    decreases n,
{
    if n == 0 {
        assert(stack.push(item).drop_last() =~= stack);
    } else if stack.len() >= 2 {
        let (container, key) = (stack[stack.len() - 2], stack.last());
        if let Tree::Cell(at) = key.tree {
            if let Some(tree) = with_child(container.tree, at, item.tree) {
                lemma_unwound_splits(
                    stack.take(stack.len() - 2),
                    Item { strong: item.strong && container.strong, tree },
                    (n - 1) as nat,
                );
            }
        }
    }
}

/// Walking to a path leaves the node there; the walk and the lookup fail
/// together.
proof fn lemma_walk(stack: Seq<Item>, item: Item, path: Seq<Aligned>, push_path: bool)
    ensures
        match lookup(item.tree, path) {
            Some(leaf) => walked(stack, item, path, push_path) matches Some(full) && full.len() > 0
                && full.last() == (Item { strong: item.strong, tree: leaf }) && full.len()
                == stack.len() + 1 + if push_path {
                2 * path.len()
            } else {
                0
            } && stack =~= full.take(stack.len() as int) && (path.len() > 0 && push_path
                ==> full[stack.len() as int] == item) && (path.len() == 0
                ==> full == stack.push(item)),
            None => walked(stack, item, path, push_path) is None,
        },
    decreases path.len(),
{
    if path.len() > 0 {
        if let Some(next) = child(item.tree, path[0]) {
            let deeper = if push_path {
                stack.push(item).push(Item { strong: false, tree: Tree::Cell(path[0]) })
            } else {
                stack
            };
            let below = Item { strong: item.strong, tree: next };
            lemma_walk(deeper, below, path.skip(1), push_path);
            if let Some(full) = walked(deeper, below, path.skip(1), push_path) {
                assert forall|i: int| 0 <= i < stack.len() implies stack[i] == full[i] by {
                    assert(deeper[i] == full.take(deeper.len() as int)[i]);
                }
                if push_path {
                    assert(deeper[stack.len() as int] == full.take(
                        deeper.len() as int,
                    )[stack.len() as int]);
                }
                assert(stack =~= full.take(stack.len() as int));
            }
        }
    }
}

/// Storing a new node back through the containers a walk left is the update at
/// the path.
proof fn lemma_walk_and_back(
    stack: Seq<Item>,
    item: Item,
    path: Seq<Aligned>,
    full: Seq<Item>,
    new: Item,
)
    requires
        walked(stack, item, path, true) == Some(full),
        full.len() > 0,
    ensures
        unwound(full.drop_last(), new, path.len()) == match update(item.tree, path, new.tree) {
            Some(tree) => Some(
                stack.push(
                    Item { strong: if path.len() == 0 { new.strong } else { new.strong && item.strong }, tree },
                ),
            ),
            None => None,
        },
        update(item.tree, path, new.tree) is Some,
    decreases path.len(),
{
    if path.len() == 0 {
        assert(full.drop_last() =~= stack);
    } else {
        let next = child(item.tree, path[0])->0;
        let key = Item { strong: false, tree: Tree::Cell(path[0]) };
        let deeper = stack.push(item).push(key);
        let below = Item { strong: item.strong, tree: next };
        let rest = path.skip(1);
        lemma_walk_and_back(deeper, below, rest, full, new);
        lemma_unwound_splits(full.drop_last(), new, rest.len());
        let tree = update(next, rest, new.tree)->0;
        let mid = unwound(full.drop_last(), new, rest.len())->0;
        assert(mid.drop_last() =~= deeper);
        assert(deeper.take(deeper.len() - 2) =~= stack);
        assert(deeper[deeper.len() - 2] == item);
        assert(deeper.last() == key);
        let stored = with_child(item.tree, path[0], tree);
        assert(stored is Some);
        reveal_with_fuel(unwound, 2);
    }
}

proof fn lemma_first(op: Op, rest: Seq<Op>, stack: Seq<Item>)
    ensures
        run(seq![op] + rest, stack) == match step(op, stack) {
            Some(next) => if skipped(op, stack) <= rest.len() {
                run(rest.skip(skipped(op, stack) as int), next)
            } else {
                None
            },
            None => None,
        },
        skipped(op, stack) == 0 ==> run(seq![op] + rest, stack) == match step(op, stack) {
            Some(next) => run(rest, next),
            None => None,
        },
{
    let ops = seq![op] + rest;
    assert(ops[0] == op);
    let k = skipped(op, stack);
    if k <= rest.len() {
        assert(ops.skip((1 + k) as int) =~= rest.skip(k as int));
    }
    assert(rest.skip(0) =~= rest);
}

/// `middle` on the node at `path`, stored back.
pub open spec fn rework_ops(path: Seq<Aligned>, middle: Seq<Op>) -> Seq<Op> {
    seq![Op::Idx { cached: false, push_path: true, path }] + middle + seq![
        Op::Ins { cached: true, n: path.len() },
    ]
}

/// An effect on the node at `path`.
pub open spec fn at_path(path: Seq<Aligned>, effect: Effect) -> Effect {
    |state: Tree|
        match lookup(state, path) {
            Some(node) => match effect(node) {
                Some(next) => update(state, path, next),
                None => None,
            },
            None => None,
        }
}

/// What a program does to a node it does to the node at a path: walk there, run
/// it, store the node back.
pub proof fn law_rework(path: Seq<Aligned>, middle: Seq<Op>, effect: Effect)
    requires
        performs(middle, effect),
    ensures
        performs(rework_ops(path, middle), at_path(path, effect)),
{
    let ops = rework_ops(path, middle);
    let (walk, store) = (
        Op::Idx { cached: false, push_path: true, path },
        Op::Ins { cached: true, n: path.len() },
    );
    assert forall|stack: Seq<Item>, state: Tree, rest: Seq<Op>|
        #![trigger run(ops + rest, holding(stack, state))]
        run(ops + rest, holding(stack, state)) == match at_path(path, effect)(state) {
            Some(next) => run(rest, holding(stack, next)),
            None => None,
        } by {
        let root = Item { strong: true, tree: state };
        let tail = middle + (seq![store] + rest);
        assert(ops + rest =~= seq![walk] + tail);
        lemma_first(walk, tail, holding(stack, state));
        assert(holding(stack, state).drop_last() =~= stack);
        lemma_walk(stack, root, path, true);
        if let Some(full) = walked(stack, root, path, true) {
            let node = lookup(state, path)->0;
            let base = full.drop_last();
            assert(full =~= holding(base, node));
            assert(run(middle + (seq![store] + rest), holding(base, node)) == match effect(node) {
                Some(next) => run(seq![store] + rest, holding(base, next)),
                None => None,
            });
            if let Some(next) = effect(node) {
                lemma_first(store, rest, holding(base, next));
                assert(holding(base, next).drop_last() =~= base);
                lemma_walk_and_back(
                    stack,
                    root,
                    path,
                    full,
                    Item { strong: true, tree: next },
                );
            }
        }
    }
}

// ---- the read-modify-writes ---------------------------------------------------------------

/// The number a node holds.
pub open spec fn as_number(node: Tree) -> Option<u64> {
    match node {
        Tree::Cell(cell) => as_u64(cell),
        _ => None,
    }
}

/// The truth value a node holds.
pub open spec fn as_truth(node: Tree) -> Option<bool> {
    match node {
        Tree::Cell(cell) => as_bool(cell),
        _ => None,
    }
}

/// The number and the delta together; overflow fails.
pub open spec fn added(delta: Aligned) -> Effect {
    |node: Tree|
        match (as_number(node), as_u64(delta)) {
            (Some(x), Some(d)) if x + d <= u64::MAX => Some(Tree::Cell(number((x + d) as nat, 8))),
            _ => None,
        }
}

/// The number less the delta; underflow fails.
pub open spec fn subtracted(delta: Aligned) -> Effect {
    |node: Tree|
        match (as_number(node), as_u64(delta)) {
            (Some(x), Some(d)) if x >= d => Some(Tree::Cell(number((x - d) as nat, 8))),
            _ => None,
        }
}

/// The larger of the number and the delta.
pub open spec fn raised(delta: Aligned) -> Effect {
    |node: Tree|
        match (as_number(node), as_u64(delta)) {
            (Some(x), Some(d)) => Some(
                if x < d {
                    Tree::Cell(delta)
                } else {
                    node
                },
            ),
            _ => None,
        }
}

/// The smaller of the number and the delta.
pub open spec fn lowered(delta: Aligned) -> Effect {
    |node: Tree|
        match (as_number(node), as_u64(delta)) {
            (Some(x), Some(d)) => Some(
                if x < d {
                    node
                } else {
                    Tree::Cell(delta)
                },
            ),
            _ => None,
        }
}

/// Both truth values.
pub open spec fn both(delta: Aligned) -> Effect {
    |node: Tree|
        match (as_truth(node), as_bool(delta)) {
            (Some(x), Some(d)) => Some(truth(x && d)),
            _ => None,
        }
}

/// Either truth value.
pub open spec fn either(delta: Aligned) -> Effect {
    |node: Tree|
        match (as_truth(node), as_bool(delta)) {
            (Some(x), Some(d)) => Some(truth(x || d)),
            _ => None,
        }
}

/// `idxp; push delta; add; insc`.
pub open spec fn add_ops(path: Seq<Aligned>, delta: Aligned) -> Seq<Op> {
    rework_ops(path, seq![Op::Push { storage: false, value: delta }, Op::Add])
}

/// `idxp; push delta; sub; insc`.
pub open spec fn sub_ops(path: Seq<Aligned>, delta: Aligned) -> Seq<Op> {
    rework_ops(path, seq![Op::Push { storage: false, value: delta }, Op::Sub])
}

/// `idxp; push delta; and; insc`.
pub open spec fn and_ops(path: Seq<Aligned>, delta: Aligned) -> Seq<Op> {
    rework_ops(path, seq![Op::Push { storage: false, value: delta }, Op::And])
}

/// `idxp; push delta; or; insc`.
pub open spec fn or_ops(path: Seq<Aligned>, delta: Aligned) -> Seq<Op> {
    rework_ops(path, seq![Op::Push { storage: false, value: delta }, Op::Or])
}

/// Keeps the delta over the node where the two on top compare, in this order.
pub open spec fn keep_middle(delta: Aligned, negated: bool) -> Seq<Op> {
    let test = seq![
        Op::Push { storage: true, value: delta },
        Op::Dup { n: 1 },
        Op::Dup { n: 1 },
        Op::Lt,
    ];
    let choice = seq![
        Op::Branch { skip: 3 },
        Op::Swap { n: 0 },
        Op::Pop,
        Op::Jmp { skip: 1 },
        Op::Pop,
    ];
    if negated {
        test + seq![Op::Neg] + choice
    } else {
        test + choice
    }
}

/// `idxp; pushs delta; dup 1; dup 1; lt; neg; branch 3; swap 0; pop; jmp 1; pop;
/// insc`.
pub open spec fn max_ops(path: Seq<Aligned>, delta: Aligned) -> Seq<Op> {
    rework_ops(path, keep_middle(delta, true))
}

/// The same without the `neg`.
pub open spec fn min_ops(path: Seq<Aligned>, delta: Aligned) -> Seq<Op> {
    rework_ops(path, keep_middle(delta, false))
}

proof fn lemma_two_ops(delta: Aligned, op: Op, effect: Effect)
    requires
        op is Add || op is Sub || op is And || op is Or,
        op is Add ==> effect == added(delta),
        op is Sub ==> effect == subtracted(delta),
        op is And ==> effect == both(delta),
        op is Or ==> effect == either(delta),
    ensures
        performs(seq![Op::Push { storage: false, value: delta }, op], effect),
{
    let push = Op::Push { storage: false, value: delta };
    let ops = seq![push, op];
    assert forall|stack: Seq<Item>, node: Tree, rest: Seq<Op>|
        #![trigger run(ops + rest, holding(stack, node))]
        run(ops + rest, holding(stack, node)) == match effect(node) {
            Some(next) => run(rest, holding(stack, next)),
            None => None,
        } by {
        assert(ops + rest =~= seq![push] + (seq![op] + rest));
        lemma_first(push, seq![op] + rest, holding(stack, node));
        let two = holding(stack, node).push(Item { strong: false, tree: Tree::Cell(delta) });
        lemma_first(op, rest, two);
        assert(two.take(two.len() - 2) =~= stack);
        assert(two[two.len() - 2].tree == node);
        assert(two.last().tree == Tree::Cell(delta));
    }
}

/// `cell += delta`; overflow fails the transaction.
pub proof fn law_add(path: Seq<Aligned>, delta: Aligned)
    ensures
        performs(add_ops(path, delta), at_path(path, added(delta))),
{
    lemma_two_ops(delta, Op::Add, added(delta));
    law_rework(path, seq![Op::Push { storage: false, value: delta }, Op::Add], added(delta));
}

/// `cell -= delta`; underflow fails the transaction.
pub proof fn law_sub(path: Seq<Aligned>, delta: Aligned)
    ensures
        performs(sub_ops(path, delta), at_path(path, subtracted(delta))),
{
    lemma_two_ops(delta, Op::Sub, subtracted(delta));
    law_rework(path, seq![Op::Push { storage: false, value: delta }, Op::Sub], subtracted(delta));
}

/// `cell = cell && delta`.
pub proof fn law_and(path: Seq<Aligned>, delta: Aligned)
    ensures
        performs(and_ops(path, delta), at_path(path, both(delta))),
{
    lemma_two_ops(delta, Op::And, both(delta));
    law_rework(path, seq![Op::Push { storage: false, value: delta }, Op::And], both(delta));
}

/// `cell = cell || delta`.
pub proof fn law_or(path: Seq<Aligned>, delta: Aligned)
    ensures
        performs(or_ops(path, delta), at_path(path, either(delta))),
{
    lemma_two_ops(delta, Op::Or, either(delta));
    law_rework(path, seq![Op::Push { storage: false, value: delta }, Op::Or], either(delta));
}

/// A truth value's cell tells a branch which it is.
proof fn lemma_truth(b: bool)
    ensures
        is_false(truth(b)) == !b,
        truth(b) is Cell,
        as_truth(truth(b)) == Some(b),
{
    law_truth_round_trip(b);
    let v: nat = if b { 1 } else { 0 };
    reveal_with_fuel(crate::fab::le_bytes, 3);
    reveal_with_fuel(crate::fab::trimmed, 3);
    let bytes = crate::fab::le_bytes(v, 1);
    assert(bytes =~= seq![v as u8]);
    assert(bytes.last() == v as u8);
    if !b {
        assert(bytes.drop_last() =~= Seq::<u8>::empty());
    }
}

proof fn lemma_choice(stack: Seq<Item>, node: Item, delta: Item, test: bool, rest: Seq<Op>)
    ensures
        run(
            seq![
                Op::Branch { skip: 3 },
                Op::Swap { n: 0 },
                Op::Pop,
                Op::Jmp { skip: 1 },
                Op::Pop,
            ] + rest,
            stack.push(node).push(delta).push(Item { strong: true, tree: truth(test) }),
        ) == run(rest, stack.push(if test { node } else { delta })),
{
    lemma_truth(test);
    let two = stack.push(node).push(delta);
    let three = two.push(Item { strong: true, tree: truth(test) });
    let after = seq![Op::Swap { n: 0 }, Op::Pop, Op::Jmp { skip: 1 }, Op::Pop] + rest;
    let all = seq![Op::Branch { skip: 3 }, Op::Swap { n: 0 }, Op::Pop, Op::Jmp { skip: 1 }, Op::Pop]
        + rest;
    assert(all =~= seq![Op::Branch { skip: 3 }] + after);
    lemma_first(Op::Branch { skip: 3 }, after, three);
    assert(three.drop_last() =~= two);
    if test {
        assert(after.skip(3) =~= seq![Op::Pop] + rest);
        lemma_first(Op::Pop, rest, two);
        assert(two.drop_last() =~= stack.push(node));
    } else {
        assert(after =~= seq![Op::Swap { n: 0 }] + (seq![Op::Pop, Op::Jmp { skip: 1 }, Op::Pop]
            + rest));
        lemma_first(
            Op::Swap { n: 0 },
            seq![Op::Pop, Op::Jmp { skip: 1 }, Op::Pop] + rest,
            two,
        );
        let swapped = stack.push(delta).push(node);
        assert(two.update(two.len() - 1, two[two.len() - 2]).update(
            two.len() - 2,
            two[two.len() - 1],
        ) =~= swapped);
        assert(seq![Op::Pop, Op::Jmp { skip: 1 }, Op::Pop] + rest =~= seq![Op::Pop] + (seq![
            Op::Jmp { skip: 1 },
            Op::Pop,
        ] + rest));
        lemma_first(Op::Pop, seq![Op::Jmp { skip: 1 }, Op::Pop] + rest, swapped);
        assert(swapped.drop_last() =~= stack.push(delta));
        assert(seq![Op::Jmp { skip: 1 }, Op::Pop] + rest =~= seq![Op::Jmp { skip: 1 }] + (seq![
            Op::Pop,
        ] + rest));
        lemma_first(Op::Jmp { skip: 1 }, seq![Op::Pop] + rest, stack.push(delta));
        assert((seq![Op::Pop] + rest).skip(1) =~= rest);
    }
}

proof fn lemma_keep(delta: Aligned, negated: bool)
    ensures
        performs(
            keep_middle(delta, negated),
            if negated {
                raised(delta)
            } else {
                lowered(delta)
            },
        ),
{
    let effect = if negated {
        raised(delta)
    } else {
        lowered(delta)
    };
    let ops = keep_middle(delta, negated);
    let push = Op::Push { storage: true, value: delta };
    let dup = Op::Dup { n: 1 };
    let choice = seq![
        Op::Branch { skip: 3 },
        Op::Swap { n: 0 },
        Op::Pop,
        Op::Jmp { skip: 1 },
        Op::Pop,
    ];
    assert forall|stack: Seq<Item>, node: Tree, rest: Seq<Op>|
        #![trigger run(ops + rest, holding(stack, node))]
        run(ops + rest, holding(stack, node)) == match effect(node) {
            Some(next) => run(rest, holding(stack, next)),
            None => None,
        } by {
        let low = Item { strong: true, tree: node };
        let high = Item { strong: true, tree: Tree::Cell(delta) };
        let last = if negated {
            seq![Op::Neg] + (choice + rest)
        } else {
            choice + rest
        };
        assert(ops + rest =~= seq![push] + (seq![dup] + (seq![dup] + (seq![Op::Lt] + last))));
        lemma_first(push, seq![dup] + (seq![dup] + (seq![Op::Lt] + last)), stack.push(low));
        let two = stack.push(low).push(high);
        lemma_first(dup, seq![dup] + (seq![Op::Lt] + last), two);
        let three = two.push(low);
        assert(two[two.len() - 2] == low);
        lemma_first(dup, seq![Op::Lt] + last, three);
        let four = three.push(high);
        assert(three[three.len() - 2] == high);
        lemma_first(Op::Lt, last, four);
        assert(four[four.len() - 2] == low);
        if let (Some(x), Some(d)) = (as_number(node), as_u64(delta)) {
            let tested = two.push(Item { strong: true, tree: truth(x < d) });
            assert(replace_two(four, truth(x < d)) =~= tested);
            if negated {
                lemma_first(Op::Neg, choice + rest, tested);
                lemma_truth(x < d);
                let flipped = two.push(Item { strong: true, tree: truth(!(x < d)) });
                assert(tested.drop_last() =~= two);
                lemma_choice(stack, low, high, !(x < d), rest);
            } else {
                lemma_choice(stack, low, high, x < d, rest);
            }
        }
    }
}

/// `cell = max(cell, delta)`.
pub proof fn law_max(path: Seq<Aligned>, delta: Aligned)
    ensures
        performs(max_ops(path, delta), at_path(path, raised(delta))),
{
    lemma_keep(delta, true);
    law_rework(path, keep_middle(delta, true), raised(delta));
}

/// `cell = min(cell, delta)`.
pub proof fn law_min(path: Seq<Aligned>, delta: Aligned)
    ensures
        performs(min_ops(path, delta), at_path(path, lowered(delta))),
{
    lemma_keep(delta, false);
    law_rework(path, keep_middle(delta, false), lowered(delta));
}

// ---- the writes ---------------------------------------------------------------------------

/// `middle` on the container of `path`'s last step, stored back. At a path of
/// one step the container is the state itself.
pub open spec fn in_container(path: Seq<Aligned>, middle: Seq<Op>) -> Seq<Op> {
    if path.len() == 1 {
        middle
    } else {
        rework_ops(path.drop_last(), middle)
    }
}

/// `push key; pushs value; ins 1`, between `idxp` and `insc` where the path is
/// longer.
pub open spec fn write_ops(path: Seq<Aligned>, value: Aligned) -> Seq<Op> {
    in_container(
        path,
        seq![
            Op::Push { storage: false, value: path.last() },
            Op::Push { storage: true, value },
            Op::Ins { cached: false, n: 1 },
        ],
    )
}

/// `idxp; push key; rem; insc`.
pub open spec fn remove_ops(path: Seq<Aligned>, key: Aligned) -> Seq<Op> {
    rework_ops(
        path,
        seq![Op::Push { storage: false, value: key }, Op::Rem { cached: false }],
    )
}

/// `value` at `path`.
pub open spec fn written(path: Seq<Aligned>, value: Tree) -> Effect {
    |state: Tree| update(state, path, value)
}

/// The map without `key`; a no-op where it has no such entry.
pub open spec fn without(key: Aligned) -> Effect {
    |node: Tree|
        match node {
            Tree::Mapping(entries) => Some(Tree::Mapping(entries.remove(key))),
            _ => None,
        }
}

/// An entry can be read where it can be written.
proof fn lemma_child(tree: Tree, key: Aligned, value: Tree)
    ensures
        child(tree, key) is Some <==> with_child(tree, key, value) is Some,
{
}

/// Updating at a path is updating the last step's entry in its container.
proof fn lemma_update_last(state: Tree, path: Seq<Aligned>, value: Tree)
    requires
        path.len() > 0,
    ensures
        update(state, path, value) == match lookup(state, path.drop_last()) {
            Some(container) => match with_child(container, path.last(), value) {
                Some(next) => update(state, path.drop_last(), next),
                None => None,
            },
            None => None,
        },
    decreases path.len(),
{
    if path.len() == 1 {
        lemma_child(state, path[0], value);
        assert(path.drop_last().len() == 0);
        assert(path.skip(1).len() == 0);
    } else {
        let parent = path.drop_last();
        assert(parent[0] == path[0]);
        assert(parent.skip(1) =~= path.skip(1).drop_last());
        assert(path.skip(1).last() == path.last());
        if let Some(next) = child(state, path[0]) {
            lemma_update_last(next, path.skip(1), value);
        }
    }
}

proof fn lemma_in_container(path: Seq<Aligned>, middle: Seq<Op>, value: Tree)
    requires
        path.len() > 0,
        performs(middle, |node: Tree| with_child(node, path.last(), value)),
    ensures
        performs(in_container(path, middle), written(path, value)),
{
    let entry = |node: Tree| with_child(node, path.last(), value);
    let ops = in_container(path, middle);
    law_rework(path.drop_last(), middle, entry);
    assert forall|stack: Seq<Item>, state: Tree, rest: Seq<Op>|
        #![trigger run(ops + rest, holding(stack, state))]
        run(ops + rest, holding(stack, state)) == match written(path, value)(state) {
            Some(next) => run(rest, holding(stack, next)),
            None => None,
        } by {
        lemma_update_last(state, path, value);
        if path.len() == 1 {
            assert(path.drop_last().len() == 0);
            assert(run(middle + rest, holding(stack, state)) == match entry(state) {
                Some(next) => run(rest, holding(stack, next)),
                None => None,
            });
        } else {
            assert(run(ops + rest, holding(stack, state)) == match at_path(
                path.drop_last(),
                entry,
            )(state) {
                Some(next) => run(rest, holding(stack, next)),
                None => None,
            });
        }
    }
}

/// `cell = value`, and `map[key] = value`: never fails where the container is
/// there.
pub proof fn law_write(path: Seq<Aligned>, value: Aligned)
    requires
        path.len() > 0,
    ensures
        performs(write_ops(path, value), written(path, Tree::Cell(value))),
{
    let entry = |node: Tree| with_child(node, path.last(), Tree::Cell(value));
    let key = Op::Push { storage: false, value: path.last() };
    let push = Op::Push { storage: true, value };
    let store = Op::Ins { cached: false, n: 1 };
    let ops = seq![key, push, store];
    assert forall|stack: Seq<Item>, node: Tree, rest: Seq<Op>|
        #![trigger run(ops + rest, holding(stack, node))]
        run(ops + rest, holding(stack, node)) == match entry(node) {
            Some(next) => run(rest, holding(stack, next)),
            None => None,
        } by {
        assert(ops + rest =~= seq![key] + (seq![push] + (seq![store] + rest)));
        let one = holding(stack, node);
        lemma_first(key, seq![push] + (seq![store] + rest), one);
        let two = one.push(Item { strong: false, tree: Tree::Cell(path.last()) });
        lemma_first(push, seq![store] + rest, two);
        let three = two.push(Item { strong: true, tree: Tree::Cell(value) });
        lemma_first(store, rest, three);
        assert(three.drop_last() =~= two);
        assert(two.take(two.len() - 2) =~= stack);
        assert(two[two.len() - 2] == Item { strong: true, tree: node });
        reveal_with_fuel(unwound, 2);
    }
    lemma_in_container(path, ops, Tree::Cell(value));
}

/// `map.remove(key)`; an absent key is a no-op.
pub proof fn law_remove(path: Seq<Aligned>, key: Aligned)
    ensures
        performs(remove_ops(path, key), at_path(path, without(key))),
{
    let push = Op::Push { storage: false, value: key };
    let rem = Op::Rem { cached: false };
    let ops = seq![push, rem];
    assert forall|stack: Seq<Item>, node: Tree, rest: Seq<Op>|
        #![trigger run(ops + rest, holding(stack, node))]
        run(ops + rest, holding(stack, node)) == match without(key)(node) {
            Some(next) => run(rest, holding(stack, next)),
            None => None,
        } by {
        assert(ops + rest =~= seq![push] + (seq![rem] + rest));
        lemma_first(push, seq![rem] + rest, holding(stack, node));
        let two = holding(stack, node).push(Item { strong: false, tree: Tree::Cell(key) });
        lemma_first(rem, rest, two);
        assert(two.take(two.len() - 2) =~= stack);
        assert(two[two.len() - 2] == Item { strong: true, tree: node });
    }
    law_rework(path, ops, without(key));
}

// ---- slot to slot --------------------------------------------------------------------------

/// `idxp; push key; dup 2n+1; idx source; ins 1; insc`, `n` the length of the
/// destination's container path: the copy reaches back over the walk.
pub open spec fn copy_ops(source: Seq<Aligned>, path: Seq<Aligned>) -> Seq<Op> {
    in_container(
        path,
        seq![
            Op::Push { storage: false, value: path.last() },
            Op::Dup { n: (2 * (path.len() - 1) + 1) as nat },
            Op::Idx { cached: false, push_path: false, path: source },
            Op::Ins { cached: false, n: 1 },
        ],
    )
}

/// What is at `source`, at `path` too.
pub open spec fn copied(source: Seq<Aligned>, path: Seq<Aligned>) -> Effect {
    |state: Tree|
        match lookup(state, source) {
            Some(node) => update(state, path, node),
            None => None,
        }
}

proof fn lemma_copy_in_container(
    base: Seq<Item>,
    container: Tree,
    root: Item,
    source: Seq<Aligned>,
    key: Aligned,
    reach: nat,
    rest: Seq<Op>,
)
    requires
        root.strong,
        reach >= 1,
        reach <= base.len() + 1,
        holding(base, container)[base.len() + 1 - reach] == root,
    ensures
        run(
            seq![
                Op::Push { storage: false, value: key },
                Op::Dup { n: reach },
                Op::Idx { cached: false, push_path: false, path: source },
                Op::Ins { cached: false, n: 1 },
            ] + rest,
            holding(base, container),
        ) == match lookup(root.tree, source) {
            Some(node) => match with_child(container, key, node) {
                Some(next) => run(rest, holding(base, next)),
                None => None,
            },
            None => None,
        },
{
    let push = Op::Push { storage: false, value: key };
    let dup = Op::Dup { n: reach };
    let idx = Op::Idx { cached: false, push_path: false, path: source };
    let store = Op::Ins { cached: false, n: 1 };
    let one = holding(base, container);
    assert(seq![push, dup, idx, store] + rest =~= seq![push] + (seq![dup] + (seq![idx] + (seq![
        store,
    ] + rest))));
    lemma_first(push, seq![dup] + (seq![idx] + (seq![store] + rest)), one);
    let two = one.push(Item { strong: false, tree: Tree::Cell(key) });
    lemma_first(dup, seq![idx] + (seq![store] + rest), two);
    assert(two[two.len() - 1 - reach] == root);
    let three = two.push(root);
    lemma_first(idx, seq![store] + rest, three);
    assert(three.drop_last() =~= two);
    lemma_walk(two, root, source, false);
    if let Some(full) = walked(two, root, source, false) {
        let node = lookup(root.tree, source)->0;
        assert(full =~= two.push(Item { strong: true, tree: node }));
        lemma_first(store, rest, full);
        assert(full.drop_last() =~= two);
        assert(two.take(two.len() - 2) =~= base);
        assert(two[two.len() - 2] == Item { strong: true, tree: container });
        reveal_with_fuel(unwound, 2);
    }
}

/// `map[key] = cell`, and `cell = other`: the value goes from slot to slot and
/// the circuit never learns it.
pub proof fn law_copy(source: Seq<Aligned>, path: Seq<Aligned>)
    requires
        path.len() > 0,
    ensures
        performs(copy_ops(source, path), copied(source, path)),
{
    let parent = path.drop_last();
    let reach = (2 * (path.len() - 1) + 1) as nat;
    let middle = seq![
        Op::Push { storage: false, value: path.last() },
        Op::Dup { n: reach },
        Op::Idx { cached: false, push_path: false, path: source },
        Op::Ins { cached: false, n: 1 },
    ];
    let ops = copy_ops(source, path);
    let (walk, store) = (
        Op::Idx { cached: false, push_path: true, path: parent },
        Op::Ins { cached: true, n: parent.len() },
    );
    assert forall|stack: Seq<Item>, state: Tree, rest: Seq<Op>|
        #![trigger run(ops + rest, holding(stack, state))]
        run(ops + rest, holding(stack, state)) == match copied(source, path)(state) {
            Some(next) => run(rest, holding(stack, next)),
            None => None,
        } by {
        let root = Item { strong: true, tree: state };
        if path.len() == 1 {
            lemma_copy_in_container(stack, state, root, source, path.last(), reach, rest);
            if let Some(node) = lookup(state, source) {
                lemma_update_last(state, path, node);
                assert(parent.len() == 0);
            }
        } else {
            let tail = middle + (seq![store] + rest);
            assert(ops + rest =~= seq![walk] + tail);
            lemma_first(walk, tail, holding(stack, state));
            assert(holding(stack, state).drop_last() =~= stack);
            lemma_walk(stack, root, parent, true);
            match walked(stack, root, parent, true) {
                Some(full) => {
                    let container = lookup(state, parent)->0;
                    let base = full.drop_last();
                    assert(full =~= holding(base, container));
                    assert(full[stack.len() as int] == root);
                    assert(base.len() + 1 - reach == stack.len());
                    lemma_copy_in_container(
                        base,
                        container,
                        root,
                        source,
                        path.last(),
                        reach,
                        seq![store] + rest,
                    );
                    if let Some(node) = lookup(state, source) {
                        lemma_update_last(state, path, node);
                        if let Some(next) = with_child(container, path.last(), node) {
                            lemma_first(store, rest, holding(base, next));
                            assert(holding(base, next).drop_last() =~= base);
                            lemma_walk_and_back(
                                stack,
                                root,
                                parent,
                                full,
                                Item { strong: true, tree: next },
                            );
                        }
                    }
                },
                None => {
                    if let Some(node) = lookup(state, source) {
                        lemma_update_last(state, path, node);
                    }
                },
            }
        }
    }
}

/// `dup 0; idx map; push key; member; push 1; sub; pop`: fails where the map has
/// no such key, since zero less one underflows, and changes nothing.
pub open spec fn require_ops(path: Seq<Aligned>, key: Aligned) -> Seq<Op> {
    seq![
        Op::Dup { n: 0 },
        Op::Idx { cached: false, push_path: false, path },
        Op::Push { storage: false, value: key },
        Op::Member,
        Op::Push { storage: false, value: number(1, 1) },
        Op::Sub,
        Op::Pop,
    ]
}

/// Whether a map is at `path` and has `key`.
pub open spec fn has_entry(state: Tree, path: Seq<Aligned>, key: Aligned) -> bool {
    lookup(state, path) matches Some(Tree::Mapping(entries)) && entries.contains_key(key)
}

/// Nothing, where the map has the key; a failure where it does not.
pub open spec fn required(path: Seq<Aligned>, key: Aligned) -> Effect {
    |state: Tree|
        if has_entry(state, path, key) {
            Some(state)
        } else {
            None
        }
}

proof fn lemma_member(
    stack: Seq<Item>,
    state: Tree,
    path: Seq<Aligned>,
    key: Aligned,
    rest: Seq<Op>,
)
    ensures
        run(
            seq![
                Op::Dup { n: 0 },
                Op::Idx { cached: false, push_path: false, path },
                Op::Push { storage: false, value: key },
                Op::Member,
            ] + rest,
            holding(stack, state),
        ) == match lookup(state, path) {
            Some(Tree::Mapping(entries)) => run(
                rest,
                holding(stack, state).push(
                    Item { strong: true, tree: truth(entries.contains_key(key)) },
                ),
            ),
            _ => None,
        },
{
    let dup = Op::Dup { n: 0 };
    let idx = Op::Idx { cached: false, push_path: false, path };
    let push = Op::Push { storage: false, value: key };
    let one = holding(stack, state);
    let root = Item { strong: true, tree: state };
    assert(seq![dup, idx, push, Op::Member] + rest =~= seq![dup] + (seq![idx] + (seq![push] + (seq![
        Op::Member,
    ] + rest))));
    lemma_first(dup, seq![idx] + (seq![push] + (seq![Op::Member] + rest)), one);
    let two = one.push(root);
    lemma_first(idx, seq![push] + (seq![Op::Member] + rest), two);
    assert(two.drop_last() =~= one);
    lemma_walk(one, root, path, false);
    if let Some(full) = walked(one, root, path, false) {
        let node = lookup(state, path)->0;
        assert(full =~= one.push(Item { strong: true, tree: node }));
        lemma_first(push, seq![Op::Member] + rest, full);
        let four = full.push(Item { strong: false, tree: Tree::Cell(key) });
        lemma_first(Op::Member, rest, four);
        assert(four[four.len() - 2].tree == node);
        assert(four.take(four.len() - 2) =~= one);
    }
}

/// A missing key fails the transaction.
pub proof fn law_require(path: Seq<Aligned>, key: Aligned)
    ensures
        performs(require_ops(path, key), required(path, key)),
{
    let ops = require_ops(path, key);
    let one_cell = Op::Push { storage: false, value: number(1, 1) };
    let test = seq![
        Op::Dup { n: 0 },
        Op::Idx { cached: false, push_path: false, path },
        Op::Push { storage: false, value: key },
        Op::Member,
    ];
    assert forall|stack: Seq<Item>, state: Tree, rest: Seq<Op>|
        #![trigger run(ops + rest, holding(stack, state))]
        run(ops + rest, holding(stack, state)) == match required(path, key)(state) {
            Some(next) => run(rest, holding(stack, next)),
            None => None,
        } by {
        let tail = seq![one_cell] + (seq![Op::Sub] + (seq![Op::Pop] + rest));
        assert(ops + rest =~= test + tail);
        lemma_member(stack, state, path, key, tail);
        if let Some(Tree::Mapping(entries)) = lookup(state, path) {
            let present = entries.contains_key(key);
            let one = holding(stack, state);
            let two = one.push(Item { strong: true, tree: truth(present) });
            lemma_first(one_cell, seq![Op::Sub] + (seq![Op::Pop] + rest), two);
            let three = two.push(Item { strong: false, tree: Tree::Cell(number(1, 1)) });
            lemma_first(Op::Sub, seq![Op::Pop] + rest, three);
            assert(three[three.len() - 2].tree == truth(present));
            lemma_truth(present);
            assert(truth(true) == Tree::Cell(number(1, 1)));
            lemma_truth(true);
            assert(three.take(three.len() - 2) =~= one);
            if present {
                let left = one.push(Item { strong: true, tree: Tree::Cell(number(0, 8)) });
                lemma_first(Op::Pop, rest, left);
                assert(left.drop_last() =~= one);
            }
        }
    }
}

/// The presence check, the copy, the removal.
pub open spec fn move_ops(path: Seq<Aligned>, from: Aligned, to: Aligned) -> Seq<Op> {
    require_ops(path, from) + copy_ops(path.push(from), path.push(to)) + remove_ops(path, from)
}

/// `map[to] = map[from]`, and then no `from`; fails where `from` is absent.
pub open spec fn moved(path: Seq<Aligned>, from: Aligned, to: Aligned) -> Effect {
    in_turn(
        in_turn(required(path, from), copied(path.push(from), path.push(to))),
        at_path(path, without(from)),
    )
}

/// Moving an entry moves a present one, and fails the transaction on an absent
/// source.
pub proof fn law_move(path: Seq<Aligned>, from: Aligned, to: Aligned)
    ensures
        performs(move_ops(path, from, to), moved(path, from, to)),
{
    law_require(path, from);
    law_copy(path.push(from), path.push(to));
    law_remove(path, from);
    law_programs_compose(
        require_ops(path, from),
        required(path, from),
        copy_ops(path.push(from), path.push(to)),
        copied(path.push(from), path.push(to)),
    );
    law_programs_compose(
        require_ops(path, from) + copy_ops(path.push(from), path.push(to)),
        in_turn(required(path, from), copied(path.push(from), path.push(to))),
        remove_ops(path, from),
        at_path(path, without(from)),
    );
}

// ---- branches -------------------------------------------------------------------------------

/// What a test leaves on the stack above the state; `None` where it fails.
pub type Test = spec_fn(Tree) -> Option<Tree>;

/// Whether a program leaves a test's answer above the state.
pub open spec fn tests(ops: Seq<Op>, test: Test) -> bool {
    forall|stack: Seq<Item>, state: Tree, rest: Seq<Op>|
        #![trigger run(ops + rest, holding(stack, state))]
        run(ops + rest, holding(stack, state)) == match test(state) {
            Some(answer) => run(
                rest,
                holding(stack, state).push(Item { strong: true, tree: answer }),
            ),
            None => None,
        }
}

/// `<test>; branch len(arm); <arm>`.
pub open spec fn branch_ops(test: Seq<Op>, arm: Seq<Op>) -> Seq<Op> {
    test + seq![Op::Branch { skip: arm.len() }] + arm
}

/// The arm's effect where the test's answer is false, and nothing otherwise.
pub open spec fn unless(test: Test, arm: Effect) -> Effect {
    |state: Tree|
        match test(state) {
            Some(answer) => if !(answer is Cell) {
                None
            } else if is_false(answer) {
                arm(state)
            } else {
                Some(state)
            },
            None => None,
        }
}

/// A branch over an arm runs it exactly where the test's answer is false, and
/// leaves the stack as it found it. A failure inside the arm fails only where
/// the arm runs.
pub proof fn law_branch(test: Seq<Op>, answer: Test, arm: Seq<Op>, effect: Effect)
    requires
        tests(test, answer),
        performs(arm, effect),
    ensures
        performs(branch_ops(test, arm), unless(answer, effect)),
{
    let ops = branch_ops(test, arm);
    let branch = Op::Branch { skip: arm.len() };
    assert forall|stack: Seq<Item>, state: Tree, rest: Seq<Op>|
        #![trigger run(ops + rest, holding(stack, state))]
        run(ops + rest, holding(stack, state)) == match unless(answer, effect)(state) {
            Some(next) => run(rest, holding(stack, next)),
            None => None,
        } by {
        let tail = seq![branch] + (arm + rest);
        assert(ops + rest =~= test + tail);
        assert(run(test + tail, holding(stack, state)) == match answer(state) {
            Some(top) => run(tail, holding(stack, state).push(Item { strong: true, tree: top })),
            None => None,
        });
        if let Some(top) = answer(state) {
            let tested = holding(stack, state).push(Item { strong: true, tree: top });
            lemma_first(branch, arm + rest, tested);
            assert(tested.drop_last() =~= holding(stack, state));
            assert((arm + rest).skip(arm.len() as int) =~= rest);
            assert((arm + rest).skip(0) =~= arm + rest);
            assert(run(arm + rest, holding(stack, state)) == match effect(state) {
                Some(next) => run(rest, holding(stack, next)),
                None => None,
            });
        }
    }
}

/// `dup 0; idx map; push key; member`.
pub open spec fn member_test(path: Seq<Aligned>, key: Aligned) -> Seq<Op> {
    seq![
        Op::Dup { n: 0 },
        Op::Idx { cached: false, push_path: false, path },
        Op::Push { storage: false, value: key },
        Op::Member,
    ]
}

/// Whether the map has the key.
pub open spec fn present(path: Seq<Aligned>, key: Aligned) -> Test {
    |state: Tree|
        match lookup(state, path) {
            Some(Tree::Mapping(entries)) => Some(truth(entries.contains_key(key))),
            _ => None,
        }
}

/// `dup 0; idx cell; push bound; lt; neg`.
pub open spec fn below_test(path: Seq<Aligned>, bound: Aligned) -> Seq<Op> {
    seq![
        Op::Dup { n: 0 },
        Op::Idx { cached: false, push_path: false, path },
        Op::Push { storage: false, value: bound },
        Op::Lt,
        Op::Neg,
    ]
}

/// Whether the cell is not below the bound.
pub open spec fn not_below(path: Seq<Aligned>, bound: Aligned) -> Test {
    |state: Tree|
        match lookup(state, path) {
            Some(node) => match (as_number(node), as_u64(bound)) {
                (Some(x), Some(b)) => Some(truth(!(x < b))),
                _ => None,
            },
            None => None,
        }
}

/// `dup 0; idx flag`.
pub open spec fn flag_test(path: Seq<Aligned>) -> Seq<Op> {
    seq![Op::Dup { n: 0 }, Op::Idx { cached: false, push_path: false, path }]
}

/// What the flag holds.
pub open spec fn flag_of(path: Seq<Aligned>) -> Test {
    |state: Tree| lookup(state, path)
}

/// The membership test answers whether the map has the key.
pub proof fn law_member_test(path: Seq<Aligned>, key: Aligned)
    ensures
        tests(member_test(path, key), present(path, key)),
{
    assert forall|stack: Seq<Item>, state: Tree, rest: Seq<Op>|
        #![trigger run(member_test(path, key) + rest, holding(stack, state))]
        run(member_test(path, key) + rest, holding(stack, state)) == match present(path, key)(
            state,
        ) {
            Some(answer) => run(
                rest,
                holding(stack, state).push(Item { strong: true, tree: answer }),
            ),
            None => None,
        } by {
        lemma_member(stack, state, path, key, rest);
    }
}

/// The flag's test answers what the flag holds.
pub proof fn law_flag_test(path: Seq<Aligned>)
    ensures
        tests(flag_test(path), flag_of(path)),
{
    let (dup, idx) = (Op::Dup { n: 0 }, Op::Idx { cached: false, push_path: false, path });
    assert forall|stack: Seq<Item>, state: Tree, rest: Seq<Op>|
        #![trigger run(flag_test(path) + rest, holding(stack, state))]
        run(flag_test(path) + rest, holding(stack, state)) == match flag_of(path)(state) {
            Some(answer) => run(
                rest,
                holding(stack, state).push(Item { strong: true, tree: answer }),
            ),
            None => None,
        } by {
        let one = holding(stack, state);
        let root = Item { strong: true, tree: state };
        assert(flag_test(path) + rest =~= seq![dup] + (seq![idx] + rest));
        lemma_first(dup, seq![idx] + rest, one);
        let two = one.push(root);
        lemma_first(idx, rest, two);
        assert(two.drop_last() =~= one);
        lemma_walk(one, root, path, false);
        if let Some(full) = walked(one, root, path, false) {
            let node = lookup(state, path)->0;
            assert(full =~= one.push(Item { strong: true, tree: node }));
        }
    }
}

/// The comparison's test answers whether the cell is not below the bound.
pub proof fn law_below_test(path: Seq<Aligned>, bound: Aligned)
    ensures
        tests(below_test(path, bound), not_below(path, bound)),
{
    let push = Op::Push { storage: false, value: bound };
    assert forall|stack: Seq<Item>, state: Tree, rest: Seq<Op>|
        #![trigger run(below_test(path, bound) + rest, holding(stack, state))]
        run(below_test(path, bound) + rest, holding(stack, state)) == match not_below(path, bound)(
            state,
        ) {
            Some(answer) => run(
                rest,
                holding(stack, state).push(Item { strong: true, tree: answer }),
            ),
            None => None,
        } by {
        law_flag_test(path);
        let one = holding(stack, state);
        let tail = seq![push] + (seq![Op::Lt] + (seq![Op::Neg] + rest));
        assert(below_test(path, bound) + rest =~= flag_test(path) + tail);
        assert(run(flag_test(path) + tail, one) == match flag_of(path)(state) {
            Some(answer) => run(tail, one.push(Item { strong: true, tree: answer })),
            None => None,
        });
        if let Some(node) = lookup(state, path) {
            let two = one.push(Item { strong: true, tree: node });
            lemma_first(push, seq![Op::Lt] + (seq![Op::Neg] + rest), two);
            let three = two.push(Item { strong: false, tree: Tree::Cell(bound) });
            lemma_first(Op::Lt, seq![Op::Neg] + rest, three);
            assert(three[three.len() - 2].tree == node);
            if let (Some(x), Some(b)) = (as_number(node), as_u64(bound)) {
                let tested = one.push(Item { strong: true, tree: truth(x < b) });
                assert(replace_two(three, truth(x < b)) =~= tested);
                lemma_truth(x < b);
                lemma_first(Op::Neg, rest, tested);
                assert(tested.drop_last() =~= one);
            }
        }
    }
}

// ---- reads ------------------------------------------------------------------------------------

/// `dup 0; idx path; popeq value`: the read of a cell or an entry.
pub open spec fn read_ops(path: Seq<Aligned>, value: Aligned) -> Seq<Op> {
    flag_test(path) + seq![Op::Popeq { value }]
}

/// `dup 0; idx map; push key; member; popeq answer`: the read of a key's
/// presence.
pub open spec fn read_member_ops(path: Seq<Aligned>, key: Aligned, answer: bool) -> Seq<Op> {
    member_test(path, key) + seq![Op::Popeq { value: truth(answer)->Cell_0 }]
}

/// Nothing, where the slot still holds what was read; a failure where it does
/// not.
pub open spec fn assumed(test: Test, value: Aligned) -> Effect {
    |state: Tree|
        if test(state) == Some(Tree::Cell(value)) {
            Some(state)
        } else {
            None
        }
}

/// A read is an assumption: it changes nothing, and fails the transaction where
/// the ledger holds something else at landing.
pub proof fn law_read_is_an_assumption(test: Seq<Op>, answer: Test, value: Aligned)
    requires
        tests(test, answer),
    ensures
        performs(test + seq![Op::Popeq { value }], assumed(answer, value)),
{
    let check = Op::Popeq { value };
    let ops = test + seq![check];
    assert forall|stack: Seq<Item>, state: Tree, rest: Seq<Op>|
        #![trigger run(ops + rest, holding(stack, state))]
        run(ops + rest, holding(stack, state)) == match assumed(answer, value)(state) {
            Some(next) => run(rest, holding(stack, next)),
            None => None,
        } by {
        let one = holding(stack, state);
        assert(ops + rest =~= test + (seq![check] + rest));
        assert(run(test + (seq![check] + rest), one) == match answer(state) {
            Some(top) => run(seq![check] + rest, one.push(Item { strong: true, tree: top })),
            None => None,
        });
        if let Some(top) = answer(state) {
            let two = one.push(Item { strong: true, tree: top });
            lemma_first(check, rest, two);
            assert(two.drop_last() =~= one);
        }
    }
}

// ---- what lands ---------------------------------------------------------------------------------

/// The state a program leaves; `None` where it fails.
pub open spec fn landed(ops: Seq<Op>, state: Tree) -> Option<Tree> {
    match run(ops, holding(Seq::empty(), state)) {
        Some(stack) => if stack.len() == 1 {
            Some(stack[0].tree)
        } else {
            None
        },
        None => None,
    }
}

/// A program leaves what its effect does.
pub proof fn law_effects_land(ops: Seq<Op>, effect: Effect, state: Tree)
    requires
        performs(ops, effect),
    ensures
        landed(ops, state) == effect(state),
{
    let (below, none) = (Seq::<Item>::empty(), Seq::<Op>::empty());
    assert(ops + none =~= ops);
    assert(run(ops + none, holding(below, state)) == match effect(state) {
        Some(next) => run(none, holding(below, next)),
        None => None,
    });
}

/// The number at a path.
pub open spec fn number_at(state: Tree, path: Seq<Aligned>) -> Option<u64> {
    match lookup(state, path) {
        Some(node) => as_number(node),
        None => None,
    }
}

/// The truth value at a path.
pub open spec fn truth_at(state: Tree, path: Seq<Aligned>) -> Option<bool> {
    match lookup(state, path) {
        Some(node) => as_truth(node),
        None => None,
    }
}

proof fn lemma_reworked(state: Tree, path: Seq<Aligned>, effect: Effect)
    requires
        lookup(state, path) is Some,
    ensures
        match effect(lookup(state, path)->0) {
            Some(node) => at_path(path, effect)(state) matches Some(next) && lookup(next, path)
                == Some(node),
            None => at_path(path, effect)(state) is None,
        },
{
    if let Some(node) = effect(lookup(state, path)->0) {
        law_written_where_read(state, path, node);
        law_write_reads_back(state, path, node);
    }
}

/// What the arithmetic leaves in a cell that holds `x`, for a delta `d`: the sum
/// and the difference, which fail where they are no machine word, the larger and
/// the smaller.
pub proof fn law_arithmetic_lands(
    path: Seq<Aligned>,
    delta: Aligned,
    state: Tree,
    x: u64,
    d: u64,
)
    requires
        number_at(state, path) == Some(x),
        as_u64(delta) == Some(d),
    ensures
        match landed(add_ops(path, delta), state) {
            Some(next) => number_at(next, path) matches Some(y) && y == x + d,
            None => x + d > u64::MAX,
        },
        match landed(sub_ops(path, delta), state) {
            Some(next) => number_at(next, path) matches Some(y) && y == x - d,
            None => x < d,
        },
        landed(max_ops(path, delta), state) matches Some(next) && (number_at(next, path) matches Some(
            y,
        ) && y >= x && y >= d && (y == x || y == d)),
        landed(min_ops(path, delta), state) matches Some(next) && (number_at(next, path) matches Some(
            y,
        ) && y <= x && y <= d && (y == x || y == d)),
{
    law_add(path, delta);
    law_sub(path, delta);
    law_max(path, delta);
    law_min(path, delta);
    law_effects_land(add_ops(path, delta), at_path(path, added(delta)), state);
    law_effects_land(sub_ops(path, delta), at_path(path, subtracted(delta)), state);
    law_effects_land(max_ops(path, delta), at_path(path, raised(delta)), state);
    law_effects_land(min_ops(path, delta), at_path(path, lowered(delta)), state);
    lemma_reworked(state, path, added(delta));
    lemma_reworked(state, path, subtracted(delta));
    lemma_reworked(state, path, raised(delta));
    lemma_reworked(state, path, lowered(delta));
    assert(capacity(8) == 0x1_0000_0000_0000_0000) by {
        reveal_with_fuel(capacity, 9);
    }
    if x + d <= u64::MAX {
        law_number_round_trip((x + d) as u64, 8);
    }
    if x >= d {
        law_number_round_trip((x - d) as u64, 8);
    }
}

/// What the connectives leave in a cell that holds `x`, for a delta `d`.
pub proof fn law_connectives_land(
    path: Seq<Aligned>,
    delta: Aligned,
    state: Tree,
    x: bool,
    d: bool,
)
    requires
        truth_at(state, path) == Some(x),
        as_bool(delta) == Some(d),
    ensures
        landed(and_ops(path, delta), state) matches Some(next) && truth_at(next, path) == Some(
            x && d,
        ),
        landed(or_ops(path, delta), state) matches Some(next) && truth_at(next, path) == Some(
            x || d,
        ),
{
    law_and(path, delta);
    law_or(path, delta);
    law_effects_land(and_ops(path, delta), at_path(path, both(delta)), state);
    law_effects_land(or_ops(path, delta), at_path(path, either(delta)), state);
    lemma_reworked(state, path, both(delta));
    lemma_reworked(state, path, either(delta));
    law_truth_round_trip(x && d);
    law_truth_round_trip(x || d);
}

/// What a write leaves: the value, wherever there is a slot.
pub proof fn law_write_lands(path: Seq<Aligned>, value: Aligned, state: Tree)
    requires
        path.len() > 0,
    ensures
        match landed(write_ops(path, value), state) {
            Some(next) => lookup(next, path) == Some(Tree::Cell(value)),
            None => lookup(state, path) is None,
        },
{
    law_write(path, value);
    law_effects_land(write_ops(path, value), written(path, Tree::Cell(value)), state);
    law_written_where_read(state, path, Tree::Cell(value));
    if lookup(state, path) is Some {
        law_write_reads_back(state, path, Tree::Cell(value));
    }
}

/// What a removal leaves of a map: every entry but the key's.
pub proof fn law_removal_lands(
    path: Seq<Aligned>,
    key: Aligned,
    entries: Map<Aligned, Tree>,
    state: Tree,
)
    requires
        lookup(state, path) == Some(Tree::Mapping(entries)),
    ensures
        landed(remove_ops(path, key), state) matches Some(next) && (lookup(next, path) matches Some(
            Tree::Mapping(after),
        ) && forall|other: Aligned|
            #![trigger after.contains_key(other)]
            (after.contains_key(other) <==> other != key && entries.contains_key(other)) && (
            after.contains_key(other) ==> after[other] == entries[other])),
{
    law_remove(path, key);
    law_effects_land(remove_ops(path, key), at_path(path, without(key)), state);
    lemma_reworked(state, path, without(key));
}

/// What a copy leaves: at its path what is at its source, wherever there are
/// both.
pub proof fn law_copy_lands(source: Seq<Aligned>, path: Seq<Aligned>, state: Tree)
    requires
        path.len() > 0,
    ensures
        match landed(copy_ops(source, path), state) {
            Some(next) => lookup(state, source) is Some && lookup(next, path) == lookup(
                state,
                source,
            ),
            None => lookup(state, source) is None || lookup(state, path) is None,
        },
{
    law_copy(source, path);
    law_effects_land(copy_ops(source, path), copied(source, path), state);
    if let Some(node) = lookup(state, source) {
        law_written_where_read(state, path, node);
        if lookup(state, path) is Some {
            law_write_reads_back(state, path, node);
        }
    }
}

/// What a move leaves of a map: the source's entry under its new key, no source,
/// and every other entry; and a missing source fails.
pub proof fn law_move_lands(
    path: Seq<Aligned>,
    from: Aligned,
    to: Aligned,
    entries: Map<Aligned, Tree>,
    state: Tree,
)
    requires
        lookup(state, path) == Some(Tree::Mapping(entries)),
        from != to,
    ensures
        match landed(move_ops(path, from, to), state) {
            Some(next) => entries.contains_key(from) && (lookup(next, path) matches Some(
                Tree::Mapping(after),
            ) && after.contains_key(to) && after[to] == entries[from] && !after.contains_key(from)
                && forall|other: Aligned|
                #![trigger after.contains_key(other)]
                other != from && other != to ==> (after.contains_key(other)
                    <==> entries.contains_key(other)) && (after.contains_key(other) ==> after[other]
                    == entries[other])),
            None => !entries.contains_key(from),
        },
{
    law_move(path, from, to);
    law_effects_land(move_ops(path, from, to), moved(path, from, to), state);
    if entries.contains_key(from) {
        let node = entries[from];
        lemma_entry(state, path, from);
        law_entry_write(state, path, entries, to, node);
        let with = Tree::Mapping(entries.insert(to, node));
        law_written_where_read(state, path, with);
        law_write_reads_back(state, path, with);
        let mid = update(state, path, with)->0;
        lemma_reworked(mid, path, without(from));
    }
}

/// When an arm runs: where the map has no such entry; where the number is below
/// the bound; where the flag is unset. Otherwise everything stays.
pub proof fn law_branches_land(
    path: Seq<Aligned>,
    key: Aligned,
    arm: Seq<Op>,
    effect: Effect,
    state: Tree,
)
    requires
        performs(arm, effect),
    ensures
        lookup(state, path) matches Some(Tree::Mapping(entries)) ==> landed(
            branch_ops(member_test(path, key), arm),
            state,
        ) == if entries.contains_key(key) {
            Some(state)
        } else {
            landed(arm, state)
        },
        number_at(state, path) matches Some(x) ==> (as_u64(key) matches Some(bound) ==> landed(
            branch_ops(below_test(path, key), arm),
            state,
        ) == if x < bound {
            landed(arm, state)
        } else {
            Some(state)
        }),
        forall|set: bool|
            lookup(state, path) == Some(#[trigger] truth(set)) ==> landed(
                branch_ops(flag_test(path), arm),
                state,
            ) == if set {
                Some(state)
            } else {
                landed(arm, state)
            },
{
    law_effects_land(arm, effect, state);
    law_member_test(path, key);
    law_below_test(path, key);
    law_flag_test(path);
    law_branch(member_test(path, key), present(path, key), arm, effect);
    law_branch(below_test(path, key), not_below(path, key), arm, effect);
    law_branch(flag_test(path), flag_of(path), arm, effect);
    law_effects_land(
        branch_ops(member_test(path, key), arm),
        unless(present(path, key), effect),
        state,
    );
    law_effects_land(
        branch_ops(below_test(path, key), arm),
        unless(not_below(path, key), effect),
        state,
    );
    law_effects_land(branch_ops(flag_test(path), arm), unless(flag_of(path), effect), state);
    lemma_truth(true);
    lemma_truth(false);
}

/// When a read lands: where the slot holds the value; where the map has the key
/// or has not, as was read. It changes nothing.
pub proof fn law_reads_land(
    path: Seq<Aligned>,
    key: Aligned,
    value: Aligned,
    answer: bool,
    state: Tree,
)
    ensures
        landed(read_ops(path, value), state) == if lookup(state, path) == Some(Tree::Cell(value)) {
            Some(state)
        } else {
            None
        },
        lookup(state, path) matches Some(Tree::Mapping(entries)) ==> landed(
            read_member_ops(path, key, answer),
            state,
        ) == if entries.contains_key(key) == answer {
            Some(state)
        } else {
            None
        },
{
    law_flag_test(path);
    law_member_test(path, key);
    law_read_is_an_assumption(flag_test(path), flag_of(path), value);
    law_effects_land(read_ops(path, value), assumed(flag_of(path), value), state);
    let bit = truth(answer)->Cell_0;
    law_read_is_an_assumption(member_test(path, key), present(path, key), bit);
    law_effects_land(
        read_member_ops(path, key, answer),
        assumed(present(path, key), bit),
        state,
    );
    law_truth_round_trip(true);
    law_truth_round_trip(false);
}

// ---- what is cached, what is stored ----------------------------------------------------------

/// Whether every op of a program reads and writes past the cache.
pub open spec fn uncached(ops: Seq<Op>) -> bool {
    forall|i: int|
        0 <= i < ops.len() ==> match #[trigger] ops[i] {
            Op::Idx { cached, .. } => !cached,
            Op::Ins { cached, .. } => !cached,
            Op::Rem { cached } => !cached,
            _ => true,
        }
}

/// Whether a program walks down `path` past the cache, and at its end stores back
/// through it what the walk has loaded.
pub open spec fn walks_and_returns(ops: Seq<Op>, path: Seq<Aligned>) -> bool {
    &&& ops.len() >= 2
    &&& ops.first() == Op::Idx { cached: false, push_path: true, path }
    &&& ops.last() == Op::Ins { cached: true, n: path.len() }
    &&& uncached(ops.drop_last())
}

/// Whether nothing that a program pushes may be stored, but for `value`.
pub open spec fn stores_at_most(ops: Seq<Op>, value: Option<Aligned>) -> bool {
    forall|i: int|
        0 <= i < ops.len() ==> match #[trigger] ops[i] {
            Op::Push { storage, value: pushed } => storage ==> Some(pushed) == value,
            _ => true,
        }
}

proof fn lemma_walk_of_rework(path: Seq<Aligned>, middle: Seq<Op>, value: Option<Aligned>)
    requires
        uncached(middle),
        stores_at_most(middle, value),
    ensures
        walks_and_returns(rework_ops(path, middle), path),
        stores_at_most(rework_ops(path, middle), value),
{
    let ops = rework_ops(path, middle);
    let most = ops.drop_last();
    assert forall|i: int| 0 <= i < most.len() implies match #[trigger] most[i] {
        Op::Idx { cached, .. } => !cached,
        Op::Ins { cached, .. } => !cached,
        Op::Rem { cached } => !cached,
        _ => true,
    } by {
        if i > 0 {
            assert(most[i] == middle[i - 1]);
        }
    }
    assert forall|i: int| 0 <= i < ops.len() implies match #[trigger] ops[i] {
        Op::Push { storage, value: pushed } => storage ==> Some(pushed) == value,
        _ => true,
    } by {
        if 0 < i < ops.len() - 1 {
            assert(ops[i] == middle[i - 1]);
        }
    }
}

/// A rework of a slot is one walk and its return; only the larger or the smaller of
/// two numbers may have the delta itself stored.
pub proof fn law_reworks_return_what_they_load(path: Seq<Aligned>, delta: Aligned)
    ensures
        walks_and_returns(add_ops(path, delta), path) && stores_at_most(add_ops(path, delta), None),
        walks_and_returns(sub_ops(path, delta), path) && stores_at_most(sub_ops(path, delta), None),
        walks_and_returns(and_ops(path, delta), path) && stores_at_most(and_ops(path, delta), None),
        walks_and_returns(or_ops(path, delta), path) && stores_at_most(or_ops(path, delta), None),
        walks_and_returns(max_ops(path, delta), path) && stores_at_most(
            max_ops(path, delta),
            Some(delta),
        ),
        walks_and_returns(min_ops(path, delta), path) && stores_at_most(
            min_ops(path, delta),
            Some(delta),
        ),
        walks_and_returns(remove_ops(path, delta), path) && stores_at_most(
            remove_ops(path, delta),
            None,
        ),
{
    let push = Op::Push { storage: false, value: delta };
    lemma_walk_of_rework(path, seq![push, Op::Add], None);
    lemma_walk_of_rework(path, seq![push, Op::Sub], None);
    lemma_walk_of_rework(path, seq![push, Op::And], None);
    lemma_walk_of_rework(path, seq![push, Op::Or], None);
    lemma_walk_of_rework(path, seq![push, Op::Rem { cached: false }], None);
    lemma_walk_of_rework(path, keep_middle(delta, true), Some(delta));
    lemma_walk_of_rework(path, keep_middle(delta, false), Some(delta));
}

/// A write walks to the slot's container and returns, and of what it pushes only the
/// value may be stored, not the slot's own step; a copy pushes nothing that may be.
/// In the outermost container there is no walk.
pub proof fn law_writes_return_what_they_load(
    path: Seq<Aligned>,
    value: Aligned,
    source: Seq<Aligned>,
)
    requires
        path.len() > 0,
    ensures
        stores_at_most(write_ops(path, value), Some(value)),
        stores_at_most(copy_ops(source, path), None),
        path.len() == 1 ==> uncached(write_ops(path, value)) && uncached(copy_ops(source, path)),
        path.len() > 1 ==> walks_and_returns(write_ops(path, value), path.drop_last())
            && walks_and_returns(copy_ops(source, path), path.drop_last()),
{
    let key = Op::Push { storage: false, value: path.last() };
    let store = Op::Ins { cached: false, n: 1 };
    let write = seq![key, Op::Push { storage: true, value }, store];
    let copy = seq![
        key,
        Op::Dup { n: (2 * (path.len() - 1) + 1) as nat },
        Op::Idx { cached: false, push_path: false, path: source },
        store,
    ];
    lemma_walk_of_rework(path.drop_last(), write, Some(value));
    lemma_walk_of_rework(path.drop_last(), copy, None);
}

/// Tests and reads go past the cache and push nothing that may be stored.
pub proof fn law_reads_go_past_the_cache(
    path: Seq<Aligned>,
    key: Aligned,
    value: Aligned,
    answer: bool,
)
    ensures
        uncached(flag_test(path)) && stores_at_most(flag_test(path), None),
        uncached(below_test(path, key)) && stores_at_most(below_test(path, key), None),
        uncached(member_test(path, key)) && stores_at_most(member_test(path, key), None),
        uncached(require_ops(path, key)) && stores_at_most(require_ops(path, key), None),
        uncached(read_ops(path, value)) && stores_at_most(read_ops(path, value), None),
        uncached(read_member_ops(path, key, answer)) && stores_at_most(
            read_member_ops(path, key, answer),
            None,
        ),
{
}

// ---- building the lists ---------------------------------------------------------------------

/// The most steps a path has: the operand that counts them is a nibble.
pub const MAX_STEPS: usize = 15;

/// The most steps a copy reaches back over.
pub const MAX_REACH: usize = 7;

/// `a` and then `b`.
pub fn joined(a: Vec<ImpactOp>, b: Vec<ImpactOp>) -> (r: Vec<ImpactOp>)
    ensures
        program(r@) == program(a@) + program(b@),
{
    let mut r = a;
    let mut rest = b;
    r.append(&mut rest);
    assert(program(r@) =~= program(a@) + program(b@));
    r
}

/// Appends a step.
pub fn step_down(path: &Vec<LedgerKey>, key: &AlignedValue) -> (r: Vec<LedgerKey>)
    ensures
        steps(r@) == steps(path@).push(key@),
{
    let mut r = copy_steps(path);
    r.push(LedgerKey::Value(key.copy()));
    assert(steps(r@) =~= steps(path@).push(key@));
    r
}

fn rework(path: &Vec<LedgerKey>, middle: Vec<ImpactOp>) -> (r: Vec<ImpactOp>)
    requires
        path@.len() <= MAX_STEPS,
    ensures
        program(r@) == rework_ops(steps(path@), program(middle@)),
{
    let mut r: Vec<ImpactOp> = Vec::new();
    r.push(ImpactOp::Idx { cached: false, push_path: true, path: copy_steps(path) });
    let n: u8 = path.len() as u8;
    let mut body = middle;
    r.append(&mut body);
    r.push(ImpactOp::Ins { cached: true, n });
    assert(program(r@) =~= rework_ops(steps(path@), program(middle@)));
    r
}

fn push_then(value: &AlignedValue, op: ImpactOp) -> (r: Vec<ImpactOp>)
    ensures
        program(r@) == seq![Op::Push { storage: false, value: value@ }, op@],
{
    let mut r: Vec<ImpactOp> = Vec::new();
    r.push(ImpactOp::Push { storage: false, value: value.copy() });
    r.push(op);
    assert(program(r@) =~= seq![Op::Push { storage: false, value: value@ }, op@]);
    r
}

/// `cell += delta`.
pub fn cell_add_at(path: &Vec<LedgerKey>, delta: &AlignedValue) -> (r: Vec<ImpactOp>)
    requires
        path@.len() <= MAX_STEPS,
    ensures
        program(r@) == add_ops(steps(path@), delta@),
{
    rework(path, push_then(delta, ImpactOp::Add))
}

/// `cell -= delta`.
pub fn cell_sub_at(path: &Vec<LedgerKey>, delta: &AlignedValue) -> (r: Vec<ImpactOp>)
    requires
        path@.len() <= MAX_STEPS,
    ensures
        program(r@) == sub_ops(steps(path@), delta@),
{
    rework(path, push_then(delta, ImpactOp::Sub))
}

/// `cell = cell && delta`.
pub fn cell_and_at(path: &Vec<LedgerKey>, delta: &AlignedValue) -> (r: Vec<ImpactOp>)
    requires
        path@.len() <= MAX_STEPS,
    ensures
        program(r@) == and_ops(steps(path@), delta@),
{
    rework(path, push_then(delta, ImpactOp::And))
}

/// `cell = cell || delta`.
pub fn cell_or_at(path: &Vec<LedgerKey>, delta: &AlignedValue) -> (r: Vec<ImpactOp>)
    requires
        path@.len() <= MAX_STEPS,
    ensures
        program(r@) == or_ops(steps(path@), delta@),
{
    rework(path, push_then(delta, ImpactOp::Or))
}

fn keep(delta: &AlignedValue, negated: bool) -> (r: Vec<ImpactOp>)
    ensures
        program(r@) == keep_middle(delta@, negated),
{
    let mut r: Vec<ImpactOp> = Vec::new();
    r.push(ImpactOp::Push { storage: true, value: delta.copy() });
    r.push(ImpactOp::Dup { n: 1 });
    r.push(ImpactOp::Dup { n: 1 });
    r.push(ImpactOp::Lt);
    if negated {
        r.push(ImpactOp::Neg);
    }
    r.push(ImpactOp::Branch { skip: 3 });
    r.push(ImpactOp::Swap { n: 0 });
    r.push(ImpactOp::Pop);
    r.push(ImpactOp::Jmp { skip: 1 });
    r.push(ImpactOp::Pop);
    assert(program(r@) =~= keep_middle(delta@, negated));
    r
}

/// `cell = max(cell, delta)`.
pub fn cell_max_at(path: &Vec<LedgerKey>, delta: &AlignedValue) -> (r: Vec<ImpactOp>)
    requires
        path@.len() <= MAX_STEPS,
    ensures
        program(r@) == max_ops(steps(path@), delta@),
{
    rework(path, keep(delta, true))
}

/// `cell = min(cell, delta)`.
pub fn cell_min_at(path: &Vec<LedgerKey>, delta: &AlignedValue) -> (r: Vec<ImpactOp>)
    requires
        path@.len() <= MAX_STEPS,
    ensures
        program(r@) == min_ops(steps(path@), delta@),
{
    rework(path, keep(delta, false))
}

/// All steps but the last.
fn parent_of(path: &Vec<LedgerKey>) -> (r: Vec<LedgerKey>)
    requires
        path@.len() > 0,
    ensures
        steps(r@) == steps(path@).drop_last(),
{
    let mut r = copy_steps(path);
    let ghost all = r@;
    r.pop();
    proof {
        assert(steps(all).len() == all.len() && steps(path@).len() == path@.len());
        assert forall|i: int| 0 <= i < r@.len() implies steps(r@)[i] == steps(path@).drop_last()[i] by {
            assert(steps(all)[i] == all[i]@);
        }
    }
    assert(steps(r@) =~= steps(path@).drop_last());
    r
}

/// The last step as the ledger indexes with it.
fn last_key(path: &Vec<LedgerKey>) -> (r: AlignedValue)
    requires
        path@.len() > 0,
    ensures
        r@ == steps(path@).last(),
{
    let r = match &path[path.len() - 1] {
        LedgerKey::Field(i) => store_number(*i as u64, 1),
        LedgerKey::Value(key) => key.copy(),
    };
    assert(r@ == path@.last()@);
    assert(steps(path@).last() == path@.last()@);
    r
}

fn inside(path: &Vec<LedgerKey>, middle: Vec<ImpactOp>) -> (r: Vec<ImpactOp>)
    requires
        0 < path@.len() <= MAX_STEPS + 1,
    ensures
        program(r@) == in_container(steps(path@), program(middle@)),
{
    assert(steps(path@).len() == path@.len());
    if path.len() == 1 {
        middle
    } else {
        let parent = parent_of(path);
        assert(steps(parent@).len() == parent@.len());
        rework(&parent, middle)
    }
}

/// `cell = value`.
pub fn cell_write_at(path: &Vec<LedgerKey>, value: &AlignedValue) -> (r: Vec<ImpactOp>)
    requires
        0 < path@.len() <= MAX_STEPS + 1,
    ensures
        program(r@) == write_ops(steps(path@), value@),
{
    let key = last_key(path);
    let mut middle: Vec<ImpactOp> = Vec::new();
    middle.push(ImpactOp::Push { storage: false, value: key });
    middle.push(ImpactOp::Push { storage: true, value: value.copy() });
    middle.push(ImpactOp::Ins { cached: false, n: 1 });
    assert(program(middle@) =~= seq![
        Op::Push { storage: false, value: steps(path@).last() },
        Op::Push { storage: true, value: value@ },
        Op::Ins { cached: false, n: 1 },
    ]);
    inside(path, middle)
}

/// `map[key] = value`.
pub fn map_insert_at(map: &Vec<LedgerKey>, key: &AlignedValue, value: &AlignedValue) -> (r: Vec<
    ImpactOp,
>)
    requires
        map@.len() <= MAX_STEPS,
    ensures
        program(r@) == write_ops(steps(map@).push(key@), value@),
{
    let path = step_down(map, key);
    assert(steps(path@).len() == path@.len() && steps(map@).len() == map@.len());
    cell_write_at(&path, value)
}

/// `map.remove(key)`.
pub fn map_remove_at(map: &Vec<LedgerKey>, key: &AlignedValue) -> (r: Vec<ImpactOp>)
    requires
        map@.len() <= MAX_STEPS,
    ensures
        program(r@) == remove_ops(steps(map@), key@),
{
    rework(map, push_then(key, ImpactOp::Rem { cached: false }))
}

/// `path = source`, slot to slot.
pub fn cell_copy_at(source: &Vec<LedgerKey>, path: &Vec<LedgerKey>) -> (r: Vec<ImpactOp>)
    requires
        0 < path@.len() <= MAX_REACH + 1,
    ensures
        program(r@) == copy_ops(steps(source@), steps(path@)),
{
    let key = last_key(path);
    let reach: u8 = (2 * (path.len() - 1) + 1) as u8;
    let mut middle: Vec<ImpactOp> = Vec::new();
    middle.push(ImpactOp::Push { storage: false, value: key });
    middle.push(ImpactOp::Dup { n: reach });
    middle.push(ImpactOp::Idx { cached: false, push_path: false, path: copy_steps(source) });
    middle.push(ImpactOp::Ins { cached: false, n: 1 });
    assert(steps(path@).len() == path@.len());
    assert(program(middle@) =~= seq![
        Op::Push { storage: false, value: steps(path@).last() },
        Op::Dup { n: (2 * (steps(path@).len() - 1) + 1) as nat },
        Op::Idx { cached: false, push_path: false, path: steps(source@) },
        Op::Ins { cached: false, n: 1 },
    ]);
    inside(path, middle)
}

/// `map[key] = cell`.
pub fn cell_snapshot_into_map_at(
    cell: &Vec<LedgerKey>,
    map: &Vec<LedgerKey>,
    key: &AlignedValue,
) -> (r: Vec<ImpactOp>)
    requires
        map@.len() <= MAX_REACH,
    ensures
        program(r@) == copy_ops(steps(cell@), steps(map@).push(key@)),
{
    let path = step_down(map, key);
    assert(steps(path@).len() == path@.len() && steps(map@).len() == map@.len());
    cell_copy_at(cell, &path)
}

/// `map[to] = map[from]`, and then no `from`.
pub fn map_move_entry_at(map: &Vec<LedgerKey>, from: &AlignedValue, to: &AlignedValue) -> (r: Vec<
    ImpactOp,
>)
    requires
        map@.len() <= MAX_REACH,
    ensures
        program(r@) == move_ops(steps(map@), from@, to@),
{
    let mut check = member_at(map, from);
    let ghost lead = check@;
    check.push(ImpactOp::Push { storage: false, value: store_number(1, 1) });
    check.push(ImpactOp::Sub);
    check.push(ImpactOp::Pop);
    proof {
        assert(program(lead).len() == lead.len());
        assert forall|i: int| 0 <= i < check@.len() implies program(check@)[i] == require_ops(
            steps(map@),
            from@,
        )[i] by {
            if i < lead.len() {
                assert(program(lead)[i] == lead[i]@);
            }
        }
    }
    assert(program(check@) =~= require_ops(steps(map@), from@));
    let source = step_down(map, from);
    let copy = cell_snapshot_into_map_at(&source, map, to);
    let remove = map_remove_at(map, from);
    joined(joined(check, copy), remove)
}

/// Whether the map has the key, left on the stack.
pub fn member_at(map: &Vec<LedgerKey>, key: &AlignedValue) -> (r: Vec<ImpactOp>)
    ensures
        program(r@) == member_test(steps(map@), key@),
{
    let mut r: Vec<ImpactOp> = Vec::new();
    r.push(ImpactOp::Dup { n: 0 });
    r.push(ImpactOp::Idx { cached: false, push_path: false, path: copy_steps(map) });
    r.push(ImpactOp::Push { storage: false, value: key.copy() });
    r.push(ImpactOp::Member);
    assert(program(r@) =~= member_test(steps(map@), key@));
    r
}

/// What is at a path, left on the stack.
pub fn fetch_at(path: &Vec<LedgerKey>) -> (r: Vec<ImpactOp>)
    ensures
        program(r@) == flag_test(steps(path@)),
{
    let mut r: Vec<ImpactOp> = Vec::new();
    r.push(ImpactOp::Dup { n: 0 });
    r.push(ImpactOp::Idx { cached: false, push_path: false, path: copy_steps(path) });
    assert(program(r@) =~= flag_test(steps(path@)));
    r
}

/// The read of a cell or an entry as `value`.
pub fn read_at(path: &Vec<LedgerKey>, value: &AlignedValue) -> (r: Vec<ImpactOp>)
    ensures
        program(r@) == read_ops(steps(path@), value@),
{
    let mut r = fetch_at(path);
    r.push(ImpactOp::Popeq { value: value.copy() });
    assert(program(r@) =~= read_ops(steps(path@), value@));
    r
}

/// The read of a key's presence as `answer`.
pub fn read_member_at(map: &Vec<LedgerKey>, key: &AlignedValue, answer: bool) -> (r: Vec<ImpactOp>)
    ensures
        program(r@) == read_member_ops(steps(map@), key@, answer),
{
    let mut r = member_at(map, key);
    let bit: u64 = if answer {
        1
    } else {
        0
    };
    r.push(ImpactOp::Popeq { value: store_number(bit, 1) });
    assert(program(r@) =~= read_member_ops(steps(map@), key@, answer));
    r
}

} // verus!
