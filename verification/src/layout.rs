//! Where a ledger block's fields are.
//!
//! A block is not a flat list. At most fifteen fields sit side by side; a
//! longer list is cut into segments of fifteen, the remainder leading as a
//! short segment of its own, and the list of segments is cut again until it
//! fits. A field's path is the list of positions from the root down.
//!
//! A block that embeds a standard is headed: the standard owns `root[0]`, and
//! the body is laid out as if the standard were absent, one root slot along.
use vstd::prelude::*;

verus! {

/// The widest segment of a ledger block.
pub const SEGMENT: usize = 15;

/// The longest path of a declared field.
pub const MAX_FIELD_PATH: usize = 3;

/// The most fields a block's body holds: the flat index is a byte.
pub const MAX_FIELDS: usize = 256;

// ---- the segmentation ------------------------------------------------------

/// How many segments `n` entries are cut into.
pub open spec fn segment_count(n: nat) -> nat {
    if n % 15 == 0 {
        n / 15
    } else {
        n / 15 + 1
    }
}

/// Which segment entry `i` of `n` falls in. The remainder leads.
pub open spec fn segment_of(n: nat, i: nat) -> nat {
    if i < n % 15 {
        0
    } else if n % 15 == 0 {
        i / 15
    } else {
        ((i - n % 15) as nat) / 15 + 1
    }
}

/// The position of entry `i` of `n` inside its segment.
pub open spec fn entry_of(n: nat, i: nat) -> nat {
    if i < n % 15 {
        i
    } else {
        ((i - n % 15) as nat) % 15
    }
}

/// The path of field `i` in a block of `n` fields.
pub open spec fn field_path(n: nat, i: nat) -> Seq<u8>
    decreases n,
{
    if n <= 15 {
        seq![i as u8]
    } else {
        field_path(segment_count(n), segment_of(n, i)).push(entry_of(n, i) as u8)
    }
}

/// How many times a block of `n` fields is nested: the length of every path.
pub open spec fn depth(n: nat) -> nat
    decreases n,
{
    if n <= 15 {
        1
    } else {
        depth(segment_count(n)) + 1
    }
}

proof fn lemma_segments(n: nat, i: nat)
    requires
        i < n,
        n > 15,
    ensures
        segment_count(n) < n,
        segment_of(n, i) < segment_count(n),
        entry_of(n, i) < 15,
{
}

proof fn lemma_depth_bound(n: nat)
    ensures
        n <= 15 ==> depth(n) == 1,
        15 < n <= 225 ==> depth(n) == 2,
        225 < n <= 3375 ==> depth(n) == 3,
        n > 3375 ==> depth(n) > 3,
    decreases n,
{
    if n > 15 {
        lemma_depth_bound(segment_count(n));
    }
}

/// Every path of a block has the block's depth, and every step is below
/// fifteen.
pub proof fn law_paths_have_one_depth(n: nat, i: nat)
    requires
        i < n,
    ensures
        field_path(n, i).len() == depth(n),
        forall|k: int| 0 <= k < field_path(n, i).len() ==> 0 <= #[trigger] field_path(n, i)[k] < 15,
    decreases n,
{
    if n > 15 {
        lemma_segments(n, i);
        law_paths_have_one_depth(segment_count(n), segment_of(n, i));
    }
}

/// The tree deepens exactly past fifteen fields and past fifteen segments of
/// fifteen: one level, two, then three.
pub proof fn law_depth_by_width(n: nat)
    ensures
        depth(n) == 1 <==> n <= 15,
        depth(n) == 2 <==> 15 < n <= 225,
        depth(n) == 3 <==> 225 < n <= 3375,
        n <= 256 ==> depth(n) <= 3,
{
    lemma_depth_bound(n);
}

/// `a` comes before `b`, reading positions from the root down.
pub open spec fn before(a: Seq<u8>, b: Seq<u8>) -> bool {
    exists|k: int|
        0 <= k < a.len() && k < b.len() && #[trigger] a[k] < b[k] && a.take(k) == b.take(k)
}

/// Declaration order is the order of the paths: of two fields the earlier one
/// has the earlier path.
pub proof fn law_paths_follow_declaration_order(n: nat, i: nat, j: nat)
    requires
        i < j < n,
    ensures
        before(field_path(n, i), field_path(n, j)),
    decreases n,
{
    let a = field_path(n, i);
    let b = field_path(n, j);
    if n <= 15 {
        assert(a[0] < b[0]);
        assert(a.take(0) == b.take(0));
    } else {
        lemma_segments(n, i);
        lemma_segments(n, j);
        let (si, sj) = (segment_of(n, i), segment_of(n, j));
        let (pa, pb) = (field_path(segment_count(n), si), field_path(segment_count(n), sj));
        law_paths_have_one_depth(segment_count(n), si);
        law_paths_have_one_depth(segment_count(n), sj);
        if si == sj {
            let k = pa.len() as int;
            assert(a[k] < b[k]);
            assert(a.take(k) == pa);
            assert(b.take(k) == pb);
        } else {
            assert(si < sj);
            law_paths_follow_declaration_order(segment_count(n), si, sj);
            let k = choose|k: int|
                0 <= k < pa.len() && k < pb.len() && #[trigger] pa[k] < pb[k] && pa.take(k)
                    == pb.take(k);
            assert(a[k] < b[k]);
            assert(a.take(k) == pa.take(k));
            assert(b.take(k) == pb.take(k));
        }
    }
}

/// No two fields of a block share a path, and none is a prefix of another.
pub proof fn law_paths_are_distinct(n: nat, i: nat, j: nat)
    requires
        i < n,
        j < n,
        i != j,
    ensures
        field_path(n, i) != field_path(n, j),
        !field_path(n, i).is_prefix_of(field_path(n, j)),
{
    law_paths_have_one_depth(n, i);
    law_paths_have_one_depth(n, j);
    let (a, b) = (field_path(n, i), field_path(n, j));
    if i < j {
        law_paths_follow_declaration_order(n, i, j);
    } else {
        law_paths_follow_declaration_order(n, j, i);
    }
    if a.is_prefix_of(b) {
        assert(a =~= b);
    }
}

/// The path of field `index` in a block of `total` fields.
fn path_in_block(total: usize, index: usize) -> (path: Vec<u8>)
    requires
        index < total,
    ensures
        path@ == field_path(total as nat, index as nat),
    decreases total,
{
    if total <= SEGMENT {
        let mut path: Vec<u8> = Vec::new();
        path.push(index as u8);
        assert(path@ =~= field_path(total as nat, index as nat));
        path
    } else {
        let lead: usize = total % SEGMENT;
        let segments: usize = if lead == 0 {
            total / SEGMENT
        } else {
            total / SEGMENT + 1
        };
        let (segment, entry): (usize, usize) = if index < lead {
            (0, index)
        } else if lead == 0 {
            (index / SEGMENT, index % SEGMENT)
        } else {
            ((index - lead) / SEGMENT + 1, (index - lead) % SEGMENT)
        };
        proof {
            lemma_segments(total as nat, index as nat);
        }
        let mut path = path_in_block(segments, segment);
        path.push(entry as u8);
        path
    }
}

/// Every field's path, in declaration order, for a block of `fields` fields.
pub fn field_paths(fields: usize) -> (paths: Vec<Vec<u8>>)
    ensures
        paths@.len() == fields,
        forall|i: int|
            0 <= i < fields ==> #[trigger] paths@[i]@ == field_path(fields as nat, i as nat),
{
    let mut paths: Vec<Vec<u8>> = Vec::new();
    let mut i: usize = 0;
    while i < fields
        invariant
            i <= fields,
            paths@.len() == i,
            forall|j: int|
                0 <= j < i ==> #[trigger] paths@[j]@ == field_path(fields as nat, j as nat),
        decreases fields - i,
    {
        paths.push(path_in_block(fields, i));
        i += 1;
    }
    paths
}

// ---- the path of a declared field ------------------------------------------

/// The path of a declared ledger field: one to three positions, root down.
#[derive(Clone, Copy, PartialEq, Eq, Structural, Debug)]
pub enum FieldPath {
    /// A field of the root itself.
    Flat(u8),
    /// A field of a segment.
    Nested(u8, u8),
    /// A field of a segment of segments.
    Deep(u8, u8, u8),
}

impl FieldPath {
    /// The positions.
    pub open spec fn view(&self) -> Seq<u8> {
        match *self {
            FieldPath::Flat(a) => seq![a],
            FieldPath::Nested(a, b) => seq![a, b],
            FieldPath::Deep(a, b, c) => seq![a, b, c],
        }
    }

    /// The path with these positions.
    pub open spec fn with(positions: Seq<u8>) -> Self {
        if positions.len() == 1 {
            FieldPath::Flat(positions[0])
        } else if positions.len() == 2 {
            FieldPath::Nested(positions[0], positions[1])
        } else {
            FieldPath::Deep(positions[0], positions[1], positions[2])
        }
    }

    /// The path with these positions; one to three of them.
    pub fn of(path: &[u8]) -> (r: Self)
        requires
            1 <= path@.len() <= 3,
        ensures
            r@ == path@,
            r == Self::with(path@),
    {
        let r = if path.len() == 1 {
            FieldPath::Flat(path[0])
        } else if path.len() == 2 {
            FieldPath::Nested(path[0], path[1])
        } else {
            FieldPath::Deep(path[0], path[1], path[2])
        };
        assert(r@ =~= path@);
        r
    }

    /// The positions, root down.
    pub fn to_vec(&self) -> (r: Vec<u8>)
        ensures
            r@ == self@,
            1 <= r@.len() <= 3,
    {
        let mut r: Vec<u8> = Vec::new();
        match *self {
            FieldPath::Flat(a) => {
                r.push(a);
            },
            FieldPath::Nested(a, b) => {
                r.push(a);
                r.push(b);
            },
            FieldPath::Deep(a, b, c) => {
                r.push(a);
                r.push(b);
                r.push(c);
            },
        }
        assert(r@ =~= self@);
        r
    }

    /// The path of field `index` of a block of `total` fields without a
    /// standard.
    pub fn in_block(total: usize, index: usize) -> (r: Self)
        requires
            index < total <= MAX_FIELDS,
        ensures
            r@ == field_path(total as nat, index as nat),
    {
        proof {
            law_paths_have_one_depth(total as nat, index as nat);
            law_depth_by_width(total as nat);
        }
        let path = path_in_block(total, index);
        Self::of(path.as_slice())
    }

    /// The path of body field `index` under `layout`.
    pub fn in_layout(layout: BlockLayout, index: usize) -> (r: Self)
        requires
            index < layout.total() <= MAX_FIELDS,
        ensures
            r@ == layout.path(index as nat),
            r == layout.field(index as nat),
    {
        proof {
            law_paths_have_one_depth(layout.total(), index as nat);
            law_depth_by_width(layout.total());
        }
        let mut path = path_in_block(layout.total, index);
        if layout.headed {
            let first: u8 = path[0] + 1;
            path.set(0, first);
        }
        assert(path@ =~= layout.path(index as nat));
        Self::of(path.as_slice())
    }
}

// ---- a block's layout -------------------------------------------------------

/// A block's layout: how many fields its body has, and whether a standard owns
/// `root[0]`.
#[derive(Clone, Copy)]
pub struct BlockLayout {
    total: usize,
    headed: bool,
}

impl BlockLayout {
    /// The body's field count.
    pub closed spec fn total(self) -> nat {
        self.total as nat
    }

    /// Whether a standard owns `root[0]`.
    pub closed spec fn has_header(self) -> bool {
        self.headed
    }

    /// The path of body field `i`: the block's segmentation, one root slot
    /// along under a standard.
    pub open spec fn path(self, i: nat) -> Seq<u8> {
        let path = field_path(self.total(), i);
        if self.has_header() {
            path.update(0, (path[0] + 1) as u8)
        } else {
            path
        }
    }

    /// Where body field `i` is.
    pub open spec fn field(self, i: nat) -> FieldPath {
        FieldPath::with(self.path(i))
    }

    /// The layout of `total` fields without a standard.
    pub closed spec fn plain(total: usize) -> Self {
        BlockLayout { total, headed: false }
    }

    /// A block of `total` fields without a standard.
    pub fn compactc(total: usize) -> (r: Self)
        ensures
            r == Self::plain(total),
            r.total() == total,
            !r.has_header(),
    {
        BlockLayout { total, headed: false }
    }

    /// A body of `total` fields under a standard.
    pub fn headed(total: usize) -> (r: Self)
        ensures
            r.total() == total,
            r.has_header(),
    {
        BlockLayout { total, headed: true }
    }

    /// The layout of a block whose body has `total` fields and which embeds
    /// `headers` standards, none or one.
    pub fn of_block(total: usize, headers: usize) -> (r: Self)
        requires
            headers <= 1,
        ensures
            r.total() == total,
            r.has_header() <==> headers == 1,
    {
        if headers == 1 {
            BlockLayout::headed(total)
        } else {
            BlockLayout::compactc(total)
        }
    }

    /// Whether a standard owns `root[0]`.
    pub fn is_headed(&self) -> (r: bool)
        ensures
            r == self.has_header(),
    {
        self.headed
    }
}

/// Under a standard no body field is in `root[0]`, so the body never collides
/// with it, and depths are those of the block without the standard.
pub proof fn law_headed_body_is_one_slot_along(layout: BlockLayout, i: nat)
    requires
        layout.has_header(),
        i < layout.total(),
    ensures
        1 <= layout.path(i)[0] <= 15,
        layout.path(i)[0] == field_path(layout.total(), i)[0] + 1,
        layout.path(i).skip(1) == field_path(layout.total(), i).skip(1),
        layout.path(i).len() == depth(layout.total()),
{
    law_paths_have_one_depth(layout.total(), i);
    lemma_depth_bound(layout.total());
    assert(field_path(layout.total(), i)[0] < 15);
    assert(layout.path(i).skip(1) =~= field_path(layout.total(), i).skip(1));
}

/// Up to fourteen fields a headed body is laid out as the same fields of a
/// block without a standard behind one leading field, which is then at
/// `root[0]`, where the standard is.
pub proof fn law_small_headed_body_is_the_block_behind_one_field(
    headed: BlockLayout,
    leading: BlockLayout,
    i: nat,
)
    requires
        headed.has_header(),
        !leading.has_header(),
        headed.total() <= 14,
        leading.total() == headed.total() + 1,
        i < headed.total(),
    ensures
        headed.path(i) == leading.path(i + 1),
        leading.path(0) == seq![0u8],
{
    assert(headed.path(i) =~= leading.path(i + 1));
}

/// Under any layout no two body fields share a path, and none is inside
/// another.
pub proof fn law_layout_paths_do_not_overlap(layout: BlockLayout, i: nat, j: nat)
    requires
        i < layout.total(),
        j < layout.total(),
        i != j,
    ensures
        !layout.path(i).is_prefix_of(layout.path(j)),
{
    law_paths_are_distinct(layout.total(), i, j);
    law_paths_have_one_depth(layout.total(), i);
    law_paths_have_one_depth(layout.total(), j);
    lemma_depth_bound(layout.total());
    let (a, b) = (field_path(layout.total(), i), field_path(layout.total(), j));
    assert(a[0] < 15 && b[0] < 15);
    if layout.path(i).is_prefix_of(layout.path(j)) {
        assert(layout.path(i) =~= layout.path(j));
        assert forall|k: int| 0 <= k < a.len() implies a[k] == b[k] by {
            assert(layout.path(i)[k] == layout.path(j)[k]);
        }
        assert(a =~= b);
    }
}

// ---- the shape of a block -----------------------------------------------------------------------

/// A narrow block is side by side. A wider one is cut into segments from the end:
/// `k` fields before the last one, a field is in the segment `k / 15` segments
/// before the last one, which is laid out as that entry of a block of segments;
/// and there it is `k % 15` before the segment's last entry. So every segment is
/// full but the first, which holds what is left, from its own first entry on.
pub proof fn law_segments_fill_from_the_end(n: nat, k: nat, m: nat)
    requires
        k < n,
        15 * (m - 1) < n <= 15 * m,
    ensures
        n <= 15 ==> field_path(n, (n - 1 - k) as nat) == seq![(n - 1 - k) as u8],
        n > 15 ==> field_path(n, (n - 1 - k) as nat).drop_last() == field_path(
            m,
            (m - 1 - k / 15) as nat,
        ),
        n > 15 && k / 15 < m - 1 ==> field_path(n, (n - 1 - k) as nat).last() == 14 - k % 15,
        n > 15 && k / 15 == m - 1 ==> field_path(n, (n - 1 - k) as nat).last() == n - 1 - k,
{
    let i = (n - 1 - k) as nat;
    if n > 15 {
        assert(segment_count(n) == m);
        let lead = n % 15;
        assert(n == 15 * (n / 15) + lead);
        assert(k == 15 * (k / 15) + k % 15);
        if i < lead {
            assert(k / 15 == m - 1);
        } else {
            let from = (i - lead) as nat;
            assert(from == 15 * (from / 15) + from % 15);
            let full = n / 15;
            assert(from + k == 15 * full - 1);
            assert(from / 15 + k / 15 == full - 1);
            assert(from % 15 + k % 15 == 14);
        }
        assert(segment_of(n, i) == m - 1 - k / 15);
        assert(field_path(n, i).drop_last() =~= field_path(segment_count(n), segment_of(n, i)));
    }
}

/// A path is its positions.
pub proof fn law_path_is_its_positions(positions: Seq<u8>)
    requires
        1 <= positions.len() <= 3,
    ensures
        FieldPath::with(positions)@ == positions,
{
    assert(FieldPath::with(positions)@ =~= positions);
}

/// A path's positions are read from the root down.
pub proof fn law_positions_from_the_root(a: u8, b: u8, c: u8)
    ensures
        FieldPath::Flat(a)@ == seq![a],
        FieldPath::Nested(a, b)@ == seq![a, b],
        FieldPath::Deep(a, b, c)@ == seq![a, b, c],
{
}

} // verus!
