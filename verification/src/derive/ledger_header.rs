//! `derive(LedgerHeader)`: a unit struct, or a struct of single-field ledger
//! slots, becomes a standard, a slot type that claims `root[0]` of the blocks
//! it is declared in.
//!
//! The standard has width zero, so a block's width sums leave it out, and its
//! placement makes the block headed. Its own paths do not depend on the block:
//! the magic is at `[0]` without fields and at `[0, 0]` with fields, and field
//! `i` is at `[0, i + 1]`. The magic is no field, and has no write.
use super::{
    each, models, parse, push_width_items, same_text, width_item, width_items, DeriveError,
    DeriveInput, Field, FieldModel, InputModel, Shape, ShapeModel,
};
use crate::abi::{decimal, law_decimal_reads_back};
use vstd::prelude::*;

verus! {

/// The most fields a standard has: the magic and they are one Array of sixteen.
pub const MAX_HEADER_FIELDS: usize = 15;

// ---- what is refused -----------------------------------------------------------------

/// Whether field `i` is the first one named `magic`.
pub open spec fn first_magic(fields: Seq<FieldModel>, i: int) -> bool {
    0 <= i < fields.len() && fields[i].name == "magic"@ && forall|j: int|
        0 <= j < i ==> (#[trigger] fields[j]).name != "magic"@
}

/// A standard's fields, none for a unit struct, or what is wrong with the
/// declaration.
pub open spec fn standard_fields(input: InputModel) -> Result<Seq<FieldModel>, DeriveError> {
    if input.params != 0 {
        Err(DeriveError::HeaderGenerics)
    } else {
        match input.shape {
            ShapeModel::Enum => Err(DeriveError::HeaderNotAStruct),
            ShapeModel::Union => Err(DeriveError::HeaderNotAStruct),
            ShapeModel::Unit => Ok(Seq::empty()),
            ShapeModel::Unnamed => Err(DeriveError::HeaderUnnamed),
            ShapeModel::Named(fields) => if fields.len() == 0 {
                Err(DeriveError::HeaderEmpty)
            } else if fields.len() > 15 {
                Err(DeriveError::HeaderTooManyFields { field: 15 })
            } else if exists|i: int| first_magic(fields, i) {
                Err(
                    DeriveError::MagicField {
                        field: (choose|i: int| first_magic(fields, i)) as usize,
                    },
                )
            } else {
                Ok(fields)
            },
        }
    }
}

// ---- the expansion ------------------------------------------------------------------

/// The header entry `n`, as a byte literal; entry 0 is the magic's.
pub open spec fn entry_text(n: usize) -> Seq<char> {
    match n {
        1 => "1u8"@,
        2 => "2u8"@,
        3 => "3u8"@,
        4 => "4u8"@,
        5 => "5u8"@,
        6 => "6u8"@,
        7 => "7u8"@,
        8 => "8u8"@,
        9 => "9u8"@,
        10 => "10u8"@,
        11 => "11u8"@,
        12 => "12u8"@,
        13 => "13u8"@,
        14 => "14u8"@,
        _ => "15u8"@,
    }
}

/// A field's constructor call, at header entry `n`.
pub open spec fn init_text(name: Seq<char>, ty: Seq<char>, n: usize) -> Seq<char> {
    name + " : < "@ + ty + " > :: at_path (& [0u8 , "@ + entry_text(n) + "])"@
}

/// Field `i`'s constructor call: at `[0, i + 1]`.
pub open spec fn init_of(fields: Seq<FieldModel>, i: int) -> Seq<char> {
    init_text(fields[i].name, fields[i].ty, (i + 1) as usize)
}

/// The standard's value.
pub open spec fn construct(name: Seq<char>, fields: Seq<FieldModel>) -> Seq<char> {
    if fields.len() == 0 {
        name
    } else {
        name + " { "@ + each(|i: int| init_of(fields, i), " , "@, fields.len() as int) + " }"@
    }
}

/// The magic's path.
pub open spec fn magic_path(fields: Seq<FieldModel>) -> Seq<char> {
    if fields.len() == 0 {
        "& [0u8]"@
    } else {
        "& [0u8 , 0u8]"@
    }
}

/// Field `i`'s contribution to the deploy state.
pub open spec fn contribution_of(fields: Seq<FieldModel>, i: int) -> Seq<char> {
    " :: minocrab_std :: v3 :: InitialState :: contribute (& self . "@ + fields[i].name
        + " , state) ;"@
}

/// Field `i`'s bound.
pub open spec fn bound_of(fields: Seq<FieldModel>, i: int) -> Seq<char> {
    ":: minocrab_std :: v3 :: __derive :: header_field :: < "@ + fields[i].ty + " > () ;"@
}

/// The checks on the fields, where there are any.
pub open spec fn checks(fields: Seq<FieldModel>) -> Seq<char> {
    if fields.len() == 0 {
        Seq::empty()
    } else {
        " const _ : () = { "@ + each(|i: int| bound_of(fields, i), " "@, fields.len() as int)
            + " } ; const _ : () = :: minocrab_std :: v3 :: __derive :: assert_header_fields (& ["@
            + width_items(fields, "WIDTH"@) + "] , & ["@ + width_items(fields, "KINDS"@) + "] , & ["@
            + width_items(fields, "PLACEMENT"@) + "] ,) ;"@
    }
}

/// What `derive(LedgerHeader)` writes for a standard.
pub open spec fn expansion(name: Seq<char>, fields: Seq<FieldModel>) -> Seq<char> {
    "impl :: minocrab_std :: v3 :: LedgerWidth for "@ + name
        + " { const WIDTH : usize = 0 ; const PLACEMENT : :: minocrab_std :: v3 :: Placement = :: minocrab_std :: v3 :: Placement :: RootHeader ; } impl "@
        + name
        + " { # [doc = r\" The standard at `root[0]` — what `#[derive(Ledger)]` emits.\"] # [doc = r\" Its paths are the same in every block, so `_start` (the\"] # [doc = r\" body index the derive threads to every slot) is unused.\"] pub const fn at_layout (layout : :: minocrab_std :: v3 :: BlockLayout , _start : usize) -> Self { :: minocrab_std :: v3 :: __derive :: assert_headed (layout) ; "@
        + construct(name, fields)
        + " } # [doc = r\" The standard's magic: its path, and no write.\"] pub const fn magic (& self) -> :: minocrab_std :: v3 :: Magic { :: minocrab_std :: v3 :: Magic :: at_path ("@
        + magic_path(fields)
        + ") } } impl :: minocrab_std :: v3 :: InitialState for "@ + name
        + " { fn contribute (& self , state : & mut :: minocrab_std :: v3 :: StateBuilder) { state . magic :: < "@
        + name + " > (self . magic ()) ;"@ + each(
        |i: int| contribution_of(fields, i),
        Seq::empty(),
        fields.len() as int,
    ) + " } } const _ : () = :: minocrab_std :: v3 :: __derive :: assert_magic (& < "@ + name
        + " as :: minocrab_std :: v3 :: LedgerHeader > :: MAGIC) ;"@ + checks(fields)
}

fn entry_literal(n: usize) -> (r: &'static str)
    requires
        1 <= n <= 15,
    ensures
        r@ == entry_text(n),
{
    match n {
        1 => "1u8",
        2 => "2u8",
        3 => "3u8",
        4 => "4u8",
        5 => "5u8",
        6 => "6u8",
        7 => "7u8",
        8 => "8u8",
        9 => "9u8",
        10 => "10u8",
        11 => "11u8",
        12 => "12u8",
        13 => "13u8",
        14 => "14u8",
        _ => "15u8",
    }
}

fn push_init(out: &mut String, field: &Field, n: usize)
    requires
        1 <= n <= 15,
    ensures
        final(out)@ == old(out)@ + init_text(field.name@, field.ty@, n),
{
    out.append(field.name.as_str());
    out.append(" : < ");
    out.append(field.ty.as_str());
    out.append(" > :: at_path (& [0u8 , ");
    out.append(entry_literal(n));
    out.append("])");
    assert(out@ =~= old(out)@ + init_text(field.name@, field.ty@, n));
}

fn push_construct(out: &mut String, name: &String, fields: &Vec<Field>)
    requires
        1 <= fields@.len() <= 15,
    ensures
        final(out)@ == old(out)@ + construct(name@, models(fields@)),
{
    let ghost all = models(fields@);
    let ghost piece = |i: int| init_of(all, i);
    out.append(name.as_str());
    out.append(" { ");
    let ghost lead = out@;
    let mut i: usize = 0;
    assert(out@ =~= lead + each(piece, " , "@, 0));
    while i < fields.len()
        invariant
            i <= fields@.len() <= 15,
            all == models(fields@),
            piece == |i: int| init_of(all, i),
            out@ == lead + each(piece, " , "@, i as int),
        decreases fields@.len() - i,
    {
        if i > 0 {
            out.append(" , ");
        }
        push_init(out, &fields[i], i + 1);
        proof {
            assert(all[i as int].name == fields@[i as int].name@);
            assert(all[i as int].ty == fields@[i as int].ty@);
            assert(piece(i as int) == init_of(all, i as int));
            assert(out@ =~= lead + each(piece, " , "@, i + 1));
        }
        i += 1;
    }
    out.append(" }");
    assert(all.len() == fields@.len());
    assert(out@ =~= old(out)@ + construct(name@, all));
}

fn push_contributions(out: &mut String, fields: &Vec<Field>)
    ensures
        final(out)@ == old(out)@ + each(
            |i: int| contribution_of(models(fields@), i),
            Seq::empty(),
            fields@.len() as int,
        ),
{
    let ghost all = models(fields@);
    let ghost piece = |i: int| contribution_of(all, i);
    let mut i: usize = 0;
    assert(out@ =~= old(out)@ + each(piece, Seq::empty(), 0));
    while i < fields.len()
        invariant
            i <= fields@.len(),
            all == models(fields@),
            piece == |i: int| contribution_of(all, i),
            out@ == old(out)@ + each(piece, Seq::empty(), i as int),
        decreases fields@.len() - i,
    {
        out.append(" :: minocrab_std :: v3 :: InitialState :: contribute (& self . ");
        out.append(fields[i].name.as_str());
        out.append(" , state) ;");
        proof {
            assert(all[i as int].name == fields@[i as int].name@);
            assert(piece(i as int) == contribution_of(all, i as int));
            assert(out@ =~= old(out)@ + each(piece, Seq::empty(), i + 1));
        }
        i += 1;
    }
}

fn push_checks(out: &mut String, fields: &Vec<Field>)
    requires
        fields@.len() > 0,
    ensures
        final(out)@ == old(out)@ + checks(models(fields@)),
{
    let ghost all = models(fields@);
    let ghost piece = |i: int| bound_of(all, i);
    out.append(" const _ : () = { ");
    let ghost lead = out@;
    let mut i: usize = 0;
    assert(out@ =~= lead + each(piece, " "@, 0));
    while i < fields.len()
        invariant
            i <= fields@.len(),
            all == models(fields@),
            piece == |i: int| bound_of(all, i),
            out@ == lead + each(piece, " "@, i as int),
        decreases fields@.len() - i,
    {
        if i > 0 {
            out.append(" ");
        }
        out.append(":: minocrab_std :: v3 :: __derive :: header_field :: < ");
        out.append(fields[i].ty.as_str());
        out.append(" > () ;");
        proof {
            assert(all[i as int].ty == fields@[i as int].ty@);
            assert(piece(i as int) == bound_of(all, i as int));
            assert(out@ =~= lead + each(piece, " "@, i + 1));
        }
        i += 1;
    }
    out.append(" } ; const _ : () = :: minocrab_std :: v3 :: __derive :: assert_header_fields (& [");
    push_width_items(out, fields, "WIDTH");
    out.append("] , & [");
    push_width_items(out, fields, "KINDS");
    out.append("] , & [");
    push_width_items(out, fields, "PLACEMENT");
    out.append("] ,) ;");
    assert(all.len() == fields@.len());
    assert(out@ =~= old(out)@ + checks(all));
}

/// The tokens of the standard's impls, or the rule the declaration breaks.
pub fn expand(input: &DeriveInput) -> (r: Result<String, DeriveError>)
    ensures
        expands_to(input@, r),
{
    if input.params != 0 {
        return Err(DeriveError::HeaderGenerics);
    }
    let none: Vec<Field> = Vec::new();
    let fields: &Vec<Field> = match &input.shape {
        Shape::Enum | Shape::Union => {
            return Err(DeriveError::HeaderNotAStruct);
        },
        Shape::Unnamed => {
            return Err(DeriveError::HeaderUnnamed);
        },
        Shape::Unit => &none,
        Shape::Named(fields) => {
            assert(models(fields@).len() == fields@.len());
            if fields.len() == 0 {
                return Err(DeriveError::HeaderEmpty);
            }
            if fields.len() > MAX_HEADER_FIELDS {
                return Err(DeriveError::HeaderTooManyFields { field: MAX_HEADER_FIELDS });
            }
            match magic_field(fields) {
                Some(field) => {
                    return Err(DeriveError::MagicField { field });
                },
                None => {},
            }
            fields
        },
    };
    let ghost all = models(fields@);
    proof {
        assert(models(none@) =~= Seq::<FieldModel>::empty());
        assert(all.len() == fields@.len());
    }
    let mut out: String = String::new();
    let name = &input.name;
    out.append("impl :: minocrab_std :: v3 :: LedgerWidth for ");
    out.append(name.as_str());
    out.append(" { const WIDTH : usize = 0 ; const PLACEMENT : :: minocrab_std :: v3 :: Placement = :: minocrab_std :: v3 :: Placement :: RootHeader ; } impl ");
    out.append(name.as_str());
    out.append(" { # [doc = r\" The standard at `root[0]` — what `#[derive(Ledger)]` emits.\"] # [doc = r\" Its paths are the same in every block, so `_start` (the\"] # [doc = r\" body index the derive threads to every slot) is unused.\"] pub const fn at_layout (layout : :: minocrab_std :: v3 :: BlockLayout , _start : usize) -> Self { :: minocrab_std :: v3 :: __derive :: assert_headed (layout) ; ");
    if fields.len() == 0 {
        out.append(name.as_str());
    } else {
        push_construct(&mut out, name, fields);
    }
    out.append(" } # [doc = r\" The standard's magic: its path, and no write.\"] pub const fn magic (& self) -> :: minocrab_std :: v3 :: Magic { :: minocrab_std :: v3 :: Magic :: at_path (");
    if fields.len() == 0 {
        out.append("& [0u8]");
    } else {
        out.append("& [0u8 , 0u8]");
    }
    out.append(") } } impl :: minocrab_std :: v3 :: InitialState for ");
    out.append(name.as_str());
    out.append(" { fn contribute (& self , state : & mut :: minocrab_std :: v3 :: StateBuilder) { state . magic :: < ");
    out.append(name.as_str());
    out.append(" > (self . magic ()) ;");
    push_contributions(&mut out, fields);
    out.append(" } } const _ : () = :: minocrab_std :: v3 :: __derive :: assert_magic (& < ");
    out.append(name.as_str());
    out.append(" as :: minocrab_std :: v3 :: LedgerHeader > :: MAGIC) ;");
    if fields.len() > 0 {
        push_checks(&mut out, fields);
    }
    assert(out@ =~= expansion(input@.name, all));
    Ok(out)
}

/// The first field named `magic`.
fn magic_field(fields: &Vec<Field>) -> (r: Option<usize>)
    ensures
        match r {
            Some(i) => first_magic(models(fields@), i as int) && i == (choose|k: int|
                first_magic(models(fields@), k)),
            None => !exists|i: int| first_magic(models(fields@), i),
        },
{
    let ghost all = models(fields@);
    let mut i: usize = 0;
    while i < fields.len()
        invariant
            i <= fields@.len(),
            all == models(fields@),
            forall|j: int| 0 <= j < i ==> (#[trigger] all[j]).name != "magic"@,
        decreases fields@.len() - i,
    {
        assert(all[i as int].name == fields@[i as int].name@);
        if same_text(&fields[i].name, "magic") {
            proof {
                assert(first_magic(all, i as int));
                let k = choose|k: int| first_magic(all, k);
                assert(first_magic(all, k));
                if k < i {
                    assert(all[k].name != "magic"@);
                } else if i < k {
                    assert(all[i as int].name != "magic"@);
                }
            }
            return Some(i);
        }
        i += 1;
    }
    None
}

/// Whether `r` is what [`expand`] gives for this declaration.
pub open spec fn expands_to(input: InputModel, r: Result<String, DeriveError>) -> bool {
    match standard_fields(input) {
        Ok(fields) => r matches Ok(text) && text@ == expansion(input.name, fields),
        Err(error) => r == Err::<String, DeriveError>(error),
    }
}

/// [`expand`] of the declaration the parser finds in a source text; a refusal
/// where it finds none. Which declaration that is is the parser's to say, and
/// [`expand`] says the rest.
pub fn expand_source(source: &str) -> (r: Result<String, DeriveError>)
    ensures
        r == Err::<String, DeriveError>(DeriveError::Syntax) || exists|input: DeriveInput|
            expands_to(#[trigger] input@, r),
{
    match parse(source) {
        Ok(input) => {
            let r = expand(&input);
            assert(expands_to(input@, r));
            r
        },
        Err(_) => Err(DeriveError::Syntax),
    }
}

// ---- what an expansion says ---------------------------------------------------------------------

/// An entry's literal is its number in decimal, as a byte.
pub proof fn law_entries_are_numbers(n: usize)
    requires
        1 <= n <= 15,
    ensures
        entry_text(n) == decimal(n as nat) + "u8"@,
{
    reveal_strlit("1u8");
    reveal_strlit("2u8");
    reveal_strlit("3u8");
    reveal_strlit("4u8");
    reveal_strlit("5u8");
    reveal_strlit("6u8");
    reveal_strlit("7u8");
    reveal_strlit("8u8");
    reveal_strlit("9u8");
    reveal_strlit("10u8");
    reveal_strlit("11u8");
    reveal_strlit("12u8");
    reveal_strlit("13u8");
    reveal_strlit("14u8");
    reveal_strlit("15u8");
    reveal_strlit("u8");
    reveal_strlit("0");
    reveal_strlit("1");
    reveal_strlit("2");
    reveal_strlit("3");
    reveal_strlit("4");
    reveal_strlit("5");
    reveal_strlit("6");
    reveal_strlit("7");
    reveal_strlit("8");
    reveal_strlit("9");
    reveal_with_fuel(decimal, 3);
    assert(entry_text(n) =~= decimal(n as nat) + "u8"@);
}

/// No two fields of a standard are at one entry, and none is at the magic's.
pub proof fn law_entries_are_distinct(i: usize, j: usize)
    requires
        1 <= i <= 15,
        1 <= j <= 15,
        i != j,
    ensures
        entry_text(i) != entry_text(j),
        entry_text(i) != "0u8"@,
{
    law_entries_are_numbers(i);
    law_entries_are_numbers(j);
    law_decimal_reads_back(i as nat);
    law_decimal_reads_back(j as nat);
    reveal_strlit("u8");
    reveal_strlit("0u8");
    let (a, b) = (decimal(i as nat), decimal(j as nat));
    if entry_text(i) == entry_text(j) {
        assert(a =~= (a + "u8"@).take(a.len() as int));
        assert(b =~= (b + "u8"@).take(b.len() as int));
        assert(a.len() == b.len());
    }
    if entry_text(i) == "0u8"@ {
        assert(a[0] == (a + "u8"@)[0]);
    }
}

/// Field `i` of a standard is built at `[0, i + 1]`: the entries are counted from
/// one, in declaration order.
pub proof fn law_fields_follow_the_magic(fields: Seq<FieldModel>, i: int)
    requires
        0 <= i < fields.len() <= 15,
    ensures
        init_of(fields, i) == fields[i].name + " : < "@ + fields[i].ty
            + " > :: at_path (& [0u8 , "@ + (decimal((i + 1) as nat) + "u8"@) + "])"@,
{
    law_entries_are_numbers((i + 1) as usize);
}

/// Which declarations expand: unit structs, and structs of one to fifteen named
/// fields none of which is named `magic`, without parameters.
pub proof fn law_which_standards_expand(input: InputModel, r: Result<String, DeriveError>)
    requires
        expands_to(input, r),
    ensures
        r is Ok <==> input.params == 0 && (input.shape == ShapeModel::Unit || (
        input.shape matches ShapeModel::Named(fields) && 1 <= fields.len() <= 15 && forall|i: int|
            0 <= i < fields.len() ==> (#[trigger] fields[i]).name != "magic"@)),
{
    if let ShapeModel::Named(fields) = input.shape {
        if exists|i: int| 0 <= i < fields.len() && (#[trigger] fields[i]).name == "magic"@ {
            let i = choose|i: int| 0 <= i < fields.len() && (#[trigger] fields[i]).name == "magic"@;
            lemma_first_magic(fields, i);
        }
    }
}

proof fn lemma_first_magic(fields: Seq<FieldModel>, i: int)
    requires
        0 <= i < fields.len(),
        fields[i].name == "magic"@,
    ensures
        exists|k: int| first_magic(fields, k),
    decreases i,
{
    if exists|j: int| 0 <= j < i && (#[trigger] fields[j]).name == "magic"@ {
        let j = choose|j: int| 0 <= j < i && (#[trigger] fields[j]).name == "magic"@;
        lemma_first_magic(fields, j);
    } else {
        assert(first_magic(fields, i));
    }
}

/// Which field a refusal names: the first that is named `magic`.
pub proof fn law_refusals_name_the_magic(input: InputModel, fields: Seq<FieldModel>, i: int)
    requires
        input.params == 0,
        input.shape == ShapeModel::Named(fields),
        1 <= fields.len() <= 15,
        0 <= i < fields.len(),
    ensures
        standard_fields(input) == Err::<Seq<FieldModel>, DeriveError>(
            DeriveError::MagicField { field: i as usize },
        ) <==> fields[i].name == "magic"@ && forall|j: int|
            0 <= j < i ==> (#[trigger] fields[j]).name != "magic"@,
{
    if exists|k: int| first_magic(fields, k) {
        let k = choose|k: int| first_magic(fields, k);
        assert(first_magic(fields, k));
        if fields[i].name == "magic"@ && k < i {
            assert(fields[k].name == "magic"@);
        }
    } else if fields[i].name == "magic"@ {
        lemma_first_magic(fields, i);
    }
}

/// What the expansion of a standard says of the whole of it: no width, the root's
/// placement, the magic at the header's first entry and the fields after it, the
/// contributions of the magic and of every field in order, and the checks on the
/// magic and on every field.
pub proof fn law_what_an_expansion_says(input: InputModel, text: String)
    requires
        expands_to(input, Ok(text)),
    ensures
        standard_fields(input) matches Ok(fields) && ({
            let n = fields.len() as int;
            let item = |i: int, of: Seq<char>|
                "< "@ + fields[i].ty + " as :: minocrab_std :: v3 :: LedgerWidth > :: "@ + of;
            &&& fields == match input.shape {
                ShapeModel::Named(named) => named,
                _ => Seq::empty(),
            }
            &&& text@ == "impl :: minocrab_std :: v3 :: LedgerWidth for "@ + input.name
                + " { const WIDTH : usize = 0 ; const PLACEMENT : :: minocrab_std :: v3 :: Placement = :: minocrab_std :: v3 :: Placement :: RootHeader ; } impl "@
                + input.name
                + " { # [doc = r\" The standard at `root[0]` — what `#[derive(Ledger)]` emits.\"] # [doc = r\" Its paths are the same in every block, so `_start` (the\"] # [doc = r\" body index the derive threads to every slot) is unused.\"] pub const fn at_layout (layout : :: minocrab_std :: v3 :: BlockLayout , _start : usize) -> Self { :: minocrab_std :: v3 :: __derive :: assert_headed (layout) ; "@
                + (if n == 0 {
                input.name
            } else {
                input.name + " { "@ + each(|i: int| init_of(fields, i), " , "@, n) + " }"@
            })
                + " } # [doc = r\" The standard's magic: its path, and no write.\"] pub const fn magic (& self) -> :: minocrab_std :: v3 :: Magic { :: minocrab_std :: v3 :: Magic :: at_path ("@
                + (if n == 0 {
                "& [0u8]"@
            } else {
                "& [0u8 , 0u8]"@
            }) + ") } } impl :: minocrab_std :: v3 :: InitialState for "@ + input.name
                + " { fn contribute (& self , state : & mut :: minocrab_std :: v3 :: StateBuilder) { state . magic :: < "@
                + input.name + " > (self . magic ()) ;"@ + each(
                |i: int|
                    " :: minocrab_std :: v3 :: InitialState :: contribute (& self . "@
                        + fields[i].name + " , state) ;"@,
                Seq::empty(),
                n,
            ) + " } } const _ : () = :: minocrab_std :: v3 :: __derive :: assert_magic (& < "@
                + input.name + " as :: minocrab_std :: v3 :: LedgerHeader > :: MAGIC) ;"@ + (
            if n == 0 {
                Seq::empty()
            } else {
                " const _ : () = { "@ + each(
                    |i: int|
                        ":: minocrab_std :: v3 :: __derive :: header_field :: < "@ + fields[i].ty
                            + " > () ;"@,
                    " "@,
                    n,
                )
                    + " } ; const _ : () = :: minocrab_std :: v3 :: __derive :: assert_header_fields (& ["@
                    + each(|i: int| item(i, "WIDTH"@), " , "@, n) + "] , & ["@ + each(
                    |i: int| item(i, "KINDS"@),
                    " , "@,
                    n,
                ) + "] , & ["@ + each(|i: int| item(i, "PLACEMENT"@), " , "@, n) + "] ,) ;"@
            })
        }),
{
    let fields = standard_fields(input)->Ok_0;
    let n = fields.len() as int;
    let item = |i: int, of: Seq<char>|
        "< "@ + fields[i].ty + " as :: minocrab_std :: v3 :: LedgerWidth > :: "@ + of;
    let items = |of: Seq<char>| |i: int| width_item(fields[i].ty, of);
    assert(items("WIDTH"@) =~= |i: int| item(i, "WIDTH"@));
    assert(items("KINDS"@) =~= |i: int| item(i, "KINDS"@));
    assert(items("PLACEMENT"@) =~= |i: int| item(i, "PLACEMENT"@));
    let contributed = |i: int| contribution_of(fields, i);
    assert(contributed =~= |i: int|
        " :: minocrab_std :: v3 :: InitialState :: contribute (& self . "@ + fields[i].name
            + " , state) ;"@);
    let bounds = |i: int| bound_of(fields, i);
    assert(bounds =~= |i: int|
        ":: minocrab_std :: v3 :: __derive :: header_field :: < "@ + fields[i].ty + " > () ;"@);
}

/// Why a declaration is refused for its shape: parameters come first, then what it
/// is, then how many fields it has.
pub proof fn law_refused_shapes(input: InputModel, r: Result<String, DeriveError>)
    requires
        expands_to(input, r),
    ensures
        r == Err::<String, DeriveError>(DeriveError::HeaderGenerics) <==> input.params > 0,
        r == Err::<String, DeriveError>(DeriveError::HeaderNotAStruct) <==> input.params == 0 && (
        input.shape is Enum || input.shape is Union),
        r == Err::<String, DeriveError>(DeriveError::HeaderUnnamed) <==> input.params == 0
            && input.shape is Unnamed,
        r == Err::<String, DeriveError>(DeriveError::HeaderEmpty) <==> input.params == 0 && (
        input.shape matches ShapeModel::Named(fields) && fields.len() == 0),
        r == Err::<String, DeriveError>(DeriveError::HeaderTooManyFields { field: 15 })
            <==> input.params == 0 && (input.shape matches ShapeModel::Named(fields)
            && fields.len() > 15),
{
}

} // verus!
