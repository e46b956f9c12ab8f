//! `derive(Ledger)`: a struct that mirrors a ledger block becomes the block's
//! handle, each field placed by its declaration order.
//!
//! The expansion is width sums, placements and constructor calls. A field's
//! start is the sum of the widths of the fields before it; whether the block is
//! headed is a count of the placements; and the deploy state is every field's
//! contribution, in order. A slot that reads the block's `Signet` is handed the
//! start of that field besides its own.
use super::{
    each, models, parse, push_width_item, push_width_items, width_item, width_items, DeriveError,
    DeriveInput, Field, FieldModel, InputModel, Shape, ShapeModel,
};
use vstd::prelude::*;

verus! {

/// The most fields a block's struct declares: 256 body fields and one standard.
pub const MAX_DECLARED: usize = 257;

// ---- what is refused -----------------------------------------------------------------

/// Whether a field is a slot built against the block's `Signet`.
pub open spec fn reads_signet(field: FieldModel) -> bool {
    field.named_as("Pending"@) || field.named_as("Fired"@) || field.named_as("Outbox"@)
}

/// The positions, below `n`, of the fields spelled `Signet`.
pub open spec fn signets(fields: Seq<FieldModel>, n: int) -> Seq<int>
    decreases n,
{
    if n <= 0 {
        Seq::empty()
    } else if fields[n - 1].named_as("Signet"@) {
        signets(fields, n - 1).push(n - 1)
    } else {
        signets(fields, n - 1)
    }
}

/// The positions, below `n`, of the slots built against the block's `Signet`.
pub open spec fn readers(fields: Seq<FieldModel>, n: int) -> Seq<int>
    decreases n,
{
    if n <= 0 {
        Seq::empty()
    } else if reads_signet(fields[n - 1]) {
        readers(fields, n - 1).push(n - 1)
    } else {
        readers(fields, n - 1)
    }
}

/// What is wrong with a block's fields.
pub open spec fn fields_refusal(fields: Seq<FieldModel>) -> Option<DeriveError> {
    let n = fields.len() as int;
    if n > 257 {
        Some(DeriveError::LedgerTooManyFields)
    } else if signets(fields, n).len() > 1 {
        Some(DeriveError::SecondSignet { field: signets(fields, n)[1] as usize })
    } else if signets(fields, n).len() == 0 && readers(fields, n).len() > 0 {
        Some(DeriveError::NoSignet { field: readers(fields, n)[0] as usize })
    } else {
        None
    }
}

/// What is wrong with a declaration, or its fields.
pub open spec fn block_fields(input: InputModel) -> Result<Seq<FieldModel>, DeriveError> {
    if input.params != 0 {
        Err(DeriveError::LedgerGenerics)
    } else {
        match input.shape {
            ShapeModel::Named(fields) => match fields_refusal(fields) {
                None => Ok(fields),
                Some(error) => Err(error),
            },
            ShapeModel::Unnamed => Err(DeriveError::LedgerUnnamed),
            ShapeModel::Unit => Err(DeriveError::LedgerUnnamed),
            ShapeModel::Enum => Err(DeriveError::LedgerNotAStruct),
            ShapeModel::Union => Err(DeriveError::LedgerNotAStruct),
        }
    }
}

/// At most one `Signet`: every block that expands has one configuration, and
/// has one where a slot reads it.
pub proof fn law_one_signet_per_block(fields: Seq<FieldModel>, i: int, j: int)
    requires
        fields_refusal(fields) is None,
        0 <= i < fields.len(),
        0 <= j < fields.len(),
    ensures
        fields[i].named_as("Signet"@) && fields[j].named_as("Signet"@) ==> i == j,
        reads_signet(fields[i]) ==> exists|k: int|
            0 <= k < fields.len() && (#[trigger] fields[k]).named_as("Signet"@),
{
    let n = fields.len() as int;
    lemma_signets(fields, n);
    lemma_readers(fields, n);
    if fields[i].named_as("Signet"@) && fields[j].named_as("Signet"@) {
        assert(signets(fields, n).contains(i));
        assert(signets(fields, n).contains(j));
    }
    if reads_signet(fields[i]) {
        assert(readers(fields, n).contains(i));
        assert(signets(fields, n).len() == 1);
        let k = signets(fields, n)[0];
        assert(signets(fields, n).contains(k));
        assert(fields[k].named_as("Signet"@));
    }
}

proof fn lemma_signets(fields: Seq<FieldModel>, n: int)
    requires
        0 <= n <= fields.len(),
    ensures
        signets(fields, n).len() <= n,
        forall|i: int|
            #![trigger signets(fields, n).contains(i)]
            signets(fields, n).contains(i) <==> 0 <= i < n && fields[i].named_as("Signet"@),
    decreases n,
{
    if n > 0 {
        lemma_signets(fields, n - 1);
        let (all, fewer) = (signets(fields, n), signets(fields, n - 1));
        assert forall|i: int|
            #![trigger all.contains(i)]
            all.contains(i) <==> 0 <= i < n && fields[i].named_as("Signet"@) by {
            if fields[n - 1].named_as("Signet"@) {
                assert(all == fewer.push(n - 1));
                if all.contains(i) {
                    let k = choose|k: int| 0 <= k < all.len() && all[k] == i;
                    if k < fewer.len() {
                        assert(fewer[k] == i);
                        assert(fewer.contains(i));
                    }
                }
                if 0 <= i < n && fields[i].named_as("Signet"@) {
                    if i < n - 1 {
                        assert(fewer.contains(i));
                        let k = choose|k: int| 0 <= k < fewer.len() && fewer[k] == i;
                        assert(all[k] == i);
                    } else {
                        assert(all[fewer.len() as int] == i);
                    }
                }
            } else {
                assert(fewer.contains(i) <==> 0 <= i < n - 1 && fields[i].named_as("Signet"@));
            }
        }
    }
}

proof fn lemma_readers(fields: Seq<FieldModel>, n: int)
    requires
        0 <= n <= fields.len(),
    ensures
        readers(fields, n).len() <= n,
        forall|i: int|
            #![trigger readers(fields, n).contains(i)]
            readers(fields, n).contains(i) <==> 0 <= i < n && reads_signet(fields[i]),
    decreases n,
{
    if n > 0 {
        lemma_readers(fields, n - 1);
        let (all, fewer) = (readers(fields, n), readers(fields, n - 1));
        assert forall|i: int|
            #![trigger all.contains(i)]
            all.contains(i) <==> 0 <= i < n && reads_signet(fields[i]) by {
            if reads_signet(fields[n - 1]) {
                assert(all == fewer.push(n - 1));
                if all.contains(i) {
                    let k = choose|k: int| 0 <= k < all.len() && all[k] == i;
                    if k < fewer.len() {
                        assert(fewer[k] == i);
                        assert(fewer.contains(i));
                    }
                }
                if 0 <= i < n && reads_signet(fields[i]) {
                    if i < n - 1 {
                        assert(fewer.contains(i));
                        let k = choose|k: int| 0 <= k < fewer.len() && fewer[k] == i;
                        assert(all[k] == i);
                    } else {
                        assert(all[fewer.len() as int] == i);
                    }
                }
            } else {
                assert(fewer.contains(i) <==> 0 <= i < n - 1 && reads_signet(fields[i]));
            }
        }
    }
}

// ---- the expansion ------------------------------------------------------------------

/// The sum of the widths of the first `n` fields: where field `n` starts.
pub open spec fn start_of(fields: Seq<FieldModel>, n: int) -> Seq<char>
    decreases n,
{
    if n <= 0 {
        "0usize"@
    } else {
        start_of(fields, n - 1) + " + "@ + width_item(fields[n - 1].ty, "WIDTH"@)
    }
}

/// The placement of every field.
pub open spec fn placements(fields: Seq<FieldModel>) -> Seq<char> {
    "& ["@ + width_items(fields, "PLACEMENT"@) + "]"@
}

/// Field `i`'s constructor call: under the block's layout, at its start, and
/// with the `Signet`'s start where it reads one.
pub open spec fn init_of(fields: Seq<FieldModel>, i: int) -> Seq<char> {
    let signet = signets(fields, fields.len() as int);
    let head = fields[i].name + " : < "@ + fields[i].ty;
    if reads_signet(fields[i]) && signet.len() > 0 {
        head + " > :: at_layout_with_signet (__LAYOUT , "@ + start_of(fields, i) + " , "@
            + start_of(fields, signet[0]) + ")"@
    } else {
        head + " > :: at_layout (__LAYOUT , "@ + start_of(fields, i) + ")"@
    }
}

/// Field `i`'s contribution to the deploy state.
pub open spec fn contribution_of(fields: Seq<FieldModel>, i: int) -> Seq<char> {
    ":: minocrab_std :: v3 :: InitialState :: contribute (& __BLOCK . "@ + fields[i].name
        + " , & mut __state) ;"@
}

/// The block's constructor.
pub open spec fn constructor(name: Seq<char>, fields: Seq<FieldModel>) -> Seq<char> {
    let n = fields.len() as int;
    "# [doc = r\" The ledger block: every field at its DECLARATION-ORDER index.\"] # [doc = r\"\"] # [doc = r\" `const`, so a contract's ledger handle is a `const` item and\"] # [doc = r\" costs nothing at run time.\"] pub const fn new () -> Self { const __TOTAL : usize = "@
        + start_of(fields, n) + " ; const __HEADERS : usize = :: minocrab_std :: v3 :: standards ("@
        + placements(fields)
        + ") ; const __LAYOUT : :: minocrab_std :: v3 :: BlockLayout = :: minocrab_std :: v3 :: BlockLayout :: of_block (__TOTAL , __HEADERS) ; "@
        + name + " { "@ + each(|i: int| init_of(fields, i), " , "@, n) + " } }"@
}

/// The block's deploy state.
pub open spec fn deploy_state(name: Seq<char>, fields: Seq<FieldModel>) -> Seq<char> {
    let n = fields.len() as int;
    "# [doc = r\" The block's DEPLOY-TIME state (notes/ledger-header.org): every\"] # [doc = r\" slot's initial value at its path — what compactc's generated\"] # [doc = r\" `initialState` builds for the same fields — and a standard's\"] # [doc = r\" magic, which no circuit writes. `set` what a Compact\"] # [doc = r\" constructor would write (an untyped `LedgerField` is left\"] # [doc = r\" Null), then `build`.\"] pub fn initial_state () -> :: minocrab_std :: v3 :: StateBuilder { const __BLOCK : "@
        + name + " = "@ + name
        + " :: new () ; # [allow (unused_mut)] let mut __state = :: minocrab_std :: v3 :: StateBuilder :: new () ; "@
        + each(|i: int| contribution_of(fields, i), " "@, n)
        + " :: minocrab_std :: v3 :: __derive :: assert_standards (& __state , :: minocrab_std :: v3 :: standards ("@
        + placements(fields) + ")) ; __state }"@
}

/// What `derive(Ledger)` writes for a block.
pub open spec fn expansion(name: Seq<char>, fields: Seq<FieldModel>) -> Seq<char> {
    "impl "@ + name + " { "@ + constructor(name, fields) + " "@ + deploy_state(name, fields)
        + " } impl :: core :: default :: Default for "@ + name
        + " { fn default () -> Self { Self :: new () } } const _ : () = :: minocrab_std :: v3 :: assert_distinct_kinds (& ["@
        + width_items(fields, "KINDS"@) + "]) ; const _ : usize = :: minocrab_std :: v3 :: standards ("@
        + placements(fields) + ") ;"@
}

fn is_signet_slot(field: &Field) -> (r: bool)
    ensures
        r == reads_signet(field@),
{
    field.named_as("Pending") || field.named_as("Fired") || field.named_as("Outbox")
}

fn push_start(out: &mut String, fields: &Vec<Field>, n: usize)
    requires
        n <= fields@.len(),
    ensures
        final(out)@ == old(out)@ + start_of(models(fields@), n as int),
{
    out.append("0usize");
    let mut i: usize = 0;
    while i < n
        invariant
            i <= n <= fields@.len(),
            out@ == old(out)@ + start_of(models(fields@), i as int),
        decreases n - i,
    {
        out.append(" + ");
        push_width_item(out, &fields[i].ty, "WIDTH");
        proof {
            assert(models(fields@)[i as int].ty == fields@[i as int].ty@);
            assert(out@ =~= old(out)@ + start_of(models(fields@), i + 1));
        }
        i += 1;
    }
}

fn push_placements(out: &mut String, fields: &Vec<Field>)
    ensures
        final(out)@ == old(out)@ + placements(models(fields@)),
{
    out.append("& [");
    push_width_items(out, fields, "PLACEMENT");
    out.append("]");
    assert(out@ =~= old(out)@ + placements(models(fields@)));
}

fn push_init(out: &mut String, fields: &Vec<Field>, signet: Option<usize>, i: usize)
    requires
        i < fields@.len(),
        match signet {
            Some(k) => k < fields@.len() && signets(models(fields@), fields@.len() as int).len() > 0
                && signets(models(fields@), fields@.len() as int)[0] == k,
            None => signets(models(fields@), fields@.len() as int).len() == 0,
        },
    ensures
        final(out)@ == old(out)@ + init_of(models(fields@), i as int),
{
    let field = &fields[i];
    proof {
        assert(models(fields@)[i as int] == field@);
        assert(models(fields@).len() == fields@.len());
    }
    out.append(field.name.as_str());
    out.append(" : < ");
    out.append(field.ty.as_str());
    match signet {
        Some(k) if is_signet_slot(field) => {
            out.append(" > :: at_layout_with_signet (__LAYOUT , ");
            push_start(out, fields, i);
            out.append(" , ");
            push_start(out, fields, k);
            out.append(")");
        },
        _ => {
            out.append(" > :: at_layout (__LAYOUT , ");
            push_start(out, fields, i);
            out.append(")");
        },
    }
    assert(out@ =~= old(out)@ + init_of(models(fields@), i as int));
}

fn push_constructor(out: &mut String, name: &String, fields: &Vec<Field>, signet: Option<usize>)
    requires
        match signet {
            Some(k) => k < fields@.len() && signets(models(fields@), fields@.len() as int).len() > 0
                && signets(models(fields@), fields@.len() as int)[0] == k,
            None => signets(models(fields@), fields@.len() as int).len() == 0,
        },
    ensures
        final(out)@ == old(out)@ + constructor(name@, models(fields@)),
{
    let ghost all = models(fields@);
    let ghost piece = |i: int| init_of(all, i);
    out.append("# [doc = r\" The ledger block: every field at its DECLARATION-ORDER index.\"] # [doc = r\"\"] # [doc = r\" `const`, so a contract's ledger handle is a `const` item and\"] # [doc = r\" costs nothing at run time.\"] pub const fn new () -> Self { const __TOTAL : usize = ");
    push_start(out, fields, fields.len());
    out.append(" ; const __HEADERS : usize = :: minocrab_std :: v3 :: standards (");
    push_placements(out, fields);
    out.append(") ; const __LAYOUT : :: minocrab_std :: v3 :: BlockLayout = :: minocrab_std :: v3 :: BlockLayout :: of_block (__TOTAL , __HEADERS) ; ");
    out.append(name.as_str());
    out.append(" { ");
    let ghost lead = out@;
    let mut i: usize = 0;
    assert(out@ =~= lead + each(piece, " , "@, 0));
    while i < fields.len()
        invariant
            i <= fields@.len(),
            all == models(fields@),
            piece == |i: int| init_of(all, i),
            match signet {
                Some(k) => k < fields@.len() && signets(all, fields@.len() as int).len() > 0
                    && signets(all, fields@.len() as int)[0] == k,
                None => signets(all, fields@.len() as int).len() == 0,
            },
            out@ == lead + each(piece, " , "@, i as int),
        decreases fields@.len() - i,
    {
        if i > 0 {
            out.append(" , ");
        }
        push_init(out, fields, signet, i);
        proof {
            assert(piece(i as int) == init_of(all, i as int));
            assert(out@ =~= lead + each(piece, " , "@, i + 1));
        }
        i += 1;
    }
    out.append(" } }");
    assert(out@ =~= old(out)@ + constructor(name@, all));
}

fn push_deploy_state(out: &mut String, name: &String, fields: &Vec<Field>)
    ensures
        final(out)@ == old(out)@ + deploy_state(name@, models(fields@)),
{
    let ghost all = models(fields@);
    let ghost piece = |i: int| contribution_of(all, i);
    out.append("# [doc = r\" The block's DEPLOY-TIME state (notes/ledger-header.org): every\"] # [doc = r\" slot's initial value at its path — what compactc's generated\"] # [doc = r\" `initialState` builds for the same fields — and a standard's\"] # [doc = r\" magic, which no circuit writes. `set` what a Compact\"] # [doc = r\" constructor would write (an untyped `LedgerField` is left\"] # [doc = r\" Null), then `build`.\"] pub fn initial_state () -> :: minocrab_std :: v3 :: StateBuilder { const __BLOCK : ");
    out.append(name.as_str());
    out.append(" = ");
    out.append(name.as_str());
    out.append(" :: new () ; # [allow (unused_mut)] let mut __state = :: minocrab_std :: v3 :: StateBuilder :: new () ; ");
    let ghost lead = out@;
    let mut i: usize = 0;
    assert(out@ =~= lead + each(piece, " "@, 0));
    while i < fields.len()
        invariant
            i <= fields@.len(),
            all == models(fields@),
            piece == |i: int| contribution_of(all, i),
            out@ == lead + each(piece, " "@, i as int),
        decreases fields@.len() - i,
    {
        if i > 0 {
            out.append(" ");
        }
        out.append(":: minocrab_std :: v3 :: InitialState :: contribute (& __BLOCK . ");
        out.append(fields[i].name.as_str());
        out.append(" , & mut __state) ;");
        proof {
            assert(all[i as int].name == fields@[i as int].name@);
            assert(piece(i as int) == contribution_of(all, i as int));
            assert(out@ =~= lead + each(piece, " "@, i + 1));
        }
        i += 1;
    }
    out.append(" :: minocrab_std :: v3 :: __derive :: assert_standards (& __state , :: minocrab_std :: v3 :: standards (");
    push_placements(out, fields);
    out.append(")) ; __state }");
    assert(out@ =~= old(out)@ + deploy_state(name@, all));
}

/// The tokens of the block's impls, or the rule the declaration breaks.
pub fn expand(input: &DeriveInput) -> (r: Result<String, DeriveError>)
    ensures
        expands_to(input@, r),
{
    if input.params != 0 {
        return Err(DeriveError::LedgerGenerics);
    }
    let fields = match &input.shape {
        Shape::Named(fields) => fields,
        Shape::Unnamed => {
            return Err(DeriveError::LedgerUnnamed);
        },
        Shape::Unit => {
            return Err(DeriveError::LedgerUnnamed);
        },
        Shape::Enum | Shape::Union => {
            return Err(DeriveError::LedgerNotAStruct);
        },
    };
    let ghost all = models(fields@);
    if fields.len() > MAX_DECLARED {
        return Err(DeriveError::LedgerTooManyFields);
    }
    let mut found: Vec<usize> = Vec::new();
    let mut reading: Vec<usize> = Vec::new();
    let mut i: usize = 0;
    while i < fields.len()
        invariant
            i <= fields@.len() <= 257,
            all == models(fields@),
            found@.map_values(|k: usize| k as int) == signets(all, i as int),
            reading@.map_values(|k: usize| k as int) == readers(all, i as int),
            forall|j: int| 0 <= j < found@.len() ==> #[trigger] found@[j] < i,
        decreases fields@.len() - i,
    {
        let ghost (had, read) = (found@, reading@);
        if fields[i].named_as("Signet") {
            found.push(i);
            assert(found@.map_values(|k: usize| k as int) =~= had.map_values(
                |k: usize| k as int,
            ).push(i as int));
        }
        if is_signet_slot(&fields[i]) {
            reading.push(i);
            assert(reading@.map_values(|k: usize| k as int) =~= read.map_values(
                |k: usize| k as int,
            ).push(i as int));
        }
        assert(all[i as int] == fields@[i as int]@);
        i += 1;
    }
    let ghost (two, late) = (
        found@.map_values(|k: usize| k as int),
        reading@.map_values(|k: usize| k as int),
    );
    assert(two.len() == found@.len() && late.len() == reading@.len());
    assert(all.len() == fields@.len());
    if found.len() > 1 {
        assert(two[1] == found@[1]);
        return Err(DeriveError::SecondSignet { field: found[1] });
    }
    if found.len() == 0 && reading.len() > 0 {
        assert(late[0] == reading@[0]);
        return Err(DeriveError::NoSignet { field: reading[0] });
    }
    let signet: Option<usize> = if found.len() > 0 {
        assert(two[0] == found@[0]);
        Some(found[0])
    } else {
        None
    };
    let mut out: String = String::new();
    out.append("impl ");
    out.append(input.name.as_str());
    out.append(" { ");
    push_constructor(&mut out, &input.name, fields, signet);
    out.append(" ");
    push_deploy_state(&mut out, &input.name, fields);
    out.append(" } impl :: core :: default :: Default for ");
    out.append(input.name.as_str());
    out.append(" { fn default () -> Self { Self :: new () } } const _ : () = :: minocrab_std :: v3 :: assert_distinct_kinds (& [");
    push_width_items(&mut out, fields, "KINDS");
    out.append("]) ; const _ : usize = :: minocrab_std :: v3 :: standards (");
    push_placements(&mut out, fields);
    out.append(") ;");
    assert(out@ =~= expansion(input@.name, all));
    Ok(out)
}

/// Whether `r` is what [`expand`] gives for this declaration.
pub open spec fn expands_to(input: InputModel, r: Result<String, DeriveError>) -> bool {
    match block_fields(input) {
        Ok(fields) => r matches Ok(text) && text@ == expansion(input.name, fields),
        Err(error) => r == Err::<String, DeriveError>(error),
    }
}

/// [`expand`] of the declaration the parser finds in a source text; a refusal
/// where it finds none. Which declaration that is is the parser's to say, and
/// [`expand`] says the rest.
pub fn expand_source(source: &str) -> (r: Result<String, DeriveError>)
    ensures
        r == Err::<String, DeriveError>(DeriveError::Syntax) || exists|input: DeriveInput|
            expands_to(#[trigger] input@, r),
{
    match parse(source) {
        Ok(input) => {
            let r = expand(&input);
            assert(expands_to(input@, r));
            r
        },
        Err(_) => Err(DeriveError::Syntax),
    }
}

// ---- what an expansion says ---------------------------------------------------------------------

/// Which declarations expand: structs of named fields without parameters, of up to
/// 256 fields and a standard, with one `Signet` at most, and with one where a slot
/// reads it.
pub proof fn law_which_blocks_expand(input: InputModel, r: Result<String, DeriveError>)
    requires
        expands_to(input, r),
    ensures
        r is Ok <==> input.params == 0 && (input.shape matches ShapeModel::Named(fields)
            && fields.len() <= 257 && (forall|i: int, j: int|
            0 <= i < j < fields.len() ==> !((#[trigger] fields[i]).named_as("Signet"@)
                && (#[trigger] fields[j]).named_as("Signet"@))) && (forall|i: int|
            #![trigger fields[i]]
            0 <= i < fields.len() && (fields[i].named_as("Pending"@) || fields[i].named_as(
                "Fired"@,
            ) || fields[i].named_as("Outbox"@)) ==> exists|k: int|
                0 <= k < fields.len() && (#[trigger] fields[k]).named_as("Signet"@))),
{
    if let ShapeModel::Named(fields) = input.shape {
        let n = fields.len() as int;
        lemma_signets(fields, n);
        lemma_readers(fields, n);
        lemma_signets_in_order(fields, n);
        let (all, reading) = (signets(fields, n), readers(fields, n));
        if all.len() > 1 {
            assert(all.contains(all[0]) && all.contains(all[1]));
            assert(all[0] < all[1]);
            assert(fields[all[0]].named_as("Signet"@) && fields[all[1]].named_as("Signet"@));
        }
        if all.len() == 0 && reading.len() > 0 {
            assert(reading.contains(reading[0]));
            assert(reads_signet(fields[reading[0]]));
            assert forall|k: int| 0 <= k < n implies !(#[trigger] fields[k]).named_as("Signet"@) by {
                assert(!all.contains(k));
            }
        }
        if input.params == 0 && fields_refusal(fields) is None {
            assert forall|i: int, j: int| 0 <= i < j < fields.len() implies !((
            #[trigger] fields[i]).named_as("Signet"@) && (#[trigger] fields[j]).named_as(
                "Signet"@,
            )) by {
                law_one_signet_per_block(fields, i, j);
            }
            assert forall|i: int|
                #![trigger fields[i]]
                0 <= i < fields.len() && reads_signet(fields[i]) implies exists|k: int|
                0 <= k < fields.len() && (#[trigger] fields[k]).named_as("Signet"@) by {
                law_one_signet_per_block(fields, i, i);
            }
        }
    }
}

proof fn lemma_signets_in_order(fields: Seq<FieldModel>, n: int)
    requires
        0 <= n <= fields.len(),
    ensures
        forall|a: int, b: int|
            0 <= a < b < signets(fields, n).len() ==> #[trigger] signets(fields, n)[a]
                < #[trigger] signets(fields, n)[b],
        forall|a: int|
            0 <= a < signets(fields, n).len() ==> 0 <= #[trigger] signets(fields, n)[a] < n,
        forall|a: int, b: int|
            0 <= a < b < readers(fields, n).len() ==> #[trigger] readers(fields, n)[a]
                < #[trigger] readers(fields, n)[b],
        forall|a: int|
            0 <= a < readers(fields, n).len() ==> 0 <= #[trigger] readers(fields, n)[a] < n,
    decreases n,
{
    if n > 0 {
        lemma_signets_in_order(fields, n - 1);
        let (all, fewer) = (signets(fields, n), signets(fields, n - 1));
        if fields[n - 1].named_as("Signet"@) {
            assert(all == fewer.push(n - 1));
        }
        let (reading, less) = (readers(fields, n), readers(fields, n - 1));
        if reads_signet(fields[n - 1]) {
            assert(reading == less.push(n - 1));
        }
    }
}

/// Which field a refusal names: the second `Signet`; the first slot that reads one
/// where there is none.
pub proof fn law_refusals_name_the_field(fields: Seq<FieldModel>, i: int)
    requires
        fields.len() <= 257,
        0 <= i < fields.len(),
    ensures
        fields_refusal(fields) == Some(DeriveError::SecondSignet { field: i as usize }) <==> (
        fields[i].named_as("Signet"@) && exists|first: int|
            0 <= first < i && (#[trigger] fields[first]).named_as("Signet"@) && forall|j: int|
                0 <= j < i && j != first ==> !(#[trigger] fields[j]).named_as("Signet"@)),
        fields_refusal(fields) == Some(DeriveError::NoSignet { field: i as usize }) <==> ((
        forall|j: int| 0 <= j < fields.len() ==> !(#[trigger] fields[j]).named_as("Signet"@))
            && reads_signet(fields[i]) && forall|j: int|
            0 <= j < i ==> !reads_signet(#[trigger] fields[j])),
{
    let n = fields.len() as int;
    lemma_signets(fields, n);
    lemma_readers(fields, n);
    lemma_signets_in_order(fields, n);
    let (all, reading) = (signets(fields, n), readers(fields, n));
    assert forall|j: int| 0 <= j < n implies (#[trigger] fields[j]).named_as("Signet"@)
        == all.contains(j) by {}
    assert forall|j: int| 0 <= j < n implies reads_signet(#[trigger] fields[j])
        == reading.contains(j) by {}
    if all.len() > 1 {
        assert(all.contains(all[0]) && all.contains(all[1]));
        if all[1] == i {
            assert forall|j: int| 0 <= j < i && j != all[0] implies !(
            #[trigger] fields[j]).named_as("Signet"@) by {
                if all.contains(j) {
                    let at = choose|at: int| 0 <= at < all.len() && all[at] == j;
                    assert(at == 0 || at == 1 || all[1] < all[at]);
                }
            }
            assert(fields[all[0]].named_as("Signet"@));
        } else if fields[i].named_as("Signet"@) {
            let at = choose|at: int| 0 <= at < all.len() && all[at] == i;
            if at > 1 {
                assert(all[0] < all[1] < all[at]);
                assert(fields[all[0]].named_as("Signet"@) && fields[all[1]].named_as("Signet"@));
            } else {
                assert(at == 0);
                assert forall|first: int| 0 <= first < i implies !(#[trigger] fields[first]).named_as(
                    "Signet"@,
                ) by {
                    if all.contains(first) {
                        let b = choose|b: int| 0 <= b < all.len() && all[b] == first;
                        assert(b == 0 || all[0] < all[b]);
                    }
                }
            }
        }
    } else if fields[i].named_as("Signet"@) {
        let at = choose|at: int| 0 <= at < all.len() && all[at] == i;
        assert forall|first: int| 0 <= first < i implies !(#[trigger] fields[first]).named_as(
            "Signet"@,
        ) by {
            if all.contains(first) {
                let b = choose|b: int| 0 <= b < all.len() && all[b] == first;
                assert(b == 0 && at == 0);
            }
        }
    }
    if all.len() > 0 {
        assert(all.contains(all[0]));
        assert(fields[all[0]].named_as("Signet"@));
    } else {
        assert forall|j: int| 0 <= j < n implies !(#[trigger] fields[j]).named_as("Signet"@) by {}
        if reading.len() > 0 {
            assert(reading.contains(reading[0]));
            assert forall|j: int| 0 <= j < reading[0] implies !reads_signet(#[trigger] fields[j]) by {
                if reading.contains(j) {
                    let b = choose|b: int| 0 <= b < reading.len() && reading[b] == j;
                    assert(b == 0 || reading[0] < reading[b]);
                }
            }
            if i != reading[0] && i > reading[0] {
                assert(reads_signet(fields[reading[0]]));
            }
        }
    }
}

/// Where fields start: the first at nothing, and each next one after the width of
/// the one before it.
pub proof fn law_starts_add_up(fields: Seq<FieldModel>, n: int)
    requires
        0 <= n < fields.len(),
    ensures
        start_of(fields, 0) == "0usize"@,
        start_of(fields, n + 1) == start_of(fields, n) + " + < "@ + fields[n].ty
            + " as :: minocrab_std :: v3 :: LedgerWidth > :: WIDTH"@,
{
    reveal_strlit(" + < ");
    reveal_strlit(" + ");
    reveal_strlit("< ");
    reveal_strlit(" as :: minocrab_std :: v3 :: LedgerWidth > :: WIDTH");
    reveal_strlit(" as :: minocrab_std :: v3 :: LedgerWidth > :: ");
    reveal_strlit("WIDTH");
    assert(" + < "@ =~= " + "@ + "< "@);
    assert(" as :: minocrab_std :: v3 :: LedgerWidth > :: WIDTH"@
        =~= " as :: minocrab_std :: v3 :: LedgerWidth > :: "@ + "WIDTH"@);
    assert(start_of(fields, n + 1) =~= start_of(fields, n) + " + < "@ + fields[n].ty
        + " as :: minocrab_std :: v3 :: LedgerWidth > :: WIDTH"@);
}

/// Whether a text is where field `k` starts: the widths of exactly the `k` fields
/// declared before it, in order.
pub open spec fn is_start(fields: Seq<FieldModel>, k: int, text: Seq<char>) -> bool
    decreases k,
{
    if k <= 0 {
        text == "0usize"@
    } else {
        exists|before: Seq<char>|
            is_start(fields, k - 1, before) && text == #[trigger] (before + " + < "@
                + fields[k - 1].ty + " as :: minocrab_std :: v3 :: LedgerWidth > :: WIDTH"@)
    }
}

/// The start an expansion gives field `k` is where the field starts.
pub proof fn law_starts_are_sums(fields: Seq<FieldModel>, k: int)
    requires
        0 <= k <= fields.len(),
    ensures
        is_start(fields, k, start_of(fields, k)),
    decreases k,
{
    if k > 0 {
        law_starts_are_sums(fields, k - 1);
        law_starts_add_up(fields, k - 1);
        let before = start_of(fields, k - 1);
        assert(start_of(fields, k) == before + " + < "@ + fields[k - 1].ty
            + " as :: minocrab_std :: v3 :: LedgerWidth > :: WIDTH"@);
    }
}

/// How fields are constructed. Every field is under the block's layout, at its own
/// start. A slot that reads the block's `Signet` is handed the very start that the
/// `Signet` itself is given, and no other slot is handed one.
pub proof fn law_fields_are_constructed_at_their_starts(fields: Seq<FieldModel>, i: int, k: int)
    requires
        fields_refusal(fields) is None,
        0 <= i < fields.len(),
        0 <= k < fields.len(),
        fields[k].named_as("Signet"@),
    ensures
        exists|own: Seq<char>, at: Seq<char>|
            #![trigger is_start(fields, i, own), is_start(fields, k, at)]
            is_start(fields, i, own) && is_start(fields, k, at) && init_of(fields, k)
                == fields[k].name + " : < "@ + fields[k].ty + " > :: at_layout (__LAYOUT , "@ + at
                + ")"@ && init_of(fields, i) == if fields[i].named_as("Pending"@)
                || fields[i].named_as("Fired"@) || fields[i].named_as("Outbox"@) {
                fields[i].name + " : < "@ + fields[i].ty
                    + " > :: at_layout_with_signet (__LAYOUT , "@ + own + " , "@ + at + ")"@
            } else {
                fields[i].name + " : < "@ + fields[i].ty + " > :: at_layout (__LAYOUT , "@ + own
                    + ")"@
            },
{
    let n = fields.len() as int;
    lemma_signets(fields, n);
    let all = signets(fields, n);
    assert(all.contains(k));
    assert(all[0] == k);
    reveal_strlit("Signet");
    reveal_strlit("Pending");
    reveal_strlit("Fired");
    reveal_strlit("Outbox");
    assert("Signet"@[0] != "Pending"@[0] && "Signet"@[0] != "Fired"@[0] && "Signet"@[0]
        != "Outbox"@[0]);
    assert(!reads_signet(fields[k]));
    law_starts_are_sums(fields, i);
    law_starts_are_sums(fields, k);
    let (own, at) = (start_of(fields, i), start_of(fields, k));
    assert(is_start(fields, i, own) && is_start(fields, k, at));
}

/// Without a `Signet` every field is constructed at its own start alone.
pub proof fn law_fields_without_a_signet(fields: Seq<FieldModel>, i: int)
    requires
        fields_refusal(fields) is None,
        0 <= i < fields.len(),
        forall|k: int| 0 <= k < fields.len() ==> !(#[trigger] fields[k]).named_as("Signet"@),
    ensures
        exists|own: Seq<char>| #[trigger]
            is_start(fields, i, own) && init_of(fields, i) == fields[i].name + " : < "@
                + fields[i].ty + " > :: at_layout (__LAYOUT , "@ + own + ")"@,
{
    let n = fields.len() as int;
    lemma_signets(fields, n);
    let all = signets(fields, n);
    if all.len() > 0 {
        assert(all.contains(all[0]));
        assert(fields[all[0]].named_as("Signet"@));
    }
    law_starts_are_sums(fields, i);
    assert(is_start(fields, i, start_of(fields, i)));
}

/// What the expansion of a block says of the whole of it: the layout is over the
/// sum of all widths and the count of all placements, and the fields are built in
/// it in order; the deploy state is every field's contribution, in order; and the
/// kinds of all fields are checked to be distinct.
pub proof fn law_what_an_expansion_says(input: InputModel, text: String)
    requires
        expands_to(input, Ok(text)),
    ensures
        input.shape matches ShapeModel::Named(fields) && ({
            let n = fields.len() as int;
            let placed = "& ["@ + each(
                |i: int|
                    "< "@ + fields[i].ty + " as :: minocrab_std :: v3 :: LedgerWidth > :: "@
                        + "PLACEMENT"@,
                " , "@,
                n,
            ) + "]"@;
            let made = "# [doc = r\" The ledger block: every field at its DECLARATION-ORDER index.\"] # [doc = r\"\"] # [doc = r\" `const`, so a contract's ledger handle is a `const` item and\"] # [doc = r\" costs nothing at run time.\"] pub const fn new () -> Self { const __TOTAL : usize = "@
                + start_of(fields, n)
                + " ; const __HEADERS : usize = :: minocrab_std :: v3 :: standards ("@ + placed
                + ") ; const __LAYOUT : :: minocrab_std :: v3 :: BlockLayout = :: minocrab_std :: v3 :: BlockLayout :: of_block (__TOTAL , __HEADERS) ; "@
                + input.name + " { "@ + each(|i: int| init_of(fields, i), " , "@, n) + " } }"@;
            let deployed = "# [doc = r\" The block's DEPLOY-TIME state (notes/ledger-header.org): every\"] # [doc = r\" slot's initial value at its path — what compactc's generated\"] # [doc = r\" `initialState` builds for the same fields — and a standard's\"] # [doc = r\" magic, which no circuit writes. `set` what a Compact\"] # [doc = r\" constructor would write (an untyped `LedgerField` is left\"] # [doc = r\" Null), then `build`.\"] pub fn initial_state () -> :: minocrab_std :: v3 :: StateBuilder { const __BLOCK : "@
                + input.name + " = "@ + input.name
                + " :: new () ; # [allow (unused_mut)] let mut __state = :: minocrab_std :: v3 :: StateBuilder :: new () ; "@
                + each(
                |i: int|
                    ":: minocrab_std :: v3 :: InitialState :: contribute (& __BLOCK . "@
                        + fields[i].name + " , & mut __state) ;"@,
                " "@,
                n,
            )
                + " :: minocrab_std :: v3 :: __derive :: assert_standards (& __state , :: minocrab_std :: v3 :: standards ("@
                + placed + ")) ; __state }"@;
            &&& text@ == "impl "@ + input.name + " { "@ + made + " "@ + deployed
                + " } impl :: core :: default :: Default for "@ + input.name
                + " { fn default () -> Self { Self :: new () } } const _ : () = :: minocrab_std :: v3 :: assert_distinct_kinds (& ["@
                + each(
                |i: int|
                    "< "@ + fields[i].ty + " as :: minocrab_std :: v3 :: LedgerWidth > :: "@
                        + "KINDS"@,
                " , "@,
                n,
            ) + "]) ; const _ : usize = :: minocrab_std :: v3 :: standards ("@ + placed + ") ;"@
            &&& is_start(fields, n, start_of(fields, n))
        }),
{
    let fields = block_fields(input)->Ok_0;
    law_starts_are_sums(fields, fields.len() as int);
    let items = |item: Seq<char>| |i: int| width_item(fields[i].ty, item);
    let spelled = |item: Seq<char>|
        |i: int|
            "< "@ + fields[i].ty + " as :: minocrab_std :: v3 :: LedgerWidth > :: "@ + item;
    assert(items("PLACEMENT"@) =~= spelled("PLACEMENT"@));
    assert(items("KINDS"@) =~= spelled("KINDS"@));
    let pieces = |i: int| contribution_of(fields, i);
    let written = |i: int|
        ":: minocrab_std :: v3 :: InitialState :: contribute (& __BLOCK . "@ + fields[i].name
            + " , & mut __state) ;"@;
    assert(pieces =~= written);
}

/// Why a declaration is refused for its shape: parameters come first, then what it
/// is, then how many fields it has.
pub proof fn law_refused_shapes(input: InputModel, r: Result<String, DeriveError>)
    requires
        expands_to(input, r),
    ensures
        r == Err::<String, DeriveError>(DeriveError::LedgerGenerics) <==> input.params > 0,
        r == Err::<String, DeriveError>(DeriveError::LedgerNotAStruct) <==> input.params == 0 && (
        input.shape is Enum || input.shape is Union),
        r == Err::<String, DeriveError>(DeriveError::LedgerUnnamed) <==> input.params == 0 && (
        input.shape is Unnamed || input.shape is Unit),
        r == Err::<String, DeriveError>(DeriveError::LedgerTooManyFields) <==> input.params == 0
            && (input.shape matches ShapeModel::Named(fields) && fields.len() > 257),
{
}

} // verus!
