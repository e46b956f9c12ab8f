//! The two derives' front end: a declared struct as plain values.
use quote::ToTokens;
use syn::Data::{Enum, Struct, Union};
use syn::Fields::{Named, Unit, Unnamed};
use syn::Type::Path;
use syn::{parse_str, DeriveInput as Parsed};
use vstd::prelude::*;

pub mod ledger;
pub mod ledger_header;

verus! {

/// A field of a declared struct: its name, its type as tokens, and, where the
/// type is spelled as a path, the identifiers of the path's segments.
pub struct Field {
    pub name: String,
    pub ty: String,
    pub path: Vec<String>,
}

/// What a declaration declares.
pub enum Shape {
    /// A struct with named fields.
    Named(Vec<Field>),
    /// A struct with unnamed fields.
    Unnamed,
    /// A struct without fields.
    Unit,
    /// An enum.
    Enum,
    /// A union.
    Union,
}

/// A declaration a derive is applied to.
pub struct DeriveInput {
    pub name: String,
    /// How many generic parameters it has.
    pub params: usize,
    pub shape: Shape,
}

/// The model of a field.
#[verifier::ext_equal]
pub struct FieldModel {
    pub name: Seq<char>,
    pub ty: Seq<char>,
    pub path: Seq<Seq<char>>,
}

/// The model of what a declaration declares.
pub enum ShapeModel {
    Named(Seq<FieldModel>),
    Unnamed,
    Unit,
    Enum,
    Union,
}

/// The model of a declaration.
pub struct InputModel {
    pub name: Seq<char>,
    pub params: usize,
    pub shape: ShapeModel,
}

impl Field {
    pub open spec fn view(&self) -> FieldModel {
        FieldModel {
            name: self.name@,
            ty: self.ty@,
            path: self.path@.map_values(|ident: String| ident@),
        }
    }

    /// Whether the type is spelled `name`: whether the last segment of its path
    /// is that identifier. Spelling, not resolution.
    pub fn named_as(&self, name: &str) -> (r: bool)
        ensures
            r == self@.named_as(name@),
    {
        let n: usize = self.path.len();
        assert(self@.path.len() == n);
        n > 0 && same_text(&self.path[n - 1], name)
    }
}

impl FieldModel {
    pub open spec fn named_as(self, name: Seq<char>) -> bool {
        self.path.len() > 0 && self.path.last() == name
    }
}

/// The models of these fields.
pub open spec fn models(fields: Seq<Field>) -> Seq<FieldModel> {
    fields.map_values(|field: Field| field@)
}

impl Shape {
    pub open spec fn view(&self) -> ShapeModel {
        match *self {
            Shape::Named(fields) => ShapeModel::Named(models(fields@)),
            Shape::Unnamed => ShapeModel::Unnamed,
            Shape::Unit => ShapeModel::Unit,
            Shape::Enum => ShapeModel::Enum,
            Shape::Union => ShapeModel::Union,
        }
    }
}

impl DeriveInput {
    pub open spec fn view(&self) -> InputModel {
        InputModel { name: self.name@, params: self.params, shape: self.shape@ }
    }
}

/// Whether a string is this text.
pub(crate) fn same_text(a: &String, b: &str) -> (r: bool)
    ensures
        r == (a@ == b@),
{
    *a == b.to_owned()
}

/// The error the parser reports (`syn::Error`).
#[verifier::external_type_specification]
#[verifier::external_body]
pub struct ExSynError(syn::Error);

/// `syn::parse_str` of a `syn::DeriveInput`, taken apart one for one; types as
/// the tokens `quote` prints. Nothing is claimed of the answer: inside a compiler
/// the text is lexed and the tokens are printed by the compiler, elsewhere by
/// `proc_macro2` itself, and the two need not agree.
#[verifier::external_body]
pub(crate) fn parse(source: &str) -> (r: Result<DeriveInput, syn::Error>) {
    let input: Parsed = parse_str(source)?;
    Ok(DeriveInput { name: input.ident.to_string(), params: input.generics.params.len(), shape: match &input.data {
        Struct(s) => match &s.fields {
            Unit => Shape::Unit,
            Unnamed(_) => Shape::Unnamed,
            Named(all) => Shape::Named(all.named.iter().map(|f| Field {
                name: f.ident.to_token_stream().to_string(),
                ty: f.ty.to_token_stream().to_string(),
                path: match &f.ty { Path(p) => p.path.segments.iter().map(|s| s.ident.to_string()).collect(), _ => vec![] }
            }).collect())
        },
        Enum(_) => Shape::Enum,
        Union(_) => Shape::Union
    } })
}

/// Why a derive refuses a declaration, and at which field where it is one
/// field's fault.
#[derive(Clone, Copy, PartialEq, Eq, Structural, Debug)]
pub enum DeriveError {
    /// The text is no declaration.
    Syntax,
    /// `Ledger`: generic parameters.
    LedgerGenerics,
    /// `Ledger`: unnamed fields, or none.
    LedgerUnnamed,
    /// `Ledger`: an enum or a union.
    LedgerNotAStruct,
    /// `Ledger`: too many fields.
    LedgerTooManyFields,
    /// `Ledger`: a second `Signet` field.
    SecondSignet { field: usize },
    /// `Ledger`: a slot that reads the block's `Signet`, and no such field.
    NoSignet { field: usize },
    /// `LedgerHeader`: generic parameters.
    HeaderGenerics,
    /// `LedgerHeader`: an enum or a union.
    HeaderNotAStruct,
    /// `LedgerHeader`: braces with no fields.
    HeaderEmpty,
    /// `LedgerHeader`: too many fields.
    HeaderTooManyFields { field: usize },
    /// `LedgerHeader`: a field named `magic`.
    MagicField { field: usize },
    /// `LedgerHeader`: unnamed fields.
    HeaderUnnamed,
}

impl DeriveError {
    pub open spec fn text(&self) -> Seq<char> {
        match *self {
            DeriveError::Syntax => "not a struct, enum or union declaration"@,
            DeriveError::LedgerGenerics => "#[derive(Ledger)] takes no generic parameters: a ledger block is one contract's state, not a family of them"@,
            DeriveError::LedgerUnnamed => "#[derive(Ledger)] needs named fields: the field names are the ledger field names"@,
            DeriveError::LedgerNotAStruct => "#[derive(Ledger)] is for a struct mirroring the `export ledger` block"@,
            DeriveError::LedgerTooManyFields => "a ledger block has at most 256 fields (the index is a byte), besides one standard"@,
            DeriveError::SecondSignet { .. } => "#[derive(Ledger)] wants EXACTLY ONE `Signet` field per block: it is the contract's one Sig Network configuration (signer, MPC key, request nonce, caip2 id, chain id), and every `Pending` and `Fired` slot is built against its offset. Two of them would give one contract two MPC keys and two nonce sequences; delete this one."@,
            DeriveError::NoSignet { .. } => "a `Pending` or `Fired` slot needs the block's `Signet` field, and this block has none. Add `pub signet: Signet,` to the ledger block — it is the signer address, the MPC response key, the request nonce and the two chain identifiers a request reads from context."@,
            DeriveError::HeaderGenerics => "#[derive(LedgerHeader)] takes no generic parameters: a standard is one fixed header at root[0], with one magic"@,
            DeriveError::HeaderNotAStruct => "#[derive(LedgerHeader)] is for a struct: a unit struct (magic only) or a struct of single-field ledger slots"@,
            DeriveError::HeaderEmpty => "a magic-only standard is a unit struct: write `struct Name;` — a standard with fields is an Array at root[0], and one with none is a Cell"@,
            DeriveError::HeaderTooManyFields { .. } => "a standard has at most 15 named fields: its header is one Array at root[0] holding the magic and one entry per field, and the ledger's Array bound is sixteen"@,
            DeriveError::MagicField { .. } => "the magic is not a field: it is `LedgerHeader::MAGIC`, written at deploy and read-only at `magic()`. A field named `magic` would be an ordinary, writable slot at [0, i]; rename it"@,
            DeriveError::HeaderUnnamed => "#[derive(LedgerHeader)] needs named fields (or none, for a magic-only unit struct): the field names are the standard's"@,
        }
    }

    /// The rule, in words.
    pub fn message(&self) -> (r: &'static str)
        ensures
            r@ == self.text(),
    {
        match self {
            DeriveError::Syntax => "not a struct, enum or union declaration",
            DeriveError::LedgerGenerics => "#[derive(Ledger)] takes no generic parameters: a ledger block is one contract's state, not a family of them",
            DeriveError::LedgerUnnamed => "#[derive(Ledger)] needs named fields: the field names are the ledger field names",
            DeriveError::LedgerNotAStruct => "#[derive(Ledger)] is for a struct mirroring the `export ledger` block",
            DeriveError::LedgerTooManyFields => "a ledger block has at most 256 fields (the index is a byte), besides one standard",
            DeriveError::SecondSignet { .. } => "#[derive(Ledger)] wants EXACTLY ONE `Signet` field per block: it is the contract's one Sig Network configuration (signer, MPC key, request nonce, caip2 id, chain id), and every `Pending` and `Fired` slot is built against its offset. Two of them would give one contract two MPC keys and two nonce sequences; delete this one.",
            DeriveError::NoSignet { .. } => "a `Pending` or `Fired` slot needs the block's `Signet` field, and this block has none. Add `pub signet: Signet,` to the ledger block — it is the signer address, the MPC response key, the request nonce and the two chain identifiers a request reads from context.",
            DeriveError::HeaderGenerics => "#[derive(LedgerHeader)] takes no generic parameters: a standard is one fixed header at root[0], with one magic",
            DeriveError::HeaderNotAStruct => "#[derive(LedgerHeader)] is for a struct: a unit struct (magic only) or a struct of single-field ledger slots",
            DeriveError::HeaderEmpty => "a magic-only standard is a unit struct: write `struct Name;` — a standard with fields is an Array at root[0], and one with none is a Cell",
            DeriveError::HeaderTooManyFields { .. } => "a standard has at most 15 named fields: its header is one Array at root[0] holding the magic and one entry per field, and the ledger's Array bound is sixteen",
            DeriveError::MagicField { .. } => "the magic is not a field: it is `LedgerHeader::MAGIC`, written at deploy and read-only at `magic()`. A field named `magic` would be an ordinary, writable slot at [0, i]; rename it",
            DeriveError::HeaderUnnamed => "#[derive(LedgerHeader)] needs named fields (or none, for a magic-only unit struct): the field names are the standard's",
        }
    }
}

// ---- text -------------------------------------------------------------------------

/// The first `n` pieces, with `separator` between.
pub open spec fn each(piece: spec_fn(int) -> Seq<char>, separator: Seq<char>, n: int) -> Seq<char>
    decreases n,
{
    if n <= 0 {
        Seq::empty()
    } else if n == 1 {
        piece(0)
    } else {
        each(piece, separator, n - 1) + separator + piece(n - 1)
    }
}

/// The path of the width trait, as tokens.
pub open spec fn width_trait() -> Seq<char> {
    " as :: minocrab_std :: v3 :: LedgerWidth > :: "@
}

/// `< TYPE as LedgerWidth > :: ITEM`.
pub open spec fn width_item(ty: Seq<char>, item: Seq<char>) -> Seq<char> {
    "< "@ + ty + width_trait() + item
}

/// `ITEM` of every field's type, with commas between.
pub open spec fn width_items(fields: Seq<FieldModel>, item: Seq<char>) -> Seq<char> {
    each(|i: int| width_item(fields[i].ty, item), " , "@, fields.len() as int)
}

/// Appends `< TYPE as LedgerWidth > :: ITEM`.
pub(crate) fn push_width_item(out: &mut String, ty: &String, item: &str)
    ensures
        final(out)@ == old(out)@ + width_item(ty@, item@),
{
    out.append("< ");
    out.append(ty.as_str());
    out.append(" as :: minocrab_std :: v3 :: LedgerWidth > :: ");
    out.append(item);
    assert(out@ =~= old(out)@ + width_item(ty@, item@));
}

/// Appends `ITEM` of every field's type, with commas between.
pub(crate) fn push_width_items(out: &mut String, fields: &Vec<Field>, item: &str)
    ensures
        final(out)@ == old(out)@ + width_items(models(fields@), item@),
{
    let ghost all = models(fields@);
    let ghost piece = |i: int| width_item(all[i].ty, item@);
    let mut i: usize = 0;
    assert(out@ =~= old(out)@ + each(piece, " , "@, 0));
    while i < fields.len()
        invariant
            i <= fields@.len(),
            all == models(fields@),
            piece == |i: int| width_item(all[i].ty, item@),
            out@ == old(out)@ + each(piece, " , "@, i as int),
        decreases fields@.len() - i,
    {
        let ghost before = out@;
        if i > 0 {
            out.append(" , ");
        }
        push_width_item(out, &fields[i].ty, item);
        proof {
            assert(all[i as int].ty == fields@[i as int].ty@);
            assert(piece(i as int) == width_item(all[i as int].ty, item@));
            if i > 0 {
                assert(each(piece, " , "@, i + 1) == each(piece, " , "@, i as int)
                    + " , "@ + piece(i as int));
                assert(out@ =~= old(out)@ + each(piece, " , "@, i + 1));
            } else {
                assert(each(piece, " , "@, 1) == piece(0));
                assert(out@ =~= old(out)@ + each(piece, " , "@, 1));
            }
        }
        i += 1;
    }
}

// ---- what a text holds ------------------------------------------------------------------------

/// Whether a text has this piece in it.
pub open spec fn has_text(text: Seq<char>, piece: Seq<char>) -> bool {
    exists|before: Seq<char>, after: Seq<char>| text == #[trigger] (before + piece + after)
}

/// A piece of a piece is a piece.
pub proof fn lemma_has_text(text: Seq<char>, piece: Seq<char>, inner: Seq<char>)
    requires
        has_text(text, piece),
        has_text(piece, inner),
    ensures
        has_text(text, inner),
{
    let (a, b) = choose|a: Seq<char>, b: Seq<char>| text == #[trigger] (a + piece + b);
    let (c, d) = choose|c: Seq<char>, d: Seq<char>| piece == #[trigger] (c + inner + d);
    assert(a + (c + inner + d) + b =~= (a + c) + inner + (d + b));
}

/// The parts of a text made of three are pieces of it.
pub proof fn lemma_parts_of_text(before: Seq<char>, piece: Seq<char>, after: Seq<char>)
    ensures
        has_text(before + piece + after, piece),
        has_text(before + piece, piece),
        has_text(piece + after, piece),
        has_text(piece, piece),
{
    let none = Seq::<char>::empty();
    assert(before + piece =~= before + piece + none);
    assert(piece + after =~= none + piece + after);
    assert(piece =~= none + piece + none);
}

/// What stands before piece `i` of a list: the pieces before it, each with a
/// separator behind it.
pub open spec fn up_to(piece: spec_fn(int) -> Seq<char>, separator: Seq<char>, i: int) -> Seq<char>
    decreases i,
{
    if i <= 0 {
        Seq::empty()
    } else {
        up_to(piece, separator, i - 1) + piece(i - 1) + separator
    }
}

proof fn lemma_up_to(piece: spec_fn(int) -> Seq<char>, separator: Seq<char>, i: int)
    requires
        i > 0,
    ensures
        up_to(piece, separator, i) == each(piece, separator, i) + separator,
    decreases i,
{
    if i == 1 {
        assert(up_to(piece, separator, 0) + piece(0) =~= piece(0));
    } else {
        lemma_up_to(piece, separator, i - 1);
    }
}

/// A list of pieces has every one of them, in order: before a piece stand those
/// before it, each with a separator behind it, and nothing else.
pub proof fn law_each_has_its_pieces(
    piece: spec_fn(int) -> Seq<char>,
    separator: Seq<char>,
    n: int,
    i: int,
)
    requires
        0 <= i < n,
    ensures
        has_text(each(piece, separator, n), piece(i)),
        exists|rest: Seq<char>|
            each(piece, separator, n) == #[trigger] (up_to(piece, separator, i) + piece(i) + rest),
    decreases n,
{
    let lead = up_to(piece, separator, i);
    if i > 0 {
        lemma_up_to(piece, separator, i);
    }
    if i == n - 1 {
        let none = Seq::<char>::empty();
        assert(each(piece, separator, n) =~= lead + piece(i) + none);
        lemma_parts_of_text(lead, piece(i), none);
    } else {
        law_each_has_its_pieces(piece, separator, n - 1, i);
        let rest = choose|rest: Seq<char>|
            each(piece, separator, n - 1) == #[trigger] (up_to(piece, separator, i) + piece(i)
                + rest);
        let more = rest + separator + piece(n - 1);
        assert(each(piece, separator, n) =~= lead + piece(i) + more);
        lemma_parts_of_text(lead, piece(i), more);
    }
}

/// A type's item, in full.
pub proof fn law_width_item(ty: Seq<char>, item: Seq<char>)
    ensures
        width_item(ty, item) == "< "@ + ty + " as :: minocrab_std :: v3 :: LedgerWidth > :: "@ + item,
{
}

/// Whether a type is spelled `name` is read off the last identifier of its path.
pub proof fn law_named_by_the_last_segment(
    field: FieldModel,
    leading: Seq<Seq<char>>,
    last: Seq<char>,
    name: Seq<char>,
)
    requires
        field.path == leading.push(last),
    ensures
        field.named_as(name) <==> last == name,
{
}

/// A text has the piece that is found in it at some place.
pub proof fn lemma_found_at(text: Seq<char>, piece: Seq<char>, at: int)
    requires
        0 <= at,
        at + piece.len() <= text.len(),
        forall|i: int| 0 <= i < piece.len() ==> #[trigger] piece[i] == text[at + i],
    ensures
        has_text(text, piece),
{
    let end = at + piece.len();
    assert(text =~= text.take(at) + piece + text.skip(end));
}

/// A refusal's text names the rule that was broken.
pub proof fn law_a_refusal_names_its_rule(refusal: DeriveError)
    ensures
        refusal is Syntax ==> has_text(refusal.text(), "not a struct"@),
        refusal is LedgerGenerics ==> has_text(refusal.text(), "#[derive(Ledger)] takes no generic parameters"@),
        refusal is LedgerUnnamed ==> has_text(refusal.text(), "#[derive(Ledger)] needs named fields"@),
        refusal is LedgerNotAStruct ==> has_text(refusal.text(), "#[derive(Ledger)] is for a struct"@),
        refusal is LedgerTooManyFields ==> has_text(refusal.text(), "at most 256 fields"@),
        refusal is SecondSignet ==> has_text(refusal.text(), "EXACTLY ONE `Signet` field"@),
        refusal is NoSignet ==> has_text(refusal.text(), "this block has none"@),
        refusal is HeaderGenerics ==> has_text(refusal.text(), "#[derive(LedgerHeader)] takes no generic parameters"@),
        refusal is HeaderNotAStruct ==> has_text(refusal.text(), "#[derive(LedgerHeader)] is for a struct"@),
        refusal is HeaderEmpty ==> has_text(refusal.text(), "magic-only standard is a unit struct"@),
        refusal is HeaderTooManyFields ==> has_text(refusal.text(), "at most 15 named fields"@),
        refusal is MagicField ==> has_text(refusal.text(), "the magic is not a field"@),
        refusal is HeaderUnnamed ==> has_text(refusal.text(), "#[derive(LedgerHeader)] needs named fields"@),
{
    match refusal {
        DeriveError::Syntax => {
            reveal_strlit("not a struct, enum or union declaration");
            reveal_strlit("not a struct");
            lemma_found_at("not a struct, enum or union declaration"@, "not a struct"@, 0);
        },
        DeriveError::LedgerGenerics => {
            reveal_strlit("#[derive(Ledger)] takes no generic parameters: a ledger block is one contract's state, not a family of them");
            reveal_strlit("#[derive(Ledger)] takes no generic parameters");
            lemma_found_at("#[derive(Ledger)] takes no generic parameters: a ledger block is one contract's state, not a family of them"@, "#[derive(Ledger)] takes no generic parameters"@, 0);
        },
        DeriveError::LedgerUnnamed => {
            reveal_strlit("#[derive(Ledger)] needs named fields: the field names are the ledger field names");
            reveal_strlit("#[derive(Ledger)] needs named fields");
            lemma_found_at("#[derive(Ledger)] needs named fields: the field names are the ledger field names"@, "#[derive(Ledger)] needs named fields"@, 0);
        },
        DeriveError::LedgerNotAStruct => {
            reveal_strlit("#[derive(Ledger)] is for a struct mirroring the `export ledger` block");
            reveal_strlit("#[derive(Ledger)] is for a struct");
            lemma_found_at("#[derive(Ledger)] is for a struct mirroring the `export ledger` block"@, "#[derive(Ledger)] is for a struct"@, 0);
        },
        DeriveError::LedgerTooManyFields => {
            reveal_strlit("a ledger block has at most 256 fields (the index is a byte), besides one standard");
            reveal_strlit("at most 256 fields");
            lemma_found_at("a ledger block has at most 256 fields (the index is a byte), besides one standard"@, "at most 256 fields"@, 19);
        },
        DeriveError::SecondSignet { .. } => {
            reveal_strlit("#[derive(Ledger)] wants EXACTLY ONE `Signet` field per block: it is the contract's one Sig Network configuration (signer, MPC key, request nonce, caip2 id, chain id), and every `Pending` and `Fired` slot is built against its offset. Two of them would give one contract two MPC keys and two nonce sequences; delete this one.");
            reveal_strlit("EXACTLY ONE `Signet` field");
            lemma_found_at("#[derive(Ledger)] wants EXACTLY ONE `Signet` field per block: it is the contract's one Sig Network configuration (signer, MPC key, request nonce, caip2 id, chain id), and every `Pending` and `Fired` slot is built against its offset. Two of them would give one contract two MPC keys and two nonce sequences; delete this one."@, "EXACTLY ONE `Signet` field"@, 24);
        },
        DeriveError::NoSignet { .. } => {
            reveal_strlit("a `Pending` or `Fired` slot needs the block's `Signet` field, and this block has none. Add `pub signet: Signet,` to the ledger block — it is the signer address, the MPC response key, the request nonce and the two chain identifiers a request reads from context.");
            reveal_strlit("this block has none");
            lemma_found_at("a `Pending` or `Fired` slot needs the block's `Signet` field, and this block has none. Add `pub signet: Signet,` to the ledger block — it is the signer address, the MPC response key, the request nonce and the two chain identifiers a request reads from context."@, "this block has none"@, 66);
        },
        DeriveError::HeaderGenerics => {
            reveal_strlit("#[derive(LedgerHeader)] takes no generic parameters: a standard is one fixed header at root[0], with one magic");
            reveal_strlit("#[derive(LedgerHeader)] takes no generic parameters");
            lemma_found_at("#[derive(LedgerHeader)] takes no generic parameters: a standard is one fixed header at root[0], with one magic"@, "#[derive(LedgerHeader)] takes no generic parameters"@, 0);
        },
        DeriveError::HeaderNotAStruct => {
            reveal_strlit("#[derive(LedgerHeader)] is for a struct: a unit struct (magic only) or a struct of single-field ledger slots");
            reveal_strlit("#[derive(LedgerHeader)] is for a struct");
            lemma_found_at("#[derive(LedgerHeader)] is for a struct: a unit struct (magic only) or a struct of single-field ledger slots"@, "#[derive(LedgerHeader)] is for a struct"@, 0);
        },
        DeriveError::HeaderEmpty => {
            reveal_strlit("a magic-only standard is a unit struct: write `struct Name;` — a standard with fields is an Array at root[0], and one with none is a Cell");
            reveal_strlit("magic-only standard is a unit struct");
            lemma_found_at("a magic-only standard is a unit struct: write `struct Name;` — a standard with fields is an Array at root[0], and one with none is a Cell"@, "magic-only standard is a unit struct"@, 2);
        },
        DeriveError::HeaderTooManyFields { .. } => {
            reveal_strlit("a standard has at most 15 named fields: its header is one Array at root[0] holding the magic and one entry per field, and the ledger's Array bound is sixteen");
            reveal_strlit("at most 15 named fields");
            lemma_found_at("a standard has at most 15 named fields: its header is one Array at root[0] holding the magic and one entry per field, and the ledger's Array bound is sixteen"@, "at most 15 named fields"@, 15);
        },
        DeriveError::MagicField { .. } => {
            reveal_strlit("the magic is not a field: it is `LedgerHeader::MAGIC`, written at deploy and read-only at `magic()`. A field named `magic` would be an ordinary, writable slot at [0, i]; rename it");
            reveal_strlit("the magic is not a field");
            lemma_found_at("the magic is not a field: it is `LedgerHeader::MAGIC`, written at deploy and read-only at `magic()`. A field named `magic` would be an ordinary, writable slot at [0, i]; rename it"@, "the magic is not a field"@, 0);
        },
        DeriveError::HeaderUnnamed => {
            reveal_strlit("#[derive(LedgerHeader)] needs named fields (or none, for a magic-only unit struct): the field names are the standard's");
            reveal_strlit("#[derive(LedgerHeader)] needs named fields");
            lemma_found_at("#[derive(LedgerHeader)] needs named fields (or none, for a magic-only unit struct): the field names are the standard's"@, "#[derive(LedgerHeader)] needs named fields"@, 0);
        },
    }
}

} // verus!
