//! The two derives, on declarations as their authors write them.

use minocrab_std::derive::{ledger, ledger_header, DeriveError, DeriveInput, Field, Shape};
use minocrab_std::layout::{field_paths, FieldPath, SEGMENT};

fn block(source: &str) -> String {
    ledger::expand_source(source).expect("expands")
}

fn standard(source: &str) -> String {
    ledger_header::expand_source(source).expect("expands")
}

fn wide(n: usize, ty: &str) -> String {
    let fields: Vec<String> = (0..n).map(|i| format!("f{i}: {ty}")).collect();
    format!("struct Wide {{ {} }}", fields.join(", "))
}

// ---- the paths -------------------------------------------------------------------------------------

#[test]
fn a_narrow_block_is_one_element_paths() {
    for n in 1..=SEGMENT {
        let paths = field_paths(n);
        assert_eq!(paths.len(), n);
        for (i, path) in paths.iter().enumerate() {
            assert_eq!(path, &vec![i as u8], "{n} fields, field {i}");
        }
    }
}

#[test]
fn sixteen_fields_are_a_remainder_segment_and_a_full_one() {
    let paths = field_paths(16);
    assert_eq!(paths[0], vec![0, 0], "the remainder segment leads");
    for (i, path) in paths.iter().enumerate().skip(1) {
        assert_eq!(path, &vec![1, (i - 1) as u8], "field {i}");
    }
}

#[test]
fn the_tree_deepens_at_the_segment_squared() {
    assert!(field_paths(225).iter().all(|p| p.len() == 2));
    assert!(field_paths(226).iter().any(|p| p.len() == 3));
    assert!(field_paths(256).iter().all(|p| p.len() <= 3));
    // Every path is unique.
    let mut all = field_paths(256);
    all.sort();
    all.dedup();
    assert_eq!(all.len(), 256);
}

#[test]
fn a_fields_path_is_the_blocks_list_at_its_index() {
    for n in [0, 1, 15, 16, 30, 31, 225, 226, 256] {
        let paths = field_paths(n);
        assert_eq!(paths.len(), n);
        for (i, path) in paths.iter().enumerate() {
            assert_eq!(&FieldPath::in_block(n, i).to_vec(), path);
        }
    }
}

// ---- a block ---------------------------------------------------------------------------------------

#[test]
fn ledger_the_expansion_calls_no_circuit_method() {
    let expanded = block(
        "struct Vault {
            event_map: LedgerMap<B32<Public>, VaultRecord>,
            initialized: LedgerCounter,
        }",
    );
    assert!(!expanded.contains("c ."), "expansion calls a method on the circuit:\n{expanded}");
    assert!(
        !expanded.contains("Circuit3 ::"),
        "expansion calls a Circuit3 associated function:\n{expanded}"
    );
}

#[test]
fn each_field_gets_its_declaration_order_index() {
    let expanded = block(
        "struct Vault {
            event_map: LedgerMap<B32<Public>, VaultRecord>,
            signer: LedgerField,
            initialized: LedgerCounter,
        }",
    );
    assert!(expanded.contains("event_map : < LedgerMap < B32 < Public > , VaultRecord > > :: at_layout (__LAYOUT , 0usize)"), "{expanded}");
    assert!(expanded.contains("signer : < LedgerField > :: at_layout (__LAYOUT , 0usize + < LedgerMap < B32 < Public > , VaultRecord > as :: minocrab_std :: v3 :: LedgerWidth > :: WIDTH)"), "{expanded}");
    assert!(expanded.contains("initialized : < LedgerCounter > :: at_layout (__LAYOUT , 0usize + < LedgerMap < B32 < Public > , VaultRecord > as :: minocrab_std :: v3 :: LedgerWidth > :: WIDTH + < LedgerField as :: minocrab_std :: v3 :: LedgerWidth > :: WIDTH)"), "{expanded}");
    assert!(expanded.contains("assert_distinct_kinds"), "{expanded}");
    assert!(
        expanded.contains(
            "assert_distinct_kinds (& [< LedgerMap < B32 < Public > , VaultRecord > as \
             :: minocrab_std :: v3 :: LedgerWidth > :: KINDS , < LedgerField as \
             :: minocrab_std :: v3 :: LedgerWidth > :: KINDS , < LedgerCounter as \
             :: minocrab_std :: v3 :: LedgerWidth > :: KINDS])"
        ),
        "{expanded}"
    );
}

#[test]
fn a_sixteen_field_block_is_laid_out_over_its_total() {
    let expanded = block(&wide(16, "LedgerCell<Uint<64, Public>>"));
    assert!(
        expanded.contains(
            "f0 : < LedgerCell < Uint < 64 , Public > > > :: at_layout (__LAYOUT , 0usize)"
        ),
        "{expanded}"
    );
    assert!(expanded.contains("const __TOTAL : usize = 0usize + < LedgerCell < Uint < 64 , Public > > as :: minocrab_std :: v3 :: LedgerWidth > :: WIDTH"), "{expanded}");
}

#[test]
fn the_layout_is_computed_from_every_fields_placement() {
    let expanded = block(
        "struct Vault {
            event_map: LedgerMap<B32<Public>, VaultRecord>,
            initialized: LedgerCounter,
        }",
    );
    let placements = "& [< LedgerMap < B32 < Public > , VaultRecord > as :: minocrab_std :: v3 :: LedgerWidth > :: PLACEMENT , < LedgerCounter as :: minocrab_std :: v3 :: LedgerWidth > :: PLACEMENT]";
    assert!(
        expanded.contains(&format!(
            "const __HEADERS : usize = :: minocrab_std :: v3 :: standards ({placements})"
        )),
        "{expanded}"
    );
    assert!(
        expanded.contains(
            "const __LAYOUT : :: minocrab_std :: v3 :: BlockLayout = :: minocrab_std :: v3 :: BlockLayout :: of_block (__TOTAL , __HEADERS)"
        ),
        "{expanded}"
    );
    assert!(
        expanded.contains(&format!(
            "const _ : usize = :: minocrab_std :: v3 :: standards ({placements})"
        )),
        "{expanded}"
    );
}

#[test]
fn a_signet_slot_is_threaded_under_the_same_layout() {
    let expanded = block(
        "struct Treasury {
            signet: Signet,
            transfers: Pending<Transfer, Owned<Amount>, 2>,
        }",
    );
    assert!(expanded.contains("transfers : < Pending < Transfer , Owned < Amount > , 2 > > :: at_layout_with_signet (__LAYOUT , 0usize + < Signet as :: minocrab_std :: v3 :: LedgerWidth > :: WIDTH , 0usize)"), "{expanded}");
    assert!(expanded.contains("signet : < Signet > :: at_layout (__LAYOUT , 0usize)"), "{expanded}");
}

#[test]
fn the_field_count_bound_leaves_room_for_one_standard() {
    ledger::expand_source(&wide(257, "LedgerField")).expect("256 body fields and a standard expand");
    let error = ledger::expand_source(&wide(258, "LedgerField")).expect_err("258 fields are rejected");
    assert!(error.message().contains("at most 256 fields"), "{}", error.message());
}

#[test]
fn the_initial_state_is_every_fields_contribution() {
    let expanded = block(
        "struct Vault {
            event_map: LedgerMap<B32<Public>, VaultRecord>,
            std: Mip0099,
            initialized: LedgerCounter,
        }",
    );
    assert!(
        expanded.contains("pub fn initial_state () -> :: minocrab_std :: v3 :: StateBuilder"),
        "{expanded}"
    );
    assert!(expanded.contains("const __BLOCK : Vault = Vault :: new () ;"), "{expanded}");
    let calls = ["event_map", "std", "initialized"].map(|f| {
        format!(
            ":: minocrab_std :: v3 :: InitialState :: contribute (& __BLOCK . {f} , & mut __state) ;"
        )
    });
    let mut at = 0;
    for call in &calls {
        let found = expanded[at..]
            .find(call.as_str())
            .unwrap_or_else(|| panic!("{call} in order:\n{expanded}"));
        at += found + call.len();
    }
    assert!(!expanded.contains("Circuit3"), "{expanded}");
}

#[test]
fn generics_are_rejected() {
    let error = ledger::expand_source("struct Vault<T> { event_map: LedgerMap<B32<Public>, T> }")
        .expect_err("generics are rejected");
    assert!(error.message().contains("no generic parameters"), "{}", error.message());
}

#[test]
fn a_tuple_struct_is_rejected() {
    let error = ledger::expand_source("struct Vault(LedgerCounter);")
        .expect_err("a tuple struct is rejected");
    assert!(error.message().contains("named fields"), "{}", error.message());
}

#[test]
fn a_block_of_any_other_shape_is_rejected() {
    let unit = ledger::expand_source("struct Vault;").expect_err("a unit struct is rejected");
    assert_eq!(unit, DeriveError::LedgerUnnamed);
    let an_enum = ledger::expand_source("enum Vault { A }").expect_err("an enum is rejected");
    assert_eq!(an_enum, DeriveError::LedgerNotAStruct);
    let a_union = ledger::expand_source("union Vault { a: u8 }").expect_err("a union is rejected");
    assert_eq!(a_union, DeriveError::LedgerNotAStruct);
}

#[test]
fn a_slot_that_reads_the_signet_needs_exactly_one() {
    let none = ledger::expand_source("struct T { a: LedgerField, p: crate::flow::Pending<X, Y, 2> }")
        .expect_err("no signet");
    assert_eq!(none, DeriveError::NoSignet { field: 1 });
    let twice = ledger::expand_source("struct T { a: Signet, b: Signet }").expect_err("two signets");
    assert_eq!(twice, DeriveError::SecondSignet { field: 1 });
    // Spelling decides: a path's last segment.
    assert!(block("struct T { s: flow::Signet, o: flow::Outbox<F, E, 2> }")
        .contains("o : < flow :: Outbox < F , E , 2 > > :: at_layout_with_signet"));
}

#[test]
fn a_text_that_declares_nothing_is_refused() {
    assert_eq!(ledger::expand_source("not a declaration"), Err(DeriveError::Syntax));
    assert_eq!(ledger_header::expand_source("struct {"), Err(DeriveError::Syntax));
}

#[test]
fn a_declaration_in_parts_expands_as_its_text_does() {
    let field = Field {
        name: "count".to_string(),
        ty: "LedgerCounter".to_string(),
        path: vec!["LedgerCounter".to_string()],
    };
    assert!(field.named_as("LedgerCounter") && !field.named_as("Signet"));
    let input =
        DeriveInput { name: "One".to_string(), params: 0, shape: Shape::Named(vec![field]) };
    assert_eq!(ledger::expand(&input), ledger::expand_source("struct One { count: LedgerCounter }"));
    let unit = DeriveInput { name: "Std".to_string(), params: 0, shape: Shape::Unit };
    assert_eq!(ledger_header::expand(&unit), ledger_header::expand_source("struct Std;"));
}

// ---- a standard ------------------------------------------------------------------------------------

const VERSIONED: &str = "struct Versioned {
    version: LedgerCell<Uint<8, Public>>,
    admin: LedgerCell<B32<Public>>,
}";

#[test]
fn ledger_header_the_expansion_calls_no_circuit_method() {
    let expanded = standard(VERSIONED);
    assert!(!expanded.contains("c ."), "{expanded}");
    assert!(!expanded.contains("Circuit3"), "{expanded}");
}

#[test]
fn a_unit_struct_is_a_magic_cell_at_the_root() {
    let expanded = standard("struct Mip0099;");
    assert!(expanded.contains("const WIDTH : usize = 0"), "{expanded}");
    assert!(
        expanded.contains(
            "const PLACEMENT : :: minocrab_std :: v3 :: Placement = :: minocrab_std :: v3 :: Placement :: RootHeader"
        ),
        "{expanded}"
    );
    assert!(expanded.contains("Magic :: at_path (& [0u8])"), "{expanded}");
    assert!(
        expanded.contains(
            "assert_magic (& < Mip0099 as :: minocrab_std :: v3 :: LedgerHeader > :: MAGIC)"
        ),
        "{expanded}"
    );
    assert!(!expanded.contains("assert_header_fields"), "{expanded}");
}

#[test]
fn named_fields_follow_the_magic_in_the_header_array() {
    let expanded = standard(VERSIONED);
    assert!(expanded.contains("Magic :: at_path (& [0u8 , 0u8])"), "{expanded}");
    assert!(
        expanded.contains(
            "version : < LedgerCell < Uint < 8 , Public > > > :: at_path (& [0u8 , 1u8])"
        ),
        "{expanded}"
    );
    assert!(
        expanded.contains("admin : < LedgerCell < B32 < Public > > > :: at_path (& [0u8 , 2u8])"),
        "{expanded}"
    );
    assert!(
        expanded.contains("header_field :: < LedgerCell < Uint < 8 , Public > > > ()"),
        "{expanded}"
    );
    assert!(expanded.contains("assert_header_fields"), "{expanded}");
    assert!(expanded.contains("assert_headed (layout)"), "{expanded}");
}

#[test]
fn sixteen_named_fields_are_rejected_with_the_rule() {
    let expanded = standard(&wide(15, "LedgerField"));
    assert!(
        expanded.contains("f14 : < LedgerField > :: at_path (& [0u8 , 15u8])"),
        "{expanded}"
    );
    let error = ledger_header::expand_source(&wide(16, "LedgerField"))
        .expect_err("sixteen fields are rejected");
    assert!(error.message().contains("at most 15 named fields"), "{}", error.message());
}

#[test]
fn a_field_named_magic_is_rejected() {
    let error = ledger_header::expand_source("struct S { magic: LedgerCell<B32<Public>> }")
        .expect_err("a `magic` field is rejected");
    assert!(error.message().contains("the magic is not a field"), "{}", error.message());
}

#[test]
fn other_shapes_are_rejected() {
    let refused = |source: &str| ledger_header::expand_source(source).expect_err("refused").message();
    let generic = refused("struct S<T> { t: LedgerCell<T> }");
    assert!(generic.contains("no generic parameters"), "{generic}");
    let tuple = refused("struct S(LedgerField);");
    assert!(tuple.contains("named fields"), "{tuple}");
    let empty = refused("struct S {}");
    assert!(empty.contains("unit struct"), "{empty}");
    let an_enum = refused("enum S { A }");
    assert!(an_enum.contains("is for a struct"), "{an_enum}");
}
