use ouro::analysis::Analysis;
use ouro::parse_node::{Node, NodeKind};
use ouro::span::Utf16Char;
use ouro::token_sum_tree::RowColDelta;

fn at(row: u32, column: u32) -> RowColDelta<Utf16Char> {
    RowColDelta { row, column: Utf16Char::from_raw(column) }
}

#[test]
fn the_analysis_parses_ouro_items() {
    let analysis = Analysis::new("const X = 1;".to_string());
    assert!(analysis.parse.ok.is_ok());
    let kinds: Vec<NodeKind> = analysis.parse.nodes.iter().map(|n| n.kind).collect();
    assert_eq!(
        kinds,
        vec![NodeKind::Const, NodeKind::ConstIdent, NodeKind::ConstEq, NodeKind::ExprInt, NodeKind::ConstSemi]
    );
    assert!(analysis.resolve.is_some());
}

#[test]
fn a_use_leads_to_its_definition() {
    let analysis = Analysis::new("fn foo(T: U, n: T) {}".to_string());
    assert!(analysis.parse.ok.is_ok());
    // The second `T` is a use of the first, the parameter.
    assert_eq!(analysis.def_at(at(0, 16)), Some(Node(3)));
    assert_eq!(analysis.definition_position(at(0, 16)), Some(at(0, 7)));
    // `U` is defined nowhere: it points to where its scope opened, which defines nothing.
    assert_eq!(analysis.def_at(at(0, 10)), None);
    assert_eq!(analysis.definition_position(at(0, 10)), None);
}

#[test]
fn a_use_leads_to_a_constant_of_the_file() {
    let analysis = Analysis::new("const T = struct {}; fn f(a: T) {}".to_string());
    assert_eq!(analysis.def_at(at(0, 29)), Some(Node(1)));
    assert_eq!(analysis.definition_position(at(0, 29)), Some(at(0, 6)));
}

#[test]
fn only_uses_of_names_refer_to_something() {
    let analysis = Analysis::new("fn foo(T: U, n: T) {}".to_string());
    // The function's and the parameter's own names are definitions, not uses.
    assert_eq!(analysis.def_at(at(0, 3)), None);
    assert_eq!(analysis.def_at(at(0, 7)), None);
    // Punctuation, and positions past the end.
    assert_eq!(analysis.def_at(at(0, 6)), None);
    assert_eq!(analysis.def_at(at(0, 21)), None);
    assert_eq!(analysis.def_at(at(3, 0)), None);
}

#[test]
fn definitions_are_found_across_rows() {
    let analysis = Analysis::new("fn f(x: y) {\n  x\n}".to_string());
    assert_eq!(analysis.def_at(at(1, 2)), Some(Node(3)));
    assert_eq!(analysis.definition_position(at(1, 2)), Some(at(0, 5)));
    assert_eq!(analysis.token_to_syn_ref.len(), 2);
}

#[test]
fn a_document_that_does_not_parse_resolves_nothing() {
    let analysis = Analysis::new("fn f(x: y) { x".to_string());
    assert!(analysis.parse.ok.is_err());
    assert!(analysis.resolve.is_none());
    assert_eq!(analysis.def_at(at(0, 13)), None);
}

#[test]
fn builtins_and_keywords_parse() {
    let analysis = Analysis::new("const Thing = @This(); fn f(a: i32, b: type) { a }".to_string());
    assert!(analysis.parse.ok.is_ok());
    assert!(Analysis::new_checked("fn f(a: i32) {}".to_string()).is_some());
}
