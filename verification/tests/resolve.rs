use ouro::index::MaxOr;
use ouro::parse_types::{ExprKind, Node, NodeKind, Nodes};
use ouro::resolve::{resolve, resolve_checked, Ref, RefImpl};
use ouro::tokenize::{tokenize, Token};

fn nodes_of(list: &[(NodeKind, usize)]) -> Nodes {
    let mut nodes = Nodes {
        nodes: Vec::new(),
        tokens: Vec::new(),
    };
    for &(kind, token) in list {
        nodes.push(Token::new(token), kind);
    }
    nodes
}

/// Where each use points, and the use it is chained to (`None` for none).
fn summary(refs: &[RefImpl]) -> Vec<(u32, Option<u32>)> {
    refs.iter()
        .map(|r| (r.node.0, r.next.into_non_max().map(|n: Ref| n.0)))
        .collect()
}

#[test]
fn a_use_resolves_to_the_parameter_of_its_function() {
    // fn foo(a: i32) { a }
    let source = "fn foo(a: i32) { a }";
    let tk = tokenize(source);
    let nodes = nodes_of(&[
        (NodeKind::FileBegin, 0),
        (NodeKind::Fn, 0),
        (NodeKind::FnIdent, 2),
        (NodeKind::FnParams, 3),
        (NodeKind::FnParamsIdent, 4),
        (NodeKind::Expr(ExprKind::I32Keyword), 7),
        (NodeKind::FnParamsEnd, 8),
        (NodeKind::FnBodyBegin, 10),
        (NodeKind::Expr(ExprKind::Ident), 12),
        (NodeKind::FnBodyEnd, 14),
        (NodeKind::FileEnd, 14),
    ]);
    let r = resolve(&nodes, &tk.spans, source);
    assert_eq!(summary(&r.refs), vec![(4, None)]);
}

#[test]
fn an_unbound_use_points_to_where_its_scope_opened() {
    // fn foo() { x x }: neither use finds a definition; the second is chained to the first.
    let source = "fn foo() { x x }";
    let tk = tokenize(source);
    let nodes = nodes_of(&[
        (NodeKind::FileBegin, 0),
        (NodeKind::Fn, 0),
        (NodeKind::FnIdent, 2),
        (NodeKind::FnParams, 3),
        (NodeKind::FnParamsEnd, 4),
        (NodeKind::FnBodyBegin, 6),
        (NodeKind::Expr(ExprKind::Ident), 8),
        (NodeKind::Expr(ExprKind::Ident), 10),
        (NodeKind::FnBodyEnd, 12),
        (NodeKind::FileEnd, 12),
    ]);
    let r = resolve(&nodes, &tk.spans, source);
    assert_eq!(summary(&r.refs), vec![(3, None), (3, Some(0))]);
}

#[test]
fn definitions_are_visible_before_they_are_made() {
    // fn a() { b } fn b() {}: the use of `b` in the first function resolves to the second.
    let source = "fn a() { b } fn b() {}";
    let tk = tokenize(source);
    let nodes = nodes_of(&[
        (NodeKind::FileBegin, 0),
        (NodeKind::Fn, 0),
        (NodeKind::FnIdent, 2),
        (NodeKind::FnParams, 3),
        (NodeKind::FnParamsEnd, 4),
        (NodeKind::FnBodyBegin, 6),
        (NodeKind::Expr(ExprKind::Ident), 8),
        (NodeKind::FnBodyEnd, 10),
        (NodeKind::Fn, 12),
        (NodeKind::FnIdent, 14),
        (NodeKind::FnParams, 15),
        (NodeKind::FnParamsEnd, 16),
        (NodeKind::FnBodyBegin, 18),
        (NodeKind::FnBodyEnd, 19),
        (NodeKind::FileEnd, 19),
    ]);
    let r = resolve(&nodes, &tk.spans, source);
    assert_eq!(summary(&r.refs), vec![(9, None)]);
}

#[test]
fn the_innermost_definition_wins() {
    // fn f(x: i32) { { let x = 1; x } x }
    let source = "fn f(x: i32) { { let x = 1; x } x }";
    let tk = tokenize(source);
    let nodes = nodes_of(&[
        (NodeKind::FileBegin, 0),
        (NodeKind::Fn, 0),
        (NodeKind::FnIdent, 2),
        (NodeKind::FnParams, 3),
        (NodeKind::FnParamsIdent, 4),
        (NodeKind::Expr(ExprKind::I32Keyword), 7),
        (NodeKind::FnParamsEnd, 8),
        (NodeKind::FnBodyBegin, 10),
        (NodeKind::Expr(ExprKind::Block), 12),
        (NodeKind::Let, 14),
        (NodeKind::LetIdent, 16),
        (NodeKind::LetEq, 18),
        (NodeKind::Expr(ExprKind::IntLit), 20),
        (NodeKind::EndOfExpr, 21),
        (NodeKind::Expr(ExprKind::Ident), 23),
        (NodeKind::Expr(ExprKind::BlockEnd), 25),
        (NodeKind::Expr(ExprKind::Ident), 27),
        (NodeKind::FnBodyEnd, 29),
        (NodeKind::FileEnd, 29),
    ]);
    let r = resolve(&nodes, &tk.spans, source);
    assert_eq!(summary(&r.refs), vec![(10, None), (4, None)]);
}

#[test]
fn a_later_definition_in_the_same_scope_claims_the_uses() {
    // const x = 1; const x = 2; x
    let source = "const x = 1; const x = 2; x";
    let tk = tokenize(source);
    let nodes = nodes_of(&[
        (NodeKind::FileBegin, 0),
        (NodeKind::Const, 0),
        (NodeKind::ConstIdent, 2),
        (NodeKind::Const, 9),
        (NodeKind::ConstIdent, 11),
        (NodeKind::Expr(ExprKind::Ident), 18),
        (NodeKind::FileEnd, 18),
    ]);
    let r = resolve(&nodes, &tk.spans, source);
    assert_eq!(summary(&r.refs), vec![(4, None)]);
}

#[test]
fn max_or_holds_an_index_or_nothing() {
    assert_eq!(MaxOr::new(Node(7)).into_non_max(), Some(Node(7)));
    assert_eq!(MaxOr::<Node>::max().into_non_max(), None);
}

#[test]
fn closing_a_scope_that_was_never_opened_stops_resolution() {
    let source = "x";
    let tk = tokenize(source);
    let nodes = nodes_of(&[(NodeKind::Expr(ExprKind::Ident), 0), (NodeKind::FileEnd, 0)]);
    assert!(resolve_checked(&nodes, &tk.spans, source).is_none());
    let nodes = nodes_of(&[
        (NodeKind::FileBegin, 0),
        (NodeKind::Expr(ExprKind::Ident), 0),
        (NodeKind::FileEnd, 0),
    ]);
    let r = resolve_checked(&nodes, &tk.spans, source).unwrap();
    assert_eq!(summary(&r.refs), vec![(0, None)]);
}

/// Each node of the file as resolution reads it, its token's text, and for each use the node it
/// resolved to.
fn pprint_name_resolve(input: &str) -> String {
    let tokenize = tokenize(input);
    let parse = ouro::parse::parse(&tokenize.tokens);
    parse.ok.as_ref().unwrap();
    let nodes = ouro::analysis::file_nodes(&parse.nodes);
    let resolve = resolve(&nodes, &tokenize.spans, input);
    let mut iter = resolve.refs.into_iter();

    let mut out = String::new();
    for (node, &node_kind) in nodes.nodes.iter().enumerate() {
        out.push_str(&format!("Node({node}) {node_kind:?}"));
        if node_kind.has_token() {
            let string = tokenize.spans.to_span(nodes.tokens[node]).lookup(input);
            out.push_str(&format!(" {string:?}"));
        }
        if let NodeKind::Expr(ExprKind::Ident) = node_kind {
            let r = iter.next().expect("should align");
            out.push_str(&format!(" -> Node({})", r.node.0));
        }
        out.push('\n');
    }
    assert!(iter.next().is_none(), "didn't consume all synrefs?");
    out
}

/// For each use of a name, in order: its text and the node it resolved to.
fn uses_resolved(input: &str) -> Vec<String> {
    pprint_name_resolve(input)
        .lines()
        .filter(|line| line.contains(" -> "))
        .map(|line| line.splitn(3, ' ').nth(2).unwrap().to_string())
        .collect()
}

#[test]
fn ouro_resolve_test_test_resolve() {
    let got = pprint_name_resolve(
        "fn foo(a: i32, b: i32) {\n    let c = add(a * a, b);\n    c\n}\n\nfn add(a: i32, b: i32) {\n    a + b + c\n}",
    );
    assert_eq!(
        got,
        "Node(0) FileBegin\nNode(1) Fn \"fn\"\nNode(2) FnIdent \"foo\"\nNode(3) FnParams \"(\"\nNode(4) FnParamsIdent \"a\"\nNode(5) Expr(I32Keyword) \"i32\"\nNode(6) FnParamsIdent \"b\"\nNode(7) Expr(I32Keyword) \"i32\"\nNode(8) FnParamsEnd \")\"\nNode(9) FnBodyBegin \"{\"\nNode(10) Let \"let\"\nNode(11) LetIdent \"c\"\nNode(12) LetEq \"=\"\nNode(13) Expr(Ident) \"add\" -> Node(25)\nNode(14) Expr(Call) \"(\"\nNode(15) Expr(Ident) \"a\" -> Node(4)\nNode(16) Expr(Ident) \"a\" -> Node(4)\nNode(17) Expr(Mul) \"*\"\nNode(18) EndOfExpr \",\"\nNode(19) Expr(Ident) \"b\" -> Node(6)\nNode(20) Expr(CallEnd) \")\"\nNode(21) EndOfExpr \";\"\nNode(22) Expr(Ident) \"c\" -> Node(11)\nNode(23) FnBodyEnd \"}\"\nNode(24) Fn \"fn\"\nNode(25) FnIdent \"add\"\nNode(26) FnParams \"(\"\nNode(27) FnParamsIdent \"a\"\nNode(28) Expr(I32Keyword) \"i32\"\nNode(29) FnParamsIdent \"b\"\nNode(30) Expr(I32Keyword) \"i32\"\nNode(31) FnParamsEnd \")\"\nNode(32) FnBodyBegin \"{\"\nNode(33) Expr(Ident) \"a\" -> Node(27)\nNode(34) Expr(Ident) \"b\" -> Node(29)\nNode(35) Expr(Add) \"+\"\nNode(36) Expr(Ident) \"c\" -> Node(26)\nNode(37) Expr(Add) \"+\"\nNode(38) FnBodyEnd \"}\"\nNode(39) FileEnd\n"
    );
}

#[test]
fn ouro_resolve_test_test_struct_visible_in_its_body() {
    let got = pprint_name_resolve("const Thing = struct {\n    fn new(a: 1) {\n        Thing\n    }\n};");
    assert_eq!(
        got,
        "Node(0) FileBegin\nNode(1) Const \"const\"\nNode(2) ConstIdent \"Thing\"\nNode(3) ConstEq \"=\"\nNode(4) Struct \"struct\"\nNode(5) StructBodyBegin \"{\"\nNode(6) Fn \"fn\"\nNode(7) FnIdent \"new\"\nNode(8) FnParams \"(\"\nNode(9) FnParamsIdent \"a\"\nNode(10) Expr(IntLit) \"1\"\nNode(11) FnParamsEnd \")\"\nNode(12) FnBodyBegin \"{\"\nNode(13) Expr(Ident) \"Thing\" -> Node(2)\nNode(14) FnBodyEnd \"}\"\nNode(15) StructBodyEnd \"}\"\nNode(16) EndOfExpr \";\"\nNode(17) FileEnd\n"
    );
}

#[test]
fn ouro_resolve_test_test_params_can_refer_to_prior_params() {
    let got = pprint_name_resolve("fn foo(T: type, n: T) {}");
    assert_eq!(
        got,
        "Node(0) FileBegin\nNode(1) Fn \"fn\"\nNode(2) FnIdent \"foo\"\nNode(3) FnParams \"(\"\nNode(4) FnParamsIdent \"T\"\nNode(5) Expr(TypeKeyword) \"type\"\nNode(6) FnParamsIdent \"n\"\nNode(7) Expr(Ident) \"T\" -> Node(4)\nNode(8) FnParamsEnd \")\"\nNode(9) FnBodyBegin \"{\"\nNode(10) FnBodyEnd \"}\"\nNode(11) FileEnd\n"
    );
}

#[test]
fn test_hello() {
    let got = pprint_name_resolve(
        "fn Vec(T: type) {\n    struct {\n        t: T,\n    }\n}\n\nfn main() {\n    // stuff\n}",
    );
    assert_eq!(
        got,
        "Node(0) FileBegin\nNode(1) Fn \"fn\"\nNode(2) FnIdent \"Vec\"\nNode(3) FnParams \"(\"\nNode(4) FnParamsIdent \"T\"\nNode(5) Expr(TypeKeyword) \"type\"\nNode(6) FnParamsEnd \")\"\nNode(7) FnBodyBegin \"{\"\nNode(8) Struct \"struct\"\nNode(9) StructBodyBegin \"{\"\nNode(10) StructFieldIdent \"t\"\nNode(11) Expr(Ident) \"T\" -> Node(4)\nNode(12) StructFieldComma \",\"\nNode(13) StructBodyEnd \"}\"\nNode(14) FnBodyEnd \"}\"\nNode(15) Fn \"fn\"\nNode(16) FnIdent \"main\"\nNode(17) FnParams \"(\"\nNode(18) FnParamsEnd \")\"\nNode(19) FnBodyBegin \"{\"\nNode(20) FnBodyEnd \"}\"\nNode(21) FileEnd\n"
    );
}

#[test]
fn debug() {
    let got = uses_resolved(
        "const Thing = struct {\n    const Self = @This();\n\n    fn new(self: Self) {\n        self + i32\n    }\n};\n\n\
         fn VecImpl(T: type) {\n    struct {\n        t: T,\n        y: foo(),\n    }\n}\n\n\
         fn Vec(T: type) {\n    VecImpl(T)\n}\n\nfn foo() {}\n\n\
         fn print_ints(ints: Vec(i32)) {\n    // stuff\n}\n\n\
         fn print(s: string) {\n    struct {\n        fn fmt(io: Io) {\n            // print the stuff\n        }\n    }.fmt\n}\n\n\
         pub fn main(io: Io) {\n    print(\"hello\")(io)\n}",
    );
    // The parser reads the items of the file up to `pub fn main`, where an item it does not
    // start stops it.
    assert_eq!(
        got,
        vec![
            "\"Self\" -> Node(7)",
            "\"self\" -> Node(17)",
            "\"T\" -> Node(30)",
            "\"foo\" -> Node(59)",
            "\"VecImpl\" -> Node(28)",
            "\"T\" -> Node(49)",
            "\"Vec\" -> Node(47)",
            "\"string\" -> Node(77)",
            "\"Io\" -> Node(86)",
        ]
    );
}
