use ouro::sea::node::NodeKind::{
    ExprAdd, ExprInt, ExprMul, Fn, FnBody, FnBodyEnd, FnIdent, FnParams, FnParamsEnd, Let, LetEq,
    LetIdent, LetSemi, Struct, StructBody, StructBodyEnd, StructIdent,
};
use ouro::sea::node::{NodeKind, Nominal, SubtreeSize, SynDef, SynRef};
use ouro::sea::parser::{parse, Expected, Parse};
use ouro::sea::pprint::pprint;
use ouro::sea::resolver::{
    builtin_to_hover_description, resolve, resolve_checked, Builtin, Def, Error, Resolve, Shadowed,
};
use ouro::sea::sema::{eval, parse_int, Value};
use ouro::sea::span::{Offset, Span};
use ouro::sea::node::{Counter, Node, NodeImpl};
use ouro::tokenize::{tokenize, Token, TokenImpl};

fn parse_and_resolve(input: &str) -> (Parse, Resolve) {
    let tokenize = tokenize(input);
    let parse = parse(&tokenize.tokens);
    parse.ok.as_ref().unwrap();
    let ends: Vec<Offset> = tokenize.spans.ends.iter().map(|b| Offset(b.0)).collect();
    let resolve = resolve(&parse, &ends, input);
    (parse, resolve)
}

fn local(n: u32) -> Def {
    Def::Local { def: Node(n) }
}

#[test]
fn parser_test_parse() {
    let tokenize = tokenize(
        "fn a() { 1 + 2 * 3 } struct Foo { struct Bar { fn foobar() { let a = 4; 0b11_11 } } } \
         struct Baz {}",
    );
    let parse = parse(&tokenize.tokens);
    assert!(parse.ok.is_ok());
    let got: Vec<NodeKind> = parse.nodes.iter().map(|n| n.kind).collect();
    assert_eq!(
        got,
        vec![
            Fn,
            FnIdent(SynDef(0)),
            FnParams,
            FnParamsEnd(SubtreeSize(1)),
            FnBody,
            ExprInt,
            ExprInt,
            ExprInt,
            ExprMul,
            ExprAdd,
            FnBodyEnd(SubtreeSize(9)),
            Struct(Nominal(0)),
            StructIdent(SynDef(1)),
            StructBody,
            Struct(Nominal(1)),
            StructIdent(SynDef(2)),
            StructBody,
            Fn,
            FnIdent(SynDef(3)),
            FnParams,
            FnParamsEnd(SubtreeSize(1)),
            FnBody,
            Let,
            ExprInt,
            LetEq,
            LetIdent(SynDef(4)),
            LetSemi,
            ExprInt,
            FnBodyEnd(SubtreeSize(10)),
            StructBodyEnd(SubtreeSize(4)),
            StructBodyEnd(SubtreeSize(4)),
            Struct(Nominal(2)),
            StructIdent(SynDef(5)),
            StructBody,
            StructBodyEnd(SubtreeSize(3)),
        ]
    );
    assert_eq!(parse.syn_defs.next, SynDef(6));
    assert_eq!(parse.syn_refs.next, SynRef(0));
}

#[test]
fn resolver_test_struct_visible_in_its_body() {
    let input = "struct Thing { fn new(a: 1) { Thing } }";
    let (parse, resolve) = parse_and_resolve(input);
    assert_eq!(parse.nodes.len(), 13);
    assert_eq!(parse.nodes[10].kind, NodeKind::ExprIdent(SynRef(0)));
    assert_eq!(resolve.defs, vec![local(1)]);
    assert!(resolve.errors.is_empty());

    let labels: Vec<String> = (0..parse.nodes.len()).map(|i| format!("{i}")).collect();
    assert_eq!(
        pprint(&parse.nodes, &labels),
        "│ ╭─0\n│ ├─1\n│ ├─2\n│ │ ╭─3\n│ │ ├─4\n│ │ │ ╭─5\n│ │ │ ├─6\n│ │ │ ├─7\n\
         │ │ ├─8\n│ │ ├─9\n│ │ ├─10\n│ ├─11\n├─12\n"
    );
}

#[test]
fn test_duplicate_defs_are_ignored() {
    let input = "struct Thing { fn first() { Thing } struct HidesDuplicate { struct Thing {} \
                 fn second() { Thing } } fn third() { Thing } }";
    let (parse, resolve) = parse_and_resolve(input);
    assert_eq!(parse.nodes.len(), 33);
    assert_eq!(parse.nodes[14].kind, NodeKind::StructIdent(SynDef(3)));
    // The inner `Thing` would hide the outer one: it is refused, and every use refers to the
    // outer one.
    assert_eq!(resolve.defs, vec![local(1), local(1), local(1)]);
    assert_eq!(
        resolve.errors,
        vec![Error {
            shadowed: Shadowed::Local { def: Node(1) },
            conflicting_def: Node(14),
        }]
    );
}

#[test]
fn a_use_resolves_to_its_parameter_and_an_unknown_name_to_nothing() {
    let input = "fn f(a: x) { a }";
    let (_parse, resolve) = parse_and_resolve(input);
    // `x` is not defined anywhere; `a` is the parameter.
    assert_eq!(resolve.defs, vec![Def::NonLocal(None), local(4)]);
}

#[test]
fn a_use_sees_definitions_made_after_it() {
    let input = "fn a() { b } fn b() {}";
    let (_parse, resolve) = parse_and_resolve(input);
    assert_eq!(resolve.defs, vec![local(8)]);
    assert!(resolve.errors.is_empty());
}

#[test]
fn a_let_binds_its_name_for_the_uses_in_its_scope() {
    // `y` is defined nowhere; `x` is the let.
    let input = "fn f() { let x = y; x }";
    let (parse, resolve) = parse_and_resolve(input);
    let let_ident = parse
        .nodes
        .iter()
        .position(|n| matches!(n.kind, NodeKind::LetIdent(_)))
        .unwrap() as u32;
    assert_eq!(resolve.defs, vec![Def::NonLocal(None), local(let_ident)]);
}

#[test]
fn span_lookup_slices_the_source() {
    let source = "héllo world";
    let span = Span { start: Offset(0), end: Offset(6) };
    assert_eq!(span.lookup(source), "héllo");
    let span = Span { start: Offset(7), end: Offset(12) };
    assert_eq!(span.lookup(source), "world");
}

#[test]
fn integers_read_as_str_parse_does() {
    assert_eq!(parse_int(b"0"), Some(0));
    assert_eq!(parse_int(b"123"), Some(123));
    assert_eq!(parse_int(b"+7"), Some(7));
    assert_eq!(parse_int(b"-42"), Some(-42));
    assert_eq!(parse_int(b"9223372036854775807"), Some(i64::MAX));
    assert_eq!(parse_int(b"-9223372036854775808"), Some(i64::MIN));
    assert_eq!(parse_int(b"9223372036854775808"), None);
    assert_eq!(parse_int(b""), None);
    assert_eq!(parse_int(b"-"), None);
    assert_eq!(parse_int(b"0b11"), None);
    assert_eq!(parse_int(b"1_000"), None);
    for s in ["0", "17", "-5", "+3", "x", "", "99999999999999999999"] {
        assert_eq!(parse_int(s.as_bytes()), s.parse::<i64>().ok());
    }
}

#[test]
fn eval_adds_integers() {
    // 1 + 2, as the parser lays it out: both operands, then the addition.
    let input = "1 + 2";
    let tokenize = tokenize(input);
    let ends: Vec<Offset> = tokenize.spans.ends.iter().map(|b| Offset(b.0)).collect();
    let nodes = vec![
        NodeImpl { token: Token::new(0), kind: NodeKind::ExprInt },
        NodeImpl { token: Token::new(4), kind: NodeKind::ExprInt },
        NodeImpl { token: Token::new(2), kind: NodeKind::ExprAdd },
    ];
    let stack = eval(
        input,
        &ends,
        &nodes,
        &[],
        Counter { next: SynDef(0) },
        Counter { next: Nominal(0) },
    );
    assert_eq!(stack, vec![Value::Int(3)]);
}

#[test]
fn counters_hand_out_consecutive_indices() {
    let mut c: Counter<SynRef> = Counter::new();
    assert_eq!(c.next(), SynRef(0));
    assert_eq!(c.next(), SynRef(1));
    assert_eq!(c.next, SynRef(2));
}

#[test]
fn subtree_sizes_are_recorded_on_terminators() {
    assert_eq!(NodeKind::FnBodyEnd(SubtreeSize(5)).subtree_size(), Some(SubtreeSize(5)));
    assert_eq!(NodeKind::ExprAdd.subtree_size(), None);
}

#[test]
fn a_use_between_two_definitions_of_its_name_keeps_the_first() {
    // The second `T` is refused going forward, and ignored going backward.
    let input = "struct T {} fn a() { T } struct T {}";
    let (parse, resolve) = parse_and_resolve(input);
    assert!(matches!(parse.nodes[12].kind, NodeKind::StructIdent(_)));
    assert_eq!(resolve.defs, vec![local(1)]);
    assert_eq!(
        resolve.errors,
        vec![Error { shadowed: Shadowed::Local { def: Node(1) }, conflicting_def: Node(12) }]
    );
}

#[test]
fn hovering_over_a_builtin_describes_it() {
    assert_eq!(builtin_to_hover_description(Builtin::I32), "The 32-bit signed integer type.");
    assert_eq!(builtin_to_hover_description(Builtin::Type), "The type of types.");
}

#[test]
fn offsets_and_spans_print_in_decimal() {
    assert_eq!(Offset(0).debug_text(), "0");
    assert_eq!(Offset(4294967295).debug_text(), "4294967295");
    assert_eq!(Span { start: Offset(12), end: Offset(305) }.debug_text(), "12..305");
}

/// Sea spells the builtins `i32` and `type` as names: its tokens read them as identifiers.
fn parse_and_resolve_sea_names(input: &str) -> (Parse, Resolve) {
    let tokenize = tokenize(input);
    let tokens: Vec<TokenImpl> = tokenize
        .tokens
        .iter()
        .map(|&t| match t {
            TokenImpl::I32Keyword | TokenImpl::TypeKeyword => TokenImpl::Ident,
            other => other,
        })
        .collect();
    let parse = parse(&tokens);
    parse.ok.as_ref().unwrap();
    let ends: Vec<Offset> = tokenize.spans.ends.iter().map(|b| Offset(b.0)).collect();
    let resolve = resolve(&parse, &ends, input);
    (parse, resolve)
}

#[test]
fn resolver_test_resolve() {
    let input = "fn foo(a: i32, b: i32) { let c = add(a * a, b); c } \
                 fn add(a: i32, b: i32) { a + b + c }";
    let (parse, resolve) = parse_and_resolve_sea_names(input);
    assert_eq!(parse.nodes.len(), 38);
    let i32_ = Def::NonLocal(Some(Builtin::I32));
    assert_eq!(
        resolve.defs,
        vec![
            i32_,
            i32_,
            local(24),
            local(4),
            local(4),
            local(6),
            local(19),
            i32_,
            i32_,
            local(27),
            local(29),
            Def::NonLocal(None),
        ]
    );
    assert!(resolve.errors.is_empty());
}

#[test]
fn resolver_test_params_can_refer_to_prior_params() {
    let input = "fn foo(T: type, n: T) {}";
    let (_parse, resolve) = parse_and_resolve_sea_names(input);
    assert_eq!(resolve.defs, vec![Def::NonLocal(Some(Builtin::Type)), local(4)]);
    assert!(resolve.errors.is_empty());
}

#[test]
fn sea_parse_errors_say_what_was_expected() {
    let tk = tokenize("fn 1");
    let err = parse(&tk.tokens).ok.unwrap_err();
    assert!(matches!(err.expected, Expected::Just(TokenImpl::Ident)));
    assert_eq!(err.actual, Some(TokenImpl::IntLit));
    let tk = tokenize("fn f() { ) }");
    let err = parse(&tk.tokens).ok.unwrap_err();
    assert!(matches!(
        err.expected,
        Expected::OneOf(list) if list == &[TokenImpl::OpenBrace, TokenImpl::Ident, TokenImpl::IntLit]
    ));
    assert_eq!(err.actual, Some(TokenImpl::CloseParen));
}

#[test]
fn defining_a_builtin_name_is_refused() {
    let (_parse, resolve) = parse_and_resolve_sea_names("fn i32() {}");
    assert_eq!(
        resolve.errors,
        vec![Error {
            shadowed: Shadowed::Builtin(Builtin::I32),
            conflicting_def: Node(1),
        }]
    );
}

#[test]
fn a_let_name_is_not_in_scope_in_its_own_initializer() {
    let input = "fn f() { let x = x; }";
    let (parse, resolve) = parse_and_resolve(input);
    assert_eq!(parse.nodes[6].kind, NodeKind::ExprIdent(SynRef(0)));
    assert!(matches!(parse.nodes[8].kind, NodeKind::LetIdent(_)));
    assert_eq!(resolve.defs, vec![Def::NonLocal(None)]);
    assert!(resolve.errors.is_empty());
}

#[test]
fn a_let_name_is_in_scope_after_its_statement() {
    let input = "fn f() { let x = 1; let y = x; }";
    let (parse, resolve) = parse_and_resolve(input);
    assert!(matches!(parse.nodes[8].kind, NodeKind::LetIdent(_)));
    assert_eq!(resolve.defs, vec![local(8)]);
    assert!(resolve.errors.is_empty());
}

#[test]
fn a_duplicate_function_in_one_scope_is_ignored() {
    let input = "fn f() {} fn g() { f } fn f() {}";
    let (parse, resolve) = parse_and_resolve(input);
    assert_eq!(parse.nodes[11].kind, NodeKind::ExprIdent(SynRef(0)));
    assert_eq!(resolve.defs, vec![local(1)]);
    assert_eq!(
        resolve.errors,
        vec![Error { shadowed: Shadowed::Local { def: Node(1) }, conflicting_def: Node(14) }]
    );
}

#[test]
fn a_scope_closed_that_never_opened_stops_resolution() {
    let input = "}";
    let tokenize = tokenize(input);
    let tokens: Vec<TokenImpl> = vec![TokenImpl::OpenBrace, TokenImpl::Ident, TokenImpl::CloseBrace];
    let mut parse = parse(&tokens);
    parse.nodes = vec![NodeImpl { token: Token::new(0), kind: FnBodyEnd(SubtreeSize(0)) }];
    let ends: Vec<Offset> = tokenize.spans.ends.iter().map(|b| Offset(b.0)).collect();
    assert!(resolve_checked(&parse, &ends, input).is_none());
}
