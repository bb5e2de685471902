use ouro::parse::{parse, Expected};
use ouro::parse_node::NodeKind::{
    BuiltinAmpersand, BuiltinIdent, ExprI32Keyword, ExprTypeKeyword, Const, ConstEq, ConstIdent, ConstSemi, ExprAdd, ExprCall, ExprCallComma, ExprCallEnd, ExprDot,
    ExprField, ExprIdent, ExprInt, ExprMul, ExprStr, Fn, FnBodyBegin, FnBodyEnd, FnIdent, FnParams,
    FnParamsEnd, FnParamsIdent, Let, LetEq, LetIdent, LetSemi, Struct, StructBodyBegin,
    StructBodyEnd,
};
use ouro::parse_node::{NodeKind, SynRef};
use ouro::pprint::pprint;
use ouro::tokenize::{tokenize, TokenImpl};

fn kinds(input: &str) -> Vec<NodeKind> {
    let tokenize = tokenize(input);
    let parse = parse(&tokenize.tokens);
    assert!(parse.ok.is_ok());
    parse.nodes.iter().map(|n| n.kind).collect()
}

#[test]
fn ouro_parse_test_test_parse() {
    assert_eq!(
        kinds(
            "fn a() { 1 + 2 * 3 } const Foo = struct { const Bar = struct { fn foobar() \
             { let a = 4; 0b11_11 } }; }; const Baz = struct {};"
        ),
        vec![
            Fn, FnIdent, FnParams, FnParamsEnd, FnBodyBegin, ExprInt, ExprInt, ExprInt, ExprMul,
            ExprAdd, FnBodyEnd, Const, ConstIdent, ConstEq, Struct, StructBodyBegin, Const,
            ConstIdent, ConstEq, Struct, StructBodyBegin, Fn, FnIdent, FnParams, FnParamsEnd,
            FnBodyBegin, Let, LetIdent, LetEq, ExprInt, LetSemi, ExprInt, FnBodyEnd,
            StructBodyEnd, ConstSemi, StructBodyEnd, ConstSemi, Const, ConstIdent, ConstEq, Struct,
            StructBodyBegin, StructBodyEnd, ConstSemi,
        ]
    );
}

#[test]
fn test_call_call() {
    let input = "const CallCall = foo()();";
    let tokenize = tokenize(input);
    let parse = parse(&tokenize.tokens);
    assert!(parse.ok.is_ok());
    let got: Vec<(NodeKind, u32)> = parse.nodes.iter().map(|n| (n.kind, n.token.0)).collect();
    assert_eq!(
        got,
        vec![
            (Const, 0),
            (ConstIdent, 2),
            (ConstEq, 4),
            (ExprIdent(SynRef(0)), 6),
            (ExprCall, 7),
            (ExprCallEnd, 8),
            (ExprCall, 9),
            (ExprCallEnd, 10),
            (ConstSemi, 11),
        ]
    );
    assert_eq!(parse.syn_refs.next, SynRef(1));
    let labels: Vec<String> = parse.nodes.iter().map(|n| format!("{:?}", n.kind)).collect();
    assert_eq!(
        pprint(&parse, &labels),
        "├─Const\n├─ConstIdent\n├─ConstEq\n├─ExprIdent(SynRef(0))\n│ ╭─ExprCall\n├─ExprCallEnd\n\
         │ ╭─ExprCall\n├─ExprCallEnd\n├─ConstSemi\n"
    );
}

#[test]
fn test_str() {
    assert_eq!(
        kinds("const Name = \"Quinn\";"),
        vec![Const, ConstIdent, ConstEq, ExprStr, ConstSemi]
    );
}

#[test]
fn uses_get_consecutive_syntactic_references() {
    let tokenize = tokenize("fn f(x: y) { a.b(c, d) }");
    let parse = parse(&tokenize.tokens);
    assert!(parse.ok.is_ok());
    let got: Vec<NodeKind> = parse.nodes.iter().map(|n| n.kind).collect();
    assert_eq!(
        got,
        vec![
            Fn,
            FnIdent,
            FnParams,
            FnParamsIdent,
            ExprIdent(SynRef(0)),
            FnParamsEnd,
            FnBodyBegin,
            ExprIdent(SynRef(1)),
            ExprDot,
            ExprField,
            ExprCall,
            ExprIdent(SynRef(2)),
            ExprCallComma,
            ExprIdent(SynRef(3)),
            ExprCallEnd,
            FnBodyEnd,
        ]
    );
    assert_eq!(parse.syn_refs.next, SynRef(4));
}

#[test]
fn a_missing_token_is_reported() {
    let tk = tokenize("const X = ;");
    let err = parse(&tk.tokens).ok.unwrap_err();
    assert_eq!(err.actual, Some(TokenImpl::Semi));
    assert!(matches!(
        err.expected,
        Expected::OneOf(list) if list == &[
            TokenImpl::OpenBrace,
            TokenImpl::Ident,
            TokenImpl::IntLit,
            TokenImpl::Struct,
            TokenImpl::StrLit,
        ]
    ));
    let tk = tokenize("fn f( { }");
    let err = parse(&tk.tokens).ok.unwrap_err();
    assert!(matches!(err.expected, Expected::Just(TokenImpl::Ident)));
    assert_eq!(err.actual, Some(TokenImpl::OpenBrace));
}

#[test]
fn pprint_indents_between_introducers_and_terminators() {
    let tokenize = tokenize("fn f() { {x} }");
    let parse = parse(&tokenize.tokens);
    assert!(parse.ok.is_ok());
    let labels: Vec<String> = parse.nodes.iter().map(|n| format!("{:?}", n.kind)).collect();
    assert_eq!(
        pprint(&parse, &labels),
        "│ ╭─Fn\n│ ├─FnIdent\n│ │ ╭─FnParams\n│ ├─FnParamsEnd\n│ ├─FnBodyBegin\n\
         │ │ ╭─ExprBlock\n│ │ ├─ExprIdent(SynRef(0))\n│ ├─ExprBlockEnd\n├─FnBodyEnd\n"
    );
}

#[test]
fn test_builtin() {
    assert_eq!(
        kinds("const Name = @This();"),
        vec![
            Const, ConstIdent, ConstEq, BuiltinAmpersand, BuiltinIdent, ExprCall, ExprCallEnd,
            ConstSemi,
        ]
    );
}

#[test]
fn test_i32_and_type_keywords() {
    assert_eq!(
        kinds("fn Vec(T: type, len: i32) {\n    //\n}"),
        vec![
            Fn, FnIdent, FnParams, FnParamsIdent, ExprTypeKeyword, FnParamsIdent, ExprI32Keyword,
            FnParamsEnd, FnBodyBegin, FnBodyEnd,
        ]
    );
}

#[test]
fn a_builtin_needs_a_name() {
    let tk = tokenize("const Name = @1;");
    let err = parse(&tk.tokens).ok.unwrap_err();
    assert!(matches!(err.expected, Expected::Just(TokenImpl::Ident)));
    assert_eq!(err.actual, Some(TokenImpl::IntLit));
}
