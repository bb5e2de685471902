use ouro::span::{Byte, ByteSpan, Span, Unit, Utf16Char, Utf8Char};
use ouro::tokenize::{tokenize, TokenImpl};

/// One line per token: its kind and its span in bytes.
fn pprint_tokenize(input: &str) -> String {
    let tokenize = tokenize(input);
    let mut prev = Byte::new(0);
    let mut output = String::new();

    for (token, end) in tokenize.tokens.iter().zip(tokenize.spans.ends.iter()) {
        let span = Span { start: prev, end: *end };
        output.push_str(&format!("{:?} {} \n", token, span.debug_text()));
        prev = *end;
    }

    output
}

#[test]
fn t() {
    assert_eq!(
        pprint_tokenize("fn f(x) { 4 + 3 * x } "),
        "Fn 0..2 \nWhitespace 2..3 \nIdent 3..4 \nOpenParen 4..5 \nIdent 5..6 \nCloseParen 6..7 \n\
         Whitespace 7..8 \nOpenBrace 8..9 \nWhitespace 9..10 \nIntLit 10..11 \nWhitespace 11..12 \n\
         Plus 12..13 \nWhitespace 13..14 \nIntLit 14..15 \nWhitespace 15..16 \nStar 16..17 \n\
         Whitespace 17..18 \nIdent 18..19 \nWhitespace 19..20 \nCloseBrace 20..21 \n\
         Whitespace 21..22 \n"
    );
    assert_eq!(
        pprint_tokenize("a *= b;"),
        "Ident 0..1 \nWhitespace 1..2 \nStar 2..3 \nEq 3..4 \nWhitespace 4..5 \nIdent 5..6 \nSemi 6..7 \n"
    );
    assert_eq!(
        pprint_tokenize("a *"),
        "Ident 0..1 \nWhitespace 1..2 \nStar 2..3 \n"
    );
    assert_eq!('😎'.len_utf8(), 4);
    assert_eq!(
        pprint_tokenize("a * 😎"),
        "Ident 0..1 \nWhitespace 1..2 \nStar 2..3 \nWhitespace 3..4 \nUnrecognized 4..8 \n"
    );
    assert_eq!(
        pprint_tokenize("a 1_000_000 123 _123"),
        "Ident 0..1 \nWhitespace 1..2 \nIntLit 2..11 \nWhitespace 11..12 \nIntLit 12..15 \n\
         Whitespace 15..16 \nIdent 16..20 \n"
    );
    assert_eq!(
        pprint_tokenize("123😎"),
        "IntLit 0..3 \nUnrecognized 3..7 \n"
    );
}

#[test]
fn valid_binary_numbers() {
    assert_eq!(pprint_tokenize("0b1010"), "IntLit 0..6 \n");
    assert_eq!(pprint_tokenize("0b1010_1010"), "IntLit 0..11 \n");
    assert_eq!(pprint_tokenize("0b0"), "IntLit 0..3 \n");
    assert_eq!(pprint_tokenize("0b_0"), "IntLit 0..4 \n");
}

#[test]
fn invalid_binary_numbers() {
    assert_eq!(pprint_tokenize("0b"), "IntLit 0..2 \n");
    assert_eq!(pprint_tokenize("0b_"), "IntLit 0..3 \n");
    assert_eq!(pprint_tokenize("0b2"), "IntLit 0..3 \n");
    assert_eq!(pprint_tokenize("0b_2"), "IntLit 0..4 \n");
    assert_eq!(pprint_tokenize("0b101a"), "IntLit 0..6 \n");
}

#[test]
fn newline_terminated_strings() {
    assert_eq!(pprint_tokenize(r"\\Hello, world!"), "RawStrLit 0..15 \n");
    assert_eq!(
        pprint_tokenize(
            r"
        \\Hello, world!
        \\123 123\\
        "
        ),
        "Newline 0..1 \nWhitespace 1..9 \nRawStrLit 9..24 \nNewline 24..25 \nWhitespace 25..33 \n\
         RawStrLit 33..44 \nNewline 44..45 \nWhitespace 45..53 \n"
    );
}

#[test]
fn keywords() {
    assert_eq!(
        pprint_tokenize("let fn comptime"),
        "Let 0..3 \nWhitespace 3..4 \nFn 4..6 \nWhitespace 6..7 \nComptime 7..15 \n"
    );
    assert_eq!(
        pprint_tokenize("letter fn_ comptime_"),
        "Ident 0..6 \nWhitespace 6..7 \nIdent 7..10 \nWhitespace 10..11 \nIdent 11..20 \n"
    );
}

#[test]
fn strings_end_at_their_quote_or_at_the_end_of_the_line() {
    assert_eq!(
        pprint_tokenize(r#""a\"b" x"#),
        "StrLit 0..6 \nWhitespace 6..7 \nIdent 7..8 \n"
    );
    assert_eq!(
        pprint_tokenize("\"abc\nd"),
        "UnterminatedStrLit 0..4 \nNewline 4..5 \nIdent 5..6 \n"
    );
    assert_eq!(pprint_tokenize("\"abc"), "UnterminatedStrLit 0..4 \n");
}

#[test]
fn comments_run_to_the_end_of_the_line() {
    assert_eq!(
        pprint_tokenize("x // note\ny"),
        "Ident 0..1 \nWhitespace 1..2 \nComment 2..9 \nNewline 9..10 \nIdent 10..11 \n"
    );
}

#[test]
fn longest_symbol_wins() {
    assert_eq!(
        pprint_tokenize("a == b -> c"),
        "Ident 0..1 \nWhitespace 1..2 \nEqEq 2..4 \nWhitespace 4..5 \nIdent 5..6 \n\
         Whitespace 6..7 \nRArrow 7..9 \nWhitespace 9..10 \nIdent 10..11 \n"
    );
    assert_eq!(
        pprint_tokenize("@i32 type!"),
        "Ampersand 0..1 \nI32Keyword 1..4 \nWhitespace 4..5 \nTypeKeyword 5..9 \nBang 9..10 \n"
    );
}

#[test]
fn non_ascii_letters_are_part_of_identifiers() {
    // 'é' is a word character; '😎' is not.
    assert_eq!(pprint_tokenize("café"), "Ident 0..5 \n");
    let tk = tokenize("é😎");
    assert_eq!(tk.tokens, vec![TokenImpl::Ident, TokenImpl::Unrecognized]);
}

#[test]
fn tokens_cover_the_input() {
    let input = "pub const X = struct { fn f(a: i32) { a } };\n";
    let tk = tokenize(input);
    assert_eq!(tk.tokens.len(), tk.spans.ends.len());
    assert_eq!(tk.spans.ends.last().unwrap().0 as usize, input.len());
    for pair in tk.spans.ends.windows(2) {
        assert!(pair[0].0 < pair[1].0);
    }
    assert!(tokenize("").tokens.is_empty());
}

#[test]
fn spans_print_and_slice() {
    let span: ByteSpan = Span { start: Byte(3), end: Byte(10) };
    assert_eq!(span.debug_text(), "3..10");
    let source = "let café = 1;";
    let span: ByteSpan = Span { start: Byte(4), end: Byte(9) };
    assert_eq!(span.lookup(source), "café");
    let chars = Span { start: Utf8Char(0), end: Utf8Char(12) };
    assert_eq!(chars.debug_text(), "0..12");
    let units = Span { start: Utf16Char(7), end: Utf16Char(7) };
    assert_eq!(units.debug_text(), "7..7");
}

#[test]
fn lengths_in_each_unit() {
    let s = "é😎a";
    assert_eq!(Byte::len(s), Byte(7));
    assert_eq!(Utf8Char::len(s), Utf8Char(3));
    assert_eq!(Utf16Char::len(s), Utf16Char(4));
    assert_eq!(Byte(2).add(Byte(3)), Byte(5));
}
