use ouro::span::Utf16Char;
use ouro::token_sum_tree::{RowColDelta, TokenSourceMap, TokenSummary, CAP};
use zed_sum_tree::{Dimension, Summary};
use ouro::tokenize::{tokenize, Token, TokenImpl, Tokenize};

fn build(source: &str) -> (Tokenize, TokenSourceMap) {
    let tokenize_result = tokenize(source);
    let map = TokenSourceMap::new(&tokenize_result, source);
    (tokenize_result, map)
}

fn pos(row: u32, column: u32) -> RowColDelta<Utf16Char> {
    RowColDelta {
        row,
        column: Utf16Char::from_raw(column),
    }
}

#[test]
fn first_token_starts_at_origin() {
    let (_tokenize_result, map) = build("hello world");
    assert_eq!(map.token_to_position(Token::new(0)), pos(0, 0));
    assert_eq!(map.token_to_position(Token::new(1)), pos(0, 5));
    assert_eq!(map.token_to_position(Token::new(2)), pos(0, 6));
}

/// For every token in the source, mapping it to a position and back should return the same
/// token.
#[test]
fn round_trip_every_token() {
    let source = "foo bar\nbaz qux\n\nlast line here";
    let (tokenize_result, map) = build(source);

    for i in 0..tokenize_result.tokens.len() {
        let token = Token::new(i);
        let position = map.token_to_position(token);
        let found = map.position_to_token(position);
        assert_eq!(
            found,
            Some(token),
            "round trip failed for token {token:?} at position {position:?}"
        );
    }
}

#[test]
fn newline_advances_row_and_resets_column() {
    let source = "abc\ndef";
    let (tokenize_result, map) = build(source);

    let newline_idx = tokenize_result
        .tokens
        .iter()
        .position(|token_impl| matches!(token_impl, TokenImpl::Newline))
        .expect("expected a newline token in this source");

    let after_newline = Token::new(newline_idx + 1);
    let position = map.token_to_position(after_newline);

    assert_eq!(position.row, 1);
    assert_eq!(position.column, Utf16Char::from_raw(0));
}

/// A position sitting exactly on the boundary between two tokens resolves to the token that
/// starts there, not the one that ends there.
#[test]
fn position_at_boundary_resolves_to_later_token() {
    let source = "ab cd";
    let (_tokenize_result, map) = build(source);

    let second_token_start = map.token_to_position(Token::new(1));
    assert_eq!(
        map.position_to_token(second_token_start),
        Some(Token::new(1))
    );
}

#[test]
fn position_past_end_of_source_returns_none() {
    let (_tokenize_result, map) = build("short");
    assert_eq!(map.position_to_token(pos(1_000, 0)), None);
}

/// Force at least one seek across a chunk boundary so that the tree-level traversal gets
/// exercised, not just in-chunk math.
#[test]
fn round_trip_across_chunk_boundary() {
    let source = "word ".repeat(100);
    let (tokenize_result, map) = build(&source);
    assert!(
        tokenize_result.tokens.len() > CAP,
        "test input needs to produce more than {CAP} tokens to be meaningful"
    );

    for i in 0..tokenize_result.tokens.len() {
        let token = Token::new(i);
        let position = map.token_to_position(token);
        assert_eq!(map.position_to_token(position), Some(token));
    }
}

#[test]
fn token_past_the_last_maps_to_the_end_of_the_source() {
    let (tokenize_result, map) = build("ab\ncd");
    let end = map.token_to_position(Token::new(tokenize_result.tokens.len()));
    assert_eq!(end, pos(1, 2));
}

#[test]
fn columns_count_utf16_code_units() {
    // '😎' takes two UTF-16 code units and 'é' one.
    let (_tokenize_result, map) = build("é 😎 x");
    assert_eq!(map.token_to_position(Token::new(2)), pos(0, 2));
    assert_eq!(map.token_to_position(Token::new(4)), pos(0, 5));
}

#[test]
fn position_inside_a_token_finds_that_token() {
    let (_tokenize_result, map) = build("hello world");
    assert_eq!(map.position_to_token(pos(0, 3)), Some(Token::new(0)));
    assert_eq!(map.position_to_token(pos(0, 7)), Some(Token::new(2)));
    assert_eq!(map.position_to_token(pos(0, 11)), None);
}

#[test]
fn empty_source_has_no_tokens_at_any_position() {
    let (_tokenize_result, map) = build("");
    assert_eq!(map.position_to_token(pos(0, 0)), None);
}

#[test]
fn moves_add_up_along_a_row_and_across_rows() {
    // Along a row the columns add up; a move that crosses rows keeps its own column.
    assert_eq!(pos(2, 3).add(pos(0, 4)), pos(2, 7));
    assert_eq!(pos(2, 3).add(pos(1, 4)), pos(3, 4));
    assert_eq!(pos(2, 3).add(pos(0, 0)), pos(2, 3));
    assert_eq!(pos(0, 0).add(pos(2, 3)), pos(2, 3));
    // Grouping does not matter.
    let (a, b, c) = (pos(1, 2), pos(0, 5), pos(3, 1));
    assert_eq!(a.add(b).add(c), a.add(b.add(c)));
    let mut d = pos(4, 4);
    d.add_assign(pos(0, 1));
    assert_eq!(d, pos(4, 5));
}

#[test]
fn positions_order_by_row_then_column() {
    assert!(pos(0, 9).is_before(pos(1, 0)));
    assert!(pos(1, 2).is_before(pos(1, 3)));
    assert!(!pos(1, 3).is_before(pos(1, 3)));
    assert!(!pos(2, 0).is_before(pos(1, 7)));
}

#[test]
fn summaries_add_up_and_stop_at_the_largest_values() {
    let mut total = <TokenSummary as Summary>::zero(());
    assert_eq!(total.token_count, 0);
    assert_eq!(total.lines, pos(0, 0));
    let along = TokenSummary { token_count: 3, lines: pos(0, 4) };
    let down = TokenSummary { token_count: 2, lines: pos(2, 5) };
    <TokenSummary as Summary>::add_summary(&mut total, &along, ());
    <TokenSummary as Summary>::add_summary(&mut total, &along, ());
    assert_eq!(total.token_count, 6);
    assert_eq!(total.lines, pos(0, 8));
    <TokenSummary as Summary>::add_summary(&mut total, &down, ());
    assert_eq!(total.token_count, 8);
    assert_eq!(total.lines, pos(2, 5));

    let mut token = <Token as Dimension<TokenSummary>>::zero(());
    assert_eq!(token, Token(0));
    <Token as Dimension<TokenSummary>>::add_summary(&mut token, &down, ());
    assert_eq!(token, Token(2));
    let mut last = Token(u32::MAX - 1);
    <Token as Dimension<TokenSummary>>::add_summary(&mut last, &down, ());
    assert_eq!(last, Token(u32::MAX));

    let mut at = <RowColDelta<Utf16Char> as Dimension<TokenSummary>>::zero(());
    assert_eq!(at, pos(0, 0));
    <RowColDelta<Utf16Char> as Dimension<TokenSummary>>::add_summary(&mut at, &along, ());
    assert_eq!(at, pos(0, 4));
    let mut far = pos(7, u32::MAX - 1);
    <RowColDelta<Utf16Char> as Dimension<TokenSummary>>::add_summary(&mut far, &along, ());
    assert_eq!(far, pos(7, u32::MAX));
}
