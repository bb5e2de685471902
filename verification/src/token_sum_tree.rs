//! Maps between tokens and (row, column) positions in the source, in UTF-16 code units.
//!
//! Each token moves the position: a newline starts the next row, any other token moves along
//! the row by its length. Tokens are kept in chunks of at most [`CAP`] in a sum tree, which finds
//! the chunk of a token or of a position from the summaries of the chunks; the rest of the way
//! is a scan inside that chunk.
use crate::index::{Idx, MAX_INDEX};
use crate::span::{
    char_utf16_width, char_utf8_width, lemma_utf16_len_take, lemma_utf8_len_take, utf16_len,
    utf8_len, Byte, Unit, Utf16Char,
};
use crate::tokenize::{
    span, span_text, spans_fit, spans_nonempty, spec_span, Token, TokenImpl, Tokenize,
};
use arrayvec::ArrayVec;
use vstd::prelude::*;
use zed_sum_tree::{Bias, Dimension, Dimensions, Item, SumTree, Summary};
use vstd::string::StringSliceAdditionalSpecFns;
use vstd::utf8::*;

verus! {

/// A move in the source: rows down, then the column reached (when rows were crossed) or
/// columns along the row (when not). Also a position: the move from the start of the source.
#[derive(Copy, Clone, Debug, Default, PartialEq, Eq, Structural, PartialOrd, Ord)]
pub struct RowColDelta<U> {
    // Note: row must come first to make it have higher precedence in derived Ord impl.
    pub row: u32,
    pub column: U,
}

/// A move as a pair of numbers: (rows, column).
pub type Move = (nat, nat);

/// The numbers of a move.
pub open spec fn rc<U: Unit>(d: RowColDelta<U>) -> Move {
    (d.row as nat, d.column.spec_index())
}

/// Moving by `a` and then by `b`: when `b` crosses rows it ends at its own column, otherwise
/// the columns add up.
pub open spec fn plus(a: Move, b: Move) -> Move {
    if b.0 == 0 {
        (a.0, a.1 + b.1)
    } else {
        ((a.0 + b.0) as nat, b.1)
    }
}

/// The move that goes nowhere.
pub open spec fn stay() -> Move {
    (0, 0)
}

/// Position `a` comes before position `b`: on an earlier row, or earlier on the same row.
pub open spec fn before(a: Move, b: Move) -> bool {
    a.0 < b.0 || (a.0 == b.0 && a.1 < b.1)
}

/// `a + b` stays within the range of the numbers that hold it.
pub open spec fn add_fits(a: Move, b: Move) -> bool {
    if b.0 == 0 {
        a.1 + b.1 <= MAX_INDEX
    } else {
        a.0 + b.0 <= u32::MAX
    }
}

impl<U: Unit> RowColDelta<U> {
    /// Moves by `self` and then by `rhs`.
    pub fn add(self, rhs: Self) -> (r: Self)
        requires
            add_fits(rc(self), rc(rhs)),
        ensures
            rc(r) == plus(rc(self), rc(rhs)),
    {
        if rhs.row == 0 {
            RowColDelta { row: self.row, column: self.column.add(rhs.column) }
        } else {
            RowColDelta { row: self.row + rhs.row, column: rhs.column }
        }
    }

    /// Moves `self` further by `rhs`.
    pub fn add_assign(&mut self, rhs: Self)
        requires
            add_fits(rc(*old(self)), rc(rhs)),
        ensures
            rc(*final(self)) == plus(rc(*old(self)), rc(rhs)),
    {
        *self = self.add(rhs);
    }

    /// Whether position `self` comes before position `other`.
    pub fn is_before(self, other: Self) -> (r: bool)
        ensures
            r == before(rc(self), rc(other)),
    {
        self.row < other.row || (self.row == other.row && self.column.index()
            < other.column.index())
    }
}

/// A move is determined by its numbers, so what the laws below state of the numbers holds of
/// the moves themselves.
pub proof fn lemma_rc_determines<U: Unit>(x: RowColDelta<U>, y: RowColDelta<U>)
    requires
        rc(x) == rc(y),
    ensures
        x == y,
{
    U::lemma_index_determines(x.column, y.column);
}

/// Moves compose in any grouping.
pub proof fn lemma_plus_assoc(a: Move, b: Move, c: Move)
    ensures
        plus(plus(a, b), c) == plus(a, plus(b, c)),
{
}

/// Going nowhere before or after a move changes nothing.
pub proof fn lemma_plus_stay(a: Move)
    ensures
        plus(a, stay()) == a,
        plus(stay(), a) == a,
{
}

/// A move that goes somewhere ends at a later position than it starts from.
pub proof fn lemma_plus_advances(a: Move, b: Move)
    requires
        b != stay(),
    ensures
        before(a, plus(a, b)),
{
}

/// A newline's move goes to the start of the next row.
pub proof fn lemma_newline_starts_row(a: Move)
    ensures
        plus(a, (1, 0)) == ((a.0 + 1) as nat, 0nat),
{
}

/// Positions are strictly ordered: no position comes before itself, and the order is
/// transitive and total.
pub proof fn lemma_before_order(a: Move, b: Move, c: Move)
    ensures
        !before(a, a),
        before(a, b) && before(b, c) ==> before(a, c),
        a == b || before(a, b) || before(b, a),
{
}

} // verus!

verus! {

/// The position reached after the first `t` moves of `ds`, from the start of the source.
pub open spec fn position_at(ds: Seq<Move>, t: int) -> Move
    decreases t,
{
    if t <= 0 {
        stay()
    } else {
        plus(position_at(ds, t - 1), ds[t - 1])
    }
}

/// All the moves of `ds`, one after the other.
pub open spec fn summary_of(ds: Seq<Move>) -> Move {
    position_at(ds, ds.len() as int)
}

/// The first token from `t` on that ends after position `p`.
pub open spec fn token_at_from(ds: Seq<Move>, p: Move, t: int) -> Option<nat>
    decreases ds.len() - t,
{
    if t < 0 || t >= ds.len() {
        None
    } else if before(p, position_at(ds, t + 1)) {
        Some(t as nat)
    } else {
        token_at_from(ds, p, t + 1)
    }
}

/// The token at position `p`: the first one that ends after it, if any does.
pub open spec fn token_at(ds: Seq<Move>, p: Move) -> Option<nat> {
    token_at_from(ds, p, 0)
}

/// Rows and columns a move crosses, counted together.
pub open spec fn weight(m: Move) -> nat {
    m.0 + m.1
}

/// The weights of all moves of `ds`, added up.
pub open spec fn total_weight(ds: Seq<Move>) -> nat
    decreases ds.len(),
{
    if ds.len() == 0 {
        0
    } else {
        total_weight(ds.drop_last()) + weight(ds.last())
    }
}

/// Every move of `ds` goes somewhere.
pub open spec fn all_advance(ds: Seq<Move>) -> bool {
    forall|k: int| 0 <= k < ds.len() ==> #[trigger] ds[k] != stay()
}

proof fn lemma_position_prefix(a: Seq<Move>, b: Seq<Move>, t: int)
    requires
        0 <= t <= a.len(),
        t <= b.len(),
        forall|k: int| 0 <= k < t ==> a[k] == b[k],
    ensures
        position_at(a, t) == position_at(b, t),
    decreases t,
{
    if t > 0 {
        lemma_position_prefix(a, b, t - 1);
    }
}

/// The position after `k + m` moves is the position after `k` moves followed by the next `m`
/// moves together.
pub proof fn lemma_position_split(ds: Seq<Move>, k: int, m: int)
    requires
        0 <= k,
        0 <= m,
        k + m <= ds.len(),
    ensures
        position_at(ds, k + m) == plus(position_at(ds, k), summary_of(ds.subrange(k, k + m))),
    decreases m,
{
    let sub = ds.subrange(k, k + m);
    if m == 0 {
        lemma_plus_stay(position_at(ds, k));
    } else {
        lemma_position_split(ds, k, m - 1);
        let sub1 = ds.subrange(k, k + m - 1);
        lemma_position_prefix(sub, sub1, m - 1);
        lemma_plus_assoc(position_at(ds, k), summary_of(sub1), ds[k + m - 1]);
    }
}

proof fn lemma_plus_weight(a: Move, b: Move)
    ensures
        weight(plus(a, b)) <= weight(a) + weight(b),
{
}

/// The position after `t` moves is no farther than their weights allow.
pub proof fn lemma_position_weight(ds: Seq<Move>, t: int)
    requires
        0 <= t <= ds.len(),
    ensures
        weight(position_at(ds, t)) <= total_weight(ds.take(t)),
    decreases t,
{
    if t > 0 {
        lemma_position_weight(ds, t - 1);
        assert(ds.take(t).drop_last() =~= ds.take(t - 1));
        lemma_plus_weight(position_at(ds, t - 1), ds[t - 1]);
    }
}

/// A prefix weighs no more than the whole.
pub proof fn lemma_weight_prefix(ds: Seq<Move>, t: int)
    requires
        0 <= t <= ds.len(),
    ensures
        total_weight(ds.take(t)) <= total_weight(ds),
    decreases ds.len() - t,
{
    if t < ds.len() {
        lemma_weight_prefix(ds, t + 1);
        assert(ds.take(t + 1).drop_last() =~= ds.take(t));
    } else {
        assert(ds.take(t) =~= ds);
    }
}

/// When every move goes somewhere, later positions come after earlier ones.
pub proof fn lemma_position_increases(ds: Seq<Move>, t1: int, t2: int)
    requires
        all_advance(ds),
        0 <= t1 < t2 <= ds.len(),
    ensures
        before(position_at(ds, t1), position_at(ds, t2)),
    decreases t2 - t1,
{
    lemma_plus_advances(position_at(ds, t2 - 1), ds[t2 - 1]);
    if t1 < t2 - 1 {
        lemma_position_increases(ds, t1, t2 - 1);
    }
}

/// The first token from `t` that ends after `p` is `u`, when `u` is one and none between `t`
/// and `u` is.
proof fn lemma_token_at_from(ds: Seq<Move>, p: Move, t: int, u: int)
    requires
        0 <= t <= u <= ds.len(),
        forall|v: int| t <= v < u ==> !before(p, #[trigger] position_at(ds, v + 1)),
    ensures
        u < ds.len() && before(p, position_at(ds, u + 1)) ==> token_at_from(ds, p, t) == Some(
            u as nat,
        ),
        u == ds.len() ==> token_at_from(ds, p, t) is None,
    decreases u - t,
{
    if t < u {
        assert(!before(p, position_at(ds, t + 1)));
        lemma_token_at_from(ds, p, t + 1, u);
    }
}

/// Mapping a token to where it starts and back gives the same token: it is the first one that
/// ends after its own start.
pub proof fn lemma_round_trip(ds: Seq<Move>, t: int)
    requires
        all_advance(ds),
        0 <= t < ds.len(),
    ensures
        token_at(ds, position_at(ds, t)) == Some(t as nat),
{
    assert forall|v: int| 0 <= v < t implies !before(position_at(ds, t), #[trigger] position_at(ds, v + 1)) by {
        if v + 1 < t {
            lemma_position_increases(ds, v + 1, t);
        }
        lemma_before_order(position_at(ds, t), position_at(ds, v + 1), position_at(ds, t));
    }
    lemma_plus_advances(position_at(ds, t), ds[t]);
    lemma_token_at_from(ds, position_at(ds, t), 0, t);
}

/// No token is at a position that is not before where the last token ends.
pub proof fn lemma_past_end(ds: Seq<Move>, p: Move)
    requires
        all_advance(ds),
        !before(p, summary_of(ds)),
    ensures
        token_at(ds, p) is None,
{
    assert forall|v: int| 0 <= v < ds.len() implies !before(p, #[trigger] position_at(ds, v + 1)) by {
        if v + 1 < ds.len() {
            lemma_position_increases(ds, v + 1, ds.len() as int);
        }
        lemma_before_order(p, position_at(ds, v + 1), summary_of(ds));
    }
    lemma_token_at_from(ds, p, 0, ds.len() as int);
}

} // verus!

verus! {

/// `a + b` stopped at `max`.
pub open spec fn sat_sum(a: nat, b: nat, max: nat) -> nat {
    if a + b <= max {
        a + b
    } else {
        max
    }
}

/// Moving by `a` and then by `b`, each number stopping at the largest value that holds it.
pub open spec fn plus_saturating(a: Move, b: Move) -> Move {
    if b.0 == 0 {
        (a.0, sat_sum(a.1, b.1, MAX_INDEX as nat))
    } else {
        (sat_sum(a.0, b.0, u32::MAX as nat), b.1)
    }
}

/// All the moves of `ds` one after the other, each step stopping where a number would not fit.
pub open spec fn saturating_summary(ds: Seq<Move>) -> Move
    decreases ds.len(),
{
    if ds.len() == 0 {
        stay()
    } else {
        plus_saturating(saturating_summary(ds.drop_last()), ds.last())
    }
}

/// Where the moves add up within range, stopping at the largest values changes nothing.
pub proof fn lemma_saturating_summary_exact(ds: Seq<Move>)
    requires
        total_weight(ds) <= MAX_INDEX,
    ensures
        saturating_summary(ds) == summary_of(ds),
{
    lemma_saturating_prefix(ds, ds.len() as int);
    assert(ds.take(ds.len() as int) =~= ds);
}

proof fn lemma_saturating_prefix(ds: Seq<Move>, k: int)
    requires
        0 <= k <= ds.len(),
        total_weight(ds) <= MAX_INDEX,
    ensures
        saturating_summary(ds.take(k)) == position_at(ds, k),
    decreases k,
{
    if k > 0 {
        lemma_saturating_prefix(ds, k - 1);
        assert(ds.take(k).drop_last() =~= ds.take(k - 1));
        lemma_position_weight(ds, k - 1);
        lemma_weight_prefix(ds, k);
        assert(ds.take(k).drop_last() =~= ds.take(k - 1));
    }
}

impl<U: Unit> RowColDelta<U> {
    /// Moves by `self` and then by `rhs`, stopping at the largest row or column where a sum
    /// would not fit.
    fn add_saturating(self, rhs: Self) -> (r: Self)
        ensures
            rc(r) == plus_saturating(rc(self), rc(rhs)),
            add_fits(rc(self), rc(rhs)) ==> rc(r) == plus(rc(self), rc(rhs)),
    {
        if rhs.row == 0 {
            let sum = self.column.index() as u64 + rhs.column.index() as u64;
            let column = if sum <= MAX_INDEX as u64 {
                U::from_usize(sum as usize)
            } else {
                U::from_usize(MAX_INDEX)
            };
            RowColDelta { row: self.row, column }
        } else {
            RowColDelta { row: self.row.saturating_add(rhs.row), column: rhs.column }
        }
    }
}

/// The most tokens a chunk holds.
pub const CAP: usize = 64;

/// What a run of tokens adds up to: how many there are, and the move across them.
#[derive(Copy, Clone, Debug, Default)]
pub struct TokenSummary {
    pub token_count: u32,
    pub lines: RowColDelta<Utf16Char>,
}

/// The tree adds summaries up with these. The sums saturate where a plain sum would overflow;
/// within the limits that a [`TokenSourceMap`] keeps ([`moves_fit`]) they never do, and are
/// exact.
impl Summary for TokenSummary {
    type Context<'a> = ();

    fn zero<'a>(_cx: ()) -> Self
        returns
            (TokenSummary { token_count: 0, lines: RowColDelta { row: 0, column: Utf16Char(0) } }),
    {
        TokenSummary { token_count: 0, lines: RowColDelta { row: 0, column: Utf16Char(0) } }
    }

    fn add_summary<'a>(&mut self, summary: &Self, _cx: ())
        ensures
            final(self).token_count == sat_sum(
                old(self).token_count as nat,
                summary.token_count as nat,
                u32::MAX as nat,
            ),
            rc(final(self).lines) == plus_saturating(rc(old(self).lines), rc(summary.lines)),
    {
        self.token_count = self.token_count.saturating_add(summary.token_count);
        self.lines = self.lines.add_saturating(summary.lines);
    }
}

/// A run of at most [`CAP`] tokens, each with its move.
#[derive(Clone, Debug)]
pub struct Chunk {
    // Each one corresponds with a token.
    row_col_deltas: ArrayVec<RowColDelta<Utf16Char>, CAP>,
}

/// A chunk's summary: how many tokens it holds, and all their moves one after the other.
impl Item for Chunk {
    type Summary = TokenSummary;

    fn summary(&self, _cx: ()) -> (r: TokenSummary)
        ensures
            r.token_count == sat_sum(chunk_moves(*self).len(), 0, u32::MAX as nat),
            rc(r.lines) == saturating_summary(chunk_moves(*self)),
    {
        let deltas = deltas_slice(&self.row_col_deltas);
        let ghost ms = chunk_moves(*self);
        let mut summary = TokenSummary { token_count: 0, lines: RowColDelta { row: 0, column: Utf16Char(0) } };
        let mut k: usize = 0;
        proof {
            assert(ms.take(0) =~= Seq::<Move>::empty());
        }
        while k < deltas.len()
            invariant
                k <= deltas@.len(),
                ms == moves(deltas@),
                summary.token_count == 0,
                rc(summary.lines) == saturating_summary(ms.take(k as int)),
            decreases deltas@.len() - k,
        {
            proof {
                assert(ms.take(k + 1).drop_last() =~= ms.take(k as int));
                assert(ms.take(k + 1).last() == rc(deltas@[k as int]));
            }
            summary.lines = summary.lines.add_saturating(deltas[k]);
            k = k + 1;
        }
        proof {
            assert(ms.take(k as int) =~= ms);
        }
        summary.token_count = summary.token_count.saturating_add(
            if deltas.len() <= u32::MAX as usize {
                deltas.len() as u32
            } else {
                u32::MAX
            },
        );
        summary
    }
}

/// Seeking by token counts the tokens before.
impl<'a> Dimension<'a, TokenSummary> for Token {
    fn zero(_cx: ()) -> (r: Self)
        ensures
            r.0 == 0,
    {
        Token(0)
    }

    fn add_summary(&mut self, summary: &'a TokenSummary, _cx: ())
        ensures
            final(self).0 == sat_sum(old(self).0 as nat, summary.token_count as nat, u32::MAX as nat),
    {
        self.0 = self.0.saturating_add(summary.token_count);
    }
}

/// Seeking by position adds up the moves before.
impl<'a> Dimension<'a, TokenSummary> for RowColDelta<Utf16Char> {
    fn zero(_cx: ()) -> (r: Self)
        ensures
            rc(r) == stay(),
    {
        RowColDelta { row: 0, column: Utf16Char(0) }
    }

    fn add_summary(&mut self, summary: &'a TokenSummary, _cx: ())
        ensures
            rc(*final(self)) == plus_saturating(rc(*old(self)), rc(summary.lines)),
    {
        *self = self.add_saturating(summary.lines);
    }
}

/// `arrayvec::ArrayVec`, an opaque type to Verus.
#[verifier::external_type_specification]
#[verifier::external_body]
#[verifier::reject_recursive_types(T)]
pub struct ExArrayVec<T, const N: usize>(ArrayVec<T, N>);

/// A `SumTree` of chunks. Declaring `SumTree` itself for Verus fails on its bound by an outside
/// trait, so the tree is held here, opaque, and read through [`chunks_of`] and the wrappers
/// below.
#[verifier::external_body]
#[derive(Debug)]
pub struct ChunkTree {
    tree: SumTree<Chunk>,
}

/// `ArrayVec::clone`, which the derived `Clone` of [`Chunk`] calls; nothing is stated of the
/// copy.
pub assume_specification<T: Clone, const N: usize>[<ArrayVec<T, N> as Clone>::clone](
    v: &ArrayVec<T, N>,
) -> ArrayVec<T, N>;

/// The moves an `ArrayVec` holds, in order.
pub uninterp spec fn deltas_of(v: ArrayVec<RowColDelta<Utf16Char>, CAP>) -> Seq<RowColDelta<Utf16Char>>;

/// The chunks a `SumTree` holds, in order.
pub uninterp spec fn chunks_of(t: ChunkTree) -> Seq<Chunk>;

/// `ArrayVec::new`: an empty vector.
#[verifier::external_body]
fn new_deltas() -> (r: ArrayVec<RowColDelta<Utf16Char>, CAP>)
    ensures
        deltas_of(r) == Seq::<RowColDelta<Utf16Char>>::empty(),
{
    ArrayVec::new()
}

/// `ArrayVec::push`: appends `d` at the end. It panics when the vector is full, which the
/// `requires` leaves out.
#[verifier::external_body]
fn push_delta(v: &mut ArrayVec<RowColDelta<Utf16Char>, CAP>, d: RowColDelta<Utf16Char>)
    requires
        deltas_of(*old(v)).len() < CAP,
    ensures
        deltas_of(*final(v)) == deltas_of(*old(v)).push(d),
{
    v.push(d)
}

/// `ArrayVec::as_slice`: the elements, in order.
#[verifier::external_body]
fn deltas_slice(v: &ArrayVec<RowColDelta<Utf16Char>, CAP>) -> (r: &[RowColDelta<Utf16Char>])
    ensures
        r@ == deltas_of(*v),
{
    v.as_slice()
}

} // verus!

verus! {

/// The moves of `ds`, as numbers.
pub open spec fn moves(ds: Seq<RowColDelta<Utf16Char>>) -> Seq<Move> {
    ds.map_values(|d: RowColDelta<Utf16Char>| rc(d))
}

/// The moves of the tokens of a chunk.
pub closed spec fn chunk_moves(ch: Chunk) -> Seq<Move> {
    moves(deltas_of(ch.row_col_deltas))
}

/// The moves of all tokens of `cs`, chunk after chunk.
pub open spec fn all_moves(cs: Seq<Chunk>) -> Seq<Move>
    decreases cs.len(),
{
    if cs.len() == 0 {
        Seq::empty()
    } else {
        all_moves(cs.drop_last()) + chunk_moves(cs.last())
    }
}

/// The number of tokens in the first `c` chunks.
pub open spec fn tokens_before(cs: Seq<Chunk>, c: int) -> int {
    all_moves(cs.take(c)).len() as int
}

/// The first chunk from `c` on that reaches token `t`: among the chunks before it and itself
/// there are at least `t` tokens. `cs.len()` when none does.
pub open spec fn chunk_reaching_from(cs: Seq<Chunk>, t: int, c: int) -> int
    decreases cs.len() - c,
{
    if c < 0 || c >= cs.len() {
        cs.len() as int
    } else if t <= tokens_before(cs, c + 1) {
        c
    } else {
        chunk_reaching_from(cs, t, c + 1)
    }
}

/// The first chunk from `c` on that ends after position `p`; `cs.len()` when none does.
pub open spec fn chunk_past_from(cs: Seq<Chunk>, p: Move, c: int) -> int
    decreases cs.len() - c,
{
    if c < 0 || c >= cs.len() {
        cs.len() as int
    } else if before(p, position_at(all_moves(cs), tokens_before(cs, c + 1))) {
        c
    } else {
        chunk_past_from(cs, p, c + 1)
    }
}

/// The tokens' moves in `cs` all go somewhere, and add up within the numbers that hold a token
/// count or a position.
pub open spec fn moves_fit(cs: Seq<Chunk>) -> bool {
    &&& all_advance(all_moves(cs))
    &&& total_weight(all_moves(cs)) <= MAX_INDEX
    &&& all_moves(cs).len() < MAX_INDEX
}

/// `SumTree::from_iter`: a tree that holds `chunks`, in order.
#[verifier::external_body]
fn tree_from_chunks(chunks: Vec<Chunk>) -> (r: ChunkTree)
    ensures
        chunks_of(r) == chunks@,
{
    ChunkTree { tree: SumTree::from_iter(chunks, ()) }
}

/// `Cursor::seek` by token count with `Bias::Left` on a cursor from `SumTree::cursor`, then
/// `Cursor::start` and `Cursor::item`: the seek stops at the first chunk that reaches `token`.
/// The start is what the chunks before it add up to (in tokens, then as a position, each one
/// summed with the `Dimension` impls above), and the item is that chunk, if there is one. The
/// sums are exact because `moves_fit` keeps them within range; the positions grow from chunk
/// to chunk, so that skipping whole subtrees finds the same chunk as going item by item.
#[verifier::external_body]
fn seek_token<'a>(tree: &'a ChunkTree, token: Token) -> (r: (Token, RowColDelta<Utf16Char>, Option<&'a Chunk>))
    requires
        moves_fit(chunks_of(*tree)),
    ensures
        r.0.0 == tokens_before(chunks_of(*tree), chunk_reaching_from(chunks_of(*tree), token.0 as int, 0)),
        rc(r.1) == position_at(
            all_moves(chunks_of(*tree)),
            tokens_before(chunks_of(*tree), chunk_reaching_from(chunks_of(*tree), token.0 as int, 0)),
        ),
        r.2 is Some <==> chunk_reaching_from(chunks_of(*tree), token.0 as int, 0) < chunks_of(
            *tree,
        ).len(),
        r.2 is Some ==> *r.2->0 == chunks_of(*tree)[chunk_reaching_from(
            chunks_of(*tree),
            token.0 as int,
            0,
        )],
{
    let mut cursor = tree.tree.cursor::<Dimensions<Token, RowColDelta<Utf16Char>>>(());
    cursor.seek(&token, Bias::Left);
    let &Dimensions(start_token, delta, ()) = cursor.start();
    (start_token, delta, cursor.item())
}

/// `Cursor::seek` by position with `Bias::Right` on a cursor from `SumTree::cursor`, then
/// `Cursor::start` and `Cursor::item`: the seek stops at the first chunk that ends after
/// `position`. The start is what the chunks before it add up to (as a position, then in
/// tokens), and the item is that chunk, if there is one; exact for the same reasons as
/// [`seek_token`].
#[verifier::external_body]
fn seek_position<'a>(tree: &'a ChunkTree, position: RowColDelta<Utf16Char>) -> (r: (RowColDelta<Utf16Char>, Token, Option<&'a Chunk>))
    requires
        moves_fit(chunks_of(*tree)),
    ensures
        rc(r.0) == position_at(
            all_moves(chunks_of(*tree)),
            tokens_before(chunks_of(*tree), chunk_past_from(chunks_of(*tree), rc(position), 0)),
        ),
        r.1.0 == tokens_before(chunks_of(*tree), chunk_past_from(chunks_of(*tree), rc(position), 0)),
        r.2 is Some <==> chunk_past_from(chunks_of(*tree), rc(position), 0) < chunks_of(
            *tree,
        ).len(),
        r.2 is Some ==> *r.2->0 == chunks_of(*tree)[chunk_past_from(
            chunks_of(*tree),
            rc(position),
            0,
        )],
{
    let mut cursor = tree.tree.cursor::<Dimensions<RowColDelta<Utf16Char>, Token>>(());
    cursor.seek(&position, Bias::Right);
    let &Dimensions(start, token, ()) = cursor.start();
    (start, token, cursor.item())
}

/// Hands out the items of a list in runs of `CAP`, the last run holding what is left.
pub struct ArrayVecChunks<T, const CAP: usize> {
    items: Vec<T>,
    pos: usize,
}

impl<T: Copy, const CAP: usize> ArrayVecChunks<T, CAP> {
    /// The items handed out so far are the first `pos`.
    pub closed spec fn handed_out(&self) -> nat {
        self.pos as nat
    }

    /// All the items.
    pub closed spec fn all_items(&self) -> Seq<T> {
        self.items@
    }

    pub fn new(iter: Vec<T>) -> (r: Self)
        ensures
            r.all_items() == iter@,
            r.handed_out() == 0,
    {
        ArrayVecChunks { items: iter, pos: 0 }
    }

    /// The next run of at most `CAP` items, or `None` when all were handed out.
    pub fn next(&mut self) -> (r: Option<Vec<T>>)
        requires
            old(self).handed_out() <= old(self).all_items().len(),
        ensures
            final(self).all_items() == old(self).all_items(),
            final(self).handed_out() <= final(self).all_items().len(),
            old(self).handed_out() == old(self).all_items().len() || CAP == 0 ==> r is None
                && final(self).handed_out() == old(self).handed_out(),
            old(self).handed_out() < old(self).all_items().len() && CAP > 0 ==> {
                let end: int = if old(self).handed_out() + CAP <= old(self).all_items().len() {
                    old(self).handed_out() + CAP
                } else {
                    old(self).all_items().len() as int
                };
                &&& r is Some
                &&& r->0@ == old(self).all_items().subrange(old(self).handed_out() as int, end)
                &&& final(self).handed_out() == end
            },
    {
        let mut array_vec: Vec<T> = Vec::new();
        let start = self.pos;
        while self.pos < self.items.len() && array_vec.len() < CAP
            invariant
                start <= self.pos <= self.items@.len(),
                self.pos - start <= CAP,
                array_vec@ == self.items@.subrange(start as int, self.pos as int),
                self.items@ == old(self).items@,
                start == old(self).pos,
            decreases self.items@.len() - self.pos,
        {
            array_vec.push(self.items[self.pos]);
            self.pos = self.pos + 1;
            assert(array_vec@ =~= self.items@.subrange(start as int, self.pos as int));
        }
        if array_vec.len() == 0 {
            return None;
        }
        Some(array_vec)
    }
}

} // verus!

verus! {

/// A string takes no more UTF-16 code units than UTF-8 bytes.
pub proof fn lemma_utf16_le_utf8(cs: Seq<char>, k: int)
    requires
        0 <= k <= cs.len(),
    ensures
        utf16_len(cs.take(k)) <= utf8_len(cs.take(k)),
        k > 0 ==> utf16_len(cs.take(k)) >= 1,
    decreases k,
{
    if k > 0 {
        lemma_utf16_le_utf8(cs, k - 1);
        lemma_utf16_len_take(cs, k - 1);
        lemma_utf8_len_take(cs, k - 1);
    } else {
        assert(cs.take(0) =~= Seq::<char>::empty());
        assert(encode_utf8(Seq::<char>::empty()) =~= Seq::<u8>::empty());
    }
}

/// The move of token `k`: a newline starts the next row; any other token moves along its row
/// by its length in UTF-16 code units.
pub open spec fn token_move(tokens: Seq<TokenImpl>, ends: Seq<Byte>, bytes: Seq<u8>, k: int) -> Move {
    if tokens[k] == TokenImpl::Newline {
        (1, 0)
    } else {
        (0, utf16_len(decode_utf8(span_text(k, ends, bytes))))
    }
}

/// The moves of all tokens.
pub open spec fn token_moves(tokens: Seq<TokenImpl>, ends: Seq<Byte>, bytes: Seq<u8>) -> Seq<Move> {
    Seq::new(tokens.len(), |k: int| token_move(tokens, ends, bytes, k))
}

/// Positions never go back.
proof fn lemma_position_monotone(ds: Seq<Move>, t1: int, t2: int)
    requires
        all_advance(ds),
        0 <= t1 <= t2 <= ds.len(),
    ensures
        position_at(ds, t1) == position_at(ds, t2) || before(position_at(ds, t1), position_at(ds, t2)),
{
    if t1 < t2 {
        lemma_position_increases(ds, t1, t2);
    }
}

/// Moving step by step from the position after `a` moves stays within the numbers that hold a
/// position.
proof fn lemma_step_fits(ds: Seq<Move>, j: int)
    requires
        0 <= j < ds.len(),
        total_weight(ds) <= MAX_INDEX,
    ensures
        add_fits(position_at(ds, j), ds[j]),
{
    lemma_position_weight(ds, j);
    lemma_weight_prefix(ds, j + 1);
    assert(ds.take(j + 1).drop_last() =~= ds.take(j));
}

} // verus!

verus! {

proof fn lemma_all_moves_step(cs: Seq<Chunk>, c: int)
    requires
        0 <= c < cs.len(),
    ensures
        all_moves(cs.take(c + 1)) == all_moves(cs.take(c)) + chunk_moves(cs[c]),
        tokens_before(cs, c + 1) == tokens_before(cs, c) + chunk_moves(cs[c]).len(),
{
    assert(cs.take(c + 1).drop_last() =~= cs.take(c));
}

/// The moves of the first `c` chunks come first among the moves of the first `d`.
proof fn lemma_all_moves_prefix(cs: Seq<Chunk>, c: int, d: int)
    requires
        0 <= c <= d <= cs.len(),
    ensures
        tokens_before(cs, c) <= tokens_before(cs, d),
        all_moves(cs.take(d)).take(tokens_before(cs, c)) == all_moves(cs.take(c)),
    decreases d - c,
{
    if c == d {
        assert(all_moves(cs.take(d)).take(tokens_before(cs, c)) =~= all_moves(cs.take(c)));
    } else {
        lemma_all_moves_prefix(cs, c, d - 1);
        lemma_all_moves_step(cs, d - 1);
        assert(all_moves(cs.take(d)).take(tokens_before(cs, c)) =~= all_moves(cs.take(d - 1)).take(
            tokens_before(cs, c),
        ));
    }
}

/// Token `tokens_before(cs, c) + k` is the `k`-th of chunk `c`.
proof fn lemma_all_moves_index(cs: Seq<Chunk>, c: int, k: int)
    requires
        0 <= c < cs.len(),
        0 <= k < chunk_moves(cs[c]).len(),
    ensures
        tokens_before(cs, c) + k < all_moves(cs).len(),
        tokens_before(cs, c + 1) <= all_moves(cs).len(),
        all_moves(cs)[tokens_before(cs, c) + k] == chunk_moves(cs[c])[k],
{
    lemma_all_moves_step(cs, c);
    lemma_all_moves_prefix(cs, c + 1, cs.len() as int);
    assert(cs.take(cs.len() as int) =~= cs);
    let whole = all_moves(cs);
    assert(whole.take(tokens_before(cs, c + 1))[tokens_before(cs, c) + k] == whole[tokens_before(
        cs,
        c,
    ) + k]);
}

proof fn lemma_tokens_total(cs: Seq<Chunk>)
    ensures
        tokens_before(cs, cs.len() as int) == all_moves(cs).len(),
        tokens_before(cs, 0) == 0,
{
    assert(cs.take(cs.len() as int) =~= cs);
    assert(cs.take(0) =~= Seq::<Chunk>::empty());
}

proof fn lemma_chunk_reaching(cs: Seq<Chunk>, t: int, c: int)
    requires
        0 <= c <= cs.len(),
    ensures
        c <= chunk_reaching_from(cs, t, c) <= cs.len(),
        chunk_reaching_from(cs, t, c) < cs.len() ==> t <= tokens_before(
            cs,
            chunk_reaching_from(cs, t, c) + 1,
        ),
        forall|d: int|
            c <= d < chunk_reaching_from(cs, t, c) ==> t > #[trigger] tokens_before(cs, d + 1),
    decreases cs.len() - c,
{
    if c < cs.len() && t > tokens_before(cs, c + 1) {
        lemma_chunk_reaching(cs, t, c + 1);
    }
}

proof fn lemma_chunk_past(cs: Seq<Chunk>, p: Move, c: int)
    requires
        0 <= c <= cs.len(),
    ensures
        c <= chunk_past_from(cs, p, c) <= cs.len(),
        chunk_past_from(cs, p, c) < cs.len() ==> before(
            p,
            position_at(all_moves(cs), tokens_before(cs, chunk_past_from(cs, p, c) + 1)),
        ),
        forall|d: int|
            c <= d < chunk_past_from(cs, p, c) ==> !before(
                p,
                #[trigger] position_at(all_moves(cs), tokens_before(cs, d + 1)),
            ),
    decreases cs.len() - c,
{
    if c < cs.len() && !before(p, position_at(all_moves(cs), tokens_before(cs, c + 1))) {
        lemma_chunk_past(cs, p, c + 1);
    }
}

/// The tokens of a source, with their moves, in chunks kept in a sum tree.
#[derive(Debug)]
pub struct TokenSourceMap {
    sum_tree: ChunkTree,
}

impl View for TokenSourceMap {
    type V = Seq<Move>;

    /// The move of each token, in order.
    closed spec fn view(&self) -> Seq<Move> {
        all_moves(chunks_of(self.sum_tree))
    }
}

impl TokenSourceMap {
    /// Every move goes somewhere, and all of them together stay within the numbers that hold a
    /// token count or a position.
    pub closed spec fn wf(&self) -> bool {
        moves_fit(chunks_of(self.sum_tree))
    }

    /// The moves of the tokens of each chunk in the tree, chunk after chunk.
    pub closed spec fn chunks(&self) -> Seq<Seq<Move>> {
        chunks_of(self.sum_tree).map_values(|c: Chunk| chunk_moves(c))
    }
}

/// The moves of `cs`, one chunk after the other.
pub open spec fn concat(cs: Seq<Seq<Move>>) -> Seq<Move>
    decreases cs.len(),
{
    if cs.len() == 0 {
        Seq::empty()
    } else {
        concat(cs.drop_last()) + cs.last()
    }
}

/// Chunks of at most `cap` moves, none empty, all but the last full.
pub open spec fn chunked(cs: Seq<Seq<Move>>, cap: nat) -> bool {
    &&& forall|c: int| 0 <= c < cs.len() ==> 1 <= #[trigger] cs[c].len() <= cap
    &&& forall|c: int| 0 <= c < cs.len() - 1 ==> #[trigger] cs[c].len() == cap
}

/// The summary that [`Chunk::summary`] gives a chunk whose tokens move by `ms`: how many tokens
/// it holds, and all their moves one after the other.
pub open spec fn chunk_summary(ms: Seq<Move>) -> (nat, Move) {
    (sat_sum(ms.len(), 0, u32::MAX as nat), saturating_summary(ms))
}

proof fn lemma_concat_chunks(cs: Seq<Chunk>)
    ensures
        concat(cs.map_values(|c: Chunk| chunk_moves(c))) == all_moves(cs),
    decreases cs.len(),
{
    if cs.len() > 0 {
        lemma_concat_chunks(cs.drop_last());
        assert(cs.map_values(|c: Chunk| chunk_moves(c)).drop_last() =~= cs.drop_last().map_values(
            |c: Chunk| chunk_moves(c),
        ));
    } else {
        assert(cs.map_values(|c: Chunk| chunk_moves(c)) =~= Seq::<Seq<Move>>::empty());
    }
}

proof fn lemma_weight_concat(a: Seq<Move>, b: Seq<Move>)
    ensures
        total_weight(a + b) == total_weight(a) + total_weight(b),
    decreases b.len(),
{
    if b.len() > 0 {
        lemma_weight_concat(a, b.drop_last());
        assert((a + b).drop_last() =~= a + b.drop_last());
    } else {
        assert(a + b =~= a);
    }
}

/// Within the limits a map keeps, each chunk's summary is exact: its number of tokens, and the
/// sum of their moves.
proof fn lemma_chunk_summary_exact(cs: Seq<Chunk>, c: int)
    requires
        moves_fit(cs),
        0 <= c < cs.len(),
    ensures
        chunk_summary(chunk_moves(cs[c])) == (chunk_moves(cs[c]).len(), summary_of(
            chunk_moves(cs[c]),
        )),
{
    let all = all_moves(cs);
    lemma_all_moves_step(cs, c);
    lemma_all_moves_prefix(cs, c + 1, cs.len() as int);
    assert(cs.take(cs.len() as int) =~= cs);
    lemma_weight_prefix(all, tokens_before(cs, c + 1));
    lemma_weight_concat(all_moves(cs.take(c)), chunk_moves(cs[c]));
    lemma_saturating_summary_exact(chunk_moves(cs[c]));
}

} // verus!

verus! {

/// The move of token `k` of `tokenize`.
fn token_delta(tokenize: &Tokenize, source: &str, k: usize) -> (r: RowColDelta<Utf16Char>)
    requires
        k < tokenize.tokens@.len(),
        k < MAX_INDEX,
        tokenize.tokens@.len() == tokenize.spans.ends@.len(),
        spans_fit(tokenize.spans.ends@, source.spec_bytes()),
        spans_nonempty(tokenize.spans.ends@),
    ensures
        rc(r) == token_move(tokenize.tokens@, tokenize.spans.ends@, source.spec_bytes(), k as int),
        rc(r) != stay(),
        weight(rc(r)) <= spec_span(k as int, tokenize.spans.ends@).end.0 - spec_span(
            k as int,
            tokenize.spans.ends@,
        ).start.0,
{
    broadcast use encode_utf8_decode_utf8;

    let ghost sp = spec_span(k as int, tokenize.spans.ends@);
    assert(sp.start.0 < sp.end.0);
    if tokenize.tokens[k] == TokenImpl::Newline {
        RowColDelta { row: 1, column: Utf16Char(0) }
    } else {
        let s = span(Token(k as u32), tokenize.spans.ends.as_slice()).lookup(source);
        proof {
            assert(s.spec_bytes() == encode_utf8(s@));
            assert(span_text(k as int, tokenize.spans.ends@, source.spec_bytes()) == s.spec_bytes());
            assert(decode_utf8(encode_utf8(s@)) == s@);
            assert(s.spec_bytes().len() == sp.end.0 - sp.start.0);
            lemma_utf16_le_utf8(s@, s@.len() as int);
            assert(s@.take(s@.len() as int) =~= s@);
            if s@.len() == 0 {
                assert(encode_utf8(s@) =~= Seq::<u8>::empty());
            }
        }
        RowColDelta { row: 0, column: Utf16Char::len(s) }
    }
}

/// A chunk holding the moves `run`.
fn chunk_of(run: &Vec<RowColDelta<Utf16Char>>) -> (r: Chunk)
    requires
        run@.len() <= CAP,
    ensures
        chunk_moves(r) == moves(run@),
{
    let mut row_col_deltas = new_deltas();
    let mut k: usize = 0;
    while k < run.len()
        invariant
            k <= run@.len(),
            run@.len() <= CAP,
            deltas_of(row_col_deltas) == run@.take(k as int),
        decreases run@.len() - k,
    {
        push_delta(&mut row_col_deltas, run[k]);
        k = k + 1;
        assert(deltas_of(row_col_deltas) =~= run@.take(k as int));
    }
    assert(run@.take(k as int) =~= run@);
    Chunk { row_col_deltas }
}

impl TokenSourceMap {
    /// Builds the map of the tokens of `tokenize`, which splits `source`.
    pub fn new(tokenize: &Tokenize, source: &str) -> (r: Self)
        requires
            tokenize.tokens@.len() < MAX_INDEX,
            tokenize.tokens@.len() == tokenize.spans.ends@.len(),
            spans_fit(tokenize.spans.ends@, source.spec_bytes()),
            spans_nonempty(tokenize.spans.ends@),
        ensures
            r.wf(),
            r@ == token_moves(tokenize.tokens@, tokenize.spans.ends@, source.spec_bytes()),
            concat(r.chunks()) == r@,
            chunked(r.chunks(), CAP as nat),
            forall|c: int|
                0 <= c < r.chunks().len() ==> chunk_summary(#[trigger] r.chunks()[c]) == (
                    r.chunks()[c].len(),
                    summary_of(r.chunks()[c]),
                ),
    {
        let ghost all = token_moves(tokenize.tokens@, tokenize.spans.ends@, source.spec_bytes());
        let n = tokenize.tokens.len();
        let mut deltas: Vec<RowColDelta<Utf16Char>> = Vec::new();
        let mut k: usize = 0;
        while k < n
            invariant
                k <= n,
                n < MAX_INDEX,
                n == tokenize.tokens@.len(),
                n == all.len(),
                all == token_moves(tokenize.tokens@, tokenize.spans.ends@, source.spec_bytes()),
                tokenize.tokens@.len() == tokenize.spans.ends@.len(),
                spans_fit(tokenize.spans.ends@, source.spec_bytes()),
                spans_nonempty(tokenize.spans.ends@),
                moves(deltas@) == all.take(k as int),
                all_advance(moves(deltas@)),
                k == 0 ==> total_weight(moves(deltas@)) == 0,
                k > 0 ==> total_weight(moves(deltas@)) <= tokenize.spans.ends@[k - 1].0,
            decreases n - k,
        {
            let d = token_delta(tokenize, source, k);
            let ghost before_push = moves(deltas@);
            deltas.push(d);
            proof {
                assert(moves(deltas@) =~= before_push.push(rc(d)));
                assert(moves(deltas@) =~= all.take(k + 1));
                assert(moves(deltas@).drop_last() =~= before_push);
                assert(spec_span(k as int, tokenize.spans.ends@).end == tokenize.spans.ends@[k as int]);
            }
            k = k + 1;
        }
        proof {
            assert(all.take(n as int) =~= all);
            if n > 0 {
                assert(spec_span(n - 1, tokenize.spans.ends@).end == tokenize.spans.ends@[n - 1]);
            }
        }
        let ghost ds = all;
        let mut iter = ArrayVecChunks::<RowColDelta<Utf16Char>, CAP>::new(deltas);
        let mut chunks: Vec<Chunk> = Vec::new();
        proof {
            assert(all_moves(chunks@) =~= ds.take(0));
        }
        loop
            invariant
                n == ds.len(),
                iter.all_items().len() == n,
                moves(iter.all_items()) == ds,
                iter.handed_out() <= n,
                all_moves(chunks@) == ds.take(iter.handed_out() as int),
                forall|c: int|
                    0 <= c < chunks@.len() ==> 1 <= #[trigger] chunk_moves(chunks@[c]).len() <= CAP,
                forall|c: int|
                    0 <= c < chunks@.len() - 1 ==> #[trigger] chunk_moves(chunks@[c]).len() == CAP,
                chunks@.len() > 0 && chunk_moves(chunks@.last()).len() < CAP ==> iter.handed_out()
                    == n,
            ensures
                all_moves(chunks@) == ds,
                forall|c: int|
                    0 <= c < chunks@.len() ==> 1 <= #[trigger] chunk_moves(chunks@[c]).len() <= CAP,
                forall|c: int|
                    0 <= c < chunks@.len() - 1 ==> #[trigger] chunk_moves(chunks@[c]).len() == CAP,
            decreases n - iter.handed_out(),
        {
            let ghost a = iter.handed_out() as int;
            match iter.next() {
                None => {
                    assert(ds.take(a) =~= ds);
                    break;
                },
                Some(row_col_deltas) => {
                    let chunk = chunk_of(&row_col_deltas);
                    let ghost before = chunks@;
                    chunks.push(chunk);
                    proof {
                        let b = iter.handed_out() as int;
                        assert(chunks@.drop_last() =~= before);
                        assert(moves(row_col_deltas@) =~= ds.subrange(a, b));
                        assert(ds.take(b) =~= ds.take(a) + ds.subrange(a, b));
                        assert(chunks@[chunks@.len() - 1] == chunk);
                        if chunks@.len() >= 2 {
                            assert(chunks@[chunks@.len() - 2] == before.last());
                        }
                        assert forall|c: int| 0 <= c < chunks@.len() - 1 implies #[trigger] chunk_moves(
                            chunks@[c],
                        ).len() == CAP by {
                            assert(chunks@[c] == before[c]);
                        }
                        assert forall|c: int| 0 <= c < chunks@.len() implies 1 <= #[trigger] chunk_moves(
                            chunks@[c],
                        ).len() <= CAP by {
                            if c < before.len() {
                                assert(chunks@[c] == before[c]);
                            }
                        }
                    }
                },
            }
        }
        let r = TokenSourceMap { sum_tree: tree_from_chunks(chunks) };
        proof {
            let cs = chunks_of(r.sum_tree);
            lemma_concat_chunks(cs);
            assert forall|c: int| 0 <= c < r.chunks().len() implies chunk_summary(
                #[trigger] r.chunks()[c],
            ) == (r.chunks()[c].len(), summary_of(r.chunks()[c])) by {
                lemma_chunk_summary_exact(cs, c);
            }
        }
        r
    }

    /// Token -> (line, column): where `token` starts; for the token just past the last one,
    /// where the last one ends.
    pub fn token_to_position(&self, token: Token) -> (r: RowColDelta<Utf16Char>)
        requires
            self.wf(),
            self@.len() > 0,
            token.0 <= self@.len(),
        ensures
            rc(r) == position_at(self@, token.0 as int),
    {
        let ghost cs = chunks_of(self.sum_tree);
        let ghost ds = all_moves(cs);
        let ghost t = token.0 as int;
        let (start_token, mut delta, item) = seek_token(&self.sum_tree, token);
        let ghost i = chunk_reaching_from(cs, t, 0);
        proof {
            lemma_chunk_reaching(cs, t, 0);
            lemma_tokens_total(cs);
            if i == cs.len() && cs.len() > 0 {
                assert(t > tokens_before(cs, (cs.len() - 1) + 1));
            }
            if i > 0 {
                assert(t > tokens_before(cs, (i - 1) + 1));
            }
            assert(i < cs.len());
            lemma_all_moves_step(cs, i);
        }
        let chunk = item.unwrap();
        let deltas = deltas_slice(&chunk.row_col_deltas);
        let len = (token.0 - start_token.0) as usize;
        let ghost a = tokens_before(cs, i);
        let mut k: usize = 0;
        while k < len
            invariant
                k <= len,
                0 <= i < cs.len(),
                a == tokens_before(cs, i),
                a + len == t,
                t <= tokens_before(cs, i + 1),
                tokens_before(cs, i + 1) == tokens_before(cs, i) + chunk_moves(cs[i]).len(),
                moves(deltas@) == chunk_moves(cs[i]),
                ds == all_moves(cs),
                moves_fit(cs),
                rc(delta) == position_at(ds, a + k),
            decreases len - k,
        {
            proof {
                lemma_all_moves_index(cs, i, k as int);
                lemma_step_fits(ds, a + k);
                assert(moves(deltas@)[k as int] == rc(deltas@[k as int]));
            }
            delta.add_assign(deltas[k]);
            k = k + 1;
        }
        delta
    }

    /// (line, column) -> Token at that position: the first token that ends after it, if any
    /// does.
    pub fn position_to_token(&self, position: RowColDelta<Utf16Char>) -> (r: Option<Token>)
        requires
            self.wf(),
        ensures
            match r {
                Some(t) => token_at(self@, rc(position)) == Some(t.0 as nat),
                None => token_at(self@, rc(position)) is None,
            },
    {
        let ghost cs = chunks_of(self.sum_tree);
        let ghost ds = all_moves(cs);
        let ghost p = rc(position);
        let (mut cur, token, item) = seek_position(&self.sum_tree, position);
        let ghost i = chunk_past_from(cs, p, 0);
        proof {
            lemma_chunk_past(cs, p, 0);
            lemma_tokens_total(cs);
        }
        let chunk = match item {
            Some(chunk) => chunk,
            None => {
                proof {
                    if cs.len() > 0 {
                        assert(!before(p, position_at(ds, tokens_before(cs, (cs.len() - 1) + 1))));
                    }
                    lemma_past_end(ds, p);
                }
                return None;
            },
        };
        let deltas = deltas_slice(&chunk.row_col_deltas);
        let ghost a = tokens_before(cs, i);
        proof {
            lemma_all_moves_step(cs, i);
            lemma_all_moves_prefix(cs, i + 1, cs.len() as int);
            assert(cs.take(cs.len() as int) =~= cs);
            assert forall|v: int| 0 <= v < a implies !before(p, #[trigger] position_at(ds, v + 1)) by {
                lemma_all_moves_prefix(cs, i, cs.len() as int);
                assert(i > 0) by {
                    if i == 0 {
                        assert(cs.take(0) =~= Seq::<Chunk>::empty());
                    }
                }
                assert(!before(p, position_at(ds, tokens_before(cs, (i - 1) + 1))));
                lemma_position_monotone(ds, v + 1, a);
                lemma_before_order(p, position_at(ds, v + 1), position_at(ds, a));
            }
        }
        let mut k: usize = 0;
        while k < deltas.len()
            invariant
                0 <= i < cs.len(),
                cs == chunks_of(self.sum_tree),
                ds == all_moves(cs),
                moves_fit(cs),
                p == rc(position),
                a == tokens_before(cs, i),
                a == token.0,
                tokens_before(cs, i + 1) == tokens_before(cs, i) + chunk_moves(cs[i]).len(),
                tokens_before(cs, i + 1) <= ds.len(),
                moves(deltas@) == chunk_moves(cs[i]),
                k <= deltas@.len(),
                rc(cur) == position_at(ds, a + k),
                forall|v: int| 0 <= v < a + k ==> !before(p, #[trigger] position_at(ds, v + 1)),
                before(p, position_at(ds, tokens_before(cs, i + 1))),
            decreases deltas@.len() - k,
        {
            proof {
                lemma_all_moves_index(cs, i, k as int);
                lemma_step_fits(ds, a + k);
                assert(moves(deltas@)[k as int] == rc(deltas@[k as int]));
            }
            cur.add_assign(deltas[k]);
            assert(rc(cur) == position_at(ds, a + k + 1));
            if position.is_before(cur) {
                proof {
                    assert(moves(deltas@).len() == deltas@.len());
                    assert(a + k < ds.len());
                    assert(before(p, position_at(ds, a + k + 1)));
                    lemma_token_at_from(ds, p, 0, a + k);
                    assert(token_at(ds, p) == Some((a + k) as nat));
                }
                return Some(Token(token.0 + k as u32));
            }
            k = k + 1;
        }
        proof {
            assert(tokens_before(cs, i + 1) == a + k);
            if k == 0 {
                if a > 0 {
                    assert(!before(p, position_at(ds, (a - 1) + 1)));
                } else {
                    assert(position_at(ds, 0) == stay());
                }
            }
            assert(k > 0);
            assert(!before(p, position_at(ds, (a + k - 1) + 1)));
        }
        None
    }

    /// Mapping a token to its position and the position back to a token gives the same token:
    /// `position_to_token(token_to_position(t)) == Some(t)` for every token `t` of the map.
    pub proof fn lemma_round_trip(&self, t: int)
        requires
            self.wf(),
            0 <= t < self@.len(),
        ensures
            token_at(self@, position_at(self@, t)) == Some(t as nat),
    {
        lemma_round_trip(self@, t);
    }

    /// No token lies at a position at or after the end of the last token.
    pub proof fn lemma_past_end(&self, p: Move)
        requires
            self.wf(),
            !before(p, summary_of(self@)),
        ensures
            token_at(self@, p) is None,
    {
        lemma_past_end(self@, p);
    }
}

} // verus!
