//! Spans of source code in bytes.
use vstd::prelude::*;
use vstd::string::StringSliceAdditionalSpecFns;
use vstd::utf8::*;

verus! {

/// A byte offset into source code.
#[derive(Copy, Clone, Debug, PartialEq, Eq, Structural)]
pub struct Offset(pub u32);

/// A span of source code.
#[derive(Copy, Clone, Debug, PartialEq, Eq, Structural)]
pub struct Span {
    pub start: Offset,
    pub end: Offset,
}

impl Span {
    /// Slices a source string with the span.
    pub fn lookup(self, source: &str) -> (r: &str)
        requires
            self.start.0 <= self.end.0,
            is_char_boundary(source.spec_bytes(), self.start.0 as int),
            is_char_boundary(source.spec_bytes(), self.end.0 as int),
        ensures
            r.spec_bytes() == source.spec_bytes().subrange(self.start.0 as int, self.end.0 as int),
    {
        let byte_span = crate::span::Span {
            start: crate::span::Byte(self.start.0),
            end: crate::span::Byte(self.end.0),
        };
        byte_span.lookup(source)
    }
}

} // verus!

verus! {

/// Token `k` spans from the end of token `k - 1` (or 0) to its own end.
pub open spec fn offset_span(k: int, ends: Seq<Offset>) -> Span {
    Span { start: if k == 0 { Offset(0) } else { ends[k - 1] }, end: ends[k] }
}

/// Every token's span lies inside `bytes`, in order, on character boundaries.
pub open spec fn offsets_fit(ends: Seq<Offset>, bytes: Seq<u8>) -> bool {
    &&& valid_utf8(bytes)
    &&& forall|k: int|
        0 <= k < ends.len() ==> {
            let s = #[trigger] offset_span(k, ends);
            &&& s.start.0 <= s.end.0 <= bytes.len()
            &&& is_char_boundary(bytes, s.start.0 as int)
            &&& is_char_boundary(bytes, s.end.0 as int)
        }
}

/// The source bytes of token `k`.
pub open spec fn offset_text(k: int, ends: Seq<Offset>, bytes: Seq<u8>) -> Seq<u8> {
    bytes.subrange(offset_span(k, ends).start.0 as int, offset_span(k, ends).end.0 as int)
}

/// The span of `token`, given where every token ends.
pub fn span(token: crate::tokenize::Token, ends: &[Offset]) -> (r: Span)
    requires
        (token.0 as int) < ends@.len(),
    ensures
        r == offset_span(token.0 as int, ends@),
{
    let i = token.0 as usize;
    let start = if i == 0 {
        Offset(0)
    } else {
        ends[i - 1]
    };
    Span { start, end: ends[i] }
}

/// The source bytes of `token`.
pub(crate) fn token_text<'a>(token: crate::tokenize::Token, ends: &[Offset], input: &'a str) -> (r: &'a [u8])
    requires
        (token.0 as int) < ends@.len(),
        offsets_fit(ends@, input.spec_bytes()),
    ensures
        r@ == offset_text(token.0 as int, ends@, input.spec_bytes()),
{
    let s = span(token, ends);
    assert(offset_span(token.0 as int, ends@) == s);
    s.lookup(input).as_bytes()
}

} // verus!

verus! {

impl Span {
    /// The span as `start..end`, in decimal.
    pub fn debug_text(self) -> (r: String)
        ensures
            r@ == crate::text::decimal(self.start.0 as nat) + seq!['.', '.'] + crate::text::decimal(
                self.end.0 as nat,
            ),
    {
        let mut out = String::new();
        crate::text::push_decimal(&mut out, self.start.0);
        crate::text::push_char(&mut out, '.');
        crate::text::push_char(&mut out, '.');
        crate::text::push_decimal(&mut out, self.end.0);
        proof {
            assert(out@ =~= crate::text::decimal(self.start.0 as nat) + seq!['.', '.']
                + crate::text::decimal(self.end.0 as nat));
        }
        out
    }
}

impl Offset {
    /// The offset in decimal.
    pub fn debug_text(self) -> (r: String)
        ensures
            r@ == crate::text::decimal(self.0 as nat),
    {
        let mut out = String::new();
        crate::text::push_decimal(&mut out, self.0);
        proof {
            assert(out@ =~= crate::text::decimal(self.0 as nat));
        }
        out
    }
}

} // verus!
