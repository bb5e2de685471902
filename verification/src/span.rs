//! Spans of source code, measured in bytes, UTF-8 characters or UTF-16 code units.
use crate::index::{Idx, MAX_INDEX};
use vstd::prelude::*;
use vstd::std_specs::iter::IteratorSpec;
use vstd::string::StringSliceAdditionalSpecFns;
use vstd::utf8::*;

verus! {

/// Number of UTF-8 bytes that encode `c`.
pub open spec fn char_utf8_width(c: char) -> nat {
    if (c as u32) < 0x80 {
        1
    } else if (c as u32) < 0x800 {
        2
    } else if (c as u32) < 0x10000 {
        3
    } else {
        4
    }
}

/// Number of UTF-16 code units that encode `c`.
pub open spec fn char_utf16_width(c: char) -> nat {
    if (c as u32) < 0x10000 {
        1
    } else {
        2
    }
}

/// Number of UTF-16 code units that encode `cs`.
pub open spec fn utf16_len(cs: Seq<char>) -> nat
    decreases cs.len(),
{
    if cs.len() == 0 {
        0
    } else {
        utf16_len(cs.drop_last()) + char_utf16_width(cs.last())
    }
}

/// Number of UTF-8 bytes that encode `cs`.
pub open spec fn utf8_len(cs: Seq<char>) -> nat {
    encode_utf8(cs).len()
}

/// A `char` is encoded by `char_utf8_width(c)` bytes.
pub proof fn lemma_encode_scalar_len(c: char)
    ensures
        encode_scalar(c as u32).len() == char_utf8_width(c),
{
    char_is_scalar(c);
}

/// Encoding a sequence extended by one `char` appends that char's encoding.
pub proof fn lemma_encode_utf8_push(cs: Seq<char>, c: char)
    ensures
        encode_utf8(cs.push(c)) == encode_utf8(cs) + encode_scalar(c as u32),
    decreases cs.len(),
{
    if cs.len() == 0 {
        assert(cs.push(c).drop_first() =~= Seq::<char>::empty());
        assert(encode_utf8(Seq::<char>::empty()) =~= Seq::<u8>::empty());
        assert(cs.push(c)[0] == c);
        assert(encode_utf8(cs.push(c)) =~= encode_scalar(c as u32) + encode_utf8(Seq::<char>::empty()));
        assert(encode_utf8(cs.push(c)) =~= encode_utf8(cs) + encode_scalar(c as u32));
    } else {
        lemma_encode_utf8_push(cs.drop_first(), c);
        assert(cs.push(c).drop_first() =~= cs.drop_first().push(c));
        assert(encode_utf8(cs.push(c)) =~= encode_utf8(cs) + encode_scalar(c as u32));
    }
}

/// Byte length of a prefix extended by one more `char`.
pub proof fn lemma_utf8_len_take(cs: Seq<char>, k: int)
    requires
        0 <= k < cs.len(),
    ensures
        utf8_len(cs.take(k + 1)) == utf8_len(cs.take(k)) + char_utf8_width(cs[k]),
{
    assert(cs.take(k + 1) =~= cs.take(k).push(cs[k]));
    lemma_encode_utf8_push(cs.take(k), cs[k]);
    lemma_encode_scalar_len(cs[k]);
}

/// UTF-16 length of a prefix extended by one more `char`.
pub proof fn lemma_utf16_len_take(cs: Seq<char>, k: int)
    requires
        0 <= k < cs.len(),
    ensures
        utf16_len(cs.take(k + 1)) == utf16_len(cs.take(k)) + char_utf16_width(cs[k]),
{
    assert(cs.take(k + 1).drop_last() =~= cs.take(k));
}

/// A prefix is never longer than the whole in UTF-8 bytes.
pub proof fn lemma_utf8_len_prefix_le(cs: Seq<char>, k: int)
    requires
        0 <= k <= cs.len(),
    ensures
        utf8_len(cs.take(k)) <= utf8_len(cs),
    decreases cs.len() - k,
{
    if k < cs.len() {
        lemma_utf8_len_take(cs, k);
        lemma_utf8_len_prefix_le(cs, k + 1);
    } else {
        assert(cs.take(k) =~= cs);
    }
}

/// The bytes that encode a prefix of `cs` end on a character boundary of the encoding of `cs`.
pub proof fn lemma_prefix_char_boundary(cs: Seq<char>, k: int)
    requires
        0 <= k <= cs.len(),
    ensures
        is_char_boundary(encode_utf8(cs), utf8_len(cs.take(k)) as int),
    decreases cs.len(),
{
    broadcast use encode_utf8_valid_utf8;

    let bytes = encode_utf8(cs);
    if k == 0 {
        assert(cs.take(0) =~= Seq::<char>::empty());
        assert(encode_utf8(cs.take(0)) =~= Seq::<u8>::empty());
    } else {
        encode_utf8_first_scalar(cs);
        lemma_encode_scalar_len(cs[0]);
        assert(pop_first_scalar(bytes) =~= encode_utf8(cs.drop_first()));
        assert(cs.take(k).drop_first() =~= cs.drop_first().take(k - 1));
        assert(cs.take(k)[0] == cs[0]);
        assert(encode_utf8(cs.take(k)) == encode_scalar(cs[0] as u32) + encode_utf8(
            cs.drop_first().take(k - 1),
        ));
        lemma_utf8_len_prefix_le(cs, k);
        lemma_prefix_char_boundary(cs.drop_first(), k - 1);
    }
}

/// Collects the `char`s of a string.
pub fn chars_of(s: &str) -> (r: Vec<char>)
    ensures
        r@ == s@,
{
    broadcast use vstd::string::group_string_axioms;

    let mut out: Vec<char> = Vec::new();
    let mut it = s.chars();
    let ghost total = s@;
    loop
        invariant
            it.remaining() == total.skip(out@.len() as int),
            out@ == total.take(out@.len() as int),
            out@.len() <= total.len(),
            total == s@,
        decreases total.len() - out@.len(),
    {
        match it.next() {
            Some(c) => {
                proof {
                    assert(total.skip(out@.len() as int).len() > 0);
                }
                out.push(c);
                proof {
                    assert(total.skip(out@.len() - 1).drop_first() =~= total.skip(out@.len() as int));
                    assert(out@ =~= total.take(out@.len() as int));
                }
            },
            None => {
                assert(out@ =~= total);
                return out;
            },
        }
    }
}

/// A unit in which positions in source code are counted.
pub trait Unit: Idx {
    /// The length of the string `cs` in this unit.
    spec fn spec_len(cs: Seq<char>) -> nat;

    /// The length of `s` in this unit.
    fn len(s: &str) -> (r: Self)
        requires
            Self::spec_len(s@) <= MAX_INDEX,
        ensures
            r.spec_index() == Self::spec_len(s@),
    ;

    /// The sum of two lengths.
    fn add(self, rhs: Self) -> (r: Self)
        requires
            self.spec_index() + rhs.spec_index() <= MAX_INDEX,
        ensures
            r.spec_index() == self.spec_index() + rhs.spec_index(),
    ;
}

/// Byte offset into source code.
#[derive(Copy, Clone, Debug, Default, PartialEq, Eq, Structural, Hash, PartialOrd, Ord)]
pub struct Byte(pub u32);

/// Offset in UTF-8 characters (Unicode scalar values).
#[derive(Copy, Clone, Debug, Default, PartialEq, Eq, Structural, Hash, PartialOrd, Ord)]
pub struct Utf8Char(pub u32);

/// Offset in UTF-16 code units.
#[derive(Copy, Clone, Debug, Default, PartialEq, Eq, Structural, Hash, PartialOrd, Ord)]
pub struct Utf16Char(pub u32);

impl Idx for Byte {
    proof fn lemma_index_determines(a: Self, b: Self) {
        assert(a.0 == b.0);
    }

    open spec fn spec_index(self) -> nat {
        self.0 as nat
    }

    fn from_usize(i: usize) -> (r: Self) {
        Byte(i as u32)
    }

    fn index(self) -> (r: usize) {
        self.0 as usize
    }
}

impl Idx for Utf8Char {
    proof fn lemma_index_determines(a: Self, b: Self) {
        assert(a.0 == b.0);
    }

    open spec fn spec_index(self) -> nat {
        self.0 as nat
    }

    fn from_usize(i: usize) -> (r: Self) {
        Utf8Char(i as u32)
    }

    fn index(self) -> (r: usize) {
        self.0 as usize
    }
}

impl Idx for Utf16Char {
    proof fn lemma_index_determines(a: Self, b: Self) {
        assert(a.spec_index() == a.0 as nat);
        assert(a.0 == b.0);
    }

    open spec fn spec_index(self) -> nat {
        self.0 as nat
    }

    fn from_usize(i: usize) -> (r: Self) {
        Utf16Char(i as u32)
    }

    fn index(self) -> (r: usize) {
        self.0 as usize
    }
}

impl Byte {
    /// A byte offset.
    pub fn new(i: usize) -> (r: Self)
        requires
            i <= MAX_INDEX,
        ensures
            r.0 == i,
    {
        Byte(i as u32)
    }
}

impl Utf16Char {
    /// An offset given by its raw value.
    pub fn from_raw(raw: u32) -> (r: Self)
        ensures
            r.0 == raw,
    {
        Utf16Char(raw)
    }

    /// The raw value of the offset.
    pub fn raw(self) -> (r: u32)
        ensures
            r == self.0,
    {
        self.0
    }
}

impl Unit for Byte {
    open spec fn spec_len(cs: Seq<char>) -> nat {
        utf8_len(cs)
    }

    fn len(s: &str) -> (r: Self) {
        Byte(s.len() as u32)
    }

    fn add(self, rhs: Self) -> (r: Self) {
        Byte(self.0 + rhs.0)
    }
}

impl Unit for Utf8Char {
    open spec fn spec_len(cs: Seq<char>) -> nat {
        cs.len()
    }

    fn len(s: &str) -> (r: Self) {
        Utf8Char(s.unicode_len() as u32)
    }

    fn add(self, rhs: Self) -> (r: Self) {
        Utf8Char(self.0 + rhs.0)
    }
}

impl Unit for Utf16Char {
    open spec fn spec_len(cs: Seq<char>) -> nat {
        utf16_len(cs)
    }

    fn len(s: &str) -> (r: Self) {
        let cs = chars_of(s);
        let mut n: u32 = 0;
        let mut i: usize = 0;
        while i < cs.len()
            invariant
                i <= cs@.len(),
                cs@ == s@,
                n == utf16_len(cs@.take(i as int)),
                utf16_len(s@) <= MAX_INDEX,
            decreases cs@.len() - i,
        {
            proof {
                lemma_utf16_len_take(cs@, i as int);
                lemma_utf16_len_prefix_le(cs@, i as int + 1);
            }
            if (cs[i] as u32) < 0x10000 {
                n = n + 1;
            } else {
                n = n + 2;
            }
            i = i + 1;
        }
        assert(cs@.take(i as int) =~= cs@);
        Utf16Char(n)
    }

    fn add(self, rhs: Self) -> (r: Self) {
        Utf16Char(self.0 + rhs.0)
    }
}

/// A prefix is never longer than the whole in UTF-16 code units.
pub proof fn lemma_utf16_len_prefix_le(cs: Seq<char>, k: int)
    requires
        0 <= k <= cs.len(),
    ensures
        utf16_len(cs.take(k)) <= utf16_len(cs),
    decreases cs.len() - k,
{
    if k < cs.len() {
        lemma_utf16_len_take(cs, k);
        lemma_utf16_len_prefix_le(cs, k + 1);
    } else {
        assert(cs.take(k) =~= cs);
    }
}

/// A span of source code.
#[derive(Copy, Clone, Debug, PartialEq, Eq, Structural)]
pub struct Span<U> {
    pub start: U,
    pub end: U,
}

/// A span of source code in bytes.
pub type ByteSpan = Span<Byte>;

/// `index` is a character boundary of the prefix `bytes[..end]` when it is one of `bytes`.
proof fn lemma_boundary_of_prefix(bytes: Seq<u8>, index: int, end: int)
    requires
        valid_utf8(bytes),
        is_char_boundary(bytes, index),
        is_char_boundary(bytes, end),
        0 <= index <= end,
    ensures
        valid_utf8(bytes.subrange(0, end)),
        is_char_boundary(bytes.subrange(0, end), index),
{
    broadcast use valid_utf8_split, is_char_boundary_start_end_of_seq,
        is_char_boundary_iff_not_is_continuation_byte;

    let prefix = bytes.subrange(0, end);
    if index == end {
        assert(prefix.len() == end);
    } else if index > 0 {
        assert(is_char_boundary(bytes, index) <==> !is_continuation_byte(bytes[index]));
        assert(prefix[index] == bytes[index]);
        assert(is_char_boundary(prefix, index) <==> !is_continuation_byte(prefix[index]));
    }
}

impl ByteSpan {
    /// Slices a source string with the span.
    pub fn lookup(self, source: &str) -> (r: &str)
        requires
            self.start.0 <= self.end.0,
            is_char_boundary(source.spec_bytes(), self.start.0 as int),
            is_char_boundary(source.spec_bytes(), self.end.0 as int),
        ensures
            r.spec_bytes() == source.spec_bytes().subrange(self.start.0 as int, self.end.0 as int),
    {
        broadcast use encode_utf8_valid_utf8;

        proof {
            lemma_boundary_of_prefix(source.spec_bytes(), self.start.0 as int, self.end.0 as int);
        }
        let (head, _) = source.split_at(self.end.0 as usize);
        let (_, middle) = head.split_at(self.start.0 as usize);
        assert(middle.spec_bytes() =~= source.spec_bytes().subrange(
            self.start.0 as int,
            self.end.0 as int,
        ));
        middle
    }
}

} // verus!

verus! {

impl<U: Unit> Span<U> {
    /// The span as `start..end`, in decimal.
    pub fn debug_text(self) -> (r: String)
        ensures
            r@ == crate::text::decimal(self.start.spec_index()) + seq!['.', '.']
                + crate::text::decimal(self.end.spec_index()),
    {
        let mut out = String::new();
        crate::text::push_decimal(&mut out, self.start.index() as u32);
        crate::text::push_char(&mut out, '.');
        crate::text::push_char(&mut out, '.');
        crate::text::push_decimal(&mut out, self.end.index() as u32);
        proof {
            assert(out@ =~= crate::text::decimal(self.start.spec_index()) + seq!['.', '.']
                + crate::text::decimal(self.end.spec_index()));
        }
        out
    }
}

} // verus!
