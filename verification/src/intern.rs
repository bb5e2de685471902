//! Interning of names: each distinct byte string gets a small number, in order of first
//! appearance.
use vstd::prelude::*;

verus! {

/// An interned name.
#[derive(Copy, Clone, Debug, PartialEq, Eq, Structural)]
pub struct Symbol(pub u32);

/// The texts of interned names, by symbol.
pub open spec fn texts(keys: Seq<&[u8]>) -> Seq<Seq<u8>> {
    keys.map_values(|k: &[u8]| k@)
}

/// No text occurs twice.
pub open spec fn distinct(texts: Seq<Seq<u8>>) -> bool {
    forall|i: int, j: int| 0 <= i < j < texts.len() ==> texts[i] != texts[j]
}

/// Whether two byte strings are equal.
fn bytes_eq(a: &[u8], b: &[u8]) -> (r: bool)
    ensures
        r == (a@ == b@),
{
    if a.len() != b.len() {
        return false;
    }
    let mut i: usize = 0;
    while i < a.len()
        invariant
            i <= a@.len(),
            a@.len() == b@.len(),
            forall|k: int| 0 <= k < i ==> a@[k] == b@[k],
        decreases a@.len() - i,
    {
        if a[i] != b[i] {
            assert(a@[i as int] != b@[i as int]);
            return false;
        }
        i = i + 1;
    }
    assert(a@ =~= b@);
    true
}

/// The symbol of `text`, interning it if it is new; symbols are numbered in order of first
/// appearance.
pub fn intern<'a>(keys: &mut Vec<&'a [u8]>, text: &'a [u8]) -> (r: Symbol)
    requires
        distinct(texts(old(keys)@)),
        old(keys)@.len() < u32::MAX,
    ensures
        distinct(texts(final(keys)@)),
        (r.0 as int) < final(keys)@.len(),
        texts(final(keys)@)[r.0 as int] == text@,
        texts(old(keys)@).contains(text@) ==> final(keys)@ == old(keys)@,
        !texts(old(keys)@).contains(text@) ==> final(keys)@ == old(keys)@.push(text),
{
    let mut i: usize = 0;
    while i < keys.len()
        invariant
            i <= keys@.len(),
            keys@ == old(keys)@,
            distinct(texts(keys@)),
            keys@.len() < u32::MAX,
            forall|k: int| 0 <= k < i ==> texts(keys@)[k] != text@,
        decreases keys@.len() - i,
    {
        if bytes_eq(keys[i], text) {
            assert(texts(keys@)[i as int] == keys@[i as int]@);
            return Symbol(i as u32);
        }
        i = i + 1;
    }
    let symbol = Symbol(keys.len() as u32);
    keys.push(text);
    proof {
        assert(texts(keys@) =~= texts(old(keys)@).push(text@));
        assert(!texts(old(keys)@).contains(text@)) by {
            if texts(old(keys)@).contains(text@) {
                let k = choose|k: int| 0 <= k < texts(old(keys)@).len() && texts(old(keys)@)[k] == text@;
                assert(texts(keys@)[k] != text@);
            }
        }
    }
    symbol
}

} // verus!

verus! {

/// The symbol of `text`, if it was interned.
pub fn find(keys: &Vec<&[u8]>, text: &[u8]) -> (r: Option<Symbol>)
    requires
        keys@.len() <= u32::MAX,
    ensures
        match r {
            Some(s) => (s.0 as int) < keys@.len() && texts(keys@)[s.0 as int] == text@,
            None => !texts(keys@).contains(text@),
        },
{
    let mut i: usize = 0;
    while i < keys.len()
        invariant
            i <= keys@.len(),
            keys@.len() <= u32::MAX,
            forall|k: int| 0 <= k < i ==> texts(keys@)[k] != text@,
        decreases keys@.len() - i,
    {
        if bytes_eq(keys[i], text) {
            assert(texts(keys@)[i as int] == keys@[i as int]@);
            return Some(Symbol(i as u32));
        }
        i = i + 1;
    }
    proof {
        if texts(keys@).contains(text@) {
            let k = choose|k: int| 0 <= k < texts(keys@).len() && texts(keys@)[k] == text@;
            assert(texts(keys@)[k] != text@);
        }
    }
    None
}

} // verus!
