//! Comparing the names a scene or rig file uses.
use vstd::prelude::*;

use vstd::string::StringSliceAdditionalSpecFns;

verus! {

/// Whether `a` and `b` hold the same bytes.
pub(crate) fn bytes_eq(a: &[u8], b: &[u8]) -> (r: bool)
    ensures
        r == (a@ == b@),
{
    if a.len() != b.len() {
        return false;
    }
    let mut i: usize = 0;
    while i < a.len()
        invariant
            0 <= i <= a@.len(),
            a@.len() == b@.len(),
            forall|k: int| 0 <= k < i ==> a@[k] == b@[k],
        decreases a@.len() - i,
    {
        if a[i] != b[i] {
            return false;
        }
        i += 1;
    }
    assert(a@ =~= b@);
    true
}

/// Whether `s` is exactly the word `word`.
pub(crate) fn is_word(s: &str, word: &str) -> (r: bool)
    ensures
        r == (s.spec_bytes() == word.spec_bytes()),
{
    bytes_eq(s.as_bytes(), word.as_bytes())
}

/// Whether `a` and `b` are the same text.
pub(crate) fn same_text(a: &str, b: &str) -> (r: bool)
    ensures
        r == (a@ == b@),
{
    let r = bytes_eq(a.as_bytes(), b.as_bytes());
    proof {
        vstd::utf8::encode_utf8_decode_utf8(a@);
        vstd::utf8::encode_utf8_decode_utf8(b@);
    }
    r
}

/// The characters of `text`, in order.
pub(crate) fn chars_of(text: &str) -> (res: Vec<char>)
    ensures
        res@ == text@,
{
    let mut out: Vec<char> = Vec::new();
    let mut chars = text.chars();
    proof {
        broadcast use vstd::string::axiom_spec_iter;

        assert(vstd::std_specs::iter::IteratorSpec::remaining(&chars) == text@);
        assert(text@.skip(0) =~= text@);
    }
    let ghost mut k: int = 0;
    loop
        invariant
            0 <= k <= text@.len(),
            vstd::std_specs::iter::IteratorSpec::remaining(&chars) == text@.skip(k),
            out@ == text@.take(k),
        ensures
            out@ == text@,
        decreases text@.len() - k,
    {
        let next = chars.next();
        proof {
            broadcast use vstd::string::next_postcondition;

            if k < text@.len() {
                assert(vstd::std_specs::iter::IteratorSpec::remaining(&chars) == text@.skip(
                    k,
                ).drop_first() && next == Some(text@.skip(k)[0]));
            } else {
                assert(next is None);
            }
        }
        let c = match next {
            Some(c) => c,
            None => {
                assert(text@.take(k) =~= text@);
                break;
            },
        };
        assert(text@.skip(k)[0] == text@[k]);
        assert(text@.skip(k).drop_first() =~= text@.skip(k + 1));
        out.push(c);
        proof {
            assert(out@ =~= text@.take(k + 1));
            k = k + 1;
        }
    }
    out
}

/// `String::push`: appends `c` to the end of `s`.
#[verifier::external_body]
pub(crate) fn push_char(s: &mut String, c: char)
    ensures
        final(s)@ == old(s)@.push(c),
{
    s.push(c);
}

/// `char::from_u32`: the character whose number is `v`, if `v` is the
/// number of one; std documents `None` for a value past `0x10FFFF` and for
/// the surrogates `0xD800..=0xDFFF`.
#[verifier::external_body]
pub(crate) fn char_from(v: u32) -> (res: Option<char>)
    ensures
        match res {
            Some(c) => crate::scene::is_char_value(v) && c == v as char,
            None => !crate::scene::is_char_value(v),
        },
{
    char::from_u32(v)
}

} // verus!
