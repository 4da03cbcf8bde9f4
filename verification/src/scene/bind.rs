//! Reading where on the bus a display sits.
use vstd::prelude::*;

use super::{hex_val, is_digit, Document, Value, ValueSpec};
use crate::text::chars_of;

verus! {

/// Why a node address could not be used.
#[derive(Clone, Copy, PartialEq, Eq, Structural, Debug)]
pub enum AddressError {
    /// The address is one the bus reserves: `0x00` or `0xFF`.
    Reserved(u8),
    /// The value is not an address at all.
    Unreadable,
}

/// The number the decimal digits `t` spell, if they are all digits.
pub open spec fn dec_number(t: Seq<char>) -> Option<int>
    decreases t.len(),
{
    if t.len() == 0 {
        Some(0)
    } else {
        match dec_number(t.drop_last()) {
            Some(a) => if is_digit(t.last()) {
                Some(a * 10 + (t.last() as u32 - '0' as u32))
            } else {
                None
            },
            None => None,
        }
    }
}

/// The number the hexadecimal digits `t` spell, if they are all digits.
pub open spec fn hex_number(t: Seq<char>) -> Option<int>
    decreases t.len(),
{
    if t.len() == 0 {
        Some(0)
    } else {
        match (hex_number(t.drop_last()), hex_val(t.last())) {
            (Some(a), Some(d)) => Some(a * 16 + d),
            _ => None,
        }
    }
}

/// The address a value spells: a number of up to three decimal digits, or a
/// string `0x` (or `0X`) followed by one or two hexadecimal digits; either
/// way, no more than 255.
pub open spec fn address_number(v: ValueSpec) -> Option<int> {
    match v {
        ValueSpec::Number(t) => if 1 <= t.len() <= 3 {
            match dec_number(t) {
                Some(n) => if 0 <= n <= 255 {
                    Some(n)
                } else {
                    None
                },
                None => None,
            }
        } else {
            None
        },
        ValueSpec::Str(t) => if (t.len() == 3 || t.len() == 4) && t[0] == '0' && (t[1] == 'x' || t[1]
            == 'X') {
            match hex_number(t.subrange(2, t.len() as int)) {
                Some(n) => if 0 <= n <= 255 {
                    Some(n)
                } else {
                    None
                },
                None => None,
            }
        } else {
            None
        },
        _ => None,
    }
}

/// The node address the value `v` gives, or why it gives none.
pub open spec fn spec_address(v: ValueSpec) -> Result<u8, AddressError> {
    match address_number(v) {
        None => Err(AddressError::Unreadable),
        Some(n) => if n == 0 || n == 255 {
            Err(AddressError::Reserved(n as u8))
        } else {
            Ok(n as u8)
        },
    }
}

/// The number the characters `t` spell in base 10 or 16, as
/// [`dec_number`] or [`hex_number`] has it.
fn spelled(t: &[char], hex: bool) -> (r: Option<u32>)
    requires
        t@.len() <= 3,
    ensures
        match r {
            Some(n) => (if hex { hex_number(t@) } else { dec_number(t@) }) == Some(n as int) && (hex
                && t@.len() <= 2 ==> n < 256),
            None => (if hex { hex_number(t@) } else { dec_number(t@) }) is None,
        },
{
    let mut acc: u32 = 0;
    let mut i: usize = 0;
    assert(t@.take(0) =~= Seq::<char>::empty());
    while i < t.len()
        invariant
            0 <= i <= t@.len() <= 3,
            hex ==> acc < (if i == 0 { 1int } else if i == 1 { 16 } else if i == 2 { 256 } else { 4096 }),
            !hex ==> acc < (if i == 0 { 1int } else if i == 1 { 10 } else if i == 2 { 100 } else { 1000 }),
            (if hex { hex_number(t@.take(i as int)) } else { dec_number(t@.take(i as int)) }) == Some(
                acc as int,
            ),
        decreases t@.len() - i,
    {
        let c = t[i];
        let d: u32 = if hex {
            match super::hex_digit(c) {
                Some(d) => d,
                None => {
                    assert(t@.take(i + 1).drop_last() =~= t@.take(i as int));
                    assert(hex_number(t@.take(i + 1)) is None);
                    assert(hex_number(t@) is None) by {
                        lemma_prefix_unreadable(t@, i + 1, hex);
                    }
                    return None;
                },
            }
        } else {
            if '0' <= c && c <= '9' {
                c as u32 - '0' as u32
            } else {
                assert(t@.take(i + 1).drop_last() =~= t@.take(i as int));
                assert(dec_number(t@.take(i + 1)) is None);
                assert(dec_number(t@) is None) by {
                    lemma_prefix_unreadable(t@, i + 1, hex);
                }
                return None;
            }
        };
        assert(t@.take(i + 1).drop_last() =~= t@.take(i as int));
        acc = if hex { acc * 16 + d } else { acc * 10 + d };
        i = i + 1;
    }
    assert(t@.take(i as int) =~= t@);
    Some(acc)
}

/// A text whose first `k` characters spell no number spells none.
proof fn lemma_prefix_unreadable(t: Seq<char>, k: int, hex: bool)
    requires
        0 <= k <= t.len(),
        (if hex { hex_number(t.take(k)) } else { dec_number(t.take(k)) }) is None,
    ensures
        (if hex { hex_number(t) } else { dec_number(t) }) is None,
    decreases t.len() - k,
{
    if k < t.len() {
        assert(t.take(k + 1).drop_last() =~= t.take(k));
        lemma_prefix_unreadable(t, k + 1, hex);
    } else {
        assert(t.take(k) =~= t);
    }
}

/// The node address the value at `node` of `doc` gives: a number such as
/// `2`, or a string such as `"0x02"`, both spelling the same address. `0x00`
/// and `0xFF` are refused as reserved; anything else that is not an
/// address is unreadable.
pub fn node_address(doc: &Document, node: usize) -> (r: Result<u8, AddressError>)
    requires
        node < doc.values@.len(),
    ensures
        r == spec_address(doc.spec_values()[node as int]),
{
    let n: Option<u32> = match &doc.values[node] {
        Value::Number(t) => {
            let cs = chars_of(t.as_str());
            if 1 <= cs.len() && cs.len() <= 3 {
                match spelled(cs.as_slice(), false) {
                    Some(v) => if v <= 255 {
                        Some(v)
                    } else {
                        None
                    },
                    None => None,
                }
            } else {
                None
            }
        },
        Value::Str(t) => {
            let cs = chars_of(t.as_str());
            if (cs.len() == 3 || cs.len() == 4) && cs[0] == '0' && (cs[1] == 'x' || cs[1] == 'X') {
                let digits = &cs.as_slice()[2..cs.len()];
                assert(digits@ =~= cs@.subrange(2, cs@.len() as int));
                match spelled(digits, true) {
                    Some(v) => if v <= 255 {
                        Some(v)
                    } else {
                        None
                    },
                    None => None,
                }
            } else {
                None
            }
        },
        _ => None,
    };
    match n {
        None => Err(AddressError::Unreadable),
        Some(v) => if v == 0 || v == 255 {
            Err(AddressError::Reserved(v as u8))
        } else {
            Ok(v as u8)
        },
    }
}

} // verus!
