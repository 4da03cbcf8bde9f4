//! GIF's variable-width LZW.
//!
//! # The two traps
//!
//! **The deferred clear.** An encoder is permitted to keep emitting codes at
//! the maximum width after the dictionary is full, without ever sending a
//! clear code. A decoder that grows its width past 12 bits, or that treats a
//! full dictionary as an error, fails on perfectly legal files.
//!
//! **The KwKwK case.** A code may refer to the entry that is only being
//! created by decoding that very code. The output is the previous sequence
//! plus its own first byte.
//!
//! # Why the dictionary is flat arrays rather than `Vec<Vec<u8>>`
//!
//! Every entry is "some earlier entry, plus one byte", so storing a prefix
//! index and a suffix byte captures it exactly in arrays of fixed size: one
//! allocation instead of four thousand, and no pointer chasing. The proof
//! carries the sequence each entry stands for alongside, as ghost state, and
//! [`spec_lzw_decode`] states the decoder over those sequences.
use vstd::prelude::*;

use super::GifError;

verus! {

/// Largest code width GIF permits.
pub const MAX_BITS: u8 = 12;

/// Dictionary capacity at [`MAX_BITS`].
pub const MAX_CODES: usize = 4096;

/// `2` to the power `n`.
pub open spec fn pow2(n: nat) -> nat
    decreases n,
{
    if n == 0 {
        1
    } else {
        2 * pow2((n - 1) as nat)
    }
}

/// Bit `idx` of `data`, least-significant bit of each byte first; bits past
/// the end read as zero.
pub open spec fn bit_at(data: Seq<u8>, idx: int) -> int {
    if 0 <= idx && idx / 8 < data.len() {
        ((data[idx / 8] >> ((idx % 8) as u8)) & 1u8) as int
    } else {
        0
    }
}

/// The `width`-bit code starting at bit `bit`, least-significant bit first.
pub open spec fn spec_read_code(data: Seq<u8>, bit: int, width: nat) -> int
    decreases width,
{
    if width == 0 {
        0
    } else {
        bit_at(data, bit) + 2 * spec_read_code(data, bit + 1, (width - 1) as nat)
    }
}

/// The decoder between two codes.
pub struct LzwState {
    /// The next bit to read.
    pub bit: int,
    /// The current code width.
    pub width: nat,
    /// The next dictionary slot to fill.
    pub next: int,
    /// The previous code, if there is one since the last clear.
    pub prev: Option<int>,
    /// The sequence each code stands for.
    pub dict: Seq<Seq<u8>>,
    /// Indices produced so far.
    pub out: Seq<u8>,
}

/// The dictionary before any code: one single-byte entry per literal.
pub open spec fn lzw_initial_dict(clear: nat) -> Seq<Seq<u8>> {
    Seq::new(MAX_CODES as nat, |c: int| if c < clear { seq![c as u8] } else { Seq::empty() })
}

/// Decode codes from `s` until the output reaches `expected`, the input
/// runs out, or the end code arrives; the indices produced, or the error.
pub open spec fn spec_lzw_run(min: nat, data: Seq<u8>, expected: int, s: LzwState) -> Result<
    Seq<u8>,
    GifError,
>
    decreases data.len() * 8 - s.bit,
    when s.width >= 1
{
    let clear = pow2(min) as int;
    if s.out.len() >= expected {
        Ok(s.out)
    } else if s.bit + s.width > data.len() * 8 {
        // A truncated stream keeps what it decoded.
        Ok(s.out)
    } else {
        let code = spec_read_code(data, s.bit, s.width);
        let bit = s.bit + s.width;
        if code == clear {
            spec_lzw_run(
                min,
                data,
                expected,
                LzwState { bit, width: min + 1, next: clear + 2, prev: None, ..s },
            )
        } else if code == clear + 1 {
            Ok(s.out)
        } else if !(code < s.next || (code == s.next && s.prev is Some)) {
            Err(GifError::Corrupt)
        } else {
            let (dict, next, width) = match s.prev {
                Some(p) => if s.next < MAX_CODES {
                    // The new entry is the previous sequence plus the first
                    // byte of what is emitted, which in the KwKwK case is the
                    // previous sequence's own first byte.
                    let head = if code == s.next { p } else { code };
                    let n2 = s.next + 1;
                    (
                        s.dict.update(s.next, s.dict[p].push(s.dict[head][0])),
                        n2,
                        if n2 == pow2(s.width) && s.width < MAX_BITS { s.width + 1 } else { s.width },
                    )
                } else {
                    (s.dict, s.next, s.width)
                },
                None => (s.dict, s.next, s.width),
            };
            spec_lzw_run(
                min,
                data,
                expected,
                LzwState { bit, width, next, prev: Some(code), dict, out: s.out + dict[code] },
            )
        }
    }
}

/// `raw` cut or padded with zeros to exactly `n` bytes.
pub open spec fn pad_to(raw: Seq<u8>, n: nat) -> Seq<u8> {
    Seq::new(n, |i: int| if i < raw.len() { raw[i] } else { 0u8 })
}

/// What decoding one LZW stream gives: exactly `expected` indices, or why
/// the stream cannot be decoded.
pub open spec fn spec_lzw_decode(min_code_size: u8, data: Seq<u8>, expected: nat) -> Result<
    Seq<u8>,
    GifError,
> {
    if !(2 <= min_code_size <= 8) {
        Err(GifError::BadHeader)
    } else {
        let clear = pow2(min_code_size as nat);
        let start = LzwState {
            bit: 0,
            width: (min_code_size + 1) as nat,
            next: clear + 2int,
            prev: None,
            dict: lzw_initial_dict(clear),
            out: Seq::empty(),
        };
        match spec_lzw_run(min_code_size as nat, data, expected as int, start) {
            Ok(raw) => Ok(pad_to(raw, expected)),
            Err(e) => Err(e),
        }
    }
}

/// A code of `width` bits is below `2^width`.
pub proof fn lemma_read_code_bound(data: Seq<u8>, bit: int, width: nat)
    ensures
        0 <= spec_read_code(data, bit, width) < pow2(width),
    decreases width,
{
    if width > 0 {
        lemma_read_code_bound(data, bit + 1, (width - 1) as nat);
        let x = data[(bit / 8)];
        let s = (bit % 8) as u8;
        assert((x >> s) & 1u8 <= 1) by (bit_vector);
    }
}

/// Codes are packed least-significant bit first: a code of `w` bits that
/// starts `o` bits into byte `k` and ends inside it is that byte shifted
/// right by `o`, keeping its low `w` bits.
pub proof fn lemma_read_code_in_byte(data: Seq<u8>, k: int, o: nat, w: nat)
    requires
        0 <= k < data.len(),
        o + w <= 8,
    ensures
        spec_read_code(data, 8 * k + o, w) == (data[k] as int / pow2(o) as int) % (pow2(w) as int),
    decreases w,
{
    lemma_pow2_positive(o);
    lemma_pow2_positive(w);
    if w == 0 {
        assert(pow2(0) == 1);
    } else {
        lemma_read_code_in_byte(data, k, o + 1, (w - 1) as nat);
        lemma_pow2_positive((w - 1) as nat);
        let d = data[k];
        let a = d as int / pow2(o) as int;
        let m = pow2((w - 1) as nat) as int;
        assert(pow2(w) == 2 * m);
        assert(pow2(o + 1) == 2 * pow2(o));
        assert((8 * k + o) / 8 == k && (8 * k + o) % 8 == o);
        assert(bit_at(data, 8 * k + o) == ((d >> (o as u8)) & 1u8) as int);
        lemma_shift_bit(d, o as u8);
        assert(((d >> (o as u8)) & 1u8) as int == a % 2);
        assert(d as int / (2 * pow2(o) as int) == a / 2) by {
            vstd::arithmetic::div_mod::lemma_div_denominator(d as int, pow2(o) as int, 2);
        }
        assert(a % (2 * m) == a % 2 + 2 * ((a / 2) % m)) by {
            lemma_mod_split(a, m);
        }
    }
}

/// `2^n` is positive.
proof fn lemma_pow2_positive(n: nat)
    ensures
        pow2(n) >= 1,
    decreases n,
{
    if n > 0 {
        lemma_pow2_positive((n - 1) as nat);
    }
}

/// The low bit of `d` shifted right by `o` is bit `o` of `d` counted from
/// the least significant.
proof fn lemma_shift_bit(d: u8, o: u8)
    requires
        o < 8,
    ensures
        ((d >> o) & 1u8) as int == (d as int / pow2(o as nat) as int) % 2,
{
    reveal_with_fuel(pow2, 9);
    assert(pow2(0) == 1 && pow2(1) == 2 && pow2(2) == 4 && pow2(3) == 8 && pow2(4) == 16 && pow2(5) == 32
        && pow2(6) == 64 && pow2(7) == 128);
    if o == 0 {
        assert((d >> 0u8) & 1u8 == d % 2) by (bit_vector);
    } else if o == 1 {
        assert((d >> 1u8) & 1u8 == (d / 2) % 2) by (bit_vector);
    } else if o == 2 {
        assert((d >> 2u8) & 1u8 == (d / 4) % 2) by (bit_vector);
    } else if o == 3 {
        assert((d >> 3u8) & 1u8 == (d / 8) % 2) by (bit_vector);
    } else if o == 4 {
        assert((d >> 4u8) & 1u8 == (d / 16) % 2) by (bit_vector);
    } else if o == 5 {
        assert((d >> 5u8) & 1u8 == (d / 32) % 2) by (bit_vector);
    } else if o == 6 {
        assert((d >> 6u8) & 1u8 == (d / 64) % 2) by (bit_vector);
    } else {
        assert((d >> 7u8) & 1u8 == (d / 128) % 2) by (bit_vector);
    }
}

/// A number's low bits below `2m` are its lowest bit and then the low bits
/// below `m` of the rest.
proof fn lemma_mod_split(a: int, m: int)
    requires
        a >= 0,
        m >= 1,
    ensures
        a % (2 * m) == a % 2 + 2 * ((a / 2) % m),
{
    let q = a / 2;
    let b = a % 2;
    assert(a == 2 * q + b);
    let r = q % m;
    let t = q / m;
    assert(q == m * t + r && 0 <= r < m) by {
        vstd::arithmetic::div_mod::lemma_fundamental_div_mod(q, m);
    }
    assert(a == (2 * m) * t + (2 * r + b)) by (nonlinear_arith)
        requires
            a == 2 * q + b,
            q == m * t + r,
    ;
    assert(0 <= 2 * r + b < 2 * m);
    vstd::arithmetic::div_mod::lemma_fundamental_div_mod_converse(a, 2 * m, t, 2 * r + b);
}

/// Powers of two up to the twelfth, as the decoder meets them.
pub proof fn lemma_pow2_values()
    ensures
        pow2(2) == 4,
        pow2(3) == 8,
        pow2(12) == 4096,
        forall|n: nat| n < 12 ==> #[trigger] pow2(n + 1) == 2 * pow2(n),
        forall|n: nat| n <= 12 ==> #[trigger] pow2(n) <= 4096,
        forall|n: nat| 1 <= n ==> #[trigger] pow2(n) >= 2,
{
    reveal_with_fuel(pow2, 13);
    assert forall|n: nat| n <= 12 implies #[trigger] pow2(n) <= 4096 by {
        lemma_pow2_mono(n, 12);
    }
    assert forall|n: nat| 1 <= n implies #[trigger] pow2(n) >= 2 by {
        lemma_pow2_mono(1, n);
    }
}

/// Powers of two grow with the exponent.
pub proof fn lemma_pow2_mono(a: nat, b: nat)
    requires
        a <= b,
    ensures
        pow2(a) <= pow2(b),
    decreases b,
{
    if a < b {
        lemma_pow2_mono(a, (b - 1) as nat);
    }
}

/// The invariant tying the flat arrays to the sequences they stand for.
pub open spec fn entry_ok(
    prefix: Seq<u16>,
    suffix: Seq<u8>,
    length: Seq<u16>,
    dict: Seq<Seq<u8>>,
    clear: int,
    c: int,
) -> bool {
    &&& 1 <= length[c] <= c + 1
    &&& dict[c].len() == length[c]
    &&& dict[c].last() == suffix[c]
    &&& c < clear ==> dict[c] == seq![c as u8]
    &&& c >= clear + 2 ==> {
        &&& prefix[c] < c
        &&& (prefix[c] < clear || prefix[c] >= clear + 2)
        &&& dict[c] == dict[prefix[c] as int].push(suffix[c])
    }
}

/// Whether `c` names a live dictionary entry.
pub open spec fn live(clear: int, next: int, c: int) -> bool {
    (0 <= c < clear) || (clear + 2 <= c < next)
}

/// Everything the arrays owe the ghost dictionary.
pub open spec fn dict_ok(
    prefix: Seq<u16>,
    suffix: Seq<u8>,
    length: Seq<u16>,
    dict: Seq<Seq<u8>>,
    clear: int,
    next: int,
) -> bool {
    &&& prefix.len() == MAX_CODES
    &&& suffix.len() == MAX_CODES
    &&& length.len() == MAX_CODES
    &&& dict.len() == MAX_CODES
    &&& forall|c: int| live(clear, next, c) ==> #[trigger] entry_ok(prefix, suffix, length, dict, clear, c)
}

/// Read `width` bits starting at `bit`, least-significant bit first.
///
/// GIF packs codes LSB-first across byte boundaries, which is the opposite of
/// the font atlas and of most image formats; getting it backwards produces
/// plausible-looking noise rather than an error.
fn read_code(data: &[u8], bit: usize, width: u8) -> (res: u16)
    requires
        width <= 12,
        bit + 12 <= usize::MAX,
    ensures
        res == spec_read_code(data@, bit as int, width as nat),
{
    proof {
        lemma_read_code_bound(data@, bit as int, width as nat);
        lemma_pow2_values();
    }
    let mut v: u32 = 0;
    let mut i: u8 = width;
    while i > 0
        invariant
            i <= width,
            width <= 12,
            bit + 12 <= usize::MAX,
            v == spec_read_code(data@, bit + i, (width - i) as nat),
            v < pow2((width - i) as nat),
            pow2((width - i) as nat) <= 4096,
        decreases i,
    {
        i -= 1;
        let idx = bit + i as usize;
        let byte = if idx / 8 < data.len() { data[idx / 8] } else { 0 };
        let sh = (idx % 8) as u8;
        let b = (byte >> sh) & 1;
        assert(b <= 1) by (bit_vector)
            requires
                b == (byte >> sh) & 1u8,
        ;
        assert(sh == ((idx as int) % 8) as u8);
        assert((0u8 >> sh) & 1u8 == 0) by (bit_vector);
        assert(idx / 8 < data.len() ==> byte == data@[(idx as int) / 8]);
        proof {
            lemma_pow2_values();
            assert(pow2((width - i) as nat) == 2 * pow2((width - i - 1) as nat));
            assert(b as int == bit_at(data@, idx as int));
        }
        v = 2 * v + b as u32;
    }
    v as u16
}

/// The first byte of the sequence a code expands to.
fn first_byte(
    prefix: &Vec<u16>,
    suffix: &Vec<u8>,
    length: &Vec<u16>,
    Ghost(dict): Ghost<Seq<Seq<u8>>>,
    clear: u16,
    next: u16,
    code: u16,
) -> (res: u8)
    requires
        dict_ok(prefix@, suffix@, length@, dict, clear as int, next as int),
        live(clear as int, next as int, code as int),
        clear + 2 <= next <= MAX_CODES,
    ensures
        res == dict[code as int][0],
{
    let mut c = code;
    // Every prefix points strictly backwards, so this walk ends.
    loop
        invariant
            dict_ok(prefix@, suffix@, length@, dict, clear as int, next as int),
            live(clear as int, next as int, c as int),
            clear + 2 <= next <= MAX_CODES,
            dict[c as int][0] == dict[code as int][0],
        decreases c,
    {
        assert(entry_ok(prefix@, suffix@, length@, dict, clear as int, c as int));
        if length[c as usize] <= 1 {
            return suffix[c as usize];
        }
        let p = prefix[c as usize];
        assert(entry_ok(prefix@, suffix@, length@, dict, clear as int, p as int));
        assert(dict[c as int][0] == dict[p as int][0]);
        c = p;
    }
}

/// Expand `code` into the front of `stack`. Returns the byte count.
fn expand(
    prefix: &Vec<u16>,
    suffix: &Vec<u8>,
    length: &Vec<u16>,
    Ghost(dict): Ghost<Seq<Seq<u8>>>,
    clear: u16,
    next: u16,
    code: u16,
    stack: &mut Vec<u8>,
) -> (n: usize)
    requires
        dict_ok(prefix@, suffix@, length@, dict, clear as int, next as int),
        live(clear as int, next as int, code as int),
        clear + 2 <= next <= MAX_CODES,
        old(stack)@.len() == MAX_CODES,
    ensures
        n == dict[code as int].len(),
        1 <= n <= MAX_CODES,
        final(stack)@.len() == MAX_CODES,
        final(stack)@.subrange(0, n as int) == dict[code as int],
{
    assert(entry_ok(prefix@, suffix@, length@, dict, clear as int, code as int));
    let n = length[code as usize] as usize;
    let ghost want = dict[code as int];
    let mut c = code;
    let mut i = n;
    // Written back to front because an entry is defined by its *last* byte;
    // knowing the length up front is what lets it land in place.
    while i > 0
        invariant
            dict_ok(prefix@, suffix@, length@, dict, clear as int, next as int),
            clear + 2 <= next <= MAX_CODES,
            stack@.len() == MAX_CODES,
            n == want.len(),
            n <= MAX_CODES,
            i <= n,
            i > 0 ==> live(clear as int, next as int, c as int) && dict[c as int] == want.subrange(0, i as int),
            forall|k: int| i <= k < n ==> #[trigger] stack@[k] == want[k],
        decreases i,
    {
        assert(entry_ok(prefix@, suffix@, length@, dict, clear as int, c as int));
        i -= 1;
        stack.set(i, suffix[c as usize]);
        if i > 0 {
            let p = prefix[c as usize];
            assert(dict[c as int].len() >= 2);
            assert(c >= clear + 2);
            assert(dict[p as int] == dict[c as int].drop_last());
            assert(want.subrange(0, i as int) == want.subrange(0, i + 1).drop_last());
            c = p;
        }
    }
    assert(stack@.subrange(0, n as int) =~= want);
    n
}

/// Decode one LZW stream into indices.
///
/// `min_code_size` is the byte that precedes the image's sub-blocks, and
/// `data` is those sub-blocks already concatenated. `expected` is how many
/// pixels the frame should contain; decoding stops there even if the stream
/// would go on, so a corrupt file cannot make the output grow without bound.
/// A stream that runs out early is padded with index 0, so one damaged frame
/// does not lose the whole animation.
pub fn decode(min_code_size: u8, data: &[u8], expected: usize) -> (res: Result<Vec<u8>, GifError>)
    requires
        data@.len() * 8 + 16 <= usize::MAX,
    ensures
        match res {
            Ok(v) => spec_lzw_decode(min_code_size, data@, expected as nat) == Ok::<Seq<u8>, GifError>(v@),
            Err(e) => spec_lzw_decode(min_code_size, data@, expected as nat) == Err::<Seq<u8>, GifError>(e),
        },
{
    // 2..=8: one bit is degenerate and more than eight cannot index a palette.
    if !(2 <= min_code_size && min_code_size <= 8) {
        return Err(GifError::BadHeader);
    }
    proof {
        lemma_pow2_values();
    }
    let mut clear: u16 = 1;
    let mut k: u8 = 0;
    while k < min_code_size
        invariant
            k <= min_code_size <= 8,
            clear == pow2(k as nat),
        decreases min_code_size - k,
    {
        proof {
            lemma_pow2_values();
            lemma_pow2_mono(k as nat + 1, 8);
            reveal_with_fuel(pow2, 9);
        }
        clear = clear * 2;
        k += 1;
    }
    proof {
        lemma_pow2_mono(min_code_size as nat, 8);
        reveal_with_fuel(pow2, 9);
    }
    let end = clear + 1;
    let first_free = end + 1;

    let mut prefix: Vec<u16> = Vec::with_capacity(MAX_CODES);
    let mut suffix: Vec<u8> = Vec::with_capacity(MAX_CODES);
    // Length is carried so an entry can be emitted back-to-front into a buffer
    // sized exactly, rather than reversed after the fact.
    let mut length: Vec<u16> = Vec::with_capacity(MAX_CODES);
    let mut stack: Vec<u8> = Vec::with_capacity(MAX_CODES);
    let ghost dict0 = lzw_initial_dict(clear as nat);
    let mut j: usize = 0;
    while j < MAX_CODES
        invariant
            j <= MAX_CODES,
            clear <= 256,
            prefix@.len() == j,
            suffix@.len() == j,
            length@.len() == j,
            stack@.len() == j,
            dict0 == lzw_initial_dict(clear as nat),
            forall|c: int| 0 <= c < j && c < clear ==> {
                &&& #[trigger] length@[c] == 1
                &&& suffix@[c] == c as u8
            },
        decreases MAX_CODES - j,
    {
        let ghost old_len = length@;
        let ghost old_suf = suffix@;
        prefix.push(0);
        if j < clear as usize {
            suffix.push(j as u8);
            length.push(1);
        } else {
            suffix.push(0);
            length.push(0);
        }
        stack.push(0);
        assert(forall|c: int| 0 <= c < j ==> length@[c] == old_len[c] && suffix@[c] == old_suf[c]);
        j += 1;
    }
    assert(dict_ok(prefix@, suffix@, length@, dict0, clear as int, first_free as int)) by {
        assert forall|c: int| live(clear as int, first_free as int, c) implies #[trigger] entry_ok(
            prefix@,
            suffix@,
            length@,
            dict0,
            clear as int,
            c,
        ) by {
            assert(length@[c] == 1);
        }
    }

    let mut out: Vec<u8> = Vec::with_capacity(expected);
    let mut width: u8 = min_code_size + 1;
    let mut next: u16 = first_free;
    let mut prev: Option<u16> = None;
    let mut bit: usize = 0;
    let total_bits = data.len() * 8;
    let ghost mut dict = dict0;
    let ghost start = LzwState {
        bit: 0,
        width: (min_code_size + 1) as nat,
        next: first_free as int,
        prev: None,
        dict: dict0,
        out: Seq::empty(),
    };

    while out.len() < expected
        invariant_except_break
            spec_lzw_run(
                min_code_size as nat,
                data@,
                expected as int,
                LzwState {
                    bit: bit as int,
                    width: width as nat,
                    next: next as int,
                    prev: match prev { Some(p) => Some(p as int), None => None },
                    dict,
                    out: out@,
                },
            ) == spec_lzw_run(min_code_size as nat, data@, expected as int, start),
        invariant
            2 <= min_code_size <= 8,
            clear == pow2(min_code_size as nat),
            end == clear + 1,
            first_free == clear + 2,
            dict0 == lzw_initial_dict(clear as nat),
            total_bits == data@.len() * 8,
            data@.len() * 8 + 16 <= usize::MAX,
            min_code_size + 1 <= width <= MAX_BITS,
            first_free <= next <= MAX_CODES,
            bit <= total_bits,
            stack@.len() == MAX_CODES,
            dict_ok(prefix@, suffix@, length@, dict, clear as int, next as int),
            prev matches Some(p) ==> live(clear as int, next as int, p as int),
            start == (LzwState {
                bit: 0,
                width: (min_code_size + 1) as nat,
                next: first_free as int,
                prev: None,
                dict: dict0,
                out: Seq::empty(),
            }),
        ensures
            spec_lzw_run(min_code_size as nat, data@, expected as int, start) == Ok::<Seq<u8>, GifError>(out@),
        decreases total_bits - bit,
    {
        let ghost cur = LzwState {
            bit: bit as int,
            width: width as nat,
            next: next as int,
            prev: match prev { Some(p) => Some(p as int), None => None },
            dict,
            out: out@,
        };
        if total_bits - bit < width as usize {
            // Ran out of input before the frame was full. A truncated GIF is
            // common enough in the wild that the partial frame is worth more
            // than an error; the caller pads whatever is missing.
            break;
        }
        let code = read_code(data, bit, width);
        proof {
            lemma_read_code_bound(data@, bit as int, width as nat);
            lemma_pow2_values();
        }
        bit += width as usize;

        if code == clear {
            width = min_code_size + 1;
            next = first_free;
            prev = None;
            assert(dict_ok(prefix@, suffix@, length@, dict, clear as int, next as int)) by {
                assert forall|c: int| live(clear as int, next as int, c) implies #[trigger] entry_ok(
                    prefix@,
                    suffix@,
                    length@,
                    dict,
                    clear as int,
                    c,
                ) by {
                    assert(live(clear as int, cur.next, c));
                }
            }
            continue;
        }
        if code == end {
            break;
        }
        let valid = (code < next) || (code == next && prev.is_some());
        if !valid {
            assert(spec_lzw_run(min_code_size as nat, data@, expected as int, cur) == Err::<Seq<u8>, GifError>(GifError::Corrupt));
            assert(spec_lzw_run(min_code_size as nat, data@, expected as int, start) == Err::<Seq<u8>, GifError>(GifError::Corrupt));
            return Err(GifError::Corrupt);
        }
        // Build the new entry *before* expanding, so the KwKwK slot exists.
        if let Some(p) = prev {
            if (next as usize) < MAX_CODES {
                let head = if code == next { p } else { code };
                let fb = first_byte(&prefix, &suffix, &length, Ghost(dict), clear, next, head);
                let ghost old_pre = prefix@;
                let ghost old_suf = suffix@;
                let ghost old_len = length@;
                let ghost old_dict = dict;
                assert(entry_ok(prefix@, suffix@, length@, dict, clear as int, p as int));
                prefix.set(next as usize, p);
                suffix.set(next as usize, fb);
                let lp = length[p as usize];
                length.set(next as usize, lp + 1);
                proof {
                    dict = dict.update(next as int, dict[p as int].push(fb));
                    assert forall|c: int| live(clear as int, next + 1, c) implies #[trigger] entry_ok(
                        prefix@,
                        suffix@,
                        length@,
                        dict,
                        clear as int,
                        c,
                    ) by {
                        if c != next {
                            assert(entry_ok(old_pre, old_suf, old_len, old_dict, clear as int, c));
                            if c >= clear + 2 {
                                assert(old_pre[c] < c);
                            }
                        }
                    }
                }
                next += 1;
                // The width grows only while there is room for it. Past 12
                // bits an encoder keeps emitting at the maximum until it
                // sends a clear, and refusing that breaks common files.
                proof {
                    lemma_pow2_mono(width as nat, 12);
                }
                if next as usize == pow2_of(width) && width < MAX_BITS {
                    width += 1;
                }
            }
        }
        let n = expand(&prefix, &suffix, &length, Ghost(dict), clear, next, code, &mut stack);
        let ghost before = out@;
        let mut t: usize = 0;
        while t < n
            invariant
                t <= n,
                n <= MAX_CODES,
                stack@.len() == MAX_CODES,
                out@ == before + stack@.subrange(0, t as int),
            decreases n - t,
        {
            out.push(stack[t]);
            t += 1;
            assert(out@ == before + stack@.subrange(0, t as int));
        }
        // `code` is now always a valid entry: either it already was, or the
        // KwKwK branch above just created it.
        prev = Some(code);
        assert(out@ == cur.out + dict[code as int]);
    }
    let ghost raw = out@;

    // A short frame is padded with the background index rather than rejected.
    let mut res: Vec<u8> = Vec::with_capacity(expected);
    let mut q: usize = 0;
    while q < expected
        invariant
            q <= expected,
            res@ == pad_to(raw, expected as nat).subrange(0, q as int),
            out@ == raw,
        decreases expected - q,
    {
        if q < out.len() {
            res.push(out[q]);
        } else {
            res.push(0);
        }
        q += 1;
        assert(res@ =~= pad_to(raw, expected as nat).subrange(0, q as int));
    }
    assert(res@ =~= pad_to(raw, expected as nat));
    Ok(res)
}

/// `2^w` for a width of at most twelve bits.
fn pow2_of(w: u8) -> (res: usize)
    requires
        w <= 12,
    ensures
        res == pow2(w as nat),
{
    let mut r: usize = 1;
    let mut k: u8 = 0;
    while k < w
        invariant
            k <= w <= 12,
            r == pow2(k as nat),
        decreases w - k,
    {
        proof {
            lemma_pow2_values();
        }
        r = r * 2;
        k += 1;
    }
    r
}

/// A run of codes fails only on a code the dictionary cannot explain.
proof fn lemma_run_fails_only_corrupt(min: nat, data: Seq<u8>, expected: int, s: LzwState)
    requires
        s.width >= 1,
    ensures
        spec_lzw_run(min, data, expected, s) matches Err(e) ==> e == GifError::Corrupt,
    decreases data.len() * 8 - s.bit,
{
    let clear = pow2(min) as int;
    if !(s.out.len() >= expected) && !(s.bit + s.width > data.len() * 8) {
        let code = spec_read_code(data, s.bit, s.width);
        let bit = s.bit + s.width;
        if code == clear {
            lemma_run_fails_only_corrupt(
                min,
                data,
                expected,
                LzwState { bit, width: min + 1, next: clear + 2, prev: None, ..s },
            );
        } else if code == clear + 1 {
        } else if !(code < s.next || (code == s.next && s.prev is Some)) {
        } else {
            let (dict, next, width) = match s.prev {
                Some(p) => if s.next < MAX_CODES {
                    let head = if code == s.next { p } else { code };
                    let n2 = s.next + 1;
                    (
                        s.dict.update(s.next, s.dict[p].push(s.dict[head][0])),
                        n2,
                        if n2 == pow2(s.width) && s.width < MAX_BITS { s.width + 1 } else { s.width },
                    )
                } else {
                    (s.dict, s.next, s.width)
                },
                None => (s.dict, s.next, s.width),
            };
            lemma_run_fails_only_corrupt(
                min,
                data,
                expected,
                LzwState { bit, width, next, prev: Some(code), dict, out: s.out + dict[code] },
            );
        }
    }
}

/// One code that is neither clear nor end, read after a previous code `p`
/// while the dictionary has room: the output grows by that code's sequence
/// (its dictionary entry, or, for the code about to be created, `p`'s
/// sequence followed by `p`'s own first byte), and the entry created is
/// `p`'s sequence followed by the first byte of what was just emitted.
/// The width grows by one bit when the next free code reaches it, up to
/// twelve bits.
pub proof fn lemma_lzw_entry(min: nat, data: Seq<u8>, expected: int, s: LzwState)
    requires
        s.width >= 1,
        s.out.len() < expected,
        s.bit + s.width <= data.len() * 8,
        s.prev is Some,
        0 <= s.next < MAX_CODES,
        s.dict.len() == MAX_CODES,
    ensures
        ({
            let code = spec_read_code(data, s.bit, s.width);
            let clear = pow2(min) as int;
            let p = s.prev->Some_0;
            let emitted = if code < s.next {
                s.dict[code]
            } else {
                s.dict[p].push(s.dict[p][0])
            };
            let n2 = s.next + 1;
            code != clear && code != clear + 1 && code <= s.next ==> spec_lzw_run(min, data, expected, s)
                == spec_lzw_run(
                min,
                data,
                expected,
                LzwState {
                    bit: s.bit + s.width,
                    width: if n2 == pow2(s.width) && s.width < MAX_BITS {
                        s.width + 1
                    } else {
                        s.width
                    },
                    next: n2,
                    prev: Some(code),
                    dict: s.dict.update(s.next, s.dict[p].push(emitted[0])),
                    out: s.out + emitted,
                },
            )
        }),
{
    let code = spec_read_code(data, s.bit, s.width);
    let p = s.prev->Some_0;
    lemma_read_code_bound(data, s.bit, s.width);
    let head = if code == s.next { p } else { code };
    let dict = s.dict.update(s.next, s.dict[p].push(s.dict[head][0]));
    if code == s.next {
        let e = s.dict[p].push(s.dict[p][0]);
        assert(e[0] == s.dict[p][0]);
        assert(dict[code] == e);
    } else if code < s.next {
        assert(dict[code] == s.dict[code]);
    }
}

/// The codes that make no entry. A clear code (`2^min`) starts over at
/// `min + 1` bits with no previous code and the first free slot two past it;
/// the end code after it stops with what was decoded; a code past the next
/// free slot, or at it with no previous code, is `Corrupt`; and a code with
/// no previous code emits its own entry and leaves the dictionary alone.
pub proof fn lemma_lzw_codes_without_entry(min: nat, data: Seq<u8>, expected: int, s: LzwState)
    requires
        s.width >= 1,
        s.out.len() < expected,
        s.bit + s.width <= data.len() * 8,
    ensures
        ({
            let code = spec_read_code(data, s.bit, s.width);
            let clear = pow2(min) as int;
            let run = spec_lzw_run(min, data, expected, s);
            &&& code == clear ==> run == spec_lzw_run(
                min,
                data,
                expected,
                LzwState { bit: s.bit + s.width, width: min + 1, next: clear + 2, prev: None, ..s },
            )
            &&& code == clear + 1 ==> run == Ok::<Seq<u8>, GifError>(s.out)
            &&& code != clear && code != clear + 1 && (code > s.next || (code == s.next && s.prev is None))
                ==> run == Err::<Seq<u8>, GifError>(GifError::Corrupt)
            &&& code != clear && code != clear + 1 && code < s.next && s.prev is None ==> run
                == spec_lzw_run(
                min,
                data,
                expected,
                LzwState { bit: s.bit + s.width, prev: Some(code), out: s.out + s.dict[code], ..s },
            )
        }),
{
}

/// Before any code, every code below `2^min` stands for the one index it
/// names, so a stream that opens with a clear and a literal `c` starts its
/// output with `c`.
pub proof fn lemma_lzw_literals(clear: nat, c: int)
    requires
        0 <= c < clear,
        clear <= MAX_CODES,
    ensures
        lzw_initial_dict(clear)[c] == seq![c as u8],
        lzw_initial_dict(clear).len() == MAX_CODES,
{
}

/// Decoding a stream fails with `BadHeader` exactly when the code size is
/// outside `2..=8`, and otherwise only with `Corrupt`; what it gives is
/// always exactly `expected` indices long.
pub proof fn lemma_lzw_outcomes(min_code_size: u8, data: Seq<u8>, expected: nat)
    ensures
        (spec_lzw_decode(min_code_size, data, expected) == Err::<Seq<u8>, GifError>(GifError::BadHeader)) <==> !(2
            <= min_code_size <= 8),
        spec_lzw_decode(min_code_size, data, expected) matches Err(e) ==> e == GifError::BadHeader || e
            == GifError::Corrupt,
        spec_lzw_decode(min_code_size, data, expected) matches Ok(v) ==> v.len() == expected,
{
    if 2 <= min_code_size <= 8 {
        let clear = pow2(min_code_size as nat);
        let start = LzwState {
            bit: 0,
            width: (min_code_size + 1) as nat,
            next: clear + 2int,
            prev: None,
            dict: lzw_initial_dict(clear),
            out: Seq::empty(),
        };
        lemma_run_fails_only_corrupt(min_code_size as nat, data, expected as int, start);
    }
}

} // verus!
