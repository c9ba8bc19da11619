//! Hash encoding and comparison, plus the integer parts of the scan:
//! border trimming, the decode memory budget and the scan worker count.
//!
//! A perceptual hash is 256 bits held as four `u64` words and written as 64
//! lowercase hex characters (16 per word, most significant digit first).
//! Decoding accepts what `u64::from_str_radix(_, 16)` accepts for each
//! 16-character chunk: hex digits of either case, optionally after one `+`.
use vstd::prelude::*;
use vstd::arithmetic::div_mod::*;
use vstd::utf8::*;
use vstd::string::*;
use crate::Photo;

verus! {

/// 256-bit perceptual hash: four words.
pub type Hash256 = [u64; 4];

/// Why a hash text could not be decoded.
#[derive(Debug, Clone, Copy, PartialEq, Eq)]
pub enum HexError {
    /// The text is not 64 bytes long (the byte length is given).
    Length(usize),
    /// A 16-byte chunk is not a hexadecimal number.
    Digits,
}

// ---------------------------------------------------------------------------
// Specification of the text form
// ---------------------------------------------------------------------------

/// `16^k`.
pub open spec fn pow16(k: nat) -> nat
    decreases k,
{
    if k == 0 { 1 } else { 16 * pow16((k - 1) as nat) }
}

/// Value of one hex digit byte (either case).
pub open spec fn hex_digit(b: u8) -> Option<nat> {
    if 48 <= b <= 57 {
        Some((b - 48) as nat)
    } else if 97 <= b <= 102 {
        Some((b - 87) as nat)
    } else if 65 <= b <= 70 {
        Some((b - 55) as nat)
    } else {
        None
    }
}

/// All bytes are hex digits.
pub open spec fn all_hex(d: Seq<u8>) -> bool {
    forall|i: int| 0 <= i < d.len() ==> (#[trigger] hex_digit(d[i])) is Some
}

/// The number the hex digits `d` denote (most significant first).
pub open spec fn hex_number(d: Seq<u8>) -> nat
    decreases d.len(),
{
    if d.len() == 0 {
        0
    } else {
        16 * hex_number(d.drop_last()) + hex_digit(d.last()).unwrap_or(0)
    }
}

/// What `u64::from_str_radix(c, 16)` returns for the bytes `c`: an optional
/// leading `+`, then at least one hex digit, the value fitting in 64 bits.
pub open spec fn parse_hex_u64(c: Seq<u8>) -> Option<u64> {
    let digits = if c.len() > 0 && c[0] == 43 { c.drop_first() } else { c };
    if digits.len() == 0 || !all_hex(digits) || hex_number(digits) > u64::MAX {
        None
    } else {
        Some(hex_number(digits) as u64)
    }
}

/// Decoding of a hash text given as its bytes.
pub open spec fn decode_hash(b: Seq<u8>) -> Result<Seq<u64>, HexError> {
    if b.len() != 64 {
        Err(HexError::Length(b.len() as usize))
    } else if (exists|k: int| 0 <= k < 4 && (#[trigger] parse_hex_u64(b.subrange(16 * k, 16 * k + 16))) is None) {
        Err(HexError::Digits)
    } else {
        Ok(Seq::new(4, |k: int| parse_hex_u64(b.subrange(16 * k, 16 * k + 16)).unwrap()))
    }
}

/// The lowercase hex digit characters.
pub open spec fn hex_chars() -> Seq<char> {
    seq!['0', '1', '2', '3', '4', '5', '6', '7', '8', '9', 'a', 'b', 'c', 'd', 'e', 'f']
}

/// The last `k` hex digits of `x`, most significant first, zero-padded.
pub open spec fn hex_lower(x: nat, k: nat) -> Seq<char>
    decreases k,
{
    if k == 0 {
        Seq::empty()
    } else {
        hex_lower(x / 16, (k - 1) as nat).push(hex_chars()[(x % 16) as int])
    }
}

/// The text form of a hash: each word as 16 lowercase hex digits.
pub open spec fn hash_text(h: Seq<u64>) -> Seq<char> {
    hex_lower(h[0] as nat, 16) + hex_lower(h[1] as nat, 16) + hex_lower(h[2] as nat, 16)
        + hex_lower(h[3] as nat, 16)
}

// ---------------------------------------------------------------------------
// Encoding
// ---------------------------------------------------------------------------

proof fn lemma_hex_lower_ascii(x: nat, k: nat)
    ensures
        hex_lower(x, k).len() == k,
        is_ascii_chars(hex_lower(x, k)),
    decreases k,
{
    if k > 0 {
        lemma_hex_lower_ascii(x / 16, (k - 1) as nat);
        let d = hex_lower(x / 16, (k - 1) as nat);
        assert(hex_lower(x, k) == d.push(hex_chars()[(x % 16) as int]));
        assert forall|i: int| 0 <= i < hex_lower(x, k).len() implies '\0' <= #[trigger] hex_lower(x, k)[i] <= '\u{7f}' by {
            if i < d.len() {
                assert(hex_lower(x, k)[i] == d[i]);
            }
        }
    }
}

/// Appends the last `k` hex digits of `x`.
pub(crate) fn push_hex(out: &mut String, x: u64, k: usize)
    ensures
        final(out)@ == old(out)@ + hex_lower(x as nat, k as nat),
    decreases k,
{
    if k == 0 {
        assert(old(out)@ + hex_lower(x as nat, 0) =~= old(out)@);
        return;
    }
    push_hex(out, x / 16, k - 1);
    let digits = "0123456789abcdef";
    proof {
        reveal_strlit("0123456789abcdef");
        assert(digits@ =~= hex_chars());
    }
    let d = (x % 16) as usize;
    let one = digits.substring_char(d, d + 1);
    let ghost before = out@;
    out.append(one);
    proof {
        assert(one@ =~= seq![hex_chars()[d as int]]);
        assert(out@ =~= old(out)@ + hex_lower(x as nat, k as nat));
    }
}

/// The 64-character lowercase hex text of a hash.
pub fn hash_to_hex(h: &Hash256) -> (r: String)
    ensures
        r@ == hash_text(h@),
        is_ascii_chars(r@),
{
    let mut out = String::new();
    push_hex(&mut out, h[0], 16);
    push_hex(&mut out, h[1], 16);
    push_hex(&mut out, h[2], 16);
    push_hex(&mut out, h[3], 16);
    proof {
        assert(out@ =~= hash_text(h@));
        lemma_hex_lower_ascii(h@[0] as nat, 16);
        lemma_hex_lower_ascii(h@[1] as nat, 16);
        lemma_hex_lower_ascii(h@[2] as nat, 16);
        lemma_hex_lower_ascii(h@[3] as nat, 16);
        assert forall|i: int| 0 <= i < out@.len() implies '\0' <= #[trigger] out@[i] <= '\u{7f}' by {
            let a = hex_lower(h@[0] as nat, 16);
            let b = hex_lower(h@[1] as nat, 16);
            let c = hex_lower(h@[2] as nat, 16);
            let d = hex_lower(h@[3] as nat, 16);
            if i < 16 {
                assert(out@[i] == a[i]);
            } else if i < 32 {
                assert(out@[i] == b[i - 16]);
            } else if i < 48 {
                assert(out@[i] == c[i - 32]);
            } else {
                assert(out@[i] == d[i - 48]);
            }
        }
    }
    out
}

} // verus!

verus! {

// ---------------------------------------------------------------------------
// Decoding
// ---------------------------------------------------------------------------

proof fn lemma_hex_number_bound(d: Seq<u8>)
    requires
        all_hex(d),
    ensures
        hex_number(d) < pow16(d.len()),
    decreases d.len(),
{
    if d.len() > 0 {
        let init = d.drop_last();
        assert(all_hex(init)) by {
            assert forall|i: int| 0 <= i < init.len() implies (#[trigger] hex_digit(init[i])) is Some by {
                assert(init[i] == d[i]);
            }
        }
        lemma_hex_number_bound(init);
        assert(hex_digit(d[d.len() - 1]) is Some);
        let v = hex_digit(d.last()).unwrap();
        assert(v < 16);
        assert(16 * hex_number(init) + v < 16 * pow16(init.len())) by (nonlinear_arith)
            requires hex_number(init) < pow16(init.len()), v < 16;
    }
}

proof fn lemma_pow16_monotone(a: nat, b: nat)
    requires
        a <= b,
    ensures
        pow16(a) <= pow16(b),
    decreases b,
{
    if a < b {
        lemma_pow16_monotone(a, (b - 1) as nat);
    }
}

proof fn lemma_pow16_16()
    ensures
        pow16(16) == 0x1_0000_0000_0000_0000,
{
    reveal_with_fuel(pow16, 17);
}

fn hex_digit_value(b: u8) -> (r: Option<u64>)
    ensures
        match r {
            Some(v) => hex_digit(b) == Some(v as nat),
            None => hex_digit(b) is None,
        },
{
    if 48 <= b && b <= 57 {
        Some((b - 48) as u64)
    } else if 97 <= b && b <= 102 {
        Some((b - 87) as u64)
    } else if 65 <= b && b <= 70 {
        Some((b - 55) as u64)
    } else {
        None
    }
}

/// `u64::from_str_radix` on the 16 bytes `b[start..start + 16]`.
fn parse_chunk(b: &[u8], start: usize) -> (r: Option<u64>)
    requires
        b@.len() == 64,
        start <= 48,
    ensures
        r == parse_hex_u64(b@.subrange(start as int, start + 16)),
{
    let ghost c = b@.subrange(start as int, start + 16);
    let first = if b[start] == 43 { start + 1 } else { start };
    let ghost digits = b@.subrange(first as int, start + 16);
    assert(digits =~= (if c.len() > 0 && c[0] == 43 { c.drop_first() } else { c }));
    let mut acc: u64 = 0;
    let mut i = first;
    while i < start + 16
        invariant
            start <= first <= i <= start + 16,
            first <= start + 1,
            b@.len() == 64,
            start <= 48,
            digits == b@.subrange(first as int, start + 16),
            c == b@.subrange(start as int, start + 16),
            digits == (if c.len() > 0 && c[0] == 43 { c.drop_first() } else { c }),
            all_hex(b@.subrange(first as int, i as int)),
            acc == hex_number(b@.subrange(first as int, i as int)),
        decreases start + 16 - i,
    {
        let ghost done = b@.subrange(first as int, i as int);
        let ghost next = b@.subrange(first as int, i + 1);
        assert(next.drop_last() =~= done);
        match hex_digit_value(b[i]) {
            None => {
                assert(digits[i - first] == b@[i as int]);
                assert(hex_digit(digits[i - first]) is None);
                assert(!all_hex(digits));
                return None;
            },
            Some(v) => {
                proof {
                    lemma_hex_number_bound(done);
                    lemma_pow16_monotone(done.len(), 15);
                    lemma_pow16_16();
                    assert(pow16(16) == 16 * pow16(15));
                    assert(acc * 16 + v < 0x1_0000_0000_0000_0000) by (nonlinear_arith)
                        requires acc < pow16(15), v < 16, pow16(16) == 16 * pow16(15), pow16(16) == 0x1_0000_0000_0000_0000;
                    assert forall|j: int| 0 <= j < next.len() implies (#[trigger] hex_digit(next[j])) is Some by {
                        if j < done.len() {
                            assert(next[j] == done[j]);
                        }
                    }
                }
                acc = acc * 16 + v;
                i = i + 1;
            },
        }
    }
    proof {
        assert(b@.subrange(first as int, i as int) =~= digits);
        lemma_hex_number_bound(digits);
        lemma_pow16_monotone(digits.len(), 16);
        lemma_pow16_16();
    }
    if first == start + 16 {
        return None;
    }
    Some(acc)
}

/// Decode a 64-character hex hash text.
pub fn hash_from_hex(s: &str) -> (r: Result<Hash256, HexError>)
    ensures
        match r {
            Ok(h) => decode_hash(s.spec_bytes()) == Ok::<Seq<u64>, HexError>(h@),
            Err(e) => decode_hash(s.spec_bytes()) == Err::<Seq<u64>, HexError>(e),
        },
{
    let b = s.as_bytes();
    let n = b.len();
    if n != 64 {
        return Err(HexError::Length(n));
    }
    let mut out: [u64; 4] = [0, 0, 0, 0];
    let mut k: usize = 0;
    while k < 4
        invariant
            b@ == s.spec_bytes(),
            b@.len() == 64,
            k <= 4,
            out@.len() == 4,
            forall|j: int| 0 <= j < k ==> parse_hex_u64(#[trigger] b@.subrange(16 * j, 16 * j + 16)) == Some(out@[j]),
        decreases 4 - k,
    {
        match parse_chunk(b, 16 * k) {
            None => {
                assert(parse_hex_u64(b@.subrange(16 * k as int, 16 * k as int + 16)) is None);
                return Err(HexError::Digits);
            },
            Some(v) => {
                out[k] = v;
                k = k + 1;
            },
        }
    }
    proof {
        assert(out@ =~= Seq::new(4, |j: int| parse_hex_u64(b@.subrange(16 * j, 16 * j + 16)).unwrap()));
    }
    Ok(out)
}

} // verus!

verus! {

// ---------------------------------------------------------------------------
// Round trip
// ---------------------------------------------------------------------------

/// The bytes of an ASCII text.
pub open spec fn ascii_bytes(cs: Seq<char>) -> Seq<u8> {
    cs.map_values(|c: char| c as u8)
}

proof fn lemma_hex_char_digit(v: int)
    requires
        0 <= v < 16,
    ensures
        hex_digit(hex_chars()[v] as u8) == Some(v as nat),
        hex_chars()[v] as u8 != 43,
{
}

proof fn lemma_pow16_positive(k: nat)
    ensures
        pow16(k) > 0,
    decreases k,
{
    if k > 0 {
        lemma_pow16_positive((k - 1) as nat);
    }
}

proof fn lemma_hex_lower_value(x: nat, k: nat)
    ensures
        all_hex(ascii_bytes(hex_lower(x, k))),
        hex_number(ascii_bytes(hex_lower(x, k))) == x % pow16(k),
        ascii_bytes(hex_lower(x, k)).len() == k,
    decreases k,
{
    if k == 0 {
        assert(ascii_bytes(hex_lower(x, k)) =~= Seq::<u8>::empty());
    } else {
        let prev = ascii_bytes(hex_lower(x / 16, (k - 1) as nat));
        let cur = ascii_bytes(hex_lower(x, k));
        let v = (x % 16) as int;
        lemma_hex_lower_value(x / 16, (k - 1) as nat);
        lemma_hex_char_digit(v);
        assert(cur =~= prev.push(hex_chars()[v] as u8));
        assert(cur.drop_last() =~= prev);
        assert forall|i: int| 0 <= i < cur.len() implies (#[trigger] hex_digit(cur[i])) is Some by {
            if i < prev.len() {
                assert(cur[i] == prev[i]);
            }
        }
        lemma_pow16_positive((k - 1) as nat);
        lemma_breakdown(x as int, 16, pow16((k - 1) as nat) as int);
    }
}

/// A lowercase hexadecimal digit.
pub open spec fn lower_hex_char(c: char) -> bool {
    ('0' <= c && c <= '9') || ('a' <= c && c <= 'f')
}

proof fn lemma_char_of_digit(c: char)
    requires
        lower_hex_char(c),
    ensures
        hex_digit(c as u8) is Some,
        hex_digit(c as u8)->Some_0 < 16,
        hex_chars()[hex_digit(c as u8)->Some_0 as int] == c,
{
    let v = if c <= '9' { c as int - 48 } else { c as int - 87 };
    assert(0 <= v < 16);
    lemma_hex_char_digit(v);
    assert(hex_chars()[v] == c) by {
        if v == 0 { assert(c == '0'); } else if v == 1 { assert(c == '1'); } else if v == 2 { assert(c == '2'); }
        else if v == 3 { assert(c == '3'); } else if v == 4 { assert(c == '4'); } else if v == 5 { assert(c == '5'); }
        else if v == 6 { assert(c == '6'); } else if v == 7 { assert(c == '7'); } else if v == 8 { assert(c == '8'); }
        else if v == 9 { assert(c == '9'); } else if v == 10 { assert(c == 'a'); } else if v == 11 { assert(c == 'b'); }
        else if v == 12 { assert(c == 'c'); } else if v == 13 { assert(c == 'd'); } else if v == 14 { assert(c == 'e'); }
        else { assert(c == 'f'); }
    }
}

proof fn lemma_digits_text(cs: Seq<char>)
    requires
        forall|i: int| 0 <= i < cs.len() ==> lower_hex_char(#[trigger] cs[i]),
    ensures
        all_hex(ascii_bytes(cs)),
        hex_lower(hex_number(ascii_bytes(cs)), cs.len()) == cs,
    decreases cs.len(),
{
    if cs.len() == 0 {
        assert(hex_lower(hex_number(ascii_bytes(cs)), 0) =~= cs);
    } else {
        let init = cs.drop_last();
        let c = cs.last();
        assert forall|i: int| 0 <= i < init.len() implies lower_hex_char(#[trigger] init[i]) by {
            assert(init[i] == cs[i]);
        }
        lemma_digits_text(init);
        lemma_char_of_digit(c);
        let b = ascii_bytes(cs);
        assert(b.drop_last() =~= ascii_bytes(init));
        assert(b.last() == c as u8);
        let a = hex_number(ascii_bytes(init));
        let d = hex_digit(c as u8)->Some_0;
        assert(hex_number(b) == 16 * a + d);
        assert((16 * a + d) / 16 == a && (16 * a + d) % 16 == d) by (nonlinear_arith)
            requires d < 16;
        assert(hex_lower(hex_number(b), cs.len()) =~= hex_lower(a, init.len()).push(hex_chars()[d as int]));
        assert(init.push(c) =~= cs);
        assert forall|i: int| 0 <= i < b.len() implies (#[trigger] hex_digit(b[i])) is Some by {
            if i < init.len() {
                assert(b[i] == ascii_bytes(init)[i]);
            }
        }
    }
}

/// A 64-digit lowercase hexadecimal text decodes, and the text form of what
/// it decodes to is the text itself.
pub proof fn lemma_hex_text_round_trip(s: Seq<char>)
    requires
        s.len() == 64,
        forall|i: int| 0 <= i < s.len() ==> lower_hex_char(#[trigger] s[i]),
    ensures
        decode_hash(encode_utf8(s)) is Ok,
        hash_text(decode_hash(encode_utf8(s))->Ok_0) == s,
{
    assert(is_ascii_chars(s)) by {
        assert forall|i: int| 0 <= i < s.len() implies '\0' <= #[trigger] s[i] <= '\u{7f}' by {
            assert(lower_hex_char(s[i]));
        }
    }
    is_ascii_chars_encode_utf8(s);
    let b = encode_utf8(s);
    assert(b =~= ascii_bytes(s));
    lemma_pow16_16();
    assert forall|k: int| 0 <= k < 4 implies #[trigger] parse_hex_u64(b.subrange(16 * k, 16 * k + 16))
        == Some(hex_number(ascii_bytes(s.subrange(16 * k, 16 * k + 16))) as u64) by {
        let part = s.subrange(16 * k, 16 * k + 16);
        assert forall|i: int| 0 <= i < part.len() implies lower_hex_char(#[trigger] part[i]) by {
            assert(part[i] == s[16 * k + i]);
        }
        lemma_digits_text(part);
        assert(b.subrange(16 * k, 16 * k + 16) =~= ascii_bytes(part));
        lemma_hex_number_bound(ascii_bytes(part));
        assert(ascii_bytes(part)[0] != 43) by {
            lemma_char_of_digit(part[0]);
        }
    }
    let h = decode_hash(b)->Ok_0;
    assert forall|k: int| 0 <= k < 4 implies #[trigger] hex_lower(h[k] as nat, 16) == s.subrange(16 * k, 16 * k + 16) by {
        let part = s.subrange(16 * k, 16 * k + 16);
        assert forall|i: int| 0 <= i < part.len() implies lower_hex_char(#[trigger] part[i]) by {
            assert(part[i] == s[16 * k + i]);
        }
        lemma_digits_text(part);
        lemma_hex_number_bound(ascii_bytes(part));
    }
    assert(hex_lower(h[0] as nat, 16) == s.subrange(0, 16));
    assert(hex_lower(h[1] as nat, 16) == s.subrange(16, 32));
    assert(hex_lower(h[2] as nat, 16) == s.subrange(32, 48));
    assert(hex_lower(h[3] as nat, 16) == s.subrange(48, 64));
    assert(hash_text(h) =~= s);
}

/// Decoding the text form of a hash gives the hash back.
pub proof fn lemma_hash_hex_round_trip(h: Seq<u64>)
    requires
        h.len() == 4,
    ensures
        decode_hash(encode_utf8(hash_text(h))) == Ok::<Seq<u64>, HexError>(h),
{
    let t = hash_text(h);
    let parts = seq![hex_lower(h[0] as nat, 16), hex_lower(h[1] as nat, 16),
        hex_lower(h[2] as nat, 16), hex_lower(h[3] as nat, 16)];
    lemma_hex_lower_ascii(h[0] as nat, 16);
    lemma_hex_lower_ascii(h[1] as nat, 16);
    lemma_hex_lower_ascii(h[2] as nat, 16);
    lemma_hex_lower_ascii(h[3] as nat, 16);
    assert(t.len() == 64);
    assert forall|i: int| 0 <= i < t.len() implies '\0' <= #[trigger] t[i] <= '\u{7f}' by {
        let q = i / 16;
        assert(t[i] == parts[q][i - 16 * q]);
        assert(is_ascii_chars(parts[q]));
    }
    is_ascii_chars_encode_utf8(t);
    let b = encode_utf8(t);
    assert(b.len() == 64);
    assert forall|k: int| 0 <= k < 4 implies #[trigger] parse_hex_u64(b.subrange(16 * k, 16 * k + 16)) == Some(h[k]) by {
        let c = b.subrange(16 * k, 16 * k + 16);
        let w = h[k] as nat;
        lemma_hex_lower_value(w, 16);
        lemma_hex_lower_ascii(w, 16);
        assert(parts[k] == hex_lower(w, 16));
        assert(c =~= ascii_bytes(hex_lower(w, 16))) by {
            assert forall|j: int| 0 <= j < 16 implies c[j] == ascii_bytes(hex_lower(w, 16))[j] by {
                assert(t[16 * k + j] == parts[k][j]);
                assert(b[16 * k + j] == t[16 * k + j] as u8);
            }
        }
        let v = (w / pow16(15)) % 16;
        assert(c[0] != 43) by {
            assert(hex_digit(c[0]) is Some);
        }
        lemma_pow16_16();
        lemma_small_mod(w, pow16(16));
        assert(w % pow16(16) == w);
    }
    assert(decode_hash(b) =~= Ok::<Seq<u64>, HexError>(h)) by {
        assert(Seq::new(4, |k: int| parse_hex_u64(b.subrange(16 * k, 16 * k + 16)).unwrap()) =~= h);
    }
}

} // verus!

verus! {

// ---------------------------------------------------------------------------
// Distance
// ---------------------------------------------------------------------------

/// Number of one bits of `x`.
pub open spec fn popcount(x: nat) -> nat
    decreases x,
{
    if x == 0 { 0 } else { (x % 2) + popcount(x / 2) }
}

/// Number of differing bits between two hashes.
pub open spec fn hamming_spec(a: Seq<u64>, b: Seq<u64>) -> nat {
    popcount((a[0] ^ b[0]) as nat) + popcount((a[1] ^ b[1]) as nat)
        + popcount((a[2] ^ b[2]) as nat) + popcount((a[3] ^ b[3]) as nat)
}

/// `2^k`.
pub open spec fn pow2_nat(k: nat) -> nat
    decreases k,
{
    if k == 0 { 1 } else { 2 * pow2_nat((k - 1) as nat) }
}

proof fn lemma_popcount_bound(x: nat, k: nat)
    requires
        x < pow2_nat(k),
    ensures
        popcount(x) <= k,
    decreases k,
{
    if k > 0 {
        lemma_popcount_bound(x / 2, (k - 1) as nat);
    }
}

proof fn lemma_popcount_u64(x: u64)
    ensures
        popcount(x as nat) <= 64,
{
    reveal_with_fuel(pow2_nat, 65);
    assert(pow2_nat(64) == 0x1_0000_0000_0000_0000);
    lemma_popcount_bound(x as nat, 64);
}

/// Number of one bits of a word.
fn count_ones(x: u64) -> (r: u32)
    ensures
        r == popcount(x as nat),
{
    let mut y = x;
    let mut c: u32 = 0;
    proof { lemma_popcount_u64(x); }
    while y != 0
        invariant
            c + popcount(y as nat) == popcount(x as nat),
            popcount(x as nat) <= 64,
        decreases y,
    {
        c = c + (y % 2) as u32;
        y = y / 2;
    }
    c
}

/// Number of differing bits between two hashes (0 to 256).
pub fn hamming(a: &Hash256, b: &Hash256) -> (r: u32)
    ensures
        r == hamming_spec(a@, b@),
        r <= 256,
{
    let mut total: u32 = 0;
    let mut k: usize = 0;
    while k < 4
        invariant
            k <= 4,
            total <= 64 * k,
            total == (if k == 0 { 0 } else { popcount((a@[0] ^ b@[0]) as nat) })
                + (if k <= 1 { 0 } else { popcount((a@[1] ^ b@[1]) as nat) })
                + (if k <= 2 { 0 } else { popcount((a@[2] ^ b@[2]) as nat) })
                + (if k <= 3 { 0 } else { popcount((a@[3] ^ b@[3]) as nat) }),
        decreases 4 - k,
    {
        let x = a[k] ^ b[k];
        proof { lemma_popcount_u64(x); }
        total = total + count_ones(x);
        k = k + 1;
    }
    total
}

/// A decoded hash has four words.
pub proof fn lemma_decoded_len(b: Seq<u8>)
    ensures
        decode_hash(b) matches Ok(h) ==> h.len() == 4,
{
}

/// Comparing a hash with itself finds no differing bit.
pub proof fn lemma_hamming_self(a: Seq<u64>)
    requires
        a.len() == 4,
    ensures
        hamming_spec(a, a) == 0,
{
    assert forall|x: u64| #[trigger] (x ^ x) == 0 by {
        assert(x ^ x == 0) by (bit_vector);
    }
}

/// The distance between two hashes does not depend on their order.
pub proof fn lemma_hamming_symmetric(a: Seq<u64>, b: Seq<u64>)
    requires
        a.len() == 4,
        b.len() == 4,
    ensures
        hamming_spec(a, b) == hamming_spec(b, a),
{
    assert forall|x: u64, y: u64| #[trigger] (x ^ y) == (y ^ x) by {
        assert(x ^ y == y ^ x) by (bit_vector);
    }
}

/// Distance between two photos: the smaller of the full-frame and the
/// border-trimmed hash distances, each decoded from its hex text.
pub open spec fn photo_distance(a: Photo, b: Photo) -> Result<nat, HexError> {
    match decode_hash(encode_utf8(a.hash_full@)) {
        Err(e) => Err(e),
        Ok(af) => match decode_hash(encode_utf8(b.hash_full@)) {
            Err(e) => Err(e),
            Ok(bf) => match decode_hash(encode_utf8(a.hash_cropped@)) {
                Err(e) => Err(e),
                Ok(ac) => match decode_hash(encode_utf8(b.hash_cropped@)) {
                    Err(e) => Err(e),
                    Ok(bc) => {
                        let full = hamming_spec(af, bf);
                        let crop = hamming_spec(ac, bc);
                        Ok(if full <= crop { full } else { crop })
                    },
                },
            },
        },
    }
}

/// The distance between two photos does not depend on their order, and a
/// photo is at distance zero from itself, whenever their hashes decode.
pub proof fn lemma_distance_symmetric(a: Photo, b: Photo)
    requires
        photo_distance(a, b) is Ok,
    ensures
        photo_distance(b, a) == photo_distance(a, b),
        photo_distance(a, a) == Ok::<nat, HexError>(0),
{
    let af = decode_hash(encode_utf8(a.hash_full@))->Ok_0;
    let bf = decode_hash(encode_utf8(b.hash_full@))->Ok_0;
    let ac = decode_hash(encode_utf8(a.hash_cropped@))->Ok_0;
    let bc = decode_hash(encode_utf8(b.hash_cropped@))->Ok_0;
    lemma_decoded_len(encode_utf8(a.hash_full@));
    lemma_decoded_len(encode_utf8(b.hash_full@));
    lemma_decoded_len(encode_utf8(a.hash_cropped@));
    lemma_decoded_len(encode_utf8(b.hash_cropped@));
    lemma_hamming_symmetric(af, bf);
    lemma_hamming_symmetric(ac, bc);
    lemma_hamming_self(af);
    lemma_hamming_self(ac);
}

/// Hamming distance between two photos, taking the minimum over full-frame
/// and border-cropped hashes.
pub fn distance(a: &Photo, b: &Photo) -> (r: Result<u32, HexError>)
    ensures
        match r {
            Ok(d) => photo_distance(*a, *b) == Ok::<nat, HexError>(d as nat),
            Err(e) => photo_distance(*a, *b) == Err::<nat, HexError>(e),
        },
{
    let af = hash_from_hex(a.hash_full.as_str())?;
    let bf = hash_from_hex(b.hash_full.as_str())?;
    let d_full = hamming(&af, &bf);
    let ac = hash_from_hex(a.hash_cropped.as_str())?;
    let bc = hash_from_hex(b.hash_cropped.as_str())?;
    let d_crop = hamming(&ac, &bc);
    Ok(if d_full <= d_crop { d_full } else { d_crop })
}

} // verus!

verus! {

// ---------------------------------------------------------------------------
// Scan parameters
// ---------------------------------------------------------------------------

/// Hash grid side: 16 x 16 low-frequency coefficients = 256 bits.
pub const HASH_BITS_SIDE: usize = 16;

/// Images are downscaled to this bound before border-trim analysis.
pub const WORK_SIZE: u32 = 800;

/// Default ceiling on concurrent decodes during a scan.
pub const DEFAULT_MAX_DECODES: usize = 4;

/// Ceiling on the memory a single scaled decode may commit (512 MiB).
pub const MAX_DECODE_BYTES: u64 = 536870912;

/// `ceil(n / 8)`: 8x8 blocks needed to cover `n` samples.
pub open spec fn blocks(n: nat) -> nat {
    (n + 7) / 8
}

/// Worst-case coefficient bytes a JPEG decoder commits for a frame: one
/// 16-bit coefficient per sample, no chroma subsampling, whole 8x8 blocks.
pub open spec fn budget_bytes(width: nat, height: nat, components: nat) -> nat {
    blocks(width) * blocks(height) * 64 * 2 * components
}

/// Worst-case bytes a JPEG decoder commits for a frame of this size.
pub fn decode_budget_bytes(width: u16, height: u16, components: u64) -> (r: u64)
    requires
        budget_bytes(width as nat, height as nat, components as nat) <= u64::MAX,
    ensures
        r == budget_bytes(width as nat, height as nat, components as nat),
{
    let bw = ((width as u64) + 7) / 8;
    let bh = ((height as u64) + 7) / 8;
    proof {
        assert(bw <= 8192 && bh <= 8192);
        assert(bw * bh <= 8192 * 8192) by (nonlinear_arith) requires bw <= 8192, bh <= 8192;
    }
    bw * bh * 64 * 2 * components
}

/// A character of the Unicode `White_Space` property, which `str::trim`
/// removes.
pub open spec fn unicode_white_space(c: char) -> bool {
    ||| ('\u{9}' <= c && c <= '\u{d}')
    ||| c == ' ' || c == '\u{85}' || c == '\u{a0}' || c == '\u{1680}'
    ||| ('\u{2000}' <= c && c <= '\u{200a}')
    ||| c == '\u{2028}' || c == '\u{2029}' || c == '\u{202f}' || c == '\u{205f}' || c == '\u{3000}'
}

/// The text without its leading white space.
pub open spec fn trimmed_start(s: Seq<char>) -> Seq<char>
    decreases s.len(),
{
    if s.len() > 0 && unicode_white_space(s[0]) { trimmed_start(s.drop_first()) } else { s }
}

/// The text without its trailing white space.
pub open spec fn trimmed_end(s: Seq<char>) -> Seq<char>
    decreases s.len(),
{
    if s.len() > 0 && unicode_white_space(s.last()) { trimmed_end(s.drop_last()) } else { s }
}

/// The text with leading and trailing white space removed, as `str::trim`
/// does.
pub open spec fn trimmed(s: Seq<char>) -> Seq<char> {
    trimmed_end(trimmed_start(s))
}

/// Calls `str::trim`, which removes leading and trailing characters of the
/// Unicode `White_Space` property (`trimmed`).
#[verifier::external_body]
pub(crate) fn trim_text(s: &str) -> (r: &str)
    ensures
        r@ == trimmed(s@),
{
    s.trim()
}

/// The value of a decimal digit character.
pub open spec fn decimal_digit(c: char) -> Option<nat> {
    if '0' <= c && c <= '9' { Some((c as u32 - 48) as nat) } else { None }
}

/// The number the decimal digits `d` denote (most significant first); 0
/// where a character is not a digit.
pub open spec fn decimal_number(d: Seq<char>) -> nat
    decreases d.len(),
{
    if d.len() == 0 {
        0
    } else {
        10 * decimal_number(d.drop_last()) + decimal_digit(d.last()).unwrap_or(0)
    }
}

/// At least one character, all decimal digits.
pub open spec fn all_decimal(d: Seq<char>) -> bool {
    d.len() > 0 && forall|i: int| 0 <= i < d.len() ==> (#[trigger] decimal_digit(d[i])) is Some
}

/// What `str::parse::<usize>` gives: an optional leading `+`, then at least
/// one decimal digit, the value fitting in `usize`.
pub open spec fn parsed_usize(s: Seq<char>) -> Option<usize> {
    let digits = if s.len() > 0 && s[0] == '+' { s.drop_first() } else { s };
    if all_decimal(digits) && decimal_number(digits) <= usize::MAX {
        Some(decimal_number(digits) as usize)
    } else {
        None
    }
}

/// Calls `str::parse::<usize>` (`u64::from_str_radix` in base ten, as
/// the standard library documents it: `parsed_usize`).
#[verifier::external_body]
fn parse_usize(s: &str) -> (r: Option<usize>)
    ensures
        r == parsed_usize(s@),
{
    s.parse::<usize>().ok()
}

/// The scan worker count: a usable override (a positive number, surrounding
/// whitespace allowed) wins; otherwise the core count capped at
/// `DEFAULT_MAX_DECODES`.
pub open spec fn scan_threads_for(override_var: Option<Seq<char>>, cores: usize) -> usize {
    match override_var {
        Some(v) if parsed_usize(trimmed(v)) matches Some(n) && n > 0 => parsed_usize(trimmed(v))->Some_0,
        _ => if cores < DEFAULT_MAX_DECODES { cores } else { DEFAULT_MAX_DECODES },
    }
}

/// The override-versus-default decision for the scan worker count.
pub fn resolve_scan_threads(override_var: Option<&str>, cores: usize) -> (r: usize)
    ensures
        r == scan_threads_for(match override_var { Some(v) => Some(v@), None => None }, cores),
{
    match override_var {
        Some(v) => {
            match parse_usize(trim_text(v)) {
                Some(n) if n > 0 => {
                    return n;
                },
                _ => {},
            }
        },
        None => {},
    }
    if cores < DEFAULT_MAX_DECODES { cores } else { DEFAULT_MAX_DECODES }
}

// ---------------------------------------------------------------------------
// Border trimming
// ---------------------------------------------------------------------------

/// Per-channel tolerance when deciding a row or column is uniform border.
pub const BORDER_TOL: i32 = 18;

/// Sum over the three channels of the absolute difference between the
/// pixels at byte offsets `i` and `j`.
pub open spec fn pixel_diff(px: Seq<u8>, i: int, j: int) -> int {
    let d0 = px[i] as int - px[j] as int;
    let d1 = px[i + 1] as int - px[j + 1] as int;
    let d2 = px[i + 2] as int - px[j + 2] as int;
    (if d0 < 0 { -d0 } else { d0 }) + (if d1 < 0 { -d1 } else { d1 }) + (if d2 < 0 { -d2 } else { d2 })
}

/// Sampling step over `len` pixels: every `len / 64`, at least every pixel.
pub open spec fn trim_step(len: nat) -> nat {
    if len / 64 >= 1 { len / 64 } else { 1 }
}

/// Row `y` is uniform: every sampled pixel (every `trim_step(w)`-th) is
/// within tolerance of the row's first pixel.
pub open spec fn uniform_row(px: Seq<u8>, w: nat, y: nat) -> bool {
    forall|k: nat| #![trigger k * trim_step(w)] k * trim_step(w) < w
        ==> pixel_diff(px, 3 * (y * w + k * trim_step(w)) as int, 3 * (y * w) as int) < BORDER_TOL * 3
}

/// Column `x` is uniform: every sampled pixel (every `trim_step(h)`-th) is
/// within tolerance of the column's first pixel.
pub open spec fn uniform_col(px: Seq<u8>, w: nat, h: nat, x: nat) -> bool {
    forall|k: nat| #![trigger k * trim_step(h)] k * trim_step(h) < h
        ==> pixel_diff(px, 3 * ((k * trim_step(h)) * w + x) as int, 3 * x as int) < BORDER_TOL * 3
}

fn diff_at(px: &[u8], i: usize, j: usize) -> (r: i32)
    requires
        i + 2 < px@.len(),
        j + 2 < px@.len(),
    ensures
        r == pixel_diff(px@, i as int, j as int),
{
    let d0 = px[i] as i32 - px[j] as i32;
    let d1 = px[i + 1] as i32 - px[j + 1] as i32;
    let d2 = px[i + 2] as i32 - px[j + 2] as i32;
    (if d0 < 0 { -d0 } else { d0 }) + (if d1 < 0 { -d1 } else { d1 }) + (if d2 < 0 { -d2 } else { d2 })
}

/// Whether row `y` is uniform.
fn row_is_uniform(px: &[u8], w: u32, h: u32, y: u32) -> (r: bool)
    requires
        w >= 1,
        y < h,
        px@.len() == 3 * w * h,
    ensures
        r == uniform_row(px@, w as nat, y as nat),
{
    let len = px.len();
    let step: u64 = if w / 64 >= 1 { (w / 64) as u64 } else { 1 };
    proof {
        assert((y as int) * (w as int) + (w as int) <= (h as int) * (w as int)) by (nonlinear_arith)
            requires y < h;
        assert(3 * (w as int) * (h as int) == px@.len()) by (nonlinear_arith)
            requires px@.len() == 3 * w * h;
        assert(3 * ((y as int) * (w as int)) + 3 <= px@.len()) by (nonlinear_arith)
            requires (y as int) * (w as int) + (w as int) <= (h as int) * (w as int), w >= 1,
                3 * (w as int) * (h as int) == px@.len();
    }
    let yw = (y as usize) * (w as usize);
    let base = yw * 3;
    let mut x: u64 = 0;
    let ghost mut k: nat = 0;
    while x < w as u64
        invariant
            step as nat == trim_step(w as nat),
            step >= 1,
            w >= 1,
            y < h,
            len == px@.len(),
            3 * (w as int) * (h as int) == px@.len(),
            (y as int) * (w as int) + (w as int) <= (h as int) * (w as int),
            base == 3 * ((y as int) * (w as int)),
            x == k * step,
            x <= w + step,
            forall|kk: nat| #![trigger kk * trim_step(w as nat)] kk < k
                ==> pixel_diff(px@, 3 * (y * w + kk * trim_step(w as nat)) as int, 3 * (y * w) as int) < BORDER_TOL * 3,
        decreases w + step - x,
    {
        proof {
            assert(3 * ((y as int) * (w as int) + (x as int)) + 2 < px@.len()) by (nonlinear_arith)
                requires (y as int) * (w as int) + (w as int) <= (h as int) * (w as int), x < w,
                    3 * (w as int) * (h as int) == px@.len();
        }
        let i = base + (x as usize) * 3;
        if diff_at(px, i, base) >= BORDER_TOL * 3 {
            assert(pixel_diff(px@, 3 * (y * w + k * trim_step(w as nat)) as int, 3 * (y * w) as int) >= BORDER_TOL * 3);
            return false;
        }
        x = x + step;
        proof {
            assert((k + 1) * step == k * step + step) by (nonlinear_arith);
            k = k + 1;
        }
    }
    proof {
        assert forall|kk: nat| #![trigger kk * trim_step(w as nat)] kk * trim_step(w as nat) < w
            implies pixel_diff(px@, 3 * (y * w + kk * trim_step(w as nat)) as int, 3 * (y * w) as int) < BORDER_TOL * 3 by {
            if kk >= k {
                assert(kk * step >= k * step) by (nonlinear_arith) requires kk >= k;
            }
        }
    }
    true
}

/// Whether column `x` is uniform.
fn col_is_uniform(px: &[u8], w: u32, h: u32, x: u32) -> (r: bool)
    requires
        h >= 1,
        x < w,
        px@.len() == 3 * w * h,
    ensures
        r == uniform_col(px@, w as nat, h as nat, x as nat),
{
    let len = px.len();
    let step: u64 = if h / 64 >= 1 { (h / 64) as u64 } else { 1 };
    proof {
        assert(3 * (w as int) * (h as int) == px@.len()) by (nonlinear_arith)
            requires px@.len() == 3 * w * h;
        assert(3 * (x as int) + 2 < px@.len()) by (nonlinear_arith)
            requires x < w, h >= 1, 3 * (w as int) * (h as int) == px@.len();
    }
    let base = (x as usize) * 3;
    let mut y: u64 = 0;
    let ghost mut k: nat = 0;
    while y < h as u64
        invariant
            step as nat == trim_step(h as nat),
            step >= 1,
            h >= 1,
            x < w,
            len == px@.len(),
            3 * (w as int) * (h as int) == px@.len(),
            base == 3 * x,
            y == k * step,
            y <= h + step,
            forall|kk: nat| #![trigger kk * trim_step(h as nat)] kk < k
                ==> pixel_diff(px@, 3 * ((kk * trim_step(h as nat)) * w + x) as int, 3 * x as int) < BORDER_TOL * 3,
        decreases h + step - y,
    {
        proof {
            assert(3 * ((y as int) * (w as int) + (x as int)) + 2 < px@.len()) by (nonlinear_arith)
                requires y < h, x < w, 3 * (w as int) * (h as int) == px@.len();
            assert(3 * (x as int) + 2 < px@.len()) by (nonlinear_arith)
                requires x < w, h >= 1, 3 * (w as int) * (h as int) == px@.len();
        }
        let i = ((y as usize) * (w as usize) + (x as usize)) * 3;
        if diff_at(px, i, base) >= BORDER_TOL * 3 {
            assert(pixel_diff(px@, 3 * ((k * trim_step(h as nat)) * w + x) as int, 3 * x as int) >= BORDER_TOL * 3);
            return false;
        }
        y = y + step;
        proof {
            assert((k + 1) * step == k * step + step) by (nonlinear_arith);
            k = k + 1;
        }
    }
    proof {
        assert forall|kk: nat| #![trigger kk * trim_step(h as nat)] kk * trim_step(h as nat) < h
            implies pixel_diff(px@, 3 * ((kk * trim_step(h as nat)) * w + x) as int, 3 * x as int) < BORDER_TOL * 3 by {
            if kk >= k {
                assert(kk * step >= k * step) by (nonlinear_arith) requires kk >= k;
            }
        }
    }
    true
}

/// The margins `trim_border` keeps: `(left, top, right, bottom)`, inclusive.
/// Each side moves inwards over uniform rows (columns) while it stays
/// within the outer third of the image.
pub open spec fn trim_box_ok(px: Seq<u8>, w: nat, h: nat, b: (u32, u32, u32, u32)) -> bool {
    let (left, top, right, bottom) = (b.0 as nat, b.1 as nat, b.2 as nat, b.3 as nat);
    &&& top <= h / 3
    &&& forall|y: nat| y < top ==> #[trigger] uniform_row(px, w, y)
    &&& top < h / 3 ==> !uniform_row(px, w, top)
    &&& bottom <= h - 1
    &&& (bottom >= 2 * h / 3 || bottom == h - 1)
    &&& forall|y: nat| bottom < y <= h - 1 ==> #[trigger] uniform_row(px, w, y)
    &&& bottom > 2 * h / 3 ==> !uniform_row(px, w, bottom)
    &&& left <= w / 3
    &&& forall|x: nat| x < left ==> #[trigger] uniform_col(px, w, h, x)
    &&& left < w / 3 ==> !uniform_col(px, w, h, left)
    &&& right <= w - 1
    &&& (right >= 2 * w / 3 || right == w - 1)
    &&& forall|x: nat| right < x <= w - 1 ==> #[trigger] uniform_col(px, w, h, x)
    &&& right > 2 * w / 3 ==> !uniform_col(px, w, h, right)
}

/// Find the uniform-colour margins of an RGB image (row-major bytes), up to
/// a third from each side. The crop keeps columns `left..=right` and rows
/// `top..=bottom`.
pub fn trim_bounds(px: &[u8], w: u32, h: u32) -> (b: (u32, u32, u32, u32))
    requires
        w >= 1,
        h >= 1,
        w <= u32::MAX / 2,
        h <= u32::MAX / 2,
        px@.len() == 3 * w * h,
    ensures
        trim_box_ok(px@, w as nat, h as nat, b),
        b.0 <= b.2 < w,
        b.1 <= b.3 < h,
{
    let mut top: u32 = 0;
    while top < h / 3 && row_is_uniform(px, w, h, top)
        invariant
            w >= 1,
            h >= 1,
            px@.len() == 3 * w * h,
            top <= h / 3,
            forall|y: nat| y < top ==> #[trigger] uniform_row(px@, w as nat, y),
        decreases h / 3 - top,
    {
        top = top + 1;
    }
    let mut bottom: u32 = h - 1;
    while bottom > 2 * h / 3 && row_is_uniform(px, w, h, bottom)
        invariant
            w >= 1,
            h >= 1,
            h <= u32::MAX / 2,
            px@.len() == 3 * w * h,
            bottom <= h - 1,
            bottom >= 2 * h / 3 || bottom == h - 1,
            forall|y: nat| bottom < y <= h - 1 ==> #[trigger] uniform_row(px@, w as nat, y),
        decreases bottom,
    {
        bottom = bottom - 1;
    }
    let mut left: u32 = 0;
    while left < w / 3 && col_is_uniform(px, w, h, left)
        invariant
            w >= 1,
            h >= 1,
            px@.len() == 3 * w * h,
            left <= w / 3,
            forall|x: nat| x < left ==> #[trigger] uniform_col(px@, w as nat, h as nat, x),
        decreases w / 3 - left,
    {
        left = left + 1;
    }
    let mut right: u32 = w - 1;
    while right > 2 * w / 3 && col_is_uniform(px, w, h, right)
        invariant
            w >= 1,
            h >= 1,
            w <= u32::MAX / 2,
            px@.len() == 3 * w * h,
            right <= w - 1,
            right >= 2 * w / 3 || right == w - 1,
            forall|x: nat| right < x <= w - 1 ==> #[trigger] uniform_col(px@, w as nat, h as nat, x),
        decreases right,
    {
        right = right - 1;
    }
    (left, top, right, bottom)
}

} // verus!
