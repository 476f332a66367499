//! Hexadecimal and decimal text.

use vstd::prelude::*;
use vstd::utf8::is_continuation_byte;
use vstd::string::StringSliceAdditionalSpecFns;

verus! {

/// `String::push`: appends one character to the string.
#[verifier::external_body]
pub(crate) fn string_push(s: &mut String, c: char)
    ensures
        final(s)@ == old(s)@.push(c),
{
    s.push(c);
}

/// Lower-case hexadecimal digit of a value below 16.
pub open spec fn hex_char(n: u8) -> char {
    if n < 10 {
        (48 + n) as char
    } else {
        (87 + n) as char
    }
}

/// Two lower-case hexadecimal digits per byte, high nibble first.
pub open spec fn hex_text(b: Seq<u8>) -> Seq<char> {
    Seq::new(
        2 * b.len(),
        |i: int| hex_char(if i % 2 == 0 { b[i / 2] >> 4u8 } else { b[i / 2] & 15u8 }),
    )
}

fn hex_digit(n: u8) -> (c: char)
    requires
        n < 16,
    ensures
        c == hex_char(n),
{
    if n < 10 {
        (48u8 + n) as char
    } else {
        (87u8 + n) as char
    }
}

/// The bytes written as lower-case hexadecimal text, two digits per byte.
pub fn to_hex_string(inp: &[u8]) -> (s: String)
    ensures
        s@ == hex_text(inp@),
{
    let mut s = String::new();
    let mut i: usize = 0;
    while i < inp.len()
        invariant
            i <= inp.len(),
            s@ == hex_text(inp@.take(i as int)),
        decreases inp.len() - i,
    {
        let b = inp[i];
        assert(b >> 4u8 < 16 && b & 15u8 < 16) by (bit_vector);
        string_push(&mut s, hex_digit(b >> 4u8));
        string_push(&mut s, hex_digit(b & 15u8));
        i += 1;
        assert(s@ =~= hex_text(inp@.take(i as int)));
    }
    assert(inp@.take(inp@.len() as int) =~= inp@);
    s
}

/// The text of a `u16` as four lower-case hexadecimal digits.
pub open spec fn hex4_text(v: u16) -> Seq<char> {
    seq![
        hex_char(((v >> 12u16) & 15u16) as u8),
        hex_char(((v >> 8u16) & 15u16) as u8),
        hex_char(((v >> 4u16) & 15u16) as u8),
        hex_char((v & 15u16) as u8),
    ]
}

/// The value written as four lower-case hexadecimal digits.
pub fn u16_to_hex4(v: u16) -> (s: String)
    ensures
        s@ == hex4_text(v),
{
    assert((v >> 12u16) & 15u16 < 16 && (v >> 8u16) & 15u16 < 16 && (v >> 4u16) & 15u16 < 16
        && v & 15u16 < 16) by (bit_vector);
    let mut s = String::new();
    string_push(&mut s, hex_digit(((v >> 12u16) & 15u16) as u8));
    string_push(&mut s, hex_digit(((v >> 8u16) & 15u16) as u8));
    string_push(&mut s, hex_digit(((v >> 4u16) & 15u16) as u8));
    string_push(&mut s, hex_digit((v & 15u16) as u8));
    assert(s@ =~= hex4_text(v));
    s
}

/// ASCII hexadecimal digit, either case.
pub open spec fn is_hex_digit(b: u8) -> bool {
    (48 <= b <= 57) || (97 <= b <= 102) || (65 <= b <= 70)
}

/// Value of an ASCII hexadecimal digit.
pub open spec fn hex_value(b: u8) -> u8 {
    if 48 <= b <= 57 {
        (b - 48) as u8
    } else if 97 <= b <= 102 {
        (b - 87) as u8
    } else {
        (b - 55) as u8
    }
}

fn hex_digit_value(b: u8) -> (r: Option<u8>)
    ensures
        r is Some <==> is_hex_digit(b),
        r matches Some(v) ==> v == hex_value(b) && v < 16,
{
    if 48 <= b && b <= 57 {
        Some(b - 48)
    } else if 97 <= b && b <= 102 {
        Some(b - 87)
    } else if 65 <= b && b <= 70 {
        Some(b - 55)
    } else {
        None
    }
}

/// Every byte is a hexadecimal digit.
pub open spec fn all_hex(b: Seq<u8>) -> bool {
    forall|i: int| 0 <= i < b.len() ==> is_hex_digit(#[trigger] b[i])
}

/// Bit `j` (0 = most significant) of a 4-bit value.
pub open spec fn nibble_bit(v: u8, j: int) -> bool {
    v & (8u8 >> (j as u8)) != 0
}

/// `n` bits read from hexadecimal digits, 4 bits per digit, most significant first; bits past
/// the digits are clear.
pub open spec fn hex_bits(b: Seq<u8>, n: nat) -> Seq<bool> {
    Seq::new(n, |i: int| i < 4 * b.len() && nibble_bit(hex_value(b[i / 4]), i % 4))
}

/// Parses a string of exactly `N / 4` hexadecimal digits into `N` bits, most significant bit of
/// each digit first.
pub fn from_string<const N: usize>(s: &str) -> (r: Option<[bool; N]>)
    ensures
        r is Some <==> (s.spec_bytes().len() == N / 4 && all_hex(s.spec_bytes())),
        r matches Some(a) ==> a@ == hex_bits(s.spec_bytes(), N as nat),
{
    let b = s.as_bytes();
    if b.len() != N / 4 {
        return None;
    }
    let mut tmp = [false; N];
    let mut i: usize = 0;
    while i < b.len()
        invariant
            b@ == s.spec_bytes(),
            b@.len() == N / 4,
            i <= b@.len(),
            tmp@.len() == N,
            forall|k: int| 0 <= k < i ==> is_hex_digit(#[trigger] b@[k]),
            forall|k: int|
                0 <= k < N ==> tmp@[k] == (k < 4 * i && nibble_bit(hex_value(b@[k / 4]), k % 4)),
        decreases b@.len() - i,
    {
        match hex_digit_value(b[i]) {
            None => {
                return None;
            },
            Some(u) => {
                let mut j: usize = 0;
                while j < 4
                    invariant
                        b@ == s.spec_bytes(),
                        b@.len() == N / 4,
                        i < b@.len(),
                        j <= 4,
                        u == hex_value(b@[i as int]),
                        tmp@.len() == N,
                        forall|k: int| 0 <= k < i ==> is_hex_digit(#[trigger] b@[k]),
                        forall|k: int|
                            0 <= k < N ==> tmp@[k] == (k < 4 * i + j && nibble_bit(
                                hex_value(b@[k / 4]),
                                k % 4,
                            )),
                    decreases 4 - j,
                {
                    let idx = 4 * i + j;
                    tmp[idx] = (u & (8u8 >> (j as u8))) != 0;
                    j += 1;
                }
            },
        }
        i += 1;
    }
    assert(tmp@ =~= hex_bits(s.spec_bytes(), N as nat));
    Some(tmp)
}

/// A pair of text bytes that `u8::from_str_radix(_, 16)` accepts: two hexadecimal digits, or a
/// plus sign and one.
pub open spec fn hex_pair_valid(b0: u8, b1: u8) -> bool {
    (is_hex_digit(b0) && is_hex_digit(b1)) || (b0 == 43 && is_hex_digit(b1))
}

/// Value of a valid pair of text bytes.
pub open spec fn hex_pair_value(b0: u8, b1: u8) -> u8 {
    if b0 == 43 {
        hex_value(b1)
    } else {
        (hex_value(b0) * 16 + hex_value(b1)) as u8
    }
}

/// The pairs of text bytes before pair `i` are all valid.
pub open spec fn hex_pairs_valid_before(b: Seq<u8>, i: int) -> bool {
    forall|j: int| 0 <= j < i ==> hex_pair_valid(#[trigger] b[2 * j], b[2 * j + 1])
}

/// Text of an even number of bytes in which the first invalid pair ends inside a multi-byte
/// character: cutting the text there into two-byte pieces is impossible.
pub open spec fn hex_pairs_split_char(b: Seq<u8>) -> bool {
    &&& b.len() % 2 == 0
    &&& exists|i: int|
        0 <= i && 2 * i + 2 < b.len() && hex_pairs_valid_before(b, i) && !hex_pair_valid(
            b[2 * i],
            b[2 * i + 1],
        ) && #[trigger] is_continuation_byte(b[2 * i + 2])
}

/// The bytes written in a text of two-digit hexadecimal pairs, when every pair is valid.
pub open spec fn hex_pairs_bytes(b: Seq<u8>) -> Option<Seq<u8>> {
    if b.len() % 2 == 0 && hex_pairs_valid_before(b, (b.len() / 2) as int) {
        Some(Seq::new(b.len() / 2, |i: int| hex_pair_value(b[2 * i], b[2 * i + 1])))
    } else {
        None
    }
}

fn hex_pair(b0: u8, b1: u8) -> (r: Option<u8>)
    ensures
        r is Some <==> hex_pair_valid(b0, b1),
        r matches Some(v) ==> v == hex_pair_value(b0, b1),
{
    let lo = hex_digit_value(b1);
    match lo {
        None => None,
        Some(l) => {
            if b0 == 43 {
                Some(l)
            } else {
                match hex_digit_value(b0) {
                    None => None,
                    Some(h) => Some(h * 16 + l),
                }
            }
        },
    }
}

/// Whether the text is one that cannot be cut into the two-byte pieces that
/// [`string_to_vecu8`] parses.
pub fn hex_text_splits_char(s: &str) -> (r: bool)
    ensures
        r == hex_pairs_split_char(s.spec_bytes()),
{
    let b = s.as_bytes();
    if b.len() % 2 != 0 {
        return false;
    }
    let n2 = b.len() / 2;
    let mut i: usize = 0;
    while i < n2
        invariant
            b@ == s.spec_bytes(),
            b.len() == 2 * n2,
            i <= n2,
            hex_pairs_valid_before(b@, i as int),
        decreases n2 - i,
    {
        if hex_pair(b[2 * i], b[2 * i + 1]).is_none() {
            let r = if i + 1 < n2 {
                let c = b[2 * i + 2];
                0x80 <= c && c <= 0xbf
            } else {
                false
            };
            proof {
                let ii = i as int;
                assert forall|k: int|
                    0 <= k && 2 * k + 2 < b@.len() && hex_pairs_valid_before(b@, k)
                        && !hex_pair_valid(b@[2 * k], b@[2 * k + 1]) implies k == ii by {
                    if k < ii {
                        assert(hex_pair_valid(b@[2 * k], b@[2 * k + 1]));
                    } else if k > ii {
                        assert(hex_pair_valid(b@[2 * ii], b@[2 * ii + 1]));
                    }
                }
                if r {
                    assert(is_continuation_byte(b@[2 * ii + 2]));
                }
            }
            return r;
        }
        i += 1;
    }
    proof {
        assert forall|k: int|
            0 <= k && 2 * k + 2 < b@.len() && hex_pairs_valid_before(b@, k) implies hex_pair_valid(
            b@[2 * k],
            b@[2 * k + 1],
        ) by {}
    }
    false
}

/// Parses text made of two-digit hexadecimal pairs (each as `u8::from_str_radix` reads it)
/// into bytes.
pub fn string_to_vecu8(s: &str) -> (r: Option<Vec<u8>>)
    requires
        !hex_pairs_split_char(s.spec_bytes()),
    ensures
        r matches Some(v) ==> hex_pairs_bytes(s.spec_bytes()) == Some(v@),
        r is None ==> hex_pairs_bytes(s.spec_bytes()) is None,
{
    let b = s.as_bytes();
    if b.len() % 2 != 0 {
        return None;
    }
    let mut out: Vec<u8> = Vec::new();
    let mut i: usize = 0;
    while i < b.len() / 2
        invariant
            b@ == s.spec_bytes(),
            b@.len() % 2 == 0,
            i <= b@.len() / 2,
            hex_pairs_valid_before(b@, i as int),
            out@ == Seq::new(i as nat, |k: int| hex_pair_value(b@[2 * k], b@[2 * k + 1])),
        decreases b@.len() / 2 - i,
    {
        match hex_pair(b[2 * i], b[2 * i + 1]) {
            None => {
                return None;
            },
            Some(v) => {
                out.push(v);
            },
        }
        i += 1;
        assert(out@ =~= Seq::new(i as nat, |k: int| hex_pair_value(b@[2 * k], b@[2 * k + 1])));
    }
    Some(out)
}

/// Value of a string of hexadecimal digits, most significant first.
pub open spec fn hex_number(d: Seq<u8>) -> nat
    decreases d.len(),
{
    if d.len() == 0 {
        0
    } else {
        hex_number(d.drop_last()) * 16 + hex_value(d.last()) as nat
    }
}

/// The digits that `u16::from_str_radix(_, 16)` reads from a text: all of it, or what follows a
/// leading plus sign that is not the whole text.
pub open spec fn radix_digits(b: Seq<u8>) -> Seq<u8> {
    if b.len() > 1 && b[0] == 43 {
        b.skip(1)
    } else {
        b
    }
}

/// The `u16` written in hexadecimal in the text, as `u16::from_str_radix(_, 16)` reads it.
pub open spec fn hex_u16_value(b: Seq<u8>) -> Option<u16> {
    let d = radix_digits(b);
    if d.len() > 0 && all_hex(d) && hex_number(d) < 65536 {
        Some(hex_number(d) as u16)
    } else {
        None
    }
}

proof fn lemma_hex_number_prefix(d: Seq<u8>, k: int)
    requires
        0 <= k <= d.len(),
        all_hex(d),
    ensures
        hex_number(d.take(k)) <= hex_number(d),
    decreases d.len(),
{
    if k < d.len() {
        assert(d.drop_last().take(k) =~= d.take(k));
        lemma_hex_number_prefix(d.drop_last(), k);
    } else {
        assert(d.take(k) =~= d);
    }
}

/// Parses hexadecimal text into a `u16` as `u16::from_str_radix(_, 16)` does.
pub fn parse_hex_u16(s: &str) -> (r: Option<u16>)
    ensures
        r == hex_u16_value(s.spec_bytes()),
{
    let b = s.as_bytes();
    let start: usize = if b.len() > 1 && b[0] == 43 { 1 } else { 0 };
    let ghost d = radix_digits(b@);
    assert(d =~= b@.skip(start as int));
    if b.len() == start {
        return None;
    }
    let mut acc: u32 = 0;
    let mut i: usize = start;
    while i < b.len()
        invariant
            b@ == s.spec_bytes(),
            d == b@.skip(start as int),
            d == radix_digits(b@),
            start <= i <= b@.len(),
            all_hex(d.take(i - start)),
            acc == hex_number(d.take(i - start)),
            acc < 65536,
        decreases b@.len() - i,
    {
        let v = hex_digit_value(b[i]);
        match v {
            None => {
                assert(d[i - start] == b@[i as int]);
                assert(!is_hex_digit(d[i - start]));
                return None;
            },
            Some(x) => {
                let ghost p = d.take(i - start + 1);
                assert(p.drop_last() =~= d.take(i - start));
                assert(p.last() == b@[i as int]);
                acc = acc * 16 + x as u32;
                i += 1;
                assert(all_hex(d.take(i - start)));
                if acc >= 65536 {
                    proof {
                        if all_hex(d) {
                            lemma_hex_number_prefix(d, i - start);
                        }
                    }
                    return None;
                }
            },
        }
    }
    assert(d.take(i - start) =~= d);
    Some(acc as u16)
}

/// Decimal digits of a number, most significant first, without leading zeros.
pub open spec fn dec_text(n: nat) -> Seq<char>
    decreases n,
{
    if n < 10 {
        seq![(48 + n) as char]
    } else {
        dec_text(n / 10).push((48 + n % 10) as char)
    }
}

/// Appends the decimal text of `n` to `s`.
pub fn push_decimal(s: &mut String, n: usize)
    ensures
        final(s)@ == old(s)@ + dec_text(n as nat),
    decreases n,
{
    if n >= 10 {
        push_decimal(s, n / 10);
    }
    let d = (n % 10) as u8;
    string_push(s, (48u8 + d) as char);
    assert(final(s)@ =~= old(s)@ + dec_text(n as nat));
}

} // verus!

verus! {

/// The bytes of a text of ASCII characters.
pub open spec fn ascii_bytes(cs: Seq<char>) -> Seq<u8> {
    Seq::new(cs.len(), |i: int| cs[i] as u8)
}

proof fn lemma_hex_char(n: u8)
    requires
        n < 16,
    ensures
        is_hex_digit(hex_char(n) as u8),
        hex_value(hex_char(n) as u8) == n,
        hex_char(n) as u8 != 43,
{
}

proof fn lemma_nibbles(b: u8)
    by (bit_vector)
    ensures
        b >> 4u8 < 16u8,
        b & 15u8 < 16u8,
        (((b >> 4u8) * 16u8 + (b & 15u8)) as u8) == b,
{
}

proof fn lemma_nibble_bits(b: u8, k: u8)
    by (bit_vector)
    requires
        k < 8u8,
    ensures
        k < 4u8 ==> (((b >> 4u8) & (8u8 >> k)) != 0u8) == (((b >> ((7u8 - k) as u8)) & 1u8) == 1u8),
        k >= 4u8 ==> (((b & 15u8) & (8u8 >> ((k - 4u8) as u8))) != 0u8) == (((b >> ((7u8 - k) as u8))
            & 1u8) == 1u8),
{
}

/// The hexadecimal text of bytes reads back as those bytes.
pub proof fn lemma_hex_text_bytes(b: Seq<u8>)
    ensures
        hex_pairs_bytes(ascii_bytes(hex_text(b))) == Some(b),
{
    let t = ascii_bytes(hex_text(b));
    assert forall|j: int| 0 <= j < b.len() implies hex_pair_valid(#[trigger] t[2 * j], t[2 * j + 1])
        && hex_pair_value(t[2 * j], t[2 * j + 1]) == b[j] by {
        lemma_nibbles(b[j]);
        lemma_hex_char(b[j] >> 4u8);
        lemma_hex_char(b[j] & 15u8);
        assert((2 * j) / 2 == j && (2 * j) % 2 == 0);
        assert((2 * j + 1) / 2 == j && (2 * j + 1) % 2 == 1);
    }
    assert(hex_pairs_valid_before(t, (t.len() / 2) as int));
    let r = Seq::new(t.len() / 2, |i: int| hex_pair_value(t[2 * i], t[2 * i + 1]));
    assert(r =~= b);
}

/// The hexadecimal text of bytes reads back as their bits, most significant first.
pub proof fn lemma_hex_text_bits(b: Seq<u8>)
    ensures
        ascii_bytes(hex_text(b)).len() == 2 * b.len(),
        all_hex(ascii_bytes(hex_text(b))),
        hex_bits(ascii_bytes(hex_text(b)), 8 * b.len()) == crate::bits::bytes_to_bits(b),
{
    let t = ascii_bytes(hex_text(b));
    assert forall|i: int| 0 <= i < t.len() implies is_hex_digit(#[trigger] t[i]) by {
        lemma_nibbles(b[i / 2]);
        lemma_hex_char(b[i / 2] >> 4u8);
        lemma_hex_char(b[i / 2] & 15u8);
    }
    let h = hex_bits(t, 8 * b.len());
    let e = crate::bits::bytes_to_bits(b);
    assert forall|i: int| 0 <= i < 8 * b.len() implies h[i] == e[i] by {
        let x = b[i / 8];
        let k = i % 8;
        lemma_nibbles(x);
        lemma_hex_char(x >> 4u8);
        lemma_hex_char(x & 15u8);
        lemma_nibble_bits(x, k as u8);
        assert((i / 4) / 2 == i / 8);
        assert((i / 4) % 2 == 0 <==> k < 4);
        assert(k < 4 ==> i % 4 == k);
        assert(k >= 4 ==> i % 4 == k - 4);
    }
    assert(h =~= e);
}

/// The four-digit hexadecimal text of a `u16` reads back as the value.
pub proof fn lemma_hex4_roundtrip(v: u16)
    ensures
        hex_u16_value(ascii_bytes(hex4_text(v))) == Some(v),
{
    let t = ascii_bytes(hex4_text(v));
    let d0 = (#[verifier::truncate] (((v >> 12u16) & 15u16) as u8));
    let d1 = (#[verifier::truncate] (((v >> 8u16) & 15u16) as u8));
    let d2 = (#[verifier::truncate] (((v >> 4u16) & 15u16) as u8));
    let d3 = (#[verifier::truncate] ((v & 15u16) as u8));
    assert(d0 < 16 && d1 < 16 && d2 < 16 && d3 < 16 && ((d0 as int * 16 + d1) * 16 + d2) * 16 + d3
        == v as int) by (bit_vector)
        requires
            d0 == ((v >> 12u16) & 15u16) as u8,
            d1 == ((v >> 8u16) & 15u16) as u8,
            d2 == ((v >> 4u16) & 15u16) as u8,
            d3 == (v & 15u16) as u8,
    ;
    lemma_hex_char(d0);
    lemma_hex_char(d1);
    lemma_hex_char(d2);
    lemma_hex_char(d3);
    let h = hex4_text(v);
    assert(h[0] == hex_char(d0) && h[1] == hex_char(d1) && h[2] == hex_char(d2) && h[3] == hex_char(d3));
    assert(t.len() == 4);
    assert(t[0] == hex_char(d0) as u8 && t[1] == hex_char(d1) as u8 && t[2] == hex_char(d2) as u8
        && t[3] == hex_char(d3) as u8);
    assert(radix_digits(t) == t);
    assert(all_hex(t));
    let t1 = t.take(1);
    let t2 = t.take(2);
    let t3 = t.take(3);
    assert(t1.drop_last() =~= Seq::<u8>::empty());
    assert(t2.drop_last() =~= t1);
    assert(t3.drop_last() =~= t2);
    assert(t.drop_last() =~= t3);
    assert(hex_number(Seq::<u8>::empty()) == 0);
    assert(t1.last() == t[0] && t2.last() == t[1] && t3.last() == t[2] && t.last() == t[3]);
    assert(hex_number(t1) == d0);
    assert(hex_number(t2) == d0 * 16 + d1);
    assert(hex_number(t3) == (d0 * 16 + d1) * 16 + d2);
    assert(hex_number(t) == ((d0 * 16 + d1) * 16 + d2) * 16 + d3);
}

} // verus!

verus! {

/// The low byte of a character's code: the character itself for an ASCII character.
pub open spec fn char_byte(c: char) -> u8 {
    (c as u32) as u8
}

/// A hexadecimal digit character, upper or lower case.
pub open spec fn is_hex_char(c: char) -> bool {
    (48 <= c as u32 <= 57) || (97 <= c as u32 <= 102) || (65 <= c as u32 <= 70)
}

proof fn lemma_lead_bytes(c: u32)
    by (bit_vector)
    ensures
        c <= 0x7fu32 ==> (c & 0x7fu32) as u8 == c as u8,
        c <= 0x7fu32 ==> (c as u8) as u32 == c,
        0xC0u8 | (((c >> 6u32) & 0x1Fu32) as u8) >= 0xC0u8,
        0xE0u8 | (((c >> 12u32) & 0x0Fu32) as u8) >= 0xC0u8,
        0xF0u8 | (((c >> 18u32) & 0x7u32) as u8) >= 0xC0u8,
{
}

proof fn lemma_hex_chars_bytes(cs: Seq<char>)
    ensures
        all_hex(vstd::utf8::encode_utf8(cs)) <==> forall|k: int| 0 <= k < cs.len() ==> #[trigger] is_hex_char(cs[k]),
        all_hex(vstd::utf8::encode_utf8(cs)) ==> vstd::utf8::encode_utf8(cs) == Seq::new(
            cs.len(),
            |k: int| char_byte(cs[k]),
        ),
    decreases cs.len(),
{
    let enc = vstd::utf8::encode_utf8(cs);
    if cs.len() == 0 {
        assert(enc =~= Seq::new(0, |k: int| char_byte(cs[k])));
    } else {
        let c = cs[0] as u32;
        let rest = cs.drop_first();
        let er = vstd::utf8::encode_utf8(rest);
        let head = vstd::utf8::encode_scalar(c);
        assert(enc == head + er);
        lemma_hex_chars_bytes(rest);
        lemma_lead_bytes(c);
        if c <= 0x7f {
            assert(head == seq![c as u8]);
            assert(is_hex_digit(c as u8) == is_hex_char(cs[0]));
            if all_hex(enc) {
                assert(is_hex_digit(enc[0]));
                assert forall|i: int| 0 <= i < er.len() implies is_hex_digit(#[trigger] er[i]) by {
                    assert(enc[i + 1] == er[i]);
                }
                assert forall|k: int| 0 <= k < cs.len() implies #[trigger] is_hex_char(cs[k]) by {
                    if k > 0 {
                        assert(cs[k] == rest[k - 1]);
                    }
                }
                assert(all_hex(er));
                assert(er == Seq::new(rest.len(), |k: int| char_byte(rest[k])));
                assert forall|k: int| 0 <= k < cs.len() implies #[trigger] enc[k] == char_byte(cs[k]) by {
                    if k > 0 {
                        assert(enc[k] == er[k - 1]);
                        assert(rest[k - 1] == cs[k]);
                    } else {
                        assert(enc[0] == c as u8);
                    }
                }
                assert(enc =~= Seq::new(cs.len(), |k: int| char_byte(cs[k])));
            }
            if forall|k: int| 0 <= k < cs.len() ==> #[trigger] is_hex_char(cs[k]) {
                assert forall|k: int| 0 <= k < rest.len() implies #[trigger] is_hex_char(rest[k]) by {
                    assert(rest[k] == cs[k + 1]);
                    assert(is_hex_char(cs[k + 1]));
                }
                assert(is_hex_char(cs[0]));
                assert forall|i: int| 0 <= i < enc.len() implies is_hex_digit(#[trigger] enc[i]) by {
                    if i > 0 {
                        assert(enc[i] == er[i - 1]);
                    }
                }
            }
        } else {
            assert(head[0] >= 0xC0u8);
            assert(enc[0] == head[0]);
            assert(!is_hex_char(cs[0]));
        }
    }
}

/// Reading hexadecimal text by characters: `from_string` accepts a text exactly
/// when it is `n / 4` hexadecimal digit characters, upper or lower case, and then the bits it
/// gives are, for each character in turn, its value's four bits, most significant first.
pub proof fn lemma_from_string_chars(s: &str, n: nat)
    ensures
        (s.spec_bytes().len() == n / 4 && all_hex(s.spec_bytes())) <==> (s@.len() == n / 4 && forall|k: int|
            0 <= k < s@.len() ==> #[trigger] is_hex_char(s@[k])),
        (s@.len() == n / 4 && forall|k: int| 0 <= k < s@.len() ==> #[trigger] is_hex_char(s@[k]))
            ==> hex_bits(s.spec_bytes(), n) == Seq::new(
            n,
            |i: int| i < 4 * s@.len() && nibble_bit(hex_value(char_byte(s@[i / 4])), i % 4),
        ),
{
    lemma_hex_chars_bytes(s@);
    if s@.len() == n / 4 && forall|k: int| 0 <= k < s@.len() ==> #[trigger] is_hex_char(s@[k]) {
        let b = s.spec_bytes();
        assert forall|i: int| 0 <= i < n implies #[trigger] hex_bits(b, n)[i] == (i < 4 * s@.len()
            && nibble_bit(hex_value(char_byte(s@[i / 4])), i % 4)) by {
            if i < 4 * s@.len() {
                assert(b[i / 4] == char_byte(s@[i / 4]));
            }
        }
        assert(hex_bits(b, n) =~= Seq::new(
            n,
            |i: int| i < 4 * s@.len() && nibble_bit(hex_value(char_byte(s@[i / 4])), i % 4),
        ));
    }
}

} // verus!
