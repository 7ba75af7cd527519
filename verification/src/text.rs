use vstd::prelude::*;

verus! {

// ---------------------------------------------------------------------------
// Characters
// ---------------------------------------------------------------------------

pub const DEC_DIGITS: [char; 10] = ['0', '1', '2', '3', '4', '5', '6', '7', '8', '9'];

pub const HEX_LOWER: [char; 16] = [
    '0', '1', '2', '3', '4', '5', '6', '7', '8', '9', 'a', 'b', 'c', 'd', 'e', 'f',
];

/// A decimal digit character.
pub open spec fn is_dec_digit(c: char) -> bool {
    48 <= (c as u32) && (c as u32) <= 57
}

/// A hexadecimal digit character, either case.
pub open spec fn is_hex_digit(c: char) -> bool {
    is_dec_digit(c) || (97 <= (c as u32) && (c as u32) <= 102) || (65 <= (c as u32) && (c as u32)
        <= 70)
}

/// Numeric value of a hexadecimal digit character.
pub open spec fn hex_value(c: char) -> u8
    recommends
        is_hex_digit(c),
{
    if 48 <= (c as u32) && (c as u32) <= 57 {
        ((c as u32) - 48) as u8
    } else if 97 <= (c as u32) && (c as u32) <= 102 {
        ((c as u32) - 97 + 10) as u8
    } else {
        ((c as u32) - 65 + 10) as u8
    }
}

/// ASCII upper-case letters folded to lower case; everything else unchanged.
pub open spec fn ascii_lower_char(c: char) -> char {
    if 65 <= (c as u32) && (c as u32) <= 90 {
        (((c as u32) + 32) as u8) as char
    } else {
        c
    }
}

pub open spec fn ascii_lower(s: Seq<char>) -> Seq<char> {
    s.map_values(|c: char| ascii_lower_char(c))
}

/// Folds one character to ASCII lower case.
pub fn lower_char(c: char) -> (r: char)
    ensures
        r == ascii_lower_char(c),
{
    let u = c as u32;
    if 65 <= u && u <= 90 {
        ((u + 32) as u8) as char
    } else {
        c
    }
}

/// Folds a character sequence to ASCII lower case.
pub fn lower_chars(s: &Vec<char>) -> (r: Vec<char>)
    ensures
        r@ == ascii_lower(s@),
{
    let mut r: Vec<char> = Vec::new();
    let n = s.len();
    for i in 0..n
        invariant
            n == s@.len(),
            r@ =~= ascii_lower(s@.take(i as int)),
    {
        r.push(lower_char(s[i]));
        assert(r@ =~= ascii_lower(s@.take(i + 1)));
    }
    assert(s@.take(n as int) =~= s@);
    r
}

/// Whitespace as recognised when trimming message text.
pub open spec fn is_space(c: char) -> bool {
    c == ' ' || c == '\t' || c == '\n' || c == '\r'
}

/// Tests a character for whitespace.
pub fn space_char(c: char) -> (r: bool)
    ensures
        r == is_space(c),
{
    c == ' ' || c == '\t' || c == '\n' || c == '\r'
}

// ---------------------------------------------------------------------------
// Strings and character vectors
// ---------------------------------------------------------------------------

/// Relies on `FromIterator<char> for String`: the string of exactly the
/// given characters, in order.
#[verifier::external_body]
pub fn string_from_chars(v: &Vec<char>) -> (r: String)
    ensures
        r@ == v@,
{
    v.iter().collect()
}

/// The characters of a string, in order.
pub fn chars_of(s: &str) -> (r: Vec<char>)
    ensures
        r@ == s@,
{
    let n = s.unicode_len();
    let mut r: Vec<char> = Vec::new();
    for i in 0..n
        invariant
            n == s@.len(),
            r@ =~= s@.take(i as int),
    {
        r.push(s.get_char(i));
        assert(r@ =~= s@.take(i + 1));
    }
    assert(s@.take(n as int) =~= s@);
    r
}

// ---------------------------------------------------------------------------
// Hexadecimal encoding and decoding
// ---------------------------------------------------------------------------

/// Lower-case hexadecimal rendering of a byte sequence, two digits per byte.
pub open spec fn spec_hex_lower(data: Seq<u8>) -> Seq<char>
    decreases data.len(),
{
    if data.len() == 0 {
        seq![]
    } else {
        seq![
            HEX_LOWER@[(data.first() >> 4) as int],
            HEX_LOWER@[(data.first() & 0x0f) as int],
        ] + spec_hex_lower(data.drop_first())
    }
}

pub proof fn lemma_hex_lower_len(data: Seq<u8>)
    ensures
        spec_hex_lower(data).len() == 2 * data.len(),
    decreases data.len(),
{
    if data.len() > 0 {
        lemma_hex_lower_len(data.drop_first());
    }
}

/// Encodes bytes as lower-case hexadecimal characters.
pub fn hex_lower_chars(data: &Vec<u8>) -> (r: Vec<char>)
    ensures
        r@ == spec_hex_lower(data@),
{
    let n = data.len();
    let mut r: Vec<char> = Vec::new();
    assert(data@.skip(0) =~= data@);
    for i in 0..n
        invariant
            n == data@.len(),
            spec_hex_lower(data@) =~= r@ + spec_hex_lower(data@.skip(i as int)),
    {
        let byte = data[i];
        assert(0 <= (byte >> 4) < 16 && 0 <= (byte & 0x0f) < 16) by (bit_vector);
        r.push(HEX_LOWER[(byte >> 4) as usize]);
        r.push(HEX_LOWER[(byte & 0x0f) as usize]);
        assert(data@.skip(i as int).drop_first() =~= data@.skip(i + 1));
    }
    assert(data@.skip(n as int) =~= Seq::<u8>::empty());
    assert(r@ =~= spec_hex_lower(data@));
    r
}

/// Lower-case hexadecimal rendering with a `0x` prefix, as chain identifiers
/// (addresses, transaction hashes) are conventionally written.
pub open spec fn spec_0x_hex(data: Seq<u8>) -> Seq<char> {
    seq!['0', 'x'] + spec_hex_lower(data)
}

/// Encodes bytes as a `0x`-prefixed lower-case hexadecimal string.
pub fn to_0x_hex(data: &Vec<u8>) -> (r: String)
    ensures
        r@ == spec_0x_hex(data@),
{
    let mut v: Vec<char> = Vec::new();
    v.push('0');
    v.push('x');
    let mut rest = hex_lower_chars(data);
    let n = rest.len();
    for i in 0..n
        invariant
            n == rest@.len(),
            rest@ == spec_hex_lower(data@),
            v@ =~= seq!['0', 'x'] + rest@.take(i as int),
    {
        v.push(rest[i]);
        assert(v@ =~= seq!['0', 'x'] + rest@.take(i + 1));
    }
    assert(rest@.take(n as int) =~= rest@);
    string_from_chars(&v)
}

/// Whether a character sequence is well-formed even-length hexadecimal.
pub open spec fn valid_hex(s: Seq<char>) -> bool {
    s.len() % 2 == 0 && (forall|i: int| 0 <= i < s.len() ==> is_hex_digit(#[trigger] s[i]))
}

/// The bytes denoted by a well-formed hexadecimal character sequence.
pub open spec fn spec_hex_decode(s: Seq<char>) -> Seq<u8>
    recommends
        valid_hex(s),
{
    Seq::new(s.len() / 2, |i: int| (hex_value(s[2 * i]) * 16 + hex_value(s[2 * i + 1])) as u8)
}

/// Tests a character for being a hexadecimal digit.
pub fn hex_digit(c: char) -> (r: bool)
    ensures
        r == is_hex_digit(c),
{
    let u = c as u32;
    (48 <= u && u <= 57) || (97 <= u && u <= 102) || (65 <= u && u <= 70)
}

/// Numeric value of a hexadecimal digit character.
pub fn hex_digit_value(c: char) -> (r: u8)
    requires
        is_hex_digit(c),
    ensures
        r == hex_value(c),
        r < 16,
{
    let u = c as u32;
    if 48 <= u && u <= 57 {
        (u - 48) as u8
    } else if 97 <= u && u <= 102 {
        (u - 97 + 10) as u8
    } else {
        (u - 65 + 10) as u8
    }
}

/// Decodes a hexadecimal character sequence into bytes; `None` exactly on
/// odd length or a non-hexadecimal character.
pub fn decode_hex_chars(s: &Vec<char>) -> (r: Option<Vec<u8>>)
    ensures
        r is Some <==> valid_hex(s@),
        r is Some ==> r.unwrap()@ == spec_hex_decode(s@),
{
    if s.len() % 2 != 0 {
        return None;
    }
    let n = s.len() / 2;
    let mut out: Vec<u8> = Vec::new();
    for i in 0..n
        invariant
            s@.len() == 2 * n,
            2 * n <= usize::MAX,
            out@.len() == i,
            forall|j: int| 0 <= j < 2 * i ==> is_hex_digit(#[trigger] s@[j]),
            forall|j: int|
                0 <= j < i ==> out@[j] == hex_value(s@[2 * j]) * 16 + hex_value(
                    s@[2 * j + 1],
                ),
    {
        let hi = s[2 * i];
        let lo = s[2 * i + 1];
        if !hex_digit(hi) || !hex_digit(lo) {
            return None;
        }
        let b: u8 = hex_digit_value(hi) * 16 + hex_digit_value(lo);
        out.push(b);
    }
    assert(valid_hex(s@));
    assert(out@ =~= spec_hex_decode(s@));
    Some(out)
}

// ---------------------------------------------------------------------------
// Decimal rendering and parsing
// ---------------------------------------------------------------------------

/// Decimal rendering of a natural number, without leading zeros
/// (`dec_str(0) == "0"`).
pub open spec fn dec_str(n: nat) -> Seq<char>
    decreases n,
{
    if n < 10 {
        seq![DEC_DIGITS@[n as int]]
    } else {
        dec_str(n / 10) + seq![DEC_DIGITS@[(n % 10) as int]]
    }
}

/// Renders a number in decimal.
pub fn u128_dec_chars(n: u128) -> (r: Vec<char>)
    ensures
        r@ == dec_str(n as nat),
    decreases n,
{
    if n < 10 {
        let mut r: Vec<char> = Vec::new();
        r.push(DEC_DIGITS[n as usize]);
        assert(r@ =~= dec_str(n as nat));
        r
    } else {
        let mut r = u128_dec_chars(n / 10);
        r.push(DEC_DIGITS[(n % 10) as usize]);
        assert(r@ =~= dec_str(n as nat));
        r
    }
}

/// Renders a number as a decimal string.
pub fn u128_to_dec(n: u128) -> (r: String)
    ensures
        r@ == dec_str(n as nat),
{
    let v = u128_dec_chars(n);
    string_from_chars(&v)
}

/// Renders a number as a decimal string.
pub fn u64_to_dec(n: u64) -> (r: String)
    ensures
        r@ == dec_str(n as nat),
{
    u128_to_dec(n as u128)
}

/// The numeric value of a sequence of decimal digit characters.
pub open spec fn dec_value(s: Seq<char>) -> nat
    decreases s.len(),
{
    if s.len() == 0 {
        0
    } else {
        dec_value(s.drop_last()) * 10 + hex_value(s.last()) as nat
    }
}

pub open spec fn all_dec_digits(s: Seq<char>) -> bool {
    forall|i: int| 0 <= i < s.len() ==> is_dec_digit(#[trigger] s[i])
}

/// Parses a decimal numeral.  `None` exactly on an empty input, a
/// non-digit character, or a value that does not fit in the result type.
pub fn parse_dec_u128(s: &Vec<char>) -> (r: Option<u128>)
    ensures
        r is Some <==> (s@.len() > 0 && all_dec_digits(s@) && dec_value(s@) <= u128::MAX),
        r is Some ==> r.unwrap() == dec_value(s@),
{
    if s.len() == 0 {
        return None;
    }
    let mut acc: u128 = 0;
    let n = s.len();
    for i in 0..n
        invariant
            n == s@.len(),
            forall|j: int| 0 <= j < i ==> is_dec_digit(#[trigger] s@[j]),
            acc == dec_value(s@.take(i as int)),
    {
        let c = s[i];
        let u = c as u32;
        if !(48 <= u && u <= 57) {
            proof {
                lemma_dec_value_grows(s@, i as int);
            }
            return None;
        }
        let d = (u - 48) as u8;
        assert(d == hex_value(c));
        if acc > (u128::MAX - (d as u128)) / 10 {
            proof {
                let m = u128::MAX as int;
                assert(m - d == 10 * ((m - d) / 10) + ((m - d) % 10));
                assert(acc * 10 + d > m);
                if all_dec_digits(s@) {
                    lemma_dec_value_prefix_bound(s@, i as int);
                }
            }
            return None;
        }
        proof {
            let m = u128::MAX as int;
            assert(m - d == 10 * ((m - d) / 10) + ((m - d) % 10));
            assert(acc * 10 + d <= m);
        }
        acc = acc * 10 + (d as u128);
        assert(s@.take(i + 1).drop_last() =~= s@.take(i as int));
        assert(s@.take(i + 1).last() == s@[i as int]);
    }
    assert(s@.take(n as int) =~= s@);
    Some(acc)
}

/// A digit anywhere past `i` keeps the value of the whole numeral at least
/// as large as the prefix before it; used to justify overflow rejection.
pub proof fn lemma_dec_value_prefix_bound(s: Seq<char>, i: int)
    requires
        0 <= i < s.len(),
        all_dec_digits(s),
    ensures
        dec_value(s) >= dec_value(s.take(i)) * 10 + hex_value(s[i]),
    decreases s.len() - i,
{
    if i == s.len() - 1 {
        assert(s.take(i) =~= s.drop_last());
    } else {
        lemma_dec_value_prefix_bound(s, i + 1);
        assert(s.take(i + 1).drop_last() =~= s.take(i));
        assert(s.take(i + 1).last() == s[i]);
        assert(dec_value(s.take(i + 1)) == dec_value(s.take(i)) * 10 + hex_value(s[i]));
        assert(dec_value(s) >= dec_value(s.take(i + 1)) * 10 + hex_value(s[i + 1]));
        assert(dec_value(s.take(i + 1)) * 10 >= dec_value(s.take(i + 1))) by (nonlinear_arith)
            requires dec_value(s.take(i + 1)) >= 0
        ;
    }
}

/// A non-digit at position `i` falsifies `all_dec_digits`.
proof fn lemma_dec_value_grows(s: Seq<char>, i: int)
    requires
        0 <= i < s.len(),
        !is_dec_digit(s[i]),
    ensures
        !all_dec_digits(s),
{
}

} // verus!
