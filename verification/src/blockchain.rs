use crate::models::{MessageV, OnChainEvent, ServerMessage, UniswapV3SwapDetails};
use crate::state::{bounded_push, AppState, GLOBAL_CHANNEL_CAPACITY};
use crate::text::{dec_str, spec_0x_hex, to_0x_hex};
use vstd::prelude::*;

verus! {

/// Event-log topic identifying the pool swap event (the hash of its
/// signature `Swap(address,address,int256,int256,uint160,uint128,int24)`).
pub const SWAP_EVENT_TOPIC: [u8; 32] = [
    0xc4, 0x20, 0x79, 0xf9, 0x4a, 0x63, 0x50, 0xd7, 0xe6, 0x23, 0x5f, 0x29, 0x17, 0x49, 0x24,
    0xf9, 0x28, 0xcc, 0x2a, 0xc8, 0x18, 0xeb, 0x64, 0xfe, 0xd8, 0x00, 0x4e, 0x11, 0x5f, 0xbc,
    0xca, 0x67,
];

/// Swaps with both delta magnitudes under this threshold are discarded:
/// one unit of an 18-decimal asset.
pub const MATERIALITY_THRESHOLD: u64 = 1_000_000_000_000_000_000;

// ---------------------------------------------------------------------------
// Two's-complement words
// ---------------------------------------------------------------------------

/// 256 raised to a power.
pub open spec fn pow256(n: nat) -> nat
    decreases n,
{
    if n == 0 {
        1
    } else {
        256 * pow256((n - 1) as nat)
    }
}

/// Big-endian value of a byte sequence.
pub open spec fn be_val(s: Seq<u8>) -> nat
    decreases s.len(),
{
    if s.len() == 0 {
        0
    } else {
        (be_val(s.drop_last()) * 256 + s.last()) as nat
    }
}

/// Signed value of a 32-byte two's-complement word.
pub open spec fn int256_of(w: Seq<u8>) -> int
    recommends
        w.len() == 32,
{
    if w.len() > 0 && w[0] >= 128 {
        be_val(w) - pow256(32)
    } else {
        be_val(w) as int
    }
}

/// Magnitude of the signed value of a word.
pub open spec fn magnitude(w: Seq<u8>) -> nat {
    if int256_of(w) < 0 {
        (-int256_of(w)) as nat
    } else {
        int256_of(w) as nat
    }
}

/// Powers of 256 are positive.
pub proof fn lemma_pow256_pos(n: nat)
    ensures
        pow256(n) >= 1,
    decreases n,
{
    if n > 0 {
        lemma_pow256_pos((n - 1) as nat);
    }
}

pub proof fn lemma_be_bound(s: Seq<u8>)
    ensures
        be_val(s) < pow256(s.len()),
    decreases s.len(),
{
    if s.len() > 0 {
        lemma_be_bound(s.drop_last());
        assert(be_val(s.drop_last()) * 256 + 256 <= pow256((s.len() - 1) as nat) * 256) by (nonlinear_arith)
            requires
                be_val(s.drop_last()) + 1 <= pow256((s.len() - 1) as nat),
        ;
    }
}

/// Big-endian evaluation splits at any boundary.
pub proof fn lemma_be_split(s: Seq<u8>, m: int)
    requires
        0 <= m <= s.len(),
    ensures
        be_val(s) == be_val(s.take(m)) * pow256((s.len() - m) as nat) + be_val(s.skip(m)),
    decreases s.len() - m,
{
    if m == s.len() {
        assert(s.take(m) =~= s);
        assert(s.skip(m) =~= Seq::<u8>::empty());
        assert(pow256(0) == 1);
        assert(be_val(s.skip(m)) == 0);
        assert(be_val(s.take(m)) == be_val(s));
        assert(be_val(s) * 1 == be_val(s)) by (nonlinear_arith);
    } else {
        let d = s.drop_last();
        lemma_be_split(d, m);
        assert(d.take(m) =~= s.take(m));
        assert(s.skip(m).drop_last() =~= d.skip(m));
        assert(s.skip(m).last() == s.last());
        assert(be_val(s.skip(m)) == be_val(d.skip(m)) * 256 + s.last());
        assert(be_val(s) == be_val(d) * 256 + s.last());
        let k = (d.len() - m) as nat;
        assert(pow256(k + 1) == 256 * pow256(k));
        assert((be_val(s.take(m)) * pow256(k) + be_val(d.skip(m))) * 256 == be_val(s.take(m))
            * pow256(k + 1) + be_val(d.skip(m)) * 256) by (nonlinear_arith)
            requires
                pow256(k + 1) == 256 * pow256(k),
        ;
        assert((s.len() - m) as nat == k + 1);
        assert(be_val(s) == be_val(d) * 256 + s.last());
        assert(be_val(d) == be_val(s.take(m)) * pow256(k) + be_val(d.skip(m)));
        assert(be_val(s) == (be_val(s.take(m)) * pow256(k) + be_val(d.skip(m))) * 256 + s.last());
        assert(be_val(s) == be_val(s.take(m)) * pow256(k + 1) + be_val(s.skip(m)));
    }
}

/// A value is zero exactly when all its bytes are.
pub proof fn lemma_be_zero(s: Seq<u8>)
    ensures
        (be_val(s) == 0) == (forall|i: int| 0 <= i < s.len() ==> s[i] == 0),
    decreases s.len(),
{
    if s.len() > 0 {
        lemma_be_zero(s.drop_last());
        if be_val(s) == 0 {
            assert(be_val(s.drop_last()) == 0);
            assert forall|i: int| 0 <= i < s.len() implies s[i] == 0 by {
                if i < s.len() - 1 {
                    assert(s.drop_last()[i] == 0);
                }
            }
        }
        if forall|i: int| 0 <= i < s.len() ==> s[i] == 0 {
            assert(forall|i: int| 0 <= i < s.drop_last().len() ==> s.drop_last()[i] == s[i]);
            assert(be_val(s.drop_last()) == 0);
        }
    }
}

/// The two's-complement negation of a word: for a negative word this is
/// its magnitude.
fn negate_word(w: &Vec<u8>) -> (r: Vec<u8>)
    requires
        w@.len() == 32,
        be_val(w@) > 0,
    ensures
        r@.len() == 32,
        be_val(r@) == pow256(32) - be_val(w@),
{
    let mut out: Vec<u8> = Vec::new();
    let mut k: usize = 0;
    while k < 32
        invariant
            w@.len() == 32,
            out@.len() == k,
            k <= 32,
        decreases 32 - k,
    {
        out.push(0);
        k = k + 1;
    }
    let mut carry: u8 = 1;
    let mut i: usize = 32;
    proof {
        assert(w@.skip(32) =~= Seq::<u8>::empty());
        assert(out@.skip(32) =~= Seq::<u8>::empty());
    }
    while i > 0
        invariant
            w@.len() == 32,
            out@.len() == 32,
            i <= 32,
            carry <= 1,
            be_val(w@.skip(i as int)) == 0 ==> (carry == 1 && be_val(out@.skip(i as int)) == 0),
            be_val(w@.skip(i as int)) > 0 ==> (carry == 0 && be_val(out@.skip(i as int)) == pow256(
                (32 - i) as nat,
            ) - be_val(w@.skip(i as int))),
        decreases i,
    {
        i = i - 1;
        let b = w[i];
        let ghost wold = w@.skip(i + 1);
        let ghost oold = out@.skip(i + 1);
        let t: u16 = 255u16 - (b as u16) + (carry as u16);
        let nb: u8 = (t % 256) as u8;
        let nc: u8 = (t / 256) as u8;
        let slot = &mut out[i];
        *slot = nb;
        carry = nc;
        proof {
            let k2 = (31 - i) as nat;
            assert(out@.skip(i as int) =~= seq![nb] + oold);
            assert(w@.skip(i as int) =~= seq![b] + w@.skip(i + 1));
            lemma_be_split(out@.skip(i as int), 1);
            lemma_be_split(w@.skip(i as int), 1);
            assert(be_val(out@.skip(i as int).take(1)) == nb) by {
                assert(out@.skip(i as int).take(1) =~= seq![nb]);
                assert(be_val(seq![nb]) == be_val(seq![nb].drop_last()) * 256 + nb);
                assert(seq![nb].drop_last() =~= Seq::<u8>::empty());
            }
            assert(be_val(w@.skip(i as int).take(1)) == b) by {
                assert(w@.skip(i as int).take(1) =~= seq![b]);
                assert(be_val(seq![b]) == be_val(seq![b].drop_last()) * 256 + b);
                assert(seq![b].drop_last() =~= Seq::<u8>::empty());
            }
            assert(out@.skip(i as int).skip(1) =~= oold);
            assert(w@.skip(i as int).skip(1) =~= wold);
            let pw = pow256(k2);
            lemma_pow256_pos(k2);
            assert(be_val(out@.skip(i as int)) == (nb as nat) * pw + be_val(oold));
            assert(be_val(w@.skip(i as int)) == (b as nat) * pw + be_val(wold));
            lemma_be_bound(wold);
            lemma_be_bound(oold);
            assert(be_val(w@.skip(i as int)) == 0 ==> (b == 0 && be_val(wold) == 0))
                by (nonlinear_arith)
                requires
                    be_val(w@.skip(i as int)) == (b as nat) * pw + be_val(wold),
                    pw >= 1,
            ;
            assert(be_val(w@.skip(i as int)) > 0 ==> (b > 0 || be_val(wold) > 0))
                by (nonlinear_arith)
                requires
                    be_val(w@.skip(i as int)) == (b as nat) * pw + be_val(wold),
            ;
            if be_val(wold) == 0 {
                if b == 0 {
                    assert(t == 256 && nb == 0 && nc == 1);
                    assert(be_val(out@.skip(i as int)) == 0) by (nonlinear_arith)
                        requires
                            be_val(out@.skip(i as int)) == (0 as nat) * pw + be_val(oold),
                            be_val(oold) == 0,
                    ;
                } else {
                    assert(t == 256 - b && nb == t && nc == 0);
                    assert((nb as nat) * pw + 0 == pow256(k2 + 1) - ((b as nat) * pw + 0))
                        by (nonlinear_arith)
                        requires
                            nb == 256 - b,
                            pow256(k2 + 1) == 256 * pw,
                            b > 0,
                            b <= 255,
                    ;
                }
            } else {
                assert(carry == 0 || t == 255 - b + 1);
                assert(t == 255 - b && nb == t && nc == 0);
                assert((nb as nat) * pw + (pw - be_val(wold)) == pow256(k2 + 1) - ((b as nat) * pw
                    + be_val(wold))) by (nonlinear_arith)
                    requires
                        nb == 255 - b,
                        pow256(k2 + 1) == 256 * pw,
                        b <= 255,
                        0 < be_val(wold) < pw,
                ;
            }
            assert(pow256(k2 + 1) == pow256((32 - i) as nat));
        }
    }
    proof {
        assert(w@.skip(0) =~= w@);
        assert(out@.skip(0) =~= out@);
    }
    out
}

/// The magnitude of a word's signed value, as 32 big-endian bytes.
pub fn word_magnitude(w: &Vec<u8>) -> (r: Vec<u8>)
    requires
        w@.len() == 32,
    ensures
        r@.len() == 32,
        be_val(r@) == magnitude(w@),
{
    if w[0] < 128 {
        let mut r: Vec<u8> = Vec::new();
        let mut k: usize = 0;
        while k < 32
            invariant
                w@.len() == 32,
                k <= 32,
                r@ =~= w@.take(k as int),
            decreases 32 - k,
        {
            r.push(w[k]);
            proof {
                assert(r@ =~= w@.take(k + 1));
            }
            k = k + 1;
        }
        proof {
            assert(w@.take(32) =~= w@);
        }
        r
    } else {
        proof {
            lemma_be_split(w@, 1);
            assert(w@.take(1) =~= seq![w@[0]]);
            assert(be_val(seq![w@[0]]) == be_val(seq![w@[0]].drop_last()) * 256 + w@[0]);
            assert(seq![w@[0]].drop_last() =~= Seq::<u8>::empty());
            assert(be_val(w@) >= (w@[0] as nat) * pow256(31)) by (nonlinear_arith)
                requires
                    be_val(w@) == (w@[0] as nat) * pow256(31) + be_val(w@.skip(1)),
                    be_val(w@.skip(1)) >= 0,
            ;
            lemma_pow256_pos(31);
            assert((w@[0] as nat) * pow256(31) >= 128 * pow256(31)) by (nonlinear_arith)
                requires
                    w@[0] >= 128,
                    pow256(31) >= 1,
            ;
            assert(be_val(w@) > 0);
        }
        negate_word(w)
    }
}

/// Whether a word's magnitude reaches the materiality threshold.
pub fn magnitude_is_material(w: &Vec<u8>) -> (r: bool)
    requires
        w@.len() == 32,
    ensures
        r == (magnitude(w@) >= MATERIALITY_THRESHOLD),
{
    let mag = word_magnitude(w);
    proof {
        lemma_be_split(mag@, 24);
    }
    let mut high_zero = true;
    for k in 0..24usize
        invariant
            mag@.len() == 32,
            high_zero == (forall|j: int| 0 <= j < k ==> mag@[j] == 0),
    {
        if mag[k] != 0 {
            high_zero = false;
        } else {
            proof {
                if high_zero {
                    assert(forall|j: int| 0 <= j < k + 1 ==> mag@[j] == 0);
                }
            }
        }
    }
    if !high_zero {
        proof {
            let top = mag@.take(24);
            lemma_be_zero(top);
            assert(!(forall|j: int| 0 <= j < 24 ==> mag@[j] == 0));
            let j = choose|j: int| 0 <= j < 24 && mag@[j] != 0;
            assert(top[j] != 0);
            assert(be_val(top) != 0);
            assert(be_val(mag@) >= pow256(8)) by (nonlinear_arith)
                requires
                    be_val(mag@) == be_val(top) * pow256(8) + be_val(mag@.skip(24)),
                    be_val(top) >= 1,
                    be_val(mag@.skip(24)) >= 0,
            ;
            assert(pow256(8) == 18446744073709551616) by {
                reveal_with_fuel(pow256, 10);
            }
        }
        return true;
    }
    let mut low: u64 = 0;
    proof {
        let top = mag@.take(24);
        lemma_be_zero(top);
        assert(forall|j: int| 0 <= j < top.len() ==> top[j] == mag@[j]);
        assert(be_val(top) == 0);
        assert(be_val(mag@) == be_val(mag@.skip(24)));
        assert(mag@.skip(24).take(0) =~= Seq::<u8>::empty());
    }
    for k in 0..8usize
        invariant
            mag@.len() == 32,
            low == be_val(mag@.skip(24).take(k as int)),
            low < pow256(k as nat),
    {
        proof {
            assert(mag@.skip(24).take(k + 1).drop_last() =~= mag@.skip(24).take(k as int));
            assert(mag@.skip(24).take(k + 1).last() == mag@[24 + k]);
            assert(pow256((k + 1) as nat) == 256 * pow256(k as nat));
            assert(low * 256 + 256 <= pow256(k as nat) * 256) by (nonlinear_arith)
                requires
                    low + 1 <= pow256(k as nat),
            ;
            lemma_pow256_mono((k + 1) as nat, 8);
            assert(pow256(8) == 18446744073709551616) by {
                reveal_with_fuel(pow256, 10);
            }
        }
        low = low * 256 + (mag[24 + k] as u64);
    }
    proof {
        assert(mag@.skip(24).take(8) =~= mag@.skip(24));
    }
    low >= MATERIALITY_THRESHOLD
}

/// Powers of 256 grow with the exponent.
proof fn lemma_pow256_mono(a: nat, b: nat)
    requires
        a <= b,
    ensures
        pow256(a) <= pow256(b),
    decreases b,
{
    if a < b {
        lemma_pow256_mono(a, (b - 1) as nat);
        assert(pow256(b) == 256 * pow256((b - 1) as nat));
    }
}

/// The byte sequences of a vector of byte vectors.
pub open spec fn byte_views(s: Seq<Vec<u8>>) -> Seq<Seq<u8>> {
    s.map_values(|t: Vec<u8>| t@)
}

/// Signed value of a 4-byte two's-complement slice (the tick field).
pub open spec fn int32_of(b: Seq<u8>) -> int
    recommends
        b.len() == 4,
{
    let u = (b[0] as int) * 0x1000000 + (b[1] as int) * 0x10000 + (b[2] as int) * 0x100 + (
    b[3] as int);
    if b.len() == 4 && b[0] >= 128 {
        u - 0x100000000
    } else {
        u
    }
}

/// Reads the tick from the last four bytes of its word.
fn tick_from_word(w: &Vec<u8>) -> (r: i32)
    requires
        w@.len() == 32,
    ensures
        r as int == int32_of(w@.skip(28)),
{
    let u: u32 = (w[28] as u32) * 16777216 + (w[29] as u32) * 65536 + (w[30] as u32) * 256 + (
    w[31] as u32);
    let s64: i64 = if u >= 0x80000000 {
        (u as i64) - 0x100000000i64
    } else {
        u as i64
    };
    let r: i32 = s64 as i32;
    proof {
        assert(w@.skip(28)[0] == w@[28] && w@.skip(28)[1] == w@[29] && w@.skip(28)[2] == w@[30]
            && w@.skip(28)[3] == w@[31]);
        assert(u as int == (w@[28] as int) * 0x1000000 + (w@[29] as int) * 0x10000 + (
        w@[30] as int) * 0x100 + (w@[31] as int));
        assert(u >= 0x80000000 <==> w@[28] >= 128);
    }
    r
}

/// The decoded fields of a swap log: the two accounts from the indexed
/// topics and the five data words.
pub struct SwapDecoded {
    pub sender: Vec<u8>,
    pub recipient: Vec<u8>,
    pub amount0: Vec<u8>,
    pub amount1: Vec<u8>,
    pub sqrt_price_x96: Vec<u8>,
    pub liquidity: Vec<u8>,
    pub tick: i32,
}

/// Whether raw log topics and data carry a well-formed swap event.
pub open spec fn spec_swap_shape(topics: Seq<Seq<u8>>, data: Seq<u8>) -> bool {
    &&& topics.len() == 3
    &&& topics[0] == SWAP_EVENT_TOPIC@
    &&& topics[1].len() == 32
    &&& topics[2].len() == 32
    &&& data.len() == 160
}

/// Decodes a raw log against the swap event layout; `None` exactly when
/// the log is not shaped as one.
pub fn decode_swap_log(topics: &Vec<Vec<u8>>, data: &Vec<u8>) -> (r: Option<SwapDecoded>)
    ensures
        r is Some <==> spec_swap_shape(byte_views(topics@), data@),
        r matches Some(d) ==> ({
            &&& d.sender@ == topics@[1]@.skip(12)
            &&& d.recipient@ == topics@[2]@.skip(12)
            &&& d.amount0@ == data@.subrange(0, 32)
            &&& d.amount1@ == data@.subrange(32, 64)
            &&& d.sqrt_price_x96@ == data@.subrange(64, 96)
            &&& d.liquidity@ == data@.subrange(96, 128)
            &&& d.tick as int == int32_of(data@.subrange(128, 160).skip(28))
            &&& d.sender@.len() == 20
            &&& d.recipient@.len() == 20
            &&& d.amount0@.len() == 32
            &&& d.amount1@.len() == 32
        }),
{
    let ghost tv = byte_views(topics@);
    if topics.len() != 3 || data.len() != 160 {
        return None;
    }
    if topics[0].len() != 32 || topics[1].len() != 32 || topics[2].len() != 32 {
        proof {
            assert(tv[0] == topics@[0]@ && tv[1] == topics@[1]@ && tv[2] == topics@[2]@);
        }
        return None;
    }
    let mut topic_match = true;
    for k in 0..32usize
        invariant
            topics@.len() == 3,
            topics@[0]@.len() == 32,
            topic_match == (forall|j: int| 0 <= j < k ==> topics@[0]@[j] == SWAP_EVENT_TOPIC@[j]),
    {
        if topics[0][k] != SWAP_EVENT_TOPIC[k] {
            topic_match = false;
        } else {
            proof {
                if topic_match {
                    assert(forall|j: int|
                        0 <= j < k + 1 ==> topics@[0]@[j] == SWAP_EVENT_TOPIC@[j]);
                }
            }
        }
    }
    if !topic_match {
        proof {
            assert(tv[0] == topics@[0]@);
            if tv[0] == SWAP_EVENT_TOPIC@ {
                assert(forall|j: int| 0 <= j < 32 ==> topics@[0]@[j] == SWAP_EVENT_TOPIC@[j]);
            }
        }
        return None;
    }
    let sender = copy_range(&topics[1], 12, 32);
    let recipient = copy_range(&topics[2], 12, 32);
    let amount0 = copy_range(data, 0, 32);
    let amount1 = copy_range(data, 32, 64);
    let sqrt_price_x96 = copy_range(data, 64, 96);
    let liquidity = copy_range(data, 96, 128);
    let tick_word = copy_range(data, 128, 160);
    let tick = tick_from_word(&tick_word);
    proof {
        assert(tv[0] == topics@[0]@ && tv[1] == topics@[1]@ && tv[2] == topics@[2]@);
        assert(topics@[0]@ =~= SWAP_EVENT_TOPIC@);
        assert(topics@[1]@.skip(12) =~= topics@[1]@.subrange(12, 32));
        assert(topics@[2]@.skip(12) =~= topics@[2]@.subrange(12, 32));
        assert(tick_word@.skip(28) =~= data@.subrange(128, 160).skip(28));
    }
    Some(SwapDecoded { sender, recipient, amount0, amount1, sqrt_price_x96, liquidity, tick })
}

/// Copies a byte range out of a slice.
fn copy_range(v: &Vec<u8>, from: usize, to: usize) -> (r: Vec<u8>)
    requires
        from <= to <= v@.len(),
    ensures
        r@ == v@.subrange(from as int, to as int),
{
    let mut r: Vec<u8> = Vec::new();
    for k in from..to
        invariant
            from <= k <= to <= v@.len(),
            r@ =~= v@.subrange(from as int, k as int),
    {
        r.push(v[k]);
        assert(r@ =~= v@.subrange(from as int, k + 1));
    }
    r
}

// ---------------------------------------------------------------------------
// Rendering decoded values
// ---------------------------------------------------------------------------

/// Relies on `ethers_core::types::U256`'s construction from big-endian
/// bytes and its `Display` rendering: the string is the decimal numeral of
/// the bytes' big-endian value, without leading zeros.
#[verifier::external_body]
fn u256_decimal(w: &Vec<u8>) -> (r: String)
    requires
        w@.len() == 32,
    ensures
        r@ == dec_str(be_val(w@)),
{
    let v = ethers_core::types::U256::from_big_endian(w.as_slice());
    v.to_string()
}

/// The signed decimal rendering of a word: a minus sign and the magnitude's
/// numeral for a negative value, the plain numeral otherwise.
pub open spec fn spec_signed_dec(w: Seq<u8>) -> Seq<char> {
    if int256_of(w) < 0 {
        seq!['-'] + dec_str(magnitude(w))
    } else {
        dec_str(magnitude(w))
    }
}

/// Renders a word's signed value in decimal.
pub fn signed_decimal(w: &Vec<u8>) -> (r: String)
    requires
        w@.len() == 32,
    ensures
        r@ == spec_signed_dec(w@),
{
    let mag = word_magnitude(w);
    let digits = u256_decimal(&mag);
    if w[0] >= 128 {
        let mut out: Vec<char> = Vec::new();
        out.push('-');
        let rest = crate::text::chars_of(digits.as_str());
        let n = rest.len();
        for k in 0..n
            invariant
                n == rest@.len(),
                out@ =~= seq!['-'] + rest@.take(k as int),
        {
            out.push(rest[k]);
            assert(out@ =~= seq!['-'] + rest@.take(k + 1));
        }
        proof {
            assert(rest@.take(n as int) =~= rest@);
            lemma_be_bound(w@);
            assert(int256_of(w@) < 0);
        }
        let r = crate::text::string_from_chars(&out);
        proof {
            assert(r@ == spec_signed_dec(w@));
        }
        r
    } else {
        proof {
            assert(int256_of(w@) >= 0);
            assert(digits@ == spec_signed_dec(w@));
        }
        digits
    }
}

// ---------------------------------------------------------------------------
// Pool lookup and the bridge step
// ---------------------------------------------------------------------------

pub const POOL_USDC_WETH_005: [u8; 20] = [
    0x88, 0xe6, 0xa0, 0xc2, 0xdd, 0xd2, 0x6f, 0xee, 0xb6, 0x4f, 0x03, 0x9a, 0x2c, 0x41, 0x29,
    0x6f, 0xcb, 0x3f, 0x56, 0x40,
];

pub const POOL_USDC_WETH_03: [u8; 20] = [
    0x8a, 0xd5, 0x99, 0xc3, 0xa0, 0xff, 0x1d, 0xe0, 0x82, 0x01, 0x1e, 0xfd, 0xdc, 0x58, 0xf1,
    0x90, 0x8e, 0xb6, 0xe6, 0xd8,
];

pub const POOL_WBTC_WETH_03: [u8; 20] = [
    0xcb, 0xcd, 0xf9, 0x62, 0x6b, 0xc0, 0x3e, 0x24, 0xf7, 0x79, 0x43, 0x41, 0x78, 0xa7, 0x3a,
    0x0b, 0x4b, 0xad, 0x62, 0xed,
];

/// The token pair a watched pool trades, with an unknown pair for any
/// unrecognised pool.
pub open spec fn spec_pool_label(pool: Seq<u8>) -> (Seq<char>, Seq<char>) {
    if pool == POOL_USDC_WETH_005@ || pool == POOL_USDC_WETH_03@ {
        ("USDC"@, "WETH"@)
    } else if pool == POOL_WBTC_WETH_03@ {
        ("WBTC"@, "WETH"@)
    } else {
        ("Unknown"@, "Unknown"@)
    }
}

/// Compares a byte vector with a 20-byte constant.
fn bytes_eq20(a: &Vec<u8>, b: &[u8; 20]) -> (r: bool)
    ensures
        r == (a@ == b@),
{
    if a.len() != 20 {
        proof {
            assert(b@.len() == 20);
        }
        return false;
    }
    for k in 0..20usize
        invariant
            a@.len() == 20,
            b@.len() == 20,
            forall|j: int| 0 <= j < k ==> a@[j] == b@[j],
    {
        if a[k] != b[k] {
            return false;
        }
    }
    proof {
        assert(a@ =~= b@);
    }
    true
}

/// Resolves a pool to its token-pair label.
pub fn get_pool_info(pool_address: &Vec<u8>) -> (r: (String, String))
    ensures
        (r.0@, r.1@) == spec_pool_label(pool_address@),
{
    if bytes_eq20(pool_address, &POOL_USDC_WETH_005) || bytes_eq20(pool_address, &POOL_USDC_WETH_03)
    {
        (String::from_str("USDC"), String::from_str("WETH"))
    } else if bytes_eq20(pool_address, &POOL_WBTC_WETH_03) {
        (String::from_str("WBTC"), String::from_str("WETH"))
    } else {
        (String::from_str("Unknown"), String::from_str("Unknown"))
    }
}

/// Ingests one raw log: decodes it against the swap layout (skipping logs
/// that do not decode), discards swaps whose delta magnitudes both fall
/// under the materiality threshold, and otherwise publishes exactly one
/// wrapped event on the global channel.  Returns whether one was published.
pub fn handle_log(
    state: &mut AppState,
    topics: &Vec<Vec<u8>>,
    data: &Vec<u8>,
    pool_address: &Vec<u8>,
    tx_hash: &Vec<u8>,
    block_number: u64,
    now: i64,
) -> (published: bool)
    requires
        old(state).wf(),
        pool_address@.len() == 20,
        tx_hash@.len() == 32,
    ensures
        final(state).wf(),
        published == (spec_swap_shape(byte_views(topics@), data@) && (magnitude(
            data@.subrange(0, 32),
        ) >= MATERIALITY_THRESHOLD || magnitude(data@.subrange(32, 64)) >= MATERIALITY_THRESHOLD)),
        !published ==> *final(state) == *old(state),
        published ==> ({
            &&& final(state).clients == old(state).clients
            &&& final(state).rooms == old(state).rooms
            &&& final(state).user_auth_cache == old(state).user_auth_cache
            &&& exists|m: MessageV|
                final(state).global@ == bounded_push(
                    old(state).global@,
                    GLOBAL_CHANNEL_CAPACITY as nat,
                    m,
                ) && (#[trigger] swap_event_shape(
                    m,
                    byte_views(topics@),
                    data@,
                    pool_address@,
                    tx_hash@,
                    block_number,
                    now,
                ))
        }),
{
    let decoded = match decode_swap_log(topics, data) {
        Some(d) => d,
        None => {
            return false;
        },
    };
    let material = magnitude_is_material(&decoded.amount0) || magnitude_is_material(
        &decoded.amount1,
    );
    if !material {
        return false;
    }
    let (token0, token1) = get_pool_info(pool_address);
    let details = UniswapV3SwapDetails {
        sender: to_0x_hex(&decoded.sender),
        recipient: to_0x_hex(&decoded.recipient),
        amount0: signed_decimal(&decoded.amount0),
        amount1: signed_decimal(&decoded.amount1),
        sqrt_price_x96: u256_decimal(&decoded.sqrt_price_x96),
        liquidity: u256_decimal(&decoded.liquidity),
        tick: decoded.tick,
        pool_address: to_0x_hex(pool_address),
        token0,
        token1,
    };
    let event = OnChainEvent::new(
        String::from_str("UniswapV3Swap"),
        to_0x_hex(tx_hash),
        block_number,
        details,
        now,
    );
    let message = ServerMessage::ChainEvent(event);
    let ghost mv = message@;
    state.broadcast_global(message);
    proof {
        assert(swap_event_shape(
            mv,
            byte_views(topics@),
            data@,
            pool_address@,
            tx_hash@,
            block_number,
            now,
        ));
    }
    true
}

/// The shape of a published swap event: its envelope and decoded fields,
/// all determined by the raw log, the pool, and the clock.
pub open spec fn swap_event_shape(
    m: MessageV,
    topics: Seq<Seq<u8>>,
    data: Seq<u8>,
    pool: Seq<u8>,
    tx_hash: Seq<u8>,
    block_number: u64,
    now: i64,
) -> bool {
    m matches MessageV::ChainEvent(e) && e.event_type == "UniswapV3Swap"@ && e.transaction_hash
        == spec_0x_hex(tx_hash) && e.block_number == block_number && e.timestamp == now
        && e.id.len() == 36 && e.details.sender == spec_0x_hex(topics[1].skip(12))
        && e.details.recipient == spec_0x_hex(topics[2].skip(12)) && e.details.pool_address
        == spec_0x_hex(pool) && (e.details.token0, e.details.token1) == spec_pool_label(pool)
        && e.details.tick == int32_of(data.subrange(128, 160).skip(28)) && e.details.amount0
        == spec_signed_dec(data.subrange(0, 32)) && e.details.amount1 == spec_signed_dec(
        data.subrange(32, 64),
    ) && e.details.sqrt_price_x96 == dec_str(be_val(data.subrange(64, 96)))
        && e.details.liquidity == dec_str(be_val(data.subrange(96, 128)))
}

// ---------------------------------------------------------------------------
// Large-transaction detection and amount formatting
// ---------------------------------------------------------------------------

/// Per-token thresholds for flagging a transaction as large, with a
/// default for unlisted tokens.
#[derive(Debug)]
pub struct LargeTransactionDetector {
    pub thresholds: Vec<(String, u128)>,
}

impl LargeTransactionDetector {
    /// The configured token symbols.
    pub open spec fn keys(&self) -> Seq<Seq<char>> {
        self.thresholds@.map_values(|e: (String, u128)| e.0@)
    }

    pub open spec fn wf(&self) -> bool {
        crate::state::distinct_seq(self.keys())
    }

    /// The threshold the detector applies to a token.
    pub open spec fn spec_threshold(&self, token: Seq<char>) -> u128 {
        if exists|i: int|
            0 <= i < self.thresholds@.len() && (#[trigger] self.thresholds@[i]).0@ == token {
            let i = choose|i: int|
                0 <= i < self.thresholds@.len() && (#[trigger] self.thresholds@[i]).0@ == token;
            self.thresholds@[i].1
        } else {
            1000000000000000000000
        }
    }

    /// The standard configuration: one ether-scale unit, ten thousand
    /// six-decimal stable units, a tenth of an eight-decimal unit.
    pub fn new() -> (d: Self)
        ensures
            d.wf(),
            d.thresholds@.len() == 3,
            d.thresholds@[0].0@ == "WETH"@ && d.thresholds@[0].1 == 1000000000000000000,
            d.thresholds@[1].0@ == "USDC"@ && d.thresholds@[1].1 == 10000000000,
            d.thresholds@[2].0@ == "WBTC"@ && d.thresholds@[2].1 == 10000000,
    {
        let mut thresholds: Vec<(String, u128)> = Vec::new();
        thresholds.push((String::from_str("WETH"), 1000000000000000000));
        thresholds.push((String::from_str("USDC"), 10000000000));
        thresholds.push((String::from_str("WBTC"), 10000000));
        let d = LargeTransactionDetector { thresholds };
        proof {
            reveal_strlit("WETH");
            reveal_strlit("USDC");
            reveal_strlit("WBTC");
            assert(d.keys()[0] == "WETH"@ && d.keys()[1] == "USDC"@ && d.keys()[2] == "WBTC"@);
            assert(d.keys().len() == 3);
            assert("WETH"@[0] == 'W' && "USDC"@[0] == 'U' && "WBTC"@[1] == 'B' && "WETH"@[1]
                == 'E');
            assert(d.wf()) by {
                assert(d.keys()[0] != d.keys()[1] && d.keys()[0] != d.keys()[2] && d.keys()[1]
                    != d.keys()[2]);
            }
        }
        d
    }

    /// Whether the amount reaches the token's threshold.
    pub fn is_large_transaction(&self, token_symbol: &String, amount: u128) -> (r: bool)
        requires
            self.wf(),
        ensures
            r == (amount >= self.spec_threshold(token_symbol@)),
    {
        let n = self.thresholds.len();
        for i in 0..n
            invariant
                self.wf(),
                n == self.thresholds@.len(),
                forall|j: int| 0 <= j < i ==> (#[trigger] self.thresholds@[j]).0@
                    != token_symbol@,
        {
            if self.thresholds[i].0.eq(token_symbol) {
                let threshold = self.thresholds[i].1;
                proof {
                    assert(self.thresholds@[i as int].0@ == token_symbol@);
                    let w = choose|k: int|
                        0 <= k < self.thresholds@.len() && (#[trigger] self.thresholds@[k]).0@
                            == token_symbol@;
                    if w != i {
                        assert(self.keys()[w] == token_symbol@ && self.keys()[i as int]
                            == token_symbol@);
                        assert(false);
                    }
                    assert(self.spec_threshold(token_symbol@) == self.thresholds@[i as int].1);
                }
                return amount >= threshold;
            }
        }
        amount >= 1000000000000000000000
    }
}

/// Decimal rendering of a fixed-point amount: the whole part, then the
/// fraction with trailing zeros trimmed, then the token symbol.
pub open spec fn spec_format_amount(amount: nat, decimals: nat, symbol: Seq<char>) -> Seq<char> {
    let divisor = pow10(decimals);
    let whole = amount / divisor;
    let fraction = amount % divisor;
    if fraction == 0 {
        dec_str(whole) + " "@ + symbol
    } else {
        dec_str(whole) + "."@ + trim_zeros(pad_digits(dec_str(fraction), decimals)) + " "@ + symbol
    }
}

/// Ten raised to a power.
pub open spec fn pow10(n: nat) -> nat
    decreases n,
{
    if n == 0 {
        1
    } else {
        10 * pow10((n - 1) as nat)
    }
}

/// A run of zero characters.
pub open spec fn zero_chars(n: nat) -> Seq<char>
    decreases n,
{
    if n == 0 {
        Seq::<char>::empty()
    } else {
        seq!['0'] + zero_chars((n - 1) as nat)
    }
}

pub proof fn lemma_zero_chars(n: nat)
    ensures
        zero_chars(n).len() == n,
        forall|i: int| 0 <= i < n ==> zero_chars(n)[i] == '0',
    decreases n,
{
    if n > 0 {
        lemma_zero_chars((n - 1) as nat);
        assert forall|i: int| 0 <= i < n implies zero_chars(n)[i] == '0' by {
            if i > 0 {
                assert(zero_chars(n)[i] == zero_chars((n - 1) as nat)[i - 1]);
            }
        }
    }
}

/// Left-pads a numeral with zeros to the given width.
pub open spec fn pad_digits(s: Seq<char>, width: nat) -> Seq<char> {
    if s.len() >= width {
        s
    } else {
        zero_chars((width - s.len()) as nat) + s
    }
}

/// Drops trailing zeros.
pub open spec fn trim_zeros(s: Seq<char>) -> Seq<char>
    decreases s.len(),
{
    if s.len() > 0 && s.last() == '0' {
        trim_zeros(s.drop_last())
    } else {
        s
    }
}

/// Powers of ten grow with the exponent.
proof fn lemma_pow10_mono(a: nat, b: nat)
    requires
        a <= b,
    ensures
        pow10(a) <= pow10(b),
    decreases b,
{
    if a < b {
        lemma_pow10_mono(a, (b - 1) as nat);
        assert(pow10(b) == 10 * pow10((b - 1) as nat));
    }
}

/// Renders a fixed-point amount in human-readable form.
pub fn format_amount(amount: u128, decimals: u8, symbol: &String) -> (r: String)
    requires
        decimals <= 77,  // the scale factor must fit 256 bits
    ensures
        r@ == spec_format_amount(amount as nat, decimals as nat, symbol@),
{
    proof {
        assert(pow10(38) == 100000000000000000000000000000000000000) by {
            reveal_with_fuel(pow10, 40);
        }
        assert(pow10(39) == 1000000000000000000000000000000000000000) by {
            reveal_with_fuel(pow10, 41);
        }
    }
    let (whole, fraction) = if decimals >= 39 {
        // the divisor exceeds any amount this type holds: no whole part
        proof {
            lemma_pow10_mono(39, decimals as nat);
            lemma_pow10_mono(0, decimals as nat);
            assert(pow10(0) == 1);
            assert((amount as nat) < pow10(decimals as nat));
            assert((amount as nat) / pow10(decimals as nat) == 0) by (nonlinear_arith)
                requires
                    (amount as nat) < pow10(decimals as nat),
                    pow10(decimals as nat) >= 1,
            ;
            assert((amount as nat) % pow10(decimals as nat) == amount as nat) by (nonlinear_arith)
                requires
                    (amount as nat) < pow10(decimals as nat),
                    pow10(decimals as nat) >= 1,
            ;
        }
        (0u128, amount)
    } else {
        let mut divisor: u128 = 1;
        let mut k: u8 = 0;
        while k < decimals
            invariant
                k <= decimals <= 38,
                divisor >= 1,
                divisor == pow10(k as nat),
                pow10(38) == 100000000000000000000000000000000000000,
            decreases decimals - k,
        {
            proof {
                lemma_pow10_mono((k + 1) as nat, 38);
                assert(pow10((k + 1) as nat) == 10 * pow10(k as nat));
            }
            divisor = divisor * 10;
            k = k + 1;
        }
        proof {
            assert(divisor >= 1);
        }
        (amount / divisor, amount % divisor)
    };
    let whole_chars = crate::text::u128_dec_chars(whole);
    if fraction == 0 {
        let mut out = whole_chars;
        out.push(' ');
        let ghost head = out@;
        let sym = crate::text::chars_of(symbol.as_str());
        let n = sym.len();
        for j in 0..n
            invariant
                n == sym@.len(),
                out@ =~= head + sym@.take(j as int),
        {
            out.push(sym[j]);
            assert(out@ =~= head + sym@.take(j + 1));
        }
        proof {
            assert(sym@.take(n as int) =~= sym@);
            assert(head =~= dec_str(whole as nat) + " "@) by {
                reveal_strlit(" ");
            }
        }
        crate::text::string_from_chars(&out)
    } else {
        let mut frac = crate::text::u128_dec_chars(fraction);
        let ghost f0 = frac@;
        while frac.len() < decimals as usize
            invariant
                pad_digits(frac@, decimals as nat) == pad_digits(f0, decimals as nat),
            decreases decimals as int - frac@.len(),
        {
            frac.insert(0, '0');
            proof {
                let cur = frac@;
                let prev = cur.skip(1);
                assert(cur =~= seq!['0'] + prev);
                if prev.len() < decimals as nat {
                    let n1 = (decimals as nat - prev.len()) as nat;
                    lemma_zero_chars(n1);
                    lemma_zero_chars((n1 - 1) as nat);
                    assert(zero_chars(n1) == seq!['0'] + zero_chars((n1 - 1) as nat));
                    if cur.len() < decimals as nat {
                        assert forall|p: int|
                            0 <= p < zero_chars(n1).len() + prev.len() implies (zero_chars(n1)
                            + prev)[p] == (zero_chars((n1 - 1) as nat) + cur)[p] by {
                            if p < n1 - 1 {
                                assert((zero_chars(n1) + prev)[p] == '0');
                                assert((zero_chars((n1 - 1) as nat) + cur)[p] == '0');
                            } else if p < n1 {
                                assert((zero_chars(n1) + prev)[p] == '0');
                                assert((zero_chars((n1 - 1) as nat) + cur)[p] == cur[p - (n1
                                    - 1)]);
                                assert(cur[0] == '0');
                            } else {
                                assert((zero_chars(n1) + prev)[p] == prev[p - n1]);
                                assert((zero_chars((n1 - 1) as nat) + cur)[p] == cur[p - (n1
                                    - 1)]);
                                assert(cur[p - (n1 - 1)] == prev[p - n1]);
                            }
                        }
                        assert(zero_chars(n1) + prev =~= zero_chars((n1 - 1) as nat) + cur);
                    } else {
                        assert(n1 == 1);
                        assert(zero_chars(n1) + prev =~= cur);
                    }
                }
            }
        }
        proof {
            assert(pad_digits(frac@, decimals as nat) == frac@);
        }
        let ghost padded = frac@;
        while frac.len() > 0 && frac[frac.len() - 1] == '0'
            invariant
                trim_zeros(frac@) == trim_zeros(padded),
            decreases frac@.len(),
        {
            let ghost before = frac@;
            frac.pop();
            proof {
                assert(frac@ =~= before.drop_last());
            }
        }
        proof {
            assert(trim_zeros(frac@) == frac@);
        }
        let mut out = whole_chars;
        out.push('.');
        let ghost head1 = out@;
        let m = frac.len();
        for j in 0..m
            invariant
                m == frac@.len(),
                out@ =~= head1 + frac@.take(j as int),
        {
            out.push(frac[j]);
            assert(out@ =~= head1 + frac@.take(j + 1));
        }
        proof {
            assert(frac@.take(m as int) =~= frac@);
        }
        out.push(' ');
        let ghost head2 = out@;
        let sym = crate::text::chars_of(symbol.as_str());
        let n = sym.len();
        for j in 0..n
            invariant
                n == sym@.len(),
                out@ =~= head2 + sym@.take(j as int),
        {
            out.push(sym[j]);
            assert(out@ =~= head2 + sym@.take(j + 1));
        }
        proof {
            assert(sym@.take(n as int) =~= sym@);
            reveal_strlit(".");
            reveal_strlit(" ");
            assert(out@ =~= dec_str(whole as nat) + "."@ + trim_zeros(
                pad_digits(dec_str(fraction as nat), decimals as nat),
            ) + " "@ + symbol@);
        }
        crate::text::string_from_chars(&out)
    }
}

/// Multiplies a 256-bit big-endian quantity by ten and adds a digit,
/// reporting overflow.
fn mul10_add(acc: &mut Vec<u8>, d: u8) -> (overflow: bool)
    requires
        old(acc)@.len() == 32,
        d < 10,
    ensures
        final(acc)@.len() == 32,
        !overflow ==> be_val(final(acc)@) == be_val(old(acc)@) * 10 + d,
        overflow ==> be_val(old(acc)@) * 10 + d >= pow256(32),
{
    let mut carry: u16 = d as u16;
    let mut i: usize = 32;
    proof {
        assert(old(acc)@.skip(32) =~= Seq::<u8>::empty());
        assert(acc@.skip(32) =~= Seq::<u8>::empty());
        assert(pow256(0) == 1);
        assert((d as nat) * 1 == d as nat) by (nonlinear_arith);
        assert((carry as nat) * pow256(0) == d as nat) by (nonlinear_arith)
            requires
                carry == d,
                pow256(0) == 1,
        ;
    }
    while i > 0
        invariant
            acc@.len() == 32,
            old(acc)@.len() == 32,
            i <= 32,
            carry <= 255,
            forall|j: int| 0 <= j < i ==> acc@[j] == old(acc)@[j],
            be_val(acc@.skip(i as int)) + carry * pow256((32 - i) as nat) == be_val(
                old(acc)@.skip(i as int),
            ) * 10 + d,
        decreases i,
    {
        i = i - 1;
        let b = acc[i];
        let ghost aold = acc@.skip(i + 1);
        let ghost oold = old(acc)@.skip(i + 1);
        let ghost c0 = carry;
        let t: u16 = (b as u16) * 10 + carry;
        let nb: u8 = (t % 256) as u8;
        let nc: u16 = t / 256;
        let slot = &mut acc[i];
        *slot = nb;
        carry = nc;
        proof {
            let k2 = (31 - i) as nat;
            let pw = pow256(k2);
            lemma_pow256_pos(k2);
            assert(b == old(acc)@[i as int]);
            assert(acc@.skip(i as int) =~= seq![nb] + aold);
            assert(old(acc)@.skip(i as int) =~= seq![b] + oold);
            lemma_be_split(acc@.skip(i as int), 1);
            lemma_be_split(old(acc)@.skip(i as int), 1);
            assert(be_val(acc@.skip(i as int).take(1)) == nb) by {
                assert(acc@.skip(i as int).take(1) =~= seq![nb]);
                assert(be_val(seq![nb]) == be_val(seq![nb].drop_last()) * 256 + nb);
                assert(seq![nb].drop_last() =~= Seq::<u8>::empty());
            }
            assert(be_val(old(acc)@.skip(i as int).take(1)) == b) by {
                assert(old(acc)@.skip(i as int).take(1) =~= seq![b]);
                assert(be_val(seq![b]) == be_val(seq![b].drop_last()) * 256 + b);
                assert(seq![b].drop_last() =~= Seq::<u8>::empty());
            }
            assert(acc@.skip(i as int).skip(1) =~= aold);
            assert(old(acc)@.skip(i as int).skip(1) =~= oold);
            assert(be_val(acc@.skip(i as int)) == (nb as nat) * pw + be_val(aold));
            assert(be_val(old(acc)@.skip(i as int)) == (b as nat) * pw + be_val(oold));
            assert(pow256(k2 + 1) == 256 * pw);
            assert((nb as nat) * pw + be_val(aold) + nc * pow256(k2 + 1) == ((b as nat) * pw
                + be_val(oold)) * 10 + d) by (nonlinear_arith)
                requires
                    t == b * 10 + c0,
                    nb == t % 256,
                    nc == t / 256,
                    pow256(k2 + 1) == 256 * pw,
                    be_val(aold) + c0 * pw == be_val(oold) * 10 + d,
            ;
            assert(pow256((32 - i) as nat) == pow256(k2 + 1));
        }
    }
    proof {
        assert(acc@.skip(0) =~= acc@);
        assert(old(acc)@.skip(0) =~= old(acc)@);
        if carry > 0 {
            let before = be_val(old(acc)@);
            let after = be_val(acc@);
            lemma_pow256_pos(32);
            assert(before * 10 + d >= pow256(32)) by (nonlinear_arith)
                requires
                    after + carry * pow256(32) == before * 10 + d,
                    carry >= 1,
                    after >= 0,
                    pow256(32) >= 1,
            ;
        }
    }
    carry != 0
}

/// Parses a decimal numeral into a 256-bit big-endian quantity; `None`
/// exactly on an empty input, a non-digit character, or a value that does
/// not fit in 256 bits.
pub fn parse_dec_u256(s: &Vec<char>) -> (r: Option<Vec<u8>>)
    ensures
        r is Some <==> (s@.len() > 0 && crate::text::all_dec_digits(s@) && crate::text::dec_value(
            s@,
        ) < pow256(32)),
        r matches Some(b) ==> b@.len() == 32 && be_val(b@) == crate::text::dec_value(s@),
{
    if s.len() == 0 {
        return None;
    }
    let mut acc: Vec<u8> = Vec::new();
    let mut k: usize = 0;
    while k < 32
        invariant
            acc@.len() == k,
            k <= 32,
            forall|j: int| 0 <= j < k ==> acc@[j] == 0,
        decreases 32 - k,
    {
        acc.push(0);
        k = k + 1;
    }
    proof {
        lemma_be_zero(acc@);
        lemma_pow256_pos(32);
        assert(s@.take(0) =~= Seq::<char>::empty());
    }
    let n = s.len();
    for i in 0..n
        invariant
            n == s@.len(),
            acc@.len() == 32,
            forall|j: int| 0 <= j < i ==> crate::text::is_dec_digit(#[trigger] s@[j]),
            be_val(acc@) == crate::text::dec_value(s@.take(i as int)),
    {
        let c = s[i];
        let u = c as u32;
        if !(48 <= u && u <= 57) {
            return None;
        }
        let d = (u - 48) as u8;
        assert(d == crate::text::hex_value(c));
        let overflow = mul10_add(&mut acc, d);
        proof {
            assert(s@.take(i + 1).drop_last() =~= s@.take(i as int));
            assert(s@.take(i + 1).last() == s@[i as int]);
        }
        if overflow {
            proof {
                if crate::text::all_dec_digits(s@) && crate::text::dec_value(s@) < pow256(32) {
                    crate::text::lemma_dec_value_prefix_bound(s@, i as int);
                }
            }
            return None;
        }
    }
    proof {
        assert(s@.take(n as int) =~= s@);
        lemma_be_bound(acc@);
    }
    Some(acc)
}

/// Whether a balance reaches a 256-bit big-endian minimum.
pub fn balance_reaches(balance: u128, min: &Vec<u8>) -> (r: bool)
    requires
        min@.len() == 32,
    ensures
        r == (balance as nat >= be_val(min@)),
{
    proof {
        lemma_be_split(min@, 16);
        assert(pow256(16) == 340282366920938463463374607431768211456) by {
            reveal_with_fuel(pow256, 18);
        }
    }
    let mut high_zero = true;
    for k in 0..16usize
        invariant
            min@.len() == 32,
            high_zero == (forall|j: int| 0 <= j < k ==> min@[j] == 0),
    {
        if min[k] != 0 {
            high_zero = false;
        } else {
            proof {
                if high_zero {
                    assert(forall|j: int| 0 <= j < k + 1 ==> min@[j] == 0);
                }
            }
        }
    }
    if !high_zero {
        proof {
            let top = min@.take(16);
            lemma_be_zero(top);
            assert(!(forall|j: int| 0 <= j < 16 ==> min@[j] == 0));
            let j = choose|j: int| 0 <= j < 16 && min@[j] != 0;
            assert(top[j] != 0);
            assert(be_val(top) != 0);
            assert(be_val(min@) >= pow256(16)) by (nonlinear_arith)
                requires
                    be_val(min@) == be_val(min@.take(16)) * pow256(16) + be_val(min@.skip(16)),
                    be_val(min@.take(16)) >= 1,
                    be_val(min@.skip(16)) >= 0,
            ;
        }
        return false;
    }
    let mut low: u128 = 0;
    proof {
        let top = min@.take(16);
        lemma_be_zero(top);
        assert(forall|j: int| 0 <= j < top.len() ==> top[j] == min@[j]);
        assert(be_val(top) == 0);
        assert(be_val(min@) == be_val(min@.skip(16)));
        assert(min@.skip(16).take(0) =~= Seq::<u8>::empty());
    }
    for k in 0..16usize
        invariant
            min@.len() == 32,
            low == be_val(min@.skip(16).take(k as int)),
            low < pow256(k as nat),
    {
        proof {
            assert(min@.skip(16).take(k + 1).drop_last() =~= min@.skip(16).take(k as int));
            assert(min@.skip(16).take(k + 1).last() == min@[16 + k]);
            assert(pow256((k + 1) as nat) == 256 * pow256(k as nat));
            assert(low * 256 + 256 <= pow256(k as nat) * 256) by (nonlinear_arith)
                requires
                    low + 1 <= pow256(k as nat),
            ;
            lemma_pow256_mono((k + 1) as nat, 16);
            assert(pow256(16) == 340282366920938463463374607431768211456) by {
                reveal_with_fuel(pow256, 18);
            }
        }
        low = low * 256 + (min[16 + k] as u128);
    }
    proof {
        assert(min@.skip(16).take(16) =~= min@.skip(16));
    }
    balance >= low
}

} // verus!
