//! Variable-length integers: seven bits to a byte, least significant first,
//! with the high bit set on every byte but the last.

use vstd::prelude::*;

verus! {

/// The most bytes that a 64-bit number takes.
pub const MAX_VARINT_LEN: usize = 10;

/// 128 to the power of `n`.
pub open spec fn pow128(n: nat) -> nat
    decreases n,
{
    if n == 0 {
        1
    } else {
        128 * pow128((n - 1) as nat)
    }
}

/// The encoding of `x`.
pub open spec fn varint(x: nat) -> Seq<u8>
    decreases x,
{
    if x < 128 {
        seq![x as u8]
    } else {
        seq![(x % 128 + 128) as u8] + varint(x / 128)
    }
}

/// How many bytes the number at the front of `s` takes: up to and with the
/// first byte whose high bit is clear, or all of `s` where there is none.
pub open spec fn varint_len(s: Seq<u8>) -> nat
    decreases s.len(),
{
    if s.len() == 0 {
        0
    } else if s[0] < 128 {
        1
    } else {
        1 + varint_len(s.skip(1))
    }
}

/// The number at the front of `s` ends within `s`.
pub open spec fn varint_ends(s: Seq<u8>) -> bool {
    0 < varint_len(s) && s[varint_len(s) - 1] < 128
}

/// The number that the low seven bits of the bytes spell.
pub open spec fn varint_sum(s: Seq<u8>) -> nat
    decreases s.len(),
{
    if s.len() == 0 {
        0
    } else {
        varint_sum(s.drop_last()) + (s.last() as nat % 128) * pow128((s.len() - 1) as nat)
    }
}

/// The number at the front of `s`, within 64 bits.
pub open spec fn varint_value(s: Seq<u8>) -> u64 {
    (varint_sum(s.take(varint_len(s) as int)) % 0x1_0000_0000_0000_0000) as u64
}

/// A number's length is within the string; the bytes before its last have
/// their high bit set.
pub proof fn lemma_varint_len(s: Seq<u8>)
    ensures
        varint_len(s) <= s.len(),
        forall|i: int| 0 <= i < varint_len(s) - 1 ==> s[i] >= 128,
        s.len() > 0 ==> varint_len(s) > 0,
        varint_len(s) < s.len() ==> varint_ends(s),
    decreases s.len(),
{
    if s.len() > 0 && s[0] >= 128 {
        let t = s.skip(1);
        lemma_varint_len(t);
        assert forall|i: int| 0 <= i < varint_len(s) - 1 implies s[i] >= 128 by {
            if i > 0 {
                assert(t[i - 1] == s[i]);
            }
        }
        if varint_len(t) > 0 {
            assert(t[varint_len(t) - 1] == s[varint_len(s) - 1]);
        }
    }
}

/// The first byte with a clear high bit gives the length.
proof fn lemma_varint_len_is(s: Seq<u8>, n: int)
    requires
        0 < n <= s.len(),
        forall|i: int| 0 <= i < n - 1 ==> s[i] >= 128,
        s[n - 1] < 128 || n == s.len(),
    ensures
        varint_len(s) == n,
    decreases n,
{
    if n > 1 {
        let t = s.skip(1);
        assert forall|i: int| 0 <= i < n - 2 implies t[i] >= 128 by {
            assert(t[i] == s[i + 1]);
        }
        assert(t[n - 2] == s[n - 1]);
        lemma_varint_len_is(t, n - 1);
        assert(s[0] >= 128);
    } else if s[0] >= 128 {
        assert(varint_len(s.skip(1)) == 0);
    }
}

/// What follows a number that has ended does not matter to it.
pub proof fn lemma_varint_extend(s: Seq<u8>, t: Seq<u8>)
    requires
        varint_ends(s),
    ensures
        varint_len(s + t) == varint_len(s),
        varint_value(s + t) == varint_value(s),
        varint_ends(s + t),
{
    lemma_varint_len(s);
    let n = varint_len(s) as int;
    assert forall|i: int| 0 <= i < n - 1 implies (s + t)[i] >= 128 by {
        assert((s + t)[i] == s[i]);
    }
    lemma_varint_len_is(s + t, n);
    assert((s + t).take(n) =~= s.take(n));
}

/// A digit of weight one counts as it stands.
proof fn lemma_weight_one(d: nat, p: nat)
    requires
        p == 1,
    ensures
        d * p == d,
{
    assert(d * p == d) by (nonlinear_arith)
        requires
            p == 1,
    ;
}

/// The sum, read from the front.
proof fn lemma_varint_sum_front(b: u8, t: Seq<u8>)
    ensures
        varint_sum(seq![b] + t) == b as nat % 128 + 128 * varint_sum(t),
    decreases t.len(),
{
    let s = seq![b] + t;
    if t.len() == 0 {
        assert(s.drop_last() =~= Seq::<u8>::empty());
        assert(pow128(0) == 1);
        assert(varint_sum(s.drop_last()) == 0);
        assert(varint_sum(t) == 0);
        lemma_weight_one(s.last() as nat % 128, pow128((s.len() - 1) as nat));
    } else {
        assert(s.drop_last() =~= seq![b] + t.drop_last());
        lemma_varint_sum_front(b, t.drop_last());
        let d = s.last() as nat % 128;
        let p = pow128((t.len() - 1) as nat);
        assert(pow128((s.len() - 1) as nat) == 128 * p);
        assert(d * (128 * p) == 128 * (d * p)) by (nonlinear_arith);
        assert(128 * (varint_sum(t.drop_last()) + d * p) == 128 * varint_sum(t.drop_last()) + 128
            * (d * p)) by (nonlinear_arith);
    }
}

/// Encoding a number and reading it back gives the number, and how many bytes
/// it took.
pub proof fn lemma_varint_round_trip(x: u64, rest: Seq<u8>)
    ensures
        varint_value(varint(x as nat) + rest) == x,
        varint_len(varint(x as nat) + rest) == varint(x as nat).len(),
        varint_ends(varint(x as nat) + rest),
        1 <= varint(x as nat).len() <= 10,
{
    lemma_varint_encoded(x as nat);
    let e = varint(x as nat);
    lemma_varint_extend(e, rest);
    assert(e.take(varint_len(e) as int) =~= e);
    assert(pow128(10) >= 0x1_0000_0000_0000_0000) by {
        reveal_with_fuel(pow128, 11);
    }
    lemma_varint_short(x as nat, 10);
}

/// An encoded number is one number, and spells what was encoded.
proof fn lemma_varint_encoded(x: nat)
    ensures
        varint_len(varint(x)) == varint(x).len(),
        varint_ends(varint(x)),
        varint_sum(varint(x)) == x,
        varint(x).len() > 0,
    decreases x,
{
    let e = varint(x);
    if x < 128 {
        assert(e.drop_last() =~= Seq::<u8>::empty());
        assert(pow128(0) == 1);
        assert(varint_sum(e.drop_last()) == 0);
        assert((x as u8) as nat % 128 == x);
        lemma_weight_one(x, pow128((e.len() - 1) as nat));
    } else {
        let b = (x % 128 + 128) as u8;
        let t = varint(x / 128);
        lemma_varint_encoded(x / 128);
        lemma_varint_sum_front(b, t);
        assert(e.skip(1) =~= t);
        assert(e[0] == b);
        assert(b as nat % 128 == x % 128);
        assert(e[e.len() - 1] == t[t.len() - 1]);
    }
}

/// A number below `128^n` takes at most `n` bytes.
proof fn lemma_varint_short(x: nat, n: nat)
    requires
        n > 0,
        x < pow128(n),
    ensures
        varint(x).len() <= n,
    decreases n,
{
    if x >= 128 {
        if n == 1 {
            assert(pow128(0) == 1);
            assert(pow128(1) == 128);
        } else {
            assert(pow128(n) == 128 * pow128((n - 1) as nat));
            assert(x / 128 < pow128((n - 1) as nat));
            lemma_varint_short(x / 128, (n - 1) as nat);
        }
    }
}

/// Append the encoding of `value` to `buf`.
pub fn encode_varint(buf: &mut Vec<u8>, value: u64)
    ensures
        final(buf)@ == old(buf)@ + varint(value as nat),
        1 <= varint(value as nat).len() <= 10,
{
    let mut rest: u64 = value;
    let ghost b0 = buf@;
    proof {
        lemma_varint_round_trip(value, Seq::empty());
    }
    while rest >= 0x80
        invariant
            b0 + varint(value as nat) == buf@ + varint(rest as nat),
        decreases rest,
    {
        let ghost before = buf@;
        buf.push((rest % 0x80) as u8 + 0x80);
        proof {
            let head = seq![(rest % 128 + 128) as u8];
            assert(varint(rest as nat) == head + varint((rest / 128) as nat));
            assert(before + varint(rest as nat) =~= buf@ + varint((rest / 128) as nat));
        }
        rest = rest / 0x80;
    }
    let ghost before = buf@;
    buf.push(rest as u8);
    assert(before + varint(rest as nat) =~= buf@);
}

/// The number at the front of `data`, and how many bytes it takes. Bits
/// beyond the sixty-fourth are dropped.
pub fn decode_varint(data: &[u8]) -> (r: (u64, usize))
    requires
        varint_len(data@) <= 10,
    ensures
        r.0 == varint_value(data@),
        r.1 == varint_len(data@),
        r.1 <= data@.len(),
{
    let mut sum: u128 = 0;
    let mut weight: u128 = 1;
    let mut i: usize = 0;
    let len: usize = data.len();
    proof {
        lemma_varint_len(data@);
        assert(pow128(0) == 1);
        assert(data@.take(0) =~= Seq::<u8>::empty());
    }
    while i < len
        invariant
            i <= len == data@.len(),
            i <= varint_len(data@) <= 10,
            i < varint_len(data@) || i == len,
            weight == pow128(i as nat),
            sum == varint_sum(data@.take(i as int)),
            sum < weight,
            i < 11 ==> weight <= 0x40_0000_0000_0000_0000,
        decreases len - i,
    {
        let byte: u8 = data[i];
        let ghost s1 = data@.take(i + 1);
        proof {
            lemma_varint_len(data@);
            assert(s1.drop_last() =~= data@.take(i as int));
            assert(s1.last() == byte);
            let d = byte as nat % 128;
            let w = weight as nat;
            assert(d * w <= 127 * w) by (nonlinear_arith)
                requires
                    d <= 127,
            ;
            assert(pow128((i + 1) as nat) == 128 * pow128(i as nat));
            assert(0 <= d * w) by (nonlinear_arith);
        }
        let digit: u128 = (byte % 0x80) as u128;
        sum = sum + digit * weight;
        i += 1;
        if byte < 0x80 {
            proof {
                assert(varint_len(data@) == i) by {
                    if varint_len(data@) > i {
                        assert(data@[i - 1] >= 128);
                    }
                }
            }
            let value: u64 = low_half(sum);
            return (value, i);
        }
        weight = weight * 0x80;
        proof {
            assert(varint_len(data@) >= i);
            if varint_len(data@) == i && i < len {
                assert(varint_ends(data@));
            }
            lemma_pow128_step(i as nat);
        }
    }
    proof {
        assert(data@.take(len as int) =~= data@);
        if len > 0 {
            lemma_varint_len(data@);
            assert(varint_len(data@) == len);
        }
    }
    let value: u64 = low_half(sum);
    (value, len)
}

/// Up to ten bytes the weights stay within 128 bits.
proof fn lemma_pow128_step(i: nat)
    ensures
        i <= 10 ==> pow128(i) <= 0x40_0000_0000_0000_0000,
{
    reveal_with_fuel(pow128, 11);
}

/// The low 64 bits.
fn low_half(x: u128) -> (r: u64)
    ensures
        r == x % 0x1_0000_0000_0000_0000,
{
    (x % 0x1_0000_0000_0000_0000) as u64
}

/// A number of 64 bits takes no more than ten bytes.
pub proof fn lemma_varint_of_u64(x: nat)
    requires
        x <= u64::MAX,
    ensures
        varint(x).len() <= 10,
{
    assert(pow128(10) > u64::MAX) by {
        reveal_with_fuel(pow128, 11);
    }
    lemma_varint_short(x, 10);
}

} // verus!
