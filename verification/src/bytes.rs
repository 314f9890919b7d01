//! Byte strings: their lexicographic order, and fixed-width integers in them.

use vstd::bytes::spec_u128_from_le_bytes;
use vstd::bytes::spec_u128_to_le_bytes;
use vstd::bytes::spec_u32_from_le_bytes;
use vstd::bytes::spec_u32_to_le_bytes;
use vstd::bytes::spec_u64_from_le_bytes;
use vstd::bytes::spec_u64_to_le_bytes;
use vstd::prelude::*;

verus! {

broadcast use vstd::seq_lib::group_seq_properties;

// ── Lexicographic order ──────────────────────────────────────────

/// `a` comes strictly before `b` in the lexicographic order of bytes.
pub open spec fn lex_lt(a: Seq<u8>, b: Seq<u8>) -> bool
    decreases a.len(),
{
    if b.len() == 0 {
        false
    } else if a.len() == 0 {
        true
    } else if a[0] != b[0] {
        a[0] < b[0]
    } else {
        lex_lt(a.skip(1), b.skip(1))
    }
}

/// `a` comes before `b` in the lexicographic order of bytes, or is `b`.
pub open spec fn lex_le(a: Seq<u8>, b: Seq<u8>) -> bool {
    a == b || lex_lt(a, b)
}

/// No byte string comes before itself.
pub proof fn lemma_lex_irreflexive(a: Seq<u8>)
    ensures
        !lex_lt(a, a),
    decreases a.len(),
{
    if a.len() > 0 {
        lemma_lex_irreflexive(a.skip(1));
    }
}

/// The lexicographic order is transitive.
pub proof fn lemma_lex_transitive(a: Seq<u8>, b: Seq<u8>, c: Seq<u8>)
    requires
        lex_lt(a, b),
        lex_lt(b, c),
    ensures
        lex_lt(a, c),
    decreases a.len(),
{
    if a.len() > 0 && a[0] == b[0] && b[0] == c[0] {
        lemma_lex_transitive(a.skip(1), b.skip(1), c.skip(1));
    }
}

/// Of two byte strings exactly one comes first, unless they are equal.
pub proof fn lemma_lex_trichotomy(a: Seq<u8>, b: Seq<u8>)
    ensures
        lex_lt(a, b) || a == b || lex_lt(b, a),
        !(lex_lt(a, b) && lex_lt(b, a)),
        a == b ==> !lex_lt(a, b),
    decreases a.len(),
{
    if a.len() > 0 && b.len() > 0 && a[0] == b[0] {
        lemma_lex_trichotomy(a.skip(1), b.skip(1));
        if a.skip(1) == b.skip(1) {
            assert(a =~= seq![a[0]] + a.skip(1));
            assert(b =~= seq![b[0]] + b.skip(1));
        }
    } else if a.len() == 0 && b.len() == 0 {
        assert(a =~= b);
    }
}

/// All the order laws for three byte strings at once.
pub proof fn lemma_lex_order(a: Seq<u8>, b: Seq<u8>, c: Seq<u8>)
    ensures
        lex_lt(a, b) || a == b || lex_lt(b, a),
        !(lex_lt(a, b) && lex_lt(b, a)),
        !lex_lt(a, a),
        lex_le(a, b) && lex_le(b, c) ==> lex_le(a, c),
        lex_lt(a, b) && lex_le(b, c) ==> lex_lt(a, c),
        lex_le(a, b) && lex_lt(b, c) ==> lex_lt(a, c),
{
    lemma_lex_trichotomy(a, b);
    lemma_lex_irreflexive(a);
    if lex_lt(a, b) && lex_lt(b, c) {
        lemma_lex_transitive(a, b, c);
    }
}

/// A common prefix does not matter to the order.
pub proof fn lemma_lex_common_prefix(a: Seq<u8>, b: Seq<u8>, n: int)
    requires
        0 <= n <= a.len(),
        n <= b.len(),
        forall|i: int| 0 <= i < n ==> a[i] == b[i],
    ensures
        lex_lt(a, b) == lex_lt(a.skip(n), b.skip(n)),
    decreases n,
{
    if n == 0 {
        assert(a.skip(0) =~= a);
        assert(b.skip(0) =~= b);
    } else {
        assert forall|i: int| 0 <= i < n - 1 implies a.skip(1)[i] == b.skip(1)[i] by {
            assert(a[i + 1] == b[i + 1]);
        }
        lemma_lex_common_prefix(a.skip(1), b.skip(1), n - 1);
        assert(a.skip(1).skip(n - 1) =~= a.skip(n));
        assert(b.skip(1).skip(n - 1) =~= b.skip(n));
    }
}

/// Prepending the same bytes to both sides keeps the order.
pub proof fn lemma_lex_prepend(p: Seq<u8>, a: Seq<u8>, b: Seq<u8>)
    ensures
        lex_lt(p + a, p + b) == lex_lt(a, b),
{
    lemma_lex_common_prefix(p + a, p + b, p.len() as int);
    assert((p + a).skip(p.len() as int) =~= a);
    assert((p + b).skip(p.len() as int) =~= b);
}

/// The first position at which two byte strings differ decides their order.
pub proof fn lemma_lex_decided_at(a: Seq<u8>, b: Seq<u8>, n: int)
    requires
        0 <= n < a.len(),
        n < b.len(),
        forall|i: int| 0 <= i < n ==> a[i] == b[i],
        a[n] != b[n],
    ensures
        lex_lt(a, b) == (a[n] < b[n]),
{
    lemma_lex_common_prefix(a, b, n);
    assert(a.skip(n)[0] == a[n]);
    assert(b.skip(n)[0] == b[n]);
}

/// A byte string comes no later than any extension of it.
pub proof fn lemma_lex_prefix_le(a: Seq<u8>, s: Seq<u8>)
    ensures
        lex_le(a, a + s),
        s.len() > 0 ==> lex_lt(a, a + s),
{
    lemma_lex_common_prefix(a, a + s, a.len() as int);
    assert(a.skip(a.len() as int) =~= Seq::<u8>::empty());
    assert((a + s).skip(a.len() as int) =~= s);
    if s.len() == 0 {
        assert(a + s =~= a);
    }
}

// ── Prefixes ─────────────────────────────────────────────────────

/// `k` starts with `p`.
pub open spec fn has_prefix(k: Seq<u8>, p: Seq<u8>) -> bool {
    p.len() <= k.len() && k.take(p.len() as int) == p
}

/// The least byte string after all those that start with `p`; `None` where
/// there is none, because `p` is made of `0xff` bytes alone.
pub open spec fn prefix_successor(p: Seq<u8>) -> Option<Seq<u8>>
    decreases p.len(),
{
    if p.len() == 0 {
        None
    } else if p.last() < 255 {
        Some(p.drop_last().push((p.last() + 1) as u8))
    } else {
        prefix_successor(p.drop_last())
    }
}

/// The byte strings that start with `p` are exactly those from `p` up to its
/// successor.
pub proof fn lemma_prefix_range(p: Seq<u8>, k: Seq<u8>)
    ensures
        has_prefix(k, p) ==> lex_le(p, k),
        prefix_successor(p) matches Some(u) ==> (has_prefix(k, p) <==> lex_le(p, k) && lex_lt(
            k,
            u,
        )),
        prefix_successor(p) is None ==> (has_prefix(k, p) <==> lex_le(p, k)),
    decreases p.len(),
{
    if has_prefix(k, p) {
        lemma_lex_prefix_le(p, k.skip(p.len() as int));
        assert(p + k.skip(p.len() as int) =~= k);
    }
    if p.len() == 0 {
        assert(k.take(0) =~= p);
        lemma_lex_prefix_le(p, k);
        assert(p + k =~= k);
    } else if p.last() < 255 {
        let u = p.drop_last().push((p.last() + 1) as u8);
        lemma_last_byte_range(p, u, k);
    } else {
        let q = p.drop_last();
        let last = seq![p.last()];
        assert(p =~= q + last);
        lemma_prefix_range(q, k);
        lemma_lex_prefix_le(q, last);
        lemma_lex_order(q, p, k);
        if has_prefix(k, p) {
            assert(k.take(q.len() as int) =~= p.take(q.len() as int));
            assert(p.take(q.len() as int) =~= q);
        }
        if has_prefix(k, q) && lex_le(p, k) {
            let r = k.skip(q.len() as int);
            assert(k =~= q + r);
            lemma_lex_prepend(q, last, r);
            if lex_lt(last, r) {
                assert(r.len() > 0);
                assert(r[0] >= 255);
                assert(k[q.len() as int] == 255);
                assert(k.take(p.len() as int) =~= p);
            } else {
                assert(k == p);
                assert(k.take(p.len() as int) =~= p);
            }
        }
    }
}

/// Where the last byte of `p` can be incremented, the strings that start with
/// `p` are those from `p` up to the incremented string.
proof fn lemma_last_byte_range(p: Seq<u8>, u: Seq<u8>, k: Seq<u8>)
    requires
        p.len() > 0,
        p.last() < 255,
        u == p.drop_last().push((p.last() + 1) as u8),
    ensures
        has_prefix(k, p) <==> lex_le(p, k) && lex_lt(k, u),
    decreases p.len(),
{
    if p.len() == 1 {
        reveal_with_fuel(lex_lt, 3);
        if k.len() > 0 {
            assert(p.skip(1) =~= Seq::<u8>::empty());
            assert(u.skip(1) =~= Seq::<u8>::empty());
            if k[0] == p[0] {
                assert(k.take(1) =~= p);
                if k.skip(1).len() == 0 {
                    assert(k =~= p);
                }
            } else {
                assert(k.take(1)[0] == k[0]);
            }
        }
    } else {
        let p1 = p.skip(1);
        let u1 = u.skip(1);
        assert(u1 =~= p1.drop_last().push((p1.last() + 1) as u8));
        assert(u[0] == p[0]);
        if k.len() > 0 && k[0] == p[0] {
            let k1 = k.skip(1);
            lemma_last_byte_range(p1, u1, k1);
            assert(p =~= seq![p[0]] + p1);
            assert(k =~= seq![k[0]] + k1);
            if has_prefix(k, p) {
                assert(k1.take(p1.len() as int) =~= k.take(p.len() as int).skip(1));
            }
            if has_prefix(k1, p1) {
                assert(k.take(p.len() as int) =~= seq![k[0]] + k1.take(p1.len() as int));
            }
        } else if k.len() > 0 {
            if has_prefix(k, p) {
                assert(k.take(p.len() as int)[0] == k[0]);
            }
        }
    }
}

/// How many bytes `a` and `b` have in common at their start.
pub open spec fn common_prefix_len(a: Seq<u8>, b: Seq<u8>) -> nat
    decreases a.len(),
{
    if a.len() == 0 || b.len() == 0 || a[0] != b[0] {
        0
    } else {
        1 + common_prefix_len(a.skip(1), b.skip(1))
    }
}

/// The common prefix is common, no longer than either string, and maximal.
pub proof fn lemma_common_prefix_len(a: Seq<u8>, b: Seq<u8>)
    ensures
        common_prefix_len(a, b) <= a.len(),
        common_prefix_len(a, b) <= b.len(),
        a.take(common_prefix_len(a, b) as int) == b.take(common_prefix_len(a, b) as int),
    decreases a.len(),
{
    if a.len() == 0 || b.len() == 0 || a[0] != b[0] {
        assert(a.take(0) =~= b.take(0));
    } else {
        let n = common_prefix_len(a.skip(1), b.skip(1)) as int;
        lemma_common_prefix_len(a.skip(1), b.skip(1));
        assert(a.take(n + 1) =~= seq![a[0]] + a.skip(1).take(n));
        assert(b.take(n + 1) =~= seq![b[0]] + b.skip(1).take(n));
    }
}

/// A shared start of length `n` ending in a difference, or in the end of a
/// string, is the whole common prefix.
proof fn lemma_common_prefix_len_is(a: Seq<u8>, b: Seq<u8>, n: int)
    requires
        0 <= n <= a.len(),
        n <= b.len(),
        forall|i: int| 0 <= i < n ==> a[i] == b[i],
        n == a.len() || n == b.len() || a[n] != b[n],
    ensures
        common_prefix_len(a, b) == n,
    decreases n,
{
    if n > 0 {
        assert forall|i: int| 0 <= i < n - 1 implies a.skip(1)[i] == b.skip(1)[i] by {
            assert(a[i + 1] == b[i + 1]);
        }
        lemma_common_prefix_len_is(a.skip(1), b.skip(1), n - 1);
    }
}

/// The number of leading bytes that `a` and `b` share.
pub fn shared_prefix(a: &[u8], b: &[u8]) -> (n: usize)
    ensures
        n == common_prefix_len(a@, b@),
        n <= a@.len(),
        n <= b@.len(),
{
    let mut n: usize = 0;
    while n < a.len() && n < b.len() && a[n] == b[n]
        invariant
            n <= a@.len(),
            n <= b@.len(),
            forall|i: int| 0 <= i < n ==> a@[i] == b@[i],
        decreases a@.len() - n,
    {
        n += 1;
    }
    proof {
        lemma_common_prefix_len_is(a@, b@, n as int);
    }
    n
}

/// Whether `a` comes strictly before `b`.
pub fn bytes_lt(a: &[u8], b: &[u8]) -> (r: bool)
    ensures
        r == lex_lt(a@, b@),
{
    let n: usize = shared_prefix_positions(a, b);
    proof {
        lemma_lex_common_prefix(a@, b@, n as int);
    }
    if n == b.len() {
        false
    } else if n == a.len() {
        true
    } else {
        proof {
            assert(a@.skip(n as int)[0] == a@[n as int]);
            assert(b@.skip(n as int)[0] == b@[n as int]);
        }
        a[n] < b[n]
    }
}

/// As `shared_prefix`, saying which positions agree.
fn shared_prefix_positions(a: &[u8], b: &[u8]) -> (n: usize)
    ensures
        n <= a@.len(),
        n <= b@.len(),
        forall|i: int| 0 <= i < n ==> a@[i] == b@[i],
        n == a@.len() || n == b@.len() || a@[n as int] != b@[n as int],
{
    let mut n: usize = 0;
    while n < a.len() && n < b.len() && a[n] == b[n]
        invariant
            n <= a@.len(),
            n <= b@.len(),
            forall|i: int| 0 <= i < n ==> a@[i] == b@[i],
        decreases a@.len() - n,
    {
        n += 1;
    }
    n
}

/// Whether `a` comes before `b`, or is `b`.
pub fn bytes_le(a: &[u8], b: &[u8]) -> (r: bool)
    ensures
        r == lex_le(a@, b@),
{
    proof {
        lemma_lex_order(a@, b@, a@);
    }
    !bytes_lt(b, a)
}

/// Whether `a` and `b` hold the same bytes.
pub fn bytes_eq(a: &[u8], b: &[u8]) -> (r: bool)
    ensures
        r == (a@ == b@),
{
    if a.len() != b.len() {
        return false;
    }
    let n: usize = shared_prefix_positions(a, b);
    proof {
        if n == a@.len() {
            assert(a@ =~= b@);
        }
    }
    n == a.len()
}

// ── Copying ──────────────────────────────────────────────────────

/// An owned copy of `s`.
pub fn copy_bytes(s: &[u8]) -> (r: Vec<u8>)
    ensures
        r@ == s@,
{
    vstd::slice::slice_to_vec(s)
}

/// Append `s` to `buf`.
pub fn append_bytes(buf: &mut Vec<u8>, s: &[u8])
    ensures
        final(buf)@ == old(buf)@ + s@,
{
    buf.extend_from_slice(s);
    assert(buf@ =~= old(buf)@ + s@);
}

// ── Little-endian integers ───────────────────────────────────────

/// The four bytes of `x`, least significant first.
pub open spec fn le32(x: u32) -> Seq<u8> {
    spec_u32_to_le_bytes(x)
}

/// The eight bytes of `x`, least significant first.
pub open spec fn le64(x: u64) -> Seq<u8> {
    spec_u64_to_le_bytes(x)
}

/// The sixteen bytes of `x`, least significant first.
pub open spec fn le128(x: u128) -> Seq<u8> {
    spec_u128_to_le_bytes(x)
}

/// The number whose little-endian bytes are `s`.
pub open spec fn from_le32(s: Seq<u8>) -> u32 {
    spec_u32_from_le_bytes(s)
}

/// The number whose little-endian bytes are `s`.
pub open spec fn from_le64(s: Seq<u8>) -> u64 {
    spec_u64_from_le_bytes(s)
}

/// The number whose little-endian bytes are `s`.
pub open spec fn from_le128(s: Seq<u8>) -> u128 {
    spec_u128_from_le_bytes(s)
}

/// Writing a number in little-endian bytes and reading it are inverse.
pub proof fn lemma_le_round_trip()
    ensures
        forall|x: u32| (#[trigger] le32(x)).len() == 4 && from_le32(le32(x)) == x,
        forall|x: u64| (#[trigger] le64(x)).len() == 8 && from_le64(le64(x)) == x,
        forall|x: u128| (#[trigger] le128(x)).len() == 16 && from_le128(le128(x)) == x,
        forall|s: Seq<u8>| s.len() == 4 ==> le32(#[trigger] from_le32(s)) == s,
        forall|s: Seq<u8>| s.len() == 8 ==> le64(#[trigger] from_le64(s)) == s,
        forall|s: Seq<u8>| s.len() == 16 ==> le128(#[trigger] from_le128(s)) == s,
{
    vstd::bytes::lemma_auto_spec_u32_to_from_le_bytes();
    vstd::bytes::lemma_auto_spec_u64_to_from_le_bytes();
    vstd::bytes::lemma_auto_spec_u128_to_from_le_bytes();
    assert forall|x: u32| (#[trigger] le32(x)).len() == 4 && from_le32(le32(x)) == x by {
        assert(spec_u32_to_le_bytes(x).len() == 4);
    }
}

/// Append `x` to `buf`, least significant byte first.
pub fn put_le32(buf: &mut Vec<u8>, x: u32)
    ensures
        final(buf)@ == old(buf)@ + le32(x),
        le32(x).len() == 4,
{
    let b = vstd::bytes::u32_to_le_bytes(x);
    append_bytes(buf, b.as_slice());
}

/// Append `x` to `buf`, least significant byte first.
pub fn put_le64(buf: &mut Vec<u8>, x: u64)
    ensures
        final(buf)@ == old(buf)@ + le64(x),
        le64(x).len() == 8,
{
    let b = vstd::bytes::u64_to_le_bytes(x);
    append_bytes(buf, b.as_slice());
}

/// Append `x` to `buf`, least significant byte first.
pub fn put_le128(buf: &mut Vec<u8>, x: u128)
    ensures
        final(buf)@ == old(buf)@ + le128(x),
        le128(x).len() == 16,
{
    let b = vstd::bytes::u128_to_le_bytes(x);
    append_bytes(buf, b.as_slice());
}

/// The little-endian number at `at`.
pub fn get_le32(s: &[u8], at: usize) -> (x: u32)
    requires
        at + 4 <= s@.len(),
    ensures
        x == from_le32(s@.subrange(at as int, at + 4)),
{
    let len: usize = s.len();
    assert(at + 4 <= len);
    vstd::bytes::u32_from_le_bytes(vstd::slice::slice_subrange(s, at, at + 4))
}

/// The little-endian number at `at`.
pub fn get_le64(s: &[u8], at: usize) -> (x: u64)
    requires
        at + 8 <= s@.len(),
    ensures
        x == from_le64(s@.subrange(at as int, at + 8)),
{
    let len: usize = s.len();
    assert(at + 8 <= len);
    vstd::bytes::u64_from_le_bytes(vstd::slice::slice_subrange(s, at, at + 8))
}

/// The little-endian number at `at`.
pub fn get_le128(s: &[u8], at: usize) -> (x: u128)
    requires
        at + 16 <= s@.len(),
    ensures
        x == from_le128(s@.subrange(at as int, at + 16)),
{
    let len: usize = s.len();
    assert(at + 16 <= len);
    vstd::bytes::u128_from_le_bytes(vstd::slice::slice_subrange(s, at, at + 16))
}

// ── Big-endian integers ──────────────────────────────────────────

/// The four bytes of `x`, most significant first.
pub open spec fn be32(x: u32) -> Seq<u8> {
    seq![(x >> 24) as u8, (x >> 16) as u8, (x >> 8) as u8, x as u8]
}

/// The number whose big-endian bytes are `s`.
pub open spec fn from_be32(s: Seq<u8>) -> u32 {
    ((s[0] as u32) << 24) | ((s[1] as u32) << 16) | ((s[2] as u32) << 8) | (s[3] as u32)
}

/// The eight bytes of `x`, most significant first.
pub open spec fn be64(x: u64) -> Seq<u8> {
    seq![
        (x >> 56) as u8,
        (x >> 48) as u8,
        (x >> 40) as u8,
        (x >> 32) as u8,
        (x >> 24) as u8,
        (x >> 16) as u8,
        (x >> 8) as u8,
        x as u8,
    ]
}

/// The number whose big-endian bytes are `s`.
pub open spec fn from_be64(s: Seq<u8>) -> u64 {
    ((s[0] as u64) << 56) | ((s[1] as u64) << 48) | ((s[2] as u64) << 40) | ((s[3] as u64) << 32)
        | ((s[4] as u64) << 24) | ((s[5] as u64) << 16) | ((s[6] as u64) << 8) | (s[7] as u64)
}

/// Writing a number in big-endian bytes and reading it are inverse.
pub proof fn lemma_be32_round_trip(x: u32)
    ensures
        from_be32(be32(x)) == x,
        be32(x).len() == 4,
{
    assert((((x >> 24) as u8) as u32) << 24 | (((x >> 16) as u8) as u32) << 16 | (((x
        >> 8) as u8) as u32) << 8 | ((x as u8) as u32) == x) by (bit_vector);
}

/// Writing a number in big-endian bytes and reading it are inverse.
pub proof fn lemma_be64_round_trip(x: u64)
    ensures
        from_be64(be64(x)) == x,
        be64(x).len() == 8,
{
    assert((((x >> 56) as u8) as u64) << 56 | (((x >> 48) as u8) as u64) << 48 | (((x
        >> 40) as u8) as u64) << 40 | (((x >> 32) as u8) as u64) << 32 | (((x >> 24) as u8) as u64)
        << 24 | (((x >> 16) as u8) as u64) << 16 | (((x >> 8) as u8) as u64) << 8 | ((
    x as u8) as u64) == x) by (bit_vector);
}

/// Reading eight bytes as a number and writing it gives the bytes back.
pub proof fn lemma_from_be64_round_trip(s: Seq<u8>)
    requires
        s.len() == 8,
    ensures
        be64(from_be64(s)) == s,
{
    let (a, b, c, d, e, f, g, h) = (s[0], s[1], s[2], s[3], s[4], s[5], s[6], s[7]);
    let x: u64 = ((a as u64) << 56) | ((b as u64) << 48) | ((c as u64) << 40) | ((d as u64) << 32)
        | ((e as u64) << 24) | ((f as u64) << 16) | ((g as u64) << 8) | (h as u64);
    assert((x >> 56) as u8 == a && (x >> 48) as u8 == b && (x >> 40) as u8 == c && (x >> 32) as u8
        == d && (x >> 24) as u8 == e && (x >> 16) as u8 == f && (x >> 8) as u8 == g && x as u8
        == h) by (bit_vector)
        requires
            x == ((a as u64) << 56) | ((b as u64) << 48) | ((c as u64) << 40) | ((d as u64) << 32)
                | ((e as u64) << 24) | ((f as u64) << 16) | ((g as u64) << 8) | (h as u64),
    ;
    assert(be64(from_be64(s)) =~= s);
}

/// The big-endian bytes of two numbers are in the order of the numbers.
pub proof fn lemma_be32_order(x: u32, y: u32)
    ensures
        lex_lt(be32(x), be32(y)) == (x < y),
{
    let (x3, x2, x1, x0) = ((x >> 24) as u8, (x >> 16) as u8, (x >> 8) as u8, x as u8);
    let (y3, y2, y1, y0) = ((y >> 24) as u8, (y >> 16) as u8, (y >> 8) as u8, y as u8);
    assert((x < y) == (if (x >> 24) as u8 != (y >> 24) as u8 {
        ((x >> 24) as u8) < (y >> 24) as u8
    } else if (x >> 16) as u8 != (y >> 16) as u8 {
        ((x >> 16) as u8) < (y >> 16) as u8
    } else if (x >> 8) as u8 != (y >> 8) as u8 {
        ((x >> 8) as u8) < (y >> 8) as u8
    } else {
        (x as u8) < y as u8
    })) by (bit_vector);
    if be32(x) =~= be32(y) {
        lemma_lex_irreflexive(be32(x));
    } else if x3 != y3 {
        lemma_lex_decided_at(be32(x), be32(y), 0);
    } else if x2 != y2 {
        lemma_lex_decided_at(be32(x), be32(y), 1);
    } else if x1 != y1 {
        lemma_lex_decided_at(be32(x), be32(y), 2);
    } else {
        lemma_lex_decided_at(be32(x), be32(y), 3);
    }
}

/// The big-endian bytes of two numbers are in the order of the numbers.
pub proof fn lemma_be64_order(x: u64, y: u64)
    ensures
        lex_lt(be64(x), be64(y)) == (x < y),
{
    assert((x < y) == (if (x >> 56) as u8 != (y >> 56) as u8 {
        ((x >> 56) as u8) < (y >> 56) as u8
    } else if (x >> 48) as u8 != (y >> 48) as u8 {
        ((x >> 48) as u8) < (y >> 48) as u8
    } else if (x >> 40) as u8 != (y >> 40) as u8 {
        ((x >> 40) as u8) < (y >> 40) as u8
    } else if (x >> 32) as u8 != (y >> 32) as u8 {
        ((x >> 32) as u8) < (y >> 32) as u8
    } else if (x >> 24) as u8 != (y >> 24) as u8 {
        ((x >> 24) as u8) < (y >> 24) as u8
    } else if (x >> 16) as u8 != (y >> 16) as u8 {
        ((x >> 16) as u8) < (y >> 16) as u8
    } else if (x >> 8) as u8 != (y >> 8) as u8 {
        ((x >> 8) as u8) < (y >> 8) as u8
    } else {
        (x as u8) < y as u8
    })) by (bit_vector);
    let a = be64(x);
    let b = be64(y);
    if a =~= b {
        lemma_lex_irreflexive(a);
    } else if a[0] != b[0] {
        lemma_lex_decided_at(a, b, 0);
    } else if a[1] != b[1] {
        lemma_lex_decided_at(a, b, 1);
    } else if a[2] != b[2] {
        lemma_lex_decided_at(a, b, 2);
    } else if a[3] != b[3] {
        lemma_lex_decided_at(a, b, 3);
    } else if a[4] != b[4] {
        lemma_lex_decided_at(a, b, 4);
    } else if a[5] != b[5] {
        lemma_lex_decided_at(a, b, 5);
    } else if a[6] != b[6] {
        lemma_lex_decided_at(a, b, 6);
    } else {
        lemma_lex_decided_at(a, b, 7);
    }
}

/// Append `x` to `buf`, most significant byte first.
pub fn put_be32(buf: &mut Vec<u8>, x: u32)
    ensures
        final(buf)@ == old(buf)@ + be32(x),
{
    buf.push((x >> 24) as u8);
    buf.push((x >> 16) as u8);
    buf.push((x >> 8) as u8);
    buf.push(x as u8);
    assert(buf@ =~= old(buf)@ + be32(x));
}

/// Append `x` to `buf`, most significant byte first.
pub fn put_be64(buf: &mut Vec<u8>, x: u64)
    ensures
        final(buf)@ == old(buf)@ + be64(x),
{
    buf.push((x >> 56) as u8);
    buf.push((x >> 48) as u8);
    buf.push((x >> 40) as u8);
    buf.push((x >> 32) as u8);
    buf.push((x >> 24) as u8);
    buf.push((x >> 16) as u8);
    buf.push((x >> 8) as u8);
    buf.push(x as u8);
    assert(buf@ =~= old(buf)@ + be64(x));
}

/// The big-endian number at `at`.
pub fn get_be64(s: &[u8], at: usize) -> (x: u64)
    requires
        at + 8 <= s@.len(),
    ensures
        x == from_be64(s@.subrange(at as int, at + 8)),
{
    let ghost t = s@.subrange(at as int, at + 8);
    assert(forall|i: int| 0 <= i < 8 ==> #[trigger] t[i] == s@[at + i]);
    ((s[at] as u64) << 56) | ((s[at + 1] as u64) << 48) | ((s[at + 2] as u64) << 40) | ((s[at
        + 3] as u64) << 32) | ((s[at + 4] as u64) << 24) | ((s[at + 5] as u64) << 16) | ((s[at
        + 6] as u64) << 8) | (s[at + 7] as u64)
}

} // verus!
