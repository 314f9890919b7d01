//! Numbers in file names.

use crate::bytes::bytes_eq;
use vstd::prelude::*;
use vstd::slice::slice_subrange;
use vstd::string::StringExecFns;
use vstd::string::StringSliceAdditionalSpecFns;
use vstd::utf8::encode_utf8;
use vstd::utf8::is_ascii_chars;

verus! {

// ── Writing ──────────────────────────────────────────────────────

/// The character of a digit below sixteen.
pub open spec fn digit_char(d: nat) -> char {
    if d < 10 {
        (48 + d) as char
    } else {
        (87 + d) as char
    }
}

/// The digits of `n` to the base `base`, most significant first, without
/// leading zeros.
pub open spec fn digits(n: nat, base: nat) -> Seq<char>
    decreases n,
{
    if base < 2 || n < base {
        seq![digit_char(n)]
    } else {
        proof {
            lemma_quotient_shrinks(n, base);
        }
        digits(n / base, base).push(digit_char(n % base))
    }
}

/// Dividing makes smaller.
pub proof fn lemma_quotient_shrinks(n: nat, base: nat)
    requires
        2 <= base <= n,
    ensures
        n / base < n,
{
    vstd::arithmetic::div_mod::lemma_div_decreases(n as int, base as int);
}

/// `width - s.len()` zeros, none if there is no room for any.
pub open spec fn zeros(s: Seq<char>, width: nat) -> Seq<char> {
    Seq::new(
        if s.len() < width {
            (width - s.len()) as nat
        } else {
            0
        },
        |i: int| '0',
    )
}

/// The digits of `n`, with zeros in front up to a width.
pub open spec fn padded(n: nat, base: nat, width: nat) -> Seq<char> {
    zeros(digits(n, base), width) + digits(n, base)
}

fn digit_text(d: u8) -> (r: &'static str)
    requires
        d < 16,
    ensures
        r@ == seq![digit_char(d as nat)],
{
    proof {
        reveal_strlit("0");
        reveal_strlit("1");
        reveal_strlit("2");
        reveal_strlit("3");
        reveal_strlit("4");
        reveal_strlit("5");
        reveal_strlit("6");
        reveal_strlit("7");
        reveal_strlit("8");
        reveal_strlit("9");
        reveal_strlit("a");
        reveal_strlit("b");
        reveal_strlit("c");
        reveal_strlit("d");
        reveal_strlit("e");
        reveal_strlit("f");
    }
    let r = match d {
        0 => "0",
        1 => "1",
        2 => "2",
        3 => "3",
        4 => "4",
        5 => "5",
        6 => "6",
        7 => "7",
        8 => "8",
        9 => "9",
        10 => "a",
        11 => "b",
        12 => "c",
        13 => "d",
        14 => "e",
        _ => "f",
    };
    assert(r@ =~= seq![digit_char(d as nat)]);
    r
}

fn push_digits(s: &mut String, n: u128, base: u128)
    requires
        2 <= base <= 16,
    ensures
        final(s)@ == old(s)@ + digits(n as nat, base as nat),
    decreases n,
{
    if n >= base {
        proof {
            lemma_quotient_shrinks(n as nat, base as nat);
        }
        push_digits(s, n / base, base);
    }
    let d: u8 = (n % base) as u8;
    proof {
        if n < base {
            vstd::arithmetic::div_mod::lemma_small_mod(n as nat, base as nat);
        }
        vstd::arithmetic::div_mod::lemma_mod_bound(n as int, base as int);
    }
    s.append(digit_text(d));
    assert(s@ =~= old(s)@ + digits(n as nat, base as nat));
}

/// The digits of `n`, with zeros in front up to a width.
pub fn padded_text(n: u128, base: u128, width: usize) -> (r: String)
    requires
        2 <= base <= 16,
    ensures
        r@ == padded(n as nat, base as nat, width as nat),
{
    let mut d = String::new();
    push_digits(&mut d, n, base);
    let ghost ds = digits(n as nat, base as nat);
    assert(d@ =~= ds);
    let have: usize = d.as_str().unicode_len();
    let mut r = String::new();
    let mut i: usize = have;
    proof {
        reveal_strlit("0");
    }
    while i < width
        invariant
            have == ds.len(),
            have <= i,
            have <= width ==> i <= width,
            have > width ==> i == have,
            r@ == Seq::new((i - have) as nat, |j: int| '0'),
        decreases width - i,
    {
        proof {
            reveal_strlit("0");
        }
        r.append("0");
        assert(r@ =~= Seq::new((i + 1 - have) as nat, |j: int| '0'));
        i += 1;
    }
    assert(r@ =~= zeros(ds, width as nat));
    r.append(d.as_str());
    r
}

// ── Reading ──────────────────────────────────────────────────────

/// The byte is a decimal digit.
pub open spec fn is_digit(b: u8) -> bool {
    48 <= b <= 57
}

/// Every byte is a decimal digit.
pub open spec fn all_digits(s: Seq<u8>) -> bool {
    forall|i: int| 0 <= i < s.len() ==> is_digit(#[trigger] s[i])
}

/// The number that decimal digits write.
pub open spec fn decimal_value(s: Seq<u8>) -> nat
    decreases s.len(),
{
    if s.len() == 0 {
        0
    } else {
        decimal_value(s.drop_last()) * 10 + (s.last() - 48) as nat
    }
}

/// The digits of a number that may have a plus sign.
pub open spec fn unsigned(s: Seq<u8>) -> Seq<u8> {
    if s.len() > 1 && s[0] == 43 {
        s.skip(1)
    } else {
        s
    }
}

/// The number that a text says: digits, which may have a plus sign and leading
/// zeros, of a number that fits.
pub open spec fn parsed(s: Seq<u8>) -> Option<u64> {
    let d = unsigned(s);
    if d.len() > 0 && all_digits(d) && decimal_value(d) <= u64::MAX {
        Some(decimal_value(d) as u64)
    } else {
        None
    }
}

proof fn lemma_decimal_prefix(s: Seq<u8>, n: int)
    requires
        0 <= n <= s.len(),
        all_digits(s),
    ensures
        decimal_value(s.take(n)) <= decimal_value(s),
        n < s.len() ==> decimal_value(s.take(n + 1)) == decimal_value(s.take(n)) * 10 + (s[n]
            - 48),
    decreases s.len(),
{
    if n < s.len() {
        assert(s.take(n + 1).drop_last() =~= s.take(n));
        assert(s.drop_last().take(n) =~= s.take(n));
        lemma_decimal_prefix(s.drop_last(), n);
    } else {
        assert(s.take(n) =~= s);
    }
}

/// Read a number.
pub fn parse_number(s: &[u8]) -> (r: Option<u64>)
    ensures
        r == parsed(s@),
{
    let n: usize = s.len();
    let start: usize = if n > 1 && s[0] == 43 {
        1
    } else {
        0
    };
    let ghost d = unsigned(s@);
    assert(d =~= s@.skip(start as int));
    if n == start {
        return None;
    }
    let mut i: usize = start;
    while i < n
        invariant
            start <= i <= n,
            n == s@.len(),
            d == s@.skip(start as int),
            d == unsigned(s@),
            forall|j: int| 0 <= j < i - start ==> is_digit(#[trigger] d[j]),
        decreases n - i,
    {
        if s[i] < 48 || s[i] > 57 {
            assert(!is_digit(d[i - start]));
            return None;
        }
        i += 1;
    }
    assert(all_digits(d));
    let mut value: u64 = 0;
    let mut i: usize = start;
    assert(d.take(0) =~= Seq::<u8>::empty());
    while i < n
        invariant
            start <= i <= n,
            n == s@.len(),
            d == s@.skip(start as int),
            d == unsigned(s@),
            d.len() > 0,
            all_digits(d),
            value == decimal_value(d.take(i - start)),
        decreases n - i,
    {
        proof {
            lemma_decimal_prefix(d, i - start);
            lemma_decimal_prefix(d, i - start + 1);
            assert(d[i - start] == s@[i as int]);
            assert(is_digit(d[i - start]));
        }
        match value.checked_mul(10) {
            None => {
                return None;
            },
            Some(v) => match v.checked_add((s[i] - 48) as u64) {
                None => {
                    return None;
                },
                Some(w) => {
                    value = w;
                },
            },
        }
        i += 1;
    }
    assert(d.take(i - start) =~= d);
    Some(value)
}

/// What stands before `suffix` in `name`, if it ends so.
pub open spec fn stripped_suffix(name: Seq<u8>, suffix: Seq<u8>) -> Option<Seq<u8>> {
    if name.len() >= suffix.len() && name.skip(name.len() - suffix.len()) == suffix {
        Some(name.take(name.len() - suffix.len()))
    } else {
        None
    }
}

/// What stands behind `prefix` in `name`, if it starts so.
pub open spec fn stripped_prefix(name: Seq<u8>, prefix: Seq<u8>) -> Option<Seq<u8>> {
    if name.len() >= prefix.len() && name.take(prefix.len() as int) == prefix {
        Some(name.skip(prefix.len() as int))
    } else {
        None
    }
}

/// Take a suffix off a name.
pub fn strip_suffix<'a>(name: &'a [u8], suffix: &[u8]) -> (r: Option<&'a [u8]>)
    ensures
        match stripped_suffix(name@, suffix@) {
            Some(s) => r matches Some(t) && t@ == s,
            None => r is None,
        },
{
    let n: usize = name.len();
    let m: usize = suffix.len();
    if n < m {
        return None;
    }
    let tail = slice_subrange(name, n - m, n);
    assert(tail@ =~= name@.skip(n - m));
    if !bytes_eq(tail, suffix) {
        return None;
    }
    let head = slice_subrange(name, 0, n - m);
    assert(head@ =~= name@.take(n - m));
    Some(head)
}

/// Take a prefix off a name.
pub fn strip_prefix<'a>(name: &'a [u8], prefix: &[u8]) -> (r: Option<&'a [u8]>)
    ensures
        match stripped_prefix(name@, prefix@) {
            Some(s) => r matches Some(t) && t@ == s,
            None => r is None,
        },
{
    let n: usize = name.len();
    let m: usize = prefix.len();
    if n < m {
        return None;
    }
    let head = slice_subrange(name, 0, m);
    assert(head@ =~= name@.take(m as int));
    if !bytes_eq(head, prefix) {
        return None;
    }
    let tail = slice_subrange(name, m, n);
    assert(tail@ =~= name@.skip(m as int));
    Some(tail)
}

// ── Writing and reading ──────────────────────────────────────────

/// The bytes of characters, of which each is one byte.
pub proof fn lemma_ascii_bytes(s: Seq<char>)
    requires
        is_ascii_chars(s),
    ensures
        encode_utf8(s) == Seq::new(s.len(), |i: int| s[i] as u8),
{
    vstd::utf8::is_ascii_chars_encode_utf8(s);
    assert(encode_utf8(s) =~= Seq::new(s.len(), |i: int| s[i] as u8));
}

proof fn lemma_digits_read(n: nat)
    ensures
        is_ascii_chars(digits(n, 10)),
        digits(n, 10).len() > 0,
        all_digits(Seq::new(digits(n, 10).len(), |i: int| digits(n, 10)[i] as u8)),
        decimal_value(Seq::new(digits(n, 10).len(), |i: int| digits(n, 10)[i] as u8)) == n,
    decreases n,
{
    let s = digits(n, 10);
    let b = Seq::new(s.len(), |i: int| s[i] as u8);
    if n < 10 {
        assert(b.drop_last() =~= Seq::<u8>::empty());
        assert(decimal_value(b.drop_last()) == 0);
        assert(b.last() == 48 + n);
    } else {
        lemma_quotient_shrinks(n, 10);
        lemma_digits_read(n / 10);
        let p = digits(n / 10, 10);
        let q = Seq::new(p.len(), |i: int| p[i] as u8);
        assert(s == p.push(digit_char(n % 10)));
        assert(b.drop_last() =~= q);
        assert(b.last() == 48 + n % 10);
        assert forall|i: int| 0 <= i < b.len() implies is_digit(#[trigger] b[i]) by {
            if i < q.len() {
                assert(b[i] == q[i]);
            }
        }
        assert forall|i: int| 0 <= i < s.len() implies '\0' <= #[trigger] s[i] <= '\u{7f}' by {
            if i < p.len() {
                assert(s[i] == p[i]);
            }
        }
    }
}

proof fn lemma_leading_zeros(k: nat, d: Seq<u8>)
    requires
        all_digits(d),
    ensures
        all_digits(Seq::new(k, |i: int| 48u8) + d),
        decimal_value(Seq::new(k, |i: int| 48u8) + d) == decimal_value(d),
    decreases k + d.len(),
{
    let z = Seq::new(k, |i: int| 48u8);
    let s = z + d;
    assert forall|i: int| 0 <= i < s.len() implies is_digit(#[trigger] s[i]) by {
        if i >= k {
            assert(s[i] == d[i - k]);
        }
    }
    if d.len() > 0 {
        assert(s.drop_last() =~= z + d.drop_last());
        lemma_leading_zeros(k, d.drop_last());
    } else if k > 0 {
        let z1 = Seq::new((k - 1) as nat, |i: int| 48u8);
        assert(s.drop_last() =~= z1 + d);
        lemma_leading_zeros((k - 1) as nat, d);
    }
}

/// Reading a written number gives it back.
pub proof fn lemma_number_round_trip(n: u64, width: nat)
    ensures
        is_ascii_chars(padded(n as nat, 10, width)),
        parsed(encode_utf8(padded(n as nat, 10, width))) == Some(n),
{
    let ds = digits(n as nat, 10);
    lemma_digits_read(n as nat);
    let b = Seq::new(ds.len(), |i: int| ds[i] as u8);
    let z = zeros(ds, width);
    let p = padded(n as nat, 10, width);
    assert forall|i: int| 0 <= i < p.len() implies '\0' <= #[trigger] p[i] <= '\u{7f}' by {
        if i >= z.len() {
            assert(p[i] == ds[i - z.len()]);
        }
    }
    lemma_ascii_bytes(p);
    lemma_leading_zeros(z.len(), b);
    let s = encode_utf8(p);
    assert(s =~= Seq::new(z.len(), |i: int| 48u8) + b) by {
        assert forall|i: int| 0 <= i < s.len() implies s[i] == (Seq::new(
            z.len(),
            |i: int| 48u8,
        ) + b)[i] by {
            if i >= z.len() {
                assert(p[i] == ds[i - z.len()]);
            } else {
                assert(p[i] == '0');
            }
        }
    }
    assert(is_digit(s[0]));
    assert(unsigned(s) == s);
}

/// Taking off what was put on gives back the name, in front and behind, and
/// nothing else can be taken off.
pub proof fn lemma_stripping_undoes_joining(name: Seq<u8>, affix: Seq<u8>, rest: Seq<u8>)
    ensures
        stripped_prefix(name, affix) == Some(rest) <==> name == affix + rest,
        stripped_suffix(name, affix) == Some(rest) <==> name == rest + affix,
        stripped_prefix(name, affix) is Some <==> exists|r: Seq<u8>| name == #[trigger] (affix + r),
        stripped_suffix(name, affix) is Some <==> exists|r: Seq<u8>| name == #[trigger] (r + affix),
{
    let n = affix.len() as int;
    let m = name.len() - n;
    if name.len() >= n {
        if name.take(n) == affix {
            assert(name =~= affix + name.skip(n));
        }
        if name.skip(m) == affix {
            assert(name =~= name.take(m) + affix);
        }
    }
    assert forall|r: Seq<u8>| name == #[trigger] (affix + r) implies stripped_prefix(name, affix)
        == Some(r) by {
        assert((affix + r).take(n) =~= affix);
        assert((affix + r).skip(n) =~= r);
    }
    assert forall|r: Seq<u8>| name == #[trigger] (r + affix) implies stripped_suffix(name, affix)
        == Some(r) by {
        assert((r + affix).skip(r.len() as int) =~= affix);
        assert((r + affix).take(r.len() as int) =~= r);
    }
    if name == affix + rest {
        assert(stripped_prefix(name, affix) == Some(rest));
    }
    if name == rest + affix {
        assert(stripped_suffix(name, affix) == Some(rest));
    }
}

} // verus!
