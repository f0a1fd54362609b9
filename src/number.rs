//! Decimal numbers as they are written in a header card's value field:
//! an optional sign, digits, and an optional fractional part.
use vstd::prelude::*;
use vstd::slice::slice_subrange;
use crate::source::{decimal, push_decimal, push_bytes};

verus! {

/// Most digits that a value may have.
pub const MAX_DIGITS: usize = 18;

/// `10^k`.
pub open spec fn pow10(k: nat) -> nat
    decreases k,
{
    if k == 0 {
        1
    } else {
        10 * pow10((k - 1) as nat)
    }
}

/// `mantissa / 10^scale`, kept exact.
#[derive(Clone, Copy, Debug, PartialEq, Eq, Structural)]
pub struct Decimal {
    pub mantissa: i64,
    /// Number of digits after the decimal point.
    pub scale: u8,
}

impl Decimal {
    /// Fits in the text form: at most 18 digits in all.
    pub open spec fn valid(self) -> bool {
        &&& -pow10(18) < self.mantissa < pow10(18)
        &&& self.scale < 18
    }
}

pub open spec fn is_digit(b: u8) -> bool {
    48 <= b <= 57
}

pub open spec fn all_digits(s: Seq<u8>) -> bool {
    forall|i: int| 0 <= i < s.len() ==> is_digit(#[trigger] s[i])
}

/// The number that a run of ASCII digits spells.
pub open spec fn digits_value(s: Seq<u8>) -> nat
    decreases s.len(),
{
    if s.len() == 0 {
        0
    } else {
        digits_value(s.drop_last()) * 10 + (s.last() - 48) as nat
    }
}

/// End of the run of bytes of `s`, from `i` on, that satisfy `f`.
pub open spec fn run_end(s: Seq<u8>, i: int, digits: bool) -> int
    decreases s.len() - i,
{
    if 0 <= i < s.len() && (if digits { is_digit(s[i]) } else { s[i] == 32 }) {
        run_end(s, i + 1, digits)
    } else {
        i
    }
}

/// The decimal `(-1 if neg) * m * 10^(x - nf)`, when it fits the text
/// form: with `nf - x` digits after the point (below 18), or as a whole
/// number below `10^18`.
pub open spec fn apply_exponent(neg: bool, m: nat, nf: int, x: int) -> Option<Decimal> {
    let sc = nf - x;
    if sc >= 0 {
        if sc < 18 {
            Some(Decimal { mantissa: (if neg { -(m as int) } else { m as int }) as i64, scale: sc as u8 })
        } else {
            None
        }
    } else {
        let mm = m * pow10((-sc) as nat);
        if mm < pow10(18) {
            Some(Decimal { mantissa: (if neg { -(mm as int) } else { mm as int }) as i64, scale: 0 })
        } else {
            None
        }
    }
}

pub open spec fn is_exponent_mark(b: u8) -> bool {
    b == 69 || b == 101 || b == 68 || b == 100
}

/// A value field holds a number: spaces, an optional sign, at least one
/// digit, an optional point with more digits (at most 18 digits in all), an
/// optional exponent (`E`, `e`, `D` or `d`, a sign, one to three digits),
/// then only spaces or a comment that starts with `/`. It reads as the
/// decimal of the same value, when that fits the text form.
#[verifier::opaque]
pub open spec fn parse_decimal(v: Seq<u8>) -> Option<Decimal> {
    let a = run_end(v, 0, false);
    let neg = a < v.len() && v[a] == 45;
    let b = if a < v.len() && (v[a] == 45 || v[a] == 43) { a + 1 } else { a };
    let c = run_end(v, b, true);
    let has_point = c < v.len() && v[c] == 46;
    let d = if has_point { run_end(v, c + 1, true) } else { c };
    let has_exp = d < v.len() && is_exponent_mark(v[d]);
    let xneg = has_exp && d + 1 < v.len() && v[d + 1] == 45;
    let f = if has_exp {
        if d + 1 < v.len() && (v[d + 1] == 45 || v[d + 1] == 43) { d + 2 } else { d + 1 }
    } else {
        d
    };
    let g = if has_exp { run_end(v, f, true) } else { d };
    let x = if has_exp {
        if xneg { -(digits_value(v.subrange(f, g)) as int) } else { digits_value(v.subrange(f, g)) as int }
    } else {
        0
    };
    let e = run_end(v, g, false);
    let digits = if has_point { v.subrange(b, c) + v.subrange(c + 1, d) } else { v.subrange(b, c) };
    let scale = if has_point { d - c - 1 } else { 0 };
    if c > b && digits.len() <= 18 && (!has_exp || (g > f && g - f <= 3)) && (e == v.len() || v[e] == 47) {
        apply_exponent(neg, digits_value(digits), scale, x)
    } else {
        None
    }
}

/// `s` left-padded with zeros to at least `n` bytes.
pub open spec fn zero_pad(s: Seq<u8>, n: nat) -> Seq<u8> {
    if s.len() >= n {
        s
    } else {
        Seq::new((n - s.len()) as nat, |i: int| 48u8) + s
    }
}

/// The text of a decimal: sign, digits, and a point before the last
/// `scale` digits.
pub open spec fn format_decimal(d: Decimal) -> Seq<u8> {
    let m = if d.mantissa < 0 { -d.mantissa } else { d.mantissa as int };
    let ds = zero_pad(decimal(m as nat), (d.scale + 1) as nat);
    let k = ds.len() - d.scale;
    let sign = if d.mantissa < 0 { seq![45u8] } else { Seq::<u8>::empty() };
    if d.scale == 0 {
        sign + ds
    } else {
        sign + ds.subrange(0, k) + seq![46u8] + ds.subrange(k, ds.len() as int)
    }
}

pub proof fn lemma_decimal_digits(n: nat)
    ensures
        all_digits(decimal(n)),
        decimal(n).len() >= 1,
        digits_value(decimal(n)) == n,
    decreases n,
{
    if n >= 10 {
        lemma_decimal_digits(n / 10);
        let s = decimal(n);
        assert(s.drop_last() =~= decimal(n / 10));
        assert(s.last() == (48 + n % 10) as u8);
        assert(s.last() - 48 == n % 10);
        assert(digits_value(s) == digits_value(s.drop_last()) * 10 + (s.last() - 48) as nat);
        assert((n / 10) * 10 + n % 10 == n);
    } else {
        assert(decimal(n).drop_last() =~= Seq::<u8>::empty());
        let s = decimal(n);
        assert(s.last() == (48 + n) as u8);
        assert(s.last() - 48 == n);
        assert(digits_value(s) == digits_value(s.drop_last()) * 10 + (s.last() - 48) as nat);
    }
}

/// A number of `k` digits is below `10^k`.
pub proof fn lemma_decimal_len(n: nat, k: nat)
    requires
        n < pow10(k),
        k >= 1,
    ensures
        decimal(n).len() <= k,
    decreases n,
{
    if n >= 10 {
        assert(n / 10 < pow10((k - 1) as nat)) by (nonlinear_arith)
            requires
                n < pow10(k),
                pow10(k) == 10 * pow10((k - 1) as nat),
        ;
        if k == 1 {
            assert(pow10(1) == 10 * pow10(0));
        } else {
            lemma_decimal_len(n / 10, (k - 1) as nat);
        }
    }
}

pub proof fn lemma_value_zero_pad(s: Seq<u8>, z: nat)
    ensures
        digits_value(Seq::new(z, |i: int| 48u8) + s) == digits_value(s),
    decreases s.len(), z,
{
    let zs = Seq::new(z, |i: int| 48u8);
    if s.len() == 0 {
        assert(zs + s =~= zs);
        if z > 0 {
            assert(zs.drop_last() =~= Seq::new((z - 1) as nat, |i: int| 48u8));
            lemma_value_zero_pad(s, (z - 1) as nat);
            assert(Seq::new((z - 1) as nat, |i: int| 48u8) + s =~= Seq::new((z - 1) as nat, |i: int| 48u8));
        }
    } else {
        assert((zs + s).drop_last() =~= zs + s.drop_last());
        lemma_value_zero_pad(s.drop_last(), z);
    }
}

/// `digits_value(s) < 10^|s|`.
pub proof fn lemma_value_bound(s: Seq<u8>)
    requires
        all_digits(s),
    ensures
        digits_value(s) < pow10(s.len()),
    decreases s.len(),
{
    if s.len() > 0 {
        lemma_value_bound(s.drop_last());
        let v = digits_value(s.drop_last());
        let p = pow10((s.len() - 1) as nat);
        assert(is_digit(s[s.len() - 1]));
        assert(v * 10 + 9 < 10 * p) by (nonlinear_arith)
            requires
                v < p,
        ;
    }
}

pub proof fn lemma_run_end_digits(s: Seq<u8>, i: int, j: int)
    requires
        0 <= i <= j <= s.len(),
        forall|k: int| i <= k < j ==> is_digit(#[trigger] s[k]),
        j == s.len() || !is_digit(s[j]),
    ensures
        run_end(s, i, true) == j,
    decreases j - i,
{
    if i < j {
        lemma_run_end_digits(s, i + 1, j);
    }
}

pub proof fn lemma_run_end_spaces(s: Seq<u8>, i: int, j: int)
    requires
        0 <= i <= j <= s.len(),
        forall|k: int| i <= k < j ==> #[trigger] s[k] == 32,
        j == s.len() || s[j] != 32,
    ensures
        run_end(s, i, false) == j,
    decreases j - i,
{
    if i < j {
        lemma_run_end_spaces(s, i + 1, j);
    }
}

pub proof fn lemma_pow10_mono(a: nat, b: nat)
    requires
        a <= b,
    ensures
        pow10(a) <= pow10(b),
    decreases b,
{
    if a < b {
        lemma_pow10_mono(a, (b - 1) as nat);
    }
}

fn in_run(b: u8, digits: bool) -> (r: bool)
    ensures
        r == (if digits { is_digit(b) } else { b == 32 }),
{
    if digits {
        48 <= b && b <= 57
    } else {
        b == 32
    }
}

/// End of the run from `start` of digits (`digits`) or spaces.
pub fn scan_run(v: &[u8], start: usize, digits: bool) -> (r: usize)
    requires
        start <= v@.len(),
    ensures
        r as int == run_end(v@, start as int, digits),
        start <= r <= v@.len(),
{
    let mut i = start;
    while i < v.len() && in_run(v[i], digits)
        invariant
            start <= i <= v@.len(),
            run_end(v@, i as int, digits) == run_end(v@, start as int, digits),
        decreases v@.len() - i,
    {
        i = i + 1;
    }
    i
}

fn accumulate(v: &[u8], from: usize, to: usize, m: u64, Ghost(prefix): Ghost<Seq<u8>>) -> (r: u64)
    requires
        from <= to <= v@.len(),
        prefix.len() + (to - from) <= 18,
        all_digits(prefix),
        forall|i: int| from <= i < to ==> is_digit(#[trigger] v@[i]),
        m == digits_value(prefix),
    ensures
        r == digits_value(prefix + v@.subrange(from as int, to as int)),
        r < pow10(18),
{
    let mut acc = m;
    let mut i = from;
    proof {
        assert(prefix + v@.subrange(from as int, from as int) =~= prefix);
        lemma_value_bound(prefix);
        lemma_pow10_mono(prefix.len(), 18);
    }
    while i < to
        invariant
            from <= i <= to <= v@.len(),
            prefix.len() + (to - from) <= 18,
            all_digits(prefix),
            forall|k: int| from <= k < to ==> is_digit(#[trigger] v@[k]),
            acc == digits_value(prefix + v@.subrange(from as int, i as int)),
            acc < pow10((prefix.len() + (i - from)) as nat),
        decreases to - i,
    {
        let ghost cur = prefix + v@.subrange(from as int, i as int);
        let ghost next = prefix + v@.subrange(from as int, i + 1);
        proof {
            assert(next.drop_last() =~= cur);
            assert(next.last() == v@[i as int]);
            lemma_pow10_mono((prefix.len() + (i - from) + 1) as nat, 18);
            let p = pow10((prefix.len() + (i - from)) as nat);
            assert(pow10((prefix.len() + (i - from) + 1) as nat) == 10 * p);
            assert(acc * 10 + 9 < 10 * p) by (nonlinear_arith)
                requires
                    acc < p,
            ;
            assert(pow10(18) == 1000000000000000000) by {
                reveal_with_fuel(pow10, 19);
            }
        }
        acc = acc * 10 + (v[i] - 48) as u64;
        i = i + 1;
    }
    proof {
        lemma_pow10_mono((prefix.len() + (to - from)) as nat, 18);
    }
    acc
}

/// Reads the number in a value field.
#[verifier::rlimit(80)]
pub fn parse_decimal_field(v: &[u8]) -> (r: Option<Decimal>)
    ensures
        r == parse_decimal(v@),
        r is Some ==> r->0.valid(),
{
    proof {
        reveal(parse_decimal);
    }
    let len = v.len();
    let a = scan_run(v, 0, false);
    let neg = a < len && v[a] == 45;
    let b = if a < len && (v[a] == 45 || v[a] == 43) {
        a + 1
    } else {
        a
    };
    let c = scan_run(v, b, true);
    let has_point = c < len && v[c] == 46;
    let d = if has_point {
        scan_run(v, c + 1, true)
    } else {
        c
    };
    let has_exp = d < len && (v[d] == 69 || v[d] == 101 || v[d] == 68 || v[d] == 100);
    let xneg = has_exp && d + 1 < len && v[d + 1] == 45;
    let f = if has_exp {
        if d + 1 < len && (v[d + 1] == 45 || v[d + 1] == 43) {
            d + 2
        } else {
            d + 1
        }
    } else {
        d
    };
    let g = if has_exp {
        scan_run(v, f, true)
    } else {
        d
    };
    let e = scan_run(v, g, false);
    if c <= b {
        return None;
    }
    let nfrac = if has_point {
        d - c - 1
    } else {
        0
    };
    if (c - b) + nfrac > MAX_DIGITS {
        return None;
    }
    if has_exp && !(g > f && g - f <= 3) {
        return None;
    }
    if !(e == len || v[e] == 47) {
        return None;
    }
    proof {
        lemma_run_digits(v@, b as int);
        if has_point {
            lemma_run_digits(v@, c + 1);
        }
        if has_exp {
            lemma_run_digits(v@, f as int);
            assert(Seq::<u8>::empty() + v@.subrange(f as int, g as int) =~= v@.subrange(f as int, g as int));
        }
        assert(Seq::<u8>::empty() + v@.subrange(b as int, c as int) =~= v@.subrange(b as int, c as int));
    }
    let ip = accumulate(v, b, c, 0, Ghost(Seq::<u8>::empty()));
    let m = if has_point {
        accumulate(v, c + 1, d, ip, Ghost(v@.subrange(b as int, c as int)))
    } else {
        ip
    };
    let xd: u64 = if has_exp {
        accumulate(v, f, g, 0, Ghost(Seq::<u8>::empty()))
    } else {
        0
    };
    proof {
        assert(pow10(18) == 1000000000000000000) by {
            reveal_with_fuel(pow10, 19);
        }
        if has_exp {
            lemma_value_bound(v@.subrange(f as int, g as int));
            lemma_pow10_mono((g - f) as nat, 3);
            assert(pow10(3) == 1000) by {
                reveal_with_fuel(pow10, 4);
            }
        }
    }
    let x: i64 = if xneg {
        -(xd as i64)
    } else {
        xd as i64
    };
    apply_exponent_exec(neg, m, nfrac as i64, x)
}

fn apply_exponent_exec(neg: bool, m: u64, nf: i64, x: i64) -> (r: Option<Decimal>)
    requires
        m < pow10(18),
        0 <= nf <= 18,
        -999 <= x <= 999,
    ensures
        r == apply_exponent(neg, m as nat, nf as int, x as int),
        r is Some ==> r->0.valid(),
{
    proof {
        assert(pow10(18) == 1000000000000000000) by {
            reveal_with_fuel(pow10, 19);
        }
    }
    let sc = nf - x;
    if sc >= 0 {
        if sc < 18 {
            let mi = m as i64;
            return Some(Decimal { mantissa: if neg { -mi } else { mi }, scale: sc as u8 });
        }
        return None;
    }
    let k = (-sc) as u64;
    let mut mm: u64 = m;
    let mut j: u64 = 0;
    let limit: u64 = 1000000000000000000;
    proof {
        assert(pow10(0) == 1);
        assert(m as nat * 1 == m as nat);
    }
    while j < k
        invariant
            j <= k,
            mm as nat == m as nat * pow10(j as nat),
            mm < limit,
            limit == pow10(18),
            limit == 1000000000000000000,
            k as int == -sc,
            sc == nf - x,
            sc < 0,
        decreases k - j,
    {
        if mm > (limit - 1) / 10 {
            proof {
                assert(mm * 10 >= limit) by (nonlinear_arith)
                    requires
                        mm > (limit - 1) / 10,
                        limit == 1000000000000000000,
                ;
                lemma_pow10_split(j as nat, (k - j) as nat);
                lemma_pow10_pos((k - j - 1) as nat);
                assert(pow10((k - j) as nat) == 10 * pow10((k - j - 1) as nat));
                assert(m as nat * pow10(k as nat) == mm * pow10((k - j) as nat)) by (nonlinear_arith)
                    requires
                        mm as nat == m as nat * pow10(j as nat),
                        pow10(k as nat) == pow10(j as nat) * pow10((k - j) as nat),
                ;
                assert(mm * pow10((k - j) as nat) >= limit) by (nonlinear_arith)
                    requires
                        mm * 10 >= limit,
                        pow10((k - j) as nat) == 10 * pow10((k - j - 1) as nat),
                        pow10((k - j - 1) as nat) >= 1,
                ;
                assert((-(nf - x)) as nat == k as nat);
                assert(m as nat * pow10((-(nf - x)) as nat) >= pow10(18));
            }
            return None;
        }
        proof {
            assert(mm * 10 < limit) by (nonlinear_arith)
                requires
                    mm <= (limit - 1) / 10,
                    limit == 1000000000000000000,
            ;
            assert(pow10((j + 1) as nat) == 10 * pow10(j as nat));
            assert(m as nat * pow10((j + 1) as nat) == (m as nat * pow10(j as nat)) * 10) by (nonlinear_arith)
                requires
                    pow10((j + 1) as nat) == 10 * pow10(j as nat),
            ;
        }
        mm = mm * 10;
        j = j + 1;
    }
    let mi = mm as i64;
    Some(Decimal { mantissa: if neg { -mi } else { mi }, scale: 0 })
}

pub proof fn lemma_pow10_pos(k: nat)
    ensures
        pow10(k) >= 1,
    decreases k,
{
    if k > 0 {
        lemma_pow10_pos((k - 1) as nat);
    }
}

pub proof fn lemma_pow10_split(a: nat, b: nat)
    ensures
        pow10(a + b) == pow10(a) * pow10(b),
    decreases b,
{
    if b > 0 {
        lemma_pow10_split(a, (b - 1) as nat);
        assert(pow10(a + b) == 10 * pow10((a + b - 1) as nat));
        assert(pow10(b) == 10 * pow10((b - 1) as nat));
        assert(10 * (pow10(a) * pow10((b - 1) as nat)) == pow10(a) * (10 * pow10((b - 1) as nat))) by (nonlinear_arith);
    } else {
        assert(pow10(b) == 1);
        assert(pow10(a) * 1 == pow10(a));
    }
}

/// Bytes of a run of digits are digits.
pub proof fn lemma_run_digits(s: Seq<u8>, i: int)
    requires
        0 <= i <= s.len(),
    ensures
        i <= run_end(s, i, true) <= s.len(),
        forall|k: int| i <= k < run_end(s, i, true) ==> is_digit(#[trigger] s[k]),
    decreases s.len() - i,
{
    if i < s.len() && is_digit(s[i]) {
        lemma_run_digits(s, i + 1);
    }
}

/// Appends the text of `d`.
pub fn push_decimal_text(out: &mut Vec<u8>, d: Decimal)
    requires
        d.valid(),
    ensures
        final(out)@ == old(out)@ + format_decimal(d),
{
    proof {
        lemma_padded_digits(d);
        assert(pow10(18) == 1000000000000000000) by {
            reveal_with_fuel(pow10, 19);
        }
    }
    let m: u64 = if d.mantissa < 0 {
        (-d.mantissa) as u64
    } else {
        d.mantissa as u64
    };
    let mut dec: Vec<u8> = Vec::new();
    push_decimal(&mut dec, m);
    proof {
        assert(dec@ =~= decimal(m as nat));
    }
    let n = d.scale as usize + 1;
    let mut ds: Vec<u8> = Vec::new();
    let mut z: usize = 0;
    let zeros = if dec.len() < n {
        n - dec.len()
    } else {
        0
    };
    while z < zeros
        invariant
            z <= zeros,
            ds@ == Seq::new(z as nat, |i: int| 48u8),
        decreases zeros - z,
    {
        ds.push(48);
        z = z + 1;
        proof {
            assert(ds@ =~= Seq::new(z as nat, |i: int| 48u8));
        }
    }
    push_bytes(&mut ds, dec.as_slice());
    proof {
        assert(ds@ =~= padded_digits(d));
    }
    if d.mantissa < 0 {
        out.push(45);
    }
    let ghost signed = out@;
    if d.scale == 0 {
        push_bytes(out, ds.as_slice());
    } else {
        let k = ds.len() - d.scale as usize;
        push_bytes(out, slice_subrange(ds.as_slice(), 0, k));
        out.push(46);
        push_bytes(out, slice_subrange(ds.as_slice(), k, ds.len()));
    }
    proof {
        assert(final(out)@ =~= old(out)@ + format_decimal(d));
    }
}

/// The digits that `format_decimal` writes, before the point goes in.
pub open spec fn padded_digits(d: Decimal) -> Seq<u8> {
    let m = if d.mantissa < 0 { -d.mantissa } else { d.mantissa as int };
    zero_pad(decimal(m as nat), (d.scale + 1) as nat)
}

pub proof fn lemma_padded_digits(d: Decimal)
    requires
        d.valid(),
    ensures
        all_digits(padded_digits(d)),
        d.scale + 1 <= padded_digits(d).len() <= 18,
        digits_value(padded_digits(d)) == (if d.mantissa < 0 { -d.mantissa } else { d.mantissa as int }),
{
    let m: nat = if d.mantissa < 0 { (-d.mantissa) as nat } else { d.mantissa as nat };
    let dec = decimal(m);
    lemma_decimal_digits(m);
    lemma_decimal_len(m, 18);
    let n = (d.scale + 1) as nat;
    let ds = padded_digits(d);
    let z: nat = if dec.len() >= n { 0 } else { (n - dec.len()) as nat };
    assert(ds =~= Seq::new(z, |i: int| 48u8) + dec);
    lemma_value_zero_pad(dec, z);
    assert forall|i: int| 0 <= i < ds.len() implies is_digit(#[trigger] ds[i]) by {
        if i >= z {
            assert(ds[i] == dec[i - z]);
        }
    }
}

/// A field made of a sign, digits `ip`, a point with digits `fp` when
/// `point`, and spaces, reads as the number of `ip + fp`.
#[verifier::rlimit(50)]
pub proof fn lemma_parse_shape(neg: bool, ip: Seq<u8>, point: bool, fp: Seq<u8>, pad: nat)
    requires
        ip.len() >= 1,
        ip.len() + fp.len() <= 18,
        all_digits(ip),
        all_digits(fp),
        !point ==> fp.len() == 0,
    ensures
        ({
            let sign = if neg { seq![45u8] } else { Seq::<u8>::empty() };
            let body = if point { ip + seq![46u8] + fp } else { ip };
            let m = digits_value(ip + fp) as int;
            parse_decimal(sign + body + Seq::new(pad, |i: int| 32u8)) == Some(
                Decimal { mantissa: (if neg { -m } else { m }) as i64, scale: fp.len() as u8 },
            )
        }),
{
    reveal(parse_decimal);
    let sign = if neg { seq![45u8] } else { Seq::<u8>::empty() };
    let body = if point { ip + seq![46u8] + fp } else { ip };
    let sp = Seq::new(pad, |i: int| 32u8);
    let v = sign + body + sp;
    let b = sign.len() as int;
    let c = b + ip.len();
    assert(run_end(v, 0, false) == 0) by {
        if neg {
            assert(v[0] == 45);
        } else {
            assert(v[0] == ip[0]);
        }
    }
    assert forall|i: int| b <= i < c implies is_digit(#[trigger] v[i]) by {
        assert(v[i] == ip[i - b]);
    }
    if point {
        let e = c + 1 + fp.len();
        assert(v[c] == 46);
        lemma_run_end_digits(v, b, c);
        assert forall|i: int| c + 1 <= i < e implies is_digit(#[trigger] v[i]) by {
            assert(v[i] == fp[i - c - 1]);
        }
        if e < v.len() {
            assert(v[e] == 32);
        }
        lemma_run_end_digits(v, c + 1, e);
        assert forall|i: int| e <= i < v.len() implies #[trigger] v[i] == 32 by {
            assert(v[i] == sp[i - e]);
        }
        lemma_run_end_spaces(v, e, v.len() as int);
        assert(v.subrange(b, c) =~= ip);
        assert(v.subrange(c + 1, e) =~= fp);
    } else {
        if c < v.len() {
            assert(v[c] == 32);
        }
        lemma_run_end_digits(v, b, c);
        assert forall|i: int| c <= i < v.len() implies #[trigger] v[i] == 32 by {
            assert(v[i] == sp[i - c]);
        }
        lemma_run_end_spaces(v, c, v.len() as int);
        assert(v.subrange(b, c) =~= ip);
        assert(ip + fp =~= ip);
    }
}

/// Reading back the text of a decimal, followed by spaces, gives the same
/// decimal.
#[verifier::rlimit(50)]
pub proof fn lemma_decimal_round_trip(d: Decimal, pad: nat)
    requires
        d.valid(),
    ensures
        parse_decimal(format_decimal(d) + Seq::new(pad, |i: int| 32u8)) == Some(d),
{
    lemma_padded_digits(d);
    let ds = padded_digits(d);
    let k = ds.len() - d.scale;
    let ip = ds.subrange(0, k);
    let fp = ds.subrange(k, ds.len() as int);
    assert(ip + fp =~= ds);
    assert(all_digits(ip));
    assert(all_digits(fp));
    let neg = d.mantissa < 0;
    let sign = if neg { seq![45u8] } else { Seq::<u8>::empty() };
    if d.scale == 0 {
        lemma_parse_shape(neg, ds, false, Seq::<u8>::empty(), pad);
        assert(ds + Seq::<u8>::empty() =~= ds);
        assert(format_decimal(d) =~= sign + ds);
    } else {
        lemma_parse_shape(neg, ip, true, fp, pad);
        assert(format_decimal(d) =~= sign + (ip + seq![46u8] + fp));
    }
}

} // verus!
