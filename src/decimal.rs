//! Decimal text for fixed-point quantities counted in hundredths.
use vstd::prelude::*;
use vstd::string::*;

verus! {

pub open spec fn is_digit(b: u8) -> bool {
    48 <= b <= 57
}

pub open spec fn all_digits(s: Seq<u8>) -> bool {
    forall|i: int| 0 <= i < s.len() ==> is_digit(#[trigger] s[i])
}

/// ASCII whitespace, as `char::is_whitespace` classifies it.
pub open spec fn is_space(b: u8) -> bool {
    b == 32 || (9 <= b <= 13)
}

/// The value of a run of decimal digits, most significant first.
pub open spec fn digits_value(s: Seq<u8>) -> nat
    decreases s.len(),
{
    if s.len() == 0 {
        0
    } else {
        digits_value(s.drop_last()) * 10 + (s.last() - 48) as nat
    }
}

/// The length of the longest prefix of `s` made of digits.
pub open spec fn digit_run(s: Seq<u8>) -> nat
    decreases s.len(),
{
    if s.len() > 0 && is_digit(s[0]) {
        1 + digit_run(s.skip(1))
    } else {
        0
    }
}

/// Whether three bytes encode, in UTF-8, one of the White_Space code points above U+0800:
/// U+1680, U+2000 to U+200A, U+2028, U+2029, U+202F, U+205F and U+3000.
pub open spec fn is_wide_space(a: u8, b: u8, c: u8) -> bool {
    (a == 0xE1 && b == 0x9A && c == 0x80) || (a == 0xE2 && b == 0x80 && (0x80 <= c <= 0x8A || c == 0xA8
        || c == 0xA9 || c == 0xAF)) || (a == 0xE2 && b == 0x81 && c == 0x9F) || (a == 0xE3 && b == 0x80
        && c == 0x80)
}

/// Whether two bytes encode U+0085 or U+00A0 in UTF-8.
pub open spec fn is_narrow_space(a: u8, b: u8) -> bool {
    a == 0xC2 && (b == 0x85 || b == 0xA0)
}

/// The length of the UTF-8 encoding of a White_Space code point (as `char::is_whitespace`
/// classifies it) that `s` starts with, or zero.
pub open spec fn space_width(s: Seq<u8>) -> int {
    if s.len() >= 1 && is_space(s[0]) {
        1
    } else if s.len() >= 2 && is_narrow_space(s[0], s[1]) {
        2
    } else if s.len() >= 3 && is_wide_space(s[0], s[1], s[2]) {
        3
    } else {
        0
    }
}

/// The length of the UTF-8 encoding of a White_Space code point that `s` ends with, or zero.
pub open spec fn trailing_space_width(s: Seq<u8>) -> int {
    let n = s.len() as int;
    if n >= 1 && is_space(s[n - 1]) {
        1
    } else if n >= 2 && is_narrow_space(s[n - 2], s[n - 1]) {
        2
    } else if n >= 3 && is_wide_space(s[n - 3], s[n - 2], s[n - 1]) {
        3
    } else {
        0
    }
}

pub open spec fn trim_start(s: Seq<u8>) -> Seq<u8>
    decreases s.len(),
{
    if space_width(s) > 0 {
        trim_start(s.skip(space_width(s)))
    } else {
        s
    }
}

pub open spec fn trim_end(s: Seq<u8>) -> Seq<u8>
    decreases s.len(),
{
    if trailing_space_width(s) > 0 {
        trim_end(s.take(s.len() - trailing_space_width(s)))
    } else {
        s
    }
}

/// `s` without leading and trailing whitespace, as `str::trim` removes it from UTF-8 text.
pub open spec fn trim(s: Seq<u8>) -> Seq<u8> {
    trim_end(trim_start(s))
}

pub open spec fn pow10(k: nat) -> nat
    decreases k,
{
    if k == 0 {
        1
    } else {
        10 * pow10((k - 1) as nat)
    }
}

/// The magnitude in hundredths of the digit string `d` whose units digit sits just before
/// position `q - 2` (so the hundredths digit is at `q - 1`), rounded at position `q` with ties
/// away from zero.
pub open spec fn scaled(d: Seq<u8>, q: int) -> int {
    let head: int = if q >= d.len() {
        (digits_value(d) * pow10((q - d.len()) as nat)) as int
    } else if q <= 0 {
        0
    } else {
        digits_value(d.take(q)) as int
    };
    let up: int = if 0 <= q < d.len() && d[q] >= 53 { 1 } else { 0 };
    head + up
}

/// The signed value, if it fits in an `i64`.
pub open spec fn fitted(neg: bool, m: int) -> Option<int> {
    let v = if neg { -m } else { m };
    if i64::MIN <= v <= i64::MAX { Some(v) } else { None }
}

/// The exponent that `x` (the text after `e` or `E`) spells: an optional sign and at least one
/// digit.
pub open spec fn exponent_of(x: Seq<u8>) -> Option<int> {
    let signed = x.len() > 0 && (x[0] == 45 || x[0] == 43);
    let ed = if signed { x.skip(1) } else { x };
    if ed.len() > 0 && all_digits(ed) {
        Some(if signed && x[0] == 45 { -(digits_value(ed) as int) } else { digits_value(ed) as int })
    } else {
        None
    }
}

/// The fraction digits of a mantissa `digits [ '.' digits ]` at the start of `body`.
pub open spec fn frac_digits(body: Seq<u8>) -> Seq<u8> {
    let rest = body.skip(digit_run(body) as int);
    if rest.len() > 0 && rest[0] == 46 {
        rest.skip(1).take(digit_run(rest.skip(1)) as int)
    } else {
        seq![]
    }
}

/// What follows the mantissa at the start of `body`.
pub open spec fn after_mantissa(body: Seq<u8>) -> Seq<u8> {
    let rest = body.skip(digit_run(body) as int);
    if rest.len() > 0 && rest[0] == 46 {
        rest.skip(1).skip(digit_run(rest.skip(1)) as int)
    } else {
        rest
    }
}

/// Reading of an unsigned `digits [ '.' digits ] [ ('e' | 'E') [sign] digits ]` with at least
/// one mantissa digit, as a magnitude in hundredths rounded as `scaled` says.
pub open spec fn unsigned_hundredths(body: Seq<u8>) -> Option<int> {
    let n = digit_run(body) as int;
    let frac = frac_digits(body);
    let after = after_mantissa(body);
    let e: Option<int> = if after.len() == 0 {
        Some(0)
    } else if after[0] == 101 || after[0] == 69 {
        exponent_of(after.skip(1))
    } else {
        None
    };
    if n + frac.len() == 0 {
        None
    } else {
        match e {
            Some(e) => Some(scaled(body.take(n) + frac, n + e + 2)),
            None => None,
        }
    }
}

/// The value in hundredths of a decimal text, as `str::trim` then `f32` parsing read it but
/// exact: surrounding whitespace ignored, an optional sign, digits with an optional point and
/// any number of fraction digits, an optional exponent; rounded to hundredths, ties away from
/// zero. `None` when the text has another form or its value does not fit in an `i64`.
pub open spec fn parse_hundredths(s: Seq<u8>) -> Option<int> {
    let t = trim(s);
    let signed = t.len() > 0 && (t[0] == 45 || t[0] == 43);
    let body = if signed { t.skip(1) } else { t };
    match unsigned_hundredths(body) {
        Some(m) => fitted(signed && t[0] == 45, m),
        None => None,
    }
}

/// Decimal digits of `n`, without leading zeros.
pub open spec fn nat_digits(n: nat) -> Seq<u8>
    decreases n,
{
    if n < 10 {
        seq![(48 + n) as u8]
    } else {
        nat_digits(n / 10).push((48 + n % 10) as u8)
    }
}

/// The fraction of a value in hundredths, without trailing zeros: empty, `.d` or `.dd`.
pub open spec fn frac_text(f: nat) -> Seq<u8> {
    if f == 0 {
        seq![]
    } else if f % 10 == 0 {
        seq![46u8, (48 + f / 10) as u8]
    } else {
        seq![46u8, (48 + f / 10) as u8, (48 + f % 10) as u8]
    }
}

pub open spec fn abs(v: int) -> nat {
    if v < 0 { (-v) as nat } else { v as nat }
}

/// Shortest decimal text of a value in hundredths: `1500`, `-3.5`, `21.25`.
pub open spec fn decimal_text(v: int) -> Seq<u8> {
    let m = abs(v);
    let sign: Seq<u8> = if v < 0 { seq![45u8] } else { seq![] };
    sign + nat_digits(m / 100) + frac_text(m % 100)
}


proof fn lemma_digit_run_exact(s: Seq<u8>, k: int)
    requires
        0 <= k <= s.len(),
        all_digits(s.take(k)),
        k == s.len() || !is_digit(s[k]),
    ensures
        digit_run(s) == k,
    decreases k,
{
    if k > 0 {
        assert(s.take(k)[0] == s[0]);
        assert(s.skip(1).take(k - 1) =~= s.take(k).skip(1));
        assert forall|i: int| 0 <= i < k - 1 implies is_digit(#[trigger] s.skip(1).take(k - 1)[i]) by {
            assert(s.skip(1).take(k - 1)[i] == s.take(k)[i + 1]);
        }
        lemma_digit_run_exact(s.skip(1), k - 1);
    }
}

proof fn lemma_digits_value_prefix(s: Seq<u8>, k: int)
    requires
        0 <= k <= s.len(),
        all_digits(s),
    ensures
        digits_value(s.take(k)) <= digits_value(s),
    decreases s.len() - k,
{
    if k < s.len() {
        let t = s.take(k + 1);
        assert(t.drop_last() =~= s.take(k));
        assert(is_digit(s[k]));
        lemma_digits_value_prefix(s, k + 1);
        assert(digits_value(t) == digits_value(s.take(k)) * 10 + (t.last() - 48) as nat);
    } else {
        assert(s.take(k) =~= s);
    }
}

proof fn lemma_nat_digits(n: nat)
    ensures
        nat_digits(n).len() >= 1,
        all_digits(nat_digits(n)),
        digits_value(nat_digits(n)) == n,
    decreases n,
{
    reveal_with_fuel(digits_value, 2);
    if n < 10 {
        assert(nat_digits(n).drop_last() =~= Seq::<u8>::empty());
    } else {
        lemma_nat_digits(n / 10);
        let d = nat_digits(n);
        assert(d.drop_last() =~= nat_digits(n / 10));
        assert forall|i: int| 0 <= i < d.len() implies is_digit(#[trigger] d[i]) by {
            if i < d.len() - 1 {
                assert(d[i] == nat_digits(n / 10)[i]);
            }
        }
    }
}

pub proof fn lemma_trim_unchanged(s: Seq<u8>)
    requires
        s.len() > 0,
        s[0] < 128 && !is_space(s[0]),
        s.last() < 128 && !is_space(s.last()),
    ensures
        trim(s) == s,
{
}

proof fn lemma_digits_push(x: Seq<u8>, d: u8)
    requires
        is_digit(d),
    ensures
        digits_value(x.push(d)) == digits_value(x) * 10 + (d - 48),
{
    assert(x.push(d).drop_last() =~= x);
}

/// Reading back the text that `format_hundredths` writes gives the value that was written.
pub proof fn lemma_parse_decimal_text(v: i64)
    ensures
        parse_hundredths(decimal_text(v as int)) == Some(v as int),
{
    let m = abs(v as int);
    let q = m / 100;
    let f = m % 100;
    let digits = nat_digits(q);
    let frac = frac_text(f);
    let u = digits + frac;
    let text = decimal_text(v as int);
    lemma_nat_digits(q);
    let n = digits.len() as int;
    assert(u.take(n) =~= digits);
    assert(u.skip(n) =~= frac);
    lemma_digit_run_exact(u, n);
    reveal_with_fuel(pow10, 3);
    if f == 0 {
        assert(digits + Seq::<u8>::empty() =~= digits);
        assert(scaled(digits, n + 2) == q * 100);
    } else {
        let d1 = (48 + f / 10) as u8;
        let d2 = (48 + f % 10) as u8;
        let r1 = frac.skip(1);
        if f % 10 == 0 {
            assert(r1 =~= seq![d1]);
            assert(r1.take(1) =~= r1);
            lemma_digit_run_exact(r1, 1);
            assert(r1.skip(1) =~= Seq::<u8>::empty());
            assert(digits + r1 =~= digits.push(d1));
            lemma_digits_push(digits, d1);
            assert(digits_value(digits.push(d1)) == q * 10 + f / 10);
            assert(pow10(1) == 10);
            assert(scaled(digits.push(d1), n + 2) == q * 100 + f);
        } else {
            assert(r1 =~= seq![d1, d2]);
            assert(r1.take(2) =~= r1);
            lemma_digit_run_exact(r1, 2);
            assert(r1.skip(2) =~= Seq::<u8>::empty());
            assert(digits + r1 =~= digits.push(d1).push(d2));
            lemma_digits_push(digits, d1);
            lemma_digits_push(digits.push(d1), d2);
            let dd = digits.push(d1).push(d2);
            assert(dd.len() == n + 2);
            assert(digits_value(dd) == q * 100 + f);
            assert(pow10(0) == 1);
            assert(digits_value(dd) * pow10(0) == digits_value(dd));
            assert(scaled(dd, n + 2) == q * 100 + f);
        }
    }
    assert(unsigned_hundredths(u) == Some(m as int));
    if v < 0 {
        assert(text =~= seq![45u8] + u);
        assert(text.skip(1) =~= u);
    } else {
        assert(text =~= u);
    }
    assert(text.last() == u.last());
    lemma_trim_unchanged(text);
}

fn space_at(s: &[u8], i: usize, end: usize) -> (w: usize)
    requires
        i <= end <= s@.len(),
    ensures
        w as int == space_width(s@.subrange(i as int, end as int)),
{
    let ghost t = s@.subrange(i as int, end as int);
    if i < end {
        assert(t[0] == s@[i as int]);
    }
    if end - i >= 2 {
        assert(t[1] == s@[i + 1]);
    }
    if end - i >= 3 {
        assert(t[2] == s@[i + 2]);
    }
    if i < end && (s[i] == 32 || (9 <= s[i] && s[i] <= 13)) {
        1
    } else if end - i >= 2 && s[i] == 0xC2 && (s[i + 1] == 0x85 || s[i + 1] == 0xA0) {
        2
    } else if end - i >= 3 && ((s[i] == 0xE1 && s[i + 1] == 0x9A && s[i + 2] == 0x80) || (s[i] == 0xE2
        && s[i + 1] == 0x80 && ((0x80 <= s[i + 2] && s[i + 2] <= 0x8A) || s[i + 2] == 0xA8 || s[i + 2]
        == 0xA9 || s[i + 2] == 0xAF)) || (s[i] == 0xE2 && s[i + 1] == 0x81 && s[i + 2] == 0x9F) || (s[i]
        == 0xE3 && s[i + 1] == 0x80 && s[i + 2] == 0x80)) {
        3
    } else {
        0
    }
}

fn space_before(s: &[u8], start: usize, j: usize) -> (w: usize)
    requires
        start <= j <= s@.len(),
    ensures
        w as int == trailing_space_width(s@.subrange(start as int, j as int)),
{
    let ghost t = s@.subrange(start as int, j as int);
    let n = j - start;
    if n >= 1 {
        assert(t[n - 1] == s@[j - 1]);
    }
    if n >= 2 {
        assert(t[n - 2] == s@[j - 2]);
    }
    if n >= 3 {
        assert(t[n - 3] == s@[j - 3]);
    }
    if n >= 1 && (s[j - 1] == 32 || (9 <= s[j - 1] && s[j - 1] <= 13)) {
        1
    } else if n >= 2 && s[j - 2] == 0xC2 && (s[j - 1] == 0x85 || s[j - 1] == 0xA0) {
        2
    } else if n >= 3 && ((s[j - 3] == 0xE1 && s[j - 2] == 0x9A && s[j - 1] == 0x80) || (s[j - 3] == 0xE2
        && s[j - 2] == 0x80 && ((0x80 <= s[j - 1] && s[j - 1] <= 0x8A) || s[j - 1] == 0xA8 || s[j - 1]
        == 0xA9 || s[j - 1] == 0xAF)) || (s[j - 3] == 0xE2 && s[j - 2] == 0x81 && s[j - 1] == 0x9F) || (s[j
        - 3] == 0xE3 && s[j - 2] == 0x80 && s[j - 1] == 0x80)) {
        3
    } else {
        0
    }
}

/// Bounds of `s` without its leading and trailing whitespace (see `trim`).
pub fn trim_bounds(s: &[u8]) -> (r: (usize, usize))
    ensures
        r.0 <= r.1 <= s@.len(),
        s@.subrange(r.0 as int, r.1 as int) == trim(s@),
{
    let len = s.len();
    let mut i: usize = 0;
    assert(s@.subrange(0, len as int) =~= s@);
    loop
        invariant
            0 <= i <= len == s@.len(),
            trim_start(s@) == trim_start(s@.subrange(i as int, len as int)),
        ensures
            0 <= i <= len == s@.len(),
            trim_start(s@) == s@.subrange(i as int, len as int),
        decreases len - i,
    {
        let w = space_at(s, i, len);
        if w == 0 {
            break;
        }
        assert(s@.subrange(i as int, len as int).skip(w as int) =~= s@.subrange(i + w, len as int));
        i = i + w;
    }
    let ghost front = s@.subrange(i as int, len as int);
    let mut j: usize = len;
    loop
        invariant
            i <= j <= len == s@.len(),
            front == s@.subrange(i as int, len as int),
            trim(s@) == trim_end(s@.subrange(i as int, j as int)),
        ensures
            i <= j <= len,
            trim(s@) == s@.subrange(i as int, j as int),
        decreases j,
    {
        let w = space_before(s, i, j);
        if w == 0 {
            break;
        }
        assert(s@.subrange(i as int, j as int).take(j - i - w) =~= s@.subrange(i as int, j - w));
        j = j - w;
    }
    (i, j)
}

/// The largest magnitude in hundredths that fits in an `i64` once signed.
pub const MAGNITUDE_LIMIT: u128 = 9223372036854775808;

proof fn lemma_pow10_mono(a: nat, b: nat)
    requires
        a <= b,
    ensures
        1 <= pow10(a) <= pow10(b),
    decreases b,
{
    if b > 0 {
        if a < b {
            lemma_pow10_mono(a, (b - 1) as nat);
        } else {
            lemma_pow10_mono((a - 1) as nat, (b - 1) as nat);
        }
    }
}

proof fn lemma_all_digits_take(d: Seq<u8>, k: int)
    requires
        all_digits(d),
        0 <= k <= d.len(),
    ensures
        all_digits(d.take(k)),
{
    assert forall|i: int| 0 <= i < k implies is_digit(#[trigger] d.take(k)[i]) by {
        assert(d.take(k)[i] == d[i]);
    }
}

/// An exponent at least `d.len() + 22` in size scales a non-zero mantissa out of range and a
/// mantissa to zero when negative, so a larger one gives the same result.
proof fn lemma_exponent_clamp(d: Seq<u8>, n: int, e: int, b: int, neg: bool)
    requires
        all_digits(d),
        0 <= n <= d.len(),
        d.len() > 0,
        b == d.len() + 22,
        e >= b || e <= -b,
    ensures
        fitted(neg, scaled(d, n + e + 2)) == fitted(neg, scaled(d, n + (if e >= b { b } else { -b }) + 2)),
{
    let c = if e >= b { b } else { -b };
    if e >= b {
        let k1 = (n + e + 2 - d.len()) as nat;
        let k2 = (n + c + 2 - d.len()) as nat;
        if digits_value(d) > 0 {
            lemma_pow10_mono(24, k1);
            lemma_pow10_mono(24, k2);
            reveal_with_fuel(pow10, 25);
            assert(pow10(24) == 1000000000000000000000000);
            let x = digits_value(d) as int;
            let p1 = pow10(k1) as int;
            let p2 = pow10(k2) as int;
            assert(x * p1 >= p1) by (nonlinear_arith)
                requires
                    x >= 1,
                    p1 >= 1,
            ;
            assert(x * p2 >= p2) by (nonlinear_arith)
                requires
                    x >= 1,
                    p2 >= 1,
            ;
            assert(scaled(d, n + e + 2) == x * p1);
            assert(scaled(d, n + c + 2) == x * p2);
        } else {
            let p1 = pow10(k1) as int;
            let p2 = pow10(k2) as int;
            assert(0 * p1 == 0 && 0 * p2 == 0);
            assert(n + e + 2 >= d.len() && n + c + 2 >= d.len());
            assert(scaled(d, n + e + 2) == 0);
            assert(scaled(d, n + c + 2) == 0);
        }
    } else {
        assert(scaled(d, n + e + 2) == 0);
        assert(scaled(d, n + c + 2) == 0);
    }
}

/// The magnitude `scaled(d, q)`, or `None` when it is above `MAGNITUDE_LIMIT`.
fn scaled_value(d: &Vec<u8>, q: i128) -> (r: Option<u128>)
    requires
        all_digits(d@),
    ensures
        match r {
            Some(m) => m as int == scaled(d@, q as int) && m <= MAGNITUDE_LIMIT,
            None => scaled(d@, q as int) > MAGNITUDE_LIMIT,
        },
{
    let len = d.len();
    let top: usize = if q >= len as i128 {
        len
    } else if q <= 0 {
        0
    } else {
        q as usize
    };
    proof {
        lemma_all_digits_take(d@, top as int);
        assert(q >= len ==> d@.take(top as int) =~= d@);
    }
    let mut acc: u128 = 0;
    let mut k: usize = 0;
    assert(d@.take(0) =~= Seq::<u8>::empty());
    while k < top
        invariant
            k <= top <= len == d@.len(),
            all_digits(d@),
            all_digits(d@.take(top as int)),
            q >= len ==> d@.take(top as int) == d@,
            q < len && q <= 0 ==> top == 0,
            q < len && q > 0 ==> top == q,
            acc == digits_value(d@.take(k as int)),
            acc <= MAGNITUDE_LIMIT,
        decreases top - k,
    {
        assert(d@.take(k + 1).drop_last() =~= d@.take(k as int));
        assert(d@.take(k + 1).last() == d@[k as int]);
        assert(is_digit(d@[k as int]));
        let g = acc * 10 + (d[k] - 48) as u128;
        if g > MAGNITUDE_LIMIT {
            proof {
                assert(d@.take(top as int).take(k + 1) =~= d@.take(k + 1));
                lemma_digits_value_prefix(d@.take(top as int), k + 1);
                if q >= len {
                    lemma_pow10_mono(0, (q - len) as nat);
                    let x = digits_value(d@) as int;
                    let p = pow10((q - len) as nat) as int;
                    assert(x * p >= x) by (nonlinear_arith)
                        requires
                            x >= 0,
                            p >= 1,
                    ;
                }
            }
            return None;
        }
        acc = g;
        k = k + 1;
    }
    if q >= len as i128 {
        let extra: i128 = q - len as i128;
        let mut r: i128 = 0;
        proof {
            reveal_with_fuel(pow10, 2);
            assert(pow10(0) == 1);
            assert(digits_value(d@) * 1 == digits_value(d@));
        }
        while r < extra && acc != 0
            invariant
                0 <= r <= extra,
                extra == q - len,
                len == d@.len(),
                q >= len,
                acc == digits_value(d@) * pow10(r as nat),
                acc <= MAGNITUDE_LIMIT,
            decreases extra - r,
        {
            let ghost x = digits_value(d@) as int;
            let ghost p = pow10(r as nat) as int;
            assert(pow10((r + 1) as nat) == 10 * pow10(r as nat));
            assert(x * (10 * p) == (x * p) * 10) by (nonlinear_arith);
            let g = acc * 10;
            if g > MAGNITUDE_LIMIT {
                proof {
                    lemma_pow10_mono((r + 1) as nat, extra as nat);
                    let p2 = pow10(extra as nat) as int;
                    assert(x * p2 >= x * (10 * p)) by (nonlinear_arith)
                        requires
                            x >= 0,
                            p2 >= 10 * p,
                    ;
                    assert(extra as nat == (q - d@.len()) as nat);
                    assert(scaled(d@, q as int) == x * p2);
                }
                return None;
            }
            acc = g;
            r = r + 1;
        }
        proof {
            if acc == 0 {
                lemma_pow10_mono(0, r as nat);
                let x = digits_value(d@) as int;
                let p = pow10(r as nat) as int;
                assert(x == 0) by (nonlinear_arith)
                    requires
                        x >= 0,
                        p >= 1,
                        x * p == 0,
                ;
            }
            assert(extra as nat == (q - d@.len()) as nat);
            if acc != 0 {
                assert(r == extra);
                assert(acc == digits_value(d@) * pow10(extra as nat));
            } else {
                assert(digits_value(d@) == 0);
                assert(0 * pow10(extra as nat) == 0);
                assert(digits_value(d@) * pow10(extra as nat) == 0);
            }
            assert(scaled(d@, q as int) == acc);
        }
        Some(acc)
    } else {
        let up = q >= 0 && d[q as usize] >= 53;
        let m = acc + if up {
            1
        } else {
            0
        };
        if m > MAGNITUDE_LIMIT {
            None
        } else {
            Some(m)
        }
    }
}

/// Reads the exponent text `s[from..end]` (see `exponent_of`): its sign, and its size capped at
/// `bound`.
fn read_exponent(s: &[u8], from: usize, end: usize, bound: u128) -> (r: Option<(bool, u128)>)
    requires
        from <= end <= s@.len(),
        bound < 0x1_0000_0000_0000_0000_0000,
    ensures
        r is Some <==> exponent_of(s@.subrange(from as int, end as int)) is Some,
        r matches Some((neg, v)) ==> {
            let e = exponent_of(s@.subrange(from as int, end as int))->0;
            &&& v <= bound
            &&& v < bound ==> e == if neg { -(v as int) } else { v as int }
            &&& v == bound ==> if neg { e <= -(bound as int) } else { e >= bound }
        },
{
    let ghost x = s@.subrange(from as int, end as int);
    let mut k: usize = from;
    let mut neg = false;
    if k < end && (s[k] == 45 || s[k] == 43) {
        neg = s[k] == 45;
        k = k + 1;
    }
    let ed_start = k;
    let ghost ed = s@.subrange(ed_start as int, end as int);
    assert(x.len() > 0 && (x[0] == 45 || x[0] == 43) ==> ed =~= x.skip(1) && neg == (x[0] == 45));
    assert(!(x.len() > 0 && (x[0] == 45 || x[0] == 43)) ==> ed =~= x && !neg);
    if k == end {
        assert(ed.len() == 0);
        assert(exponent_of(x) is None);
        return None;
    }
    let mut v: u128 = 0;
    assert(s@.subrange(ed_start as int, ed_start as int) =~= Seq::<u8>::empty());
    while k < end
        invariant
            ed_start <= k <= end <= s@.len(),
            ed == s@.subrange(ed_start as int, end as int),
            x == s@.subrange(from as int, end as int),
            x.len() > 0 && (x[0] == 45 || x[0] == 43) ==> ed == x.skip(1) && neg == (x[0] == 45),
            !(x.len() > 0 && (x[0] == 45 || x[0] == 43)) ==> ed == x && !neg,
            all_digits(s@.subrange(ed_start as int, k as int)),
            v <= bound,
            v < bound ==> v == digits_value(s@.subrange(ed_start as int, k as int)),
            v == bound ==> digits_value(s@.subrange(ed_start as int, k as int)) >= bound,
            bound < 0x1_0000_0000_0000_0000_0000,
        decreases end - k,
    {
        if s[k] < 48 || s[k] > 57 {
            assert(ed[k - ed_start] == s@[k as int]);
            assert(!all_digits(ed));
            proof {
                let w = k - ed_start;
                assert(!is_digit(ed[w]));
                if x.len() > 0 && (x[0] == 45 || x[0] == 43) {
                    assert(ed == x.skip(1));
                    assert(!is_digit(x.skip(1)[w]));
                } else {
                    assert(ed == x);
                    assert(!is_digit(x[w]));
                }
            }
            assert(exponent_of(x) is None);
            return None;
        }
        let ghost prev = s@.subrange(ed_start as int, k as int);
        assert(s@.subrange(ed_start as int, k + 1).drop_last() =~= prev);
        assert(s@.subrange(ed_start as int, k + 1).last() == s@[k as int]);
        let d = (s[k] - 48) as u128;
        if v < bound {
            let g = v * 10 + d;
            v = if g > bound {
                bound
            } else {
                g
            };
        }
        k = k + 1;
    }
    assert(s@.subrange(ed_start as int, k as int) =~= ed);
    Some((neg, v))
}

/// Reads the mantissa at the start of `s[body_start..end]`: its digits (integer then fraction),
/// how many are integer digits, and where what follows it begins.
fn read_mantissa(s: &[u8], body_start: usize, end: usize) -> (r: (Vec<u8>, usize, usize))
    requires
        body_start <= end <= s@.len(),
    ensures
        ({
            let body = s@.subrange(body_start as int, end as int);
            &&& r.0@ == body.take(digit_run(body) as int) + frac_digits(body)
            &&& r.1 == digit_run(body)
            &&& r.1 <= r.0@.len()
            &&& r.0@.len() == r.1 + frac_digits(body).len()
            &&& body_start <= r.2 <= end
            &&& s@.subrange(r.2 as int, end as int) == after_mantissa(body)
            &&& all_digits(r.0@)
        }),
{
    let ghost body = s@.subrange(body_start as int, end as int);
    let mut i: usize = body_start;
    assert(s@.subrange(body_start as int, body_start as int) =~= Seq::<u8>::empty());
    let mut digits: Vec<u8> = Vec::new();
    while i < end && 48 <= s[i] && s[i] <= 57
        invariant
            body_start <= i <= end <= s@.len(),
            body == s@.subrange(body_start as int, end as int),
            digits@ == s@.subrange(body_start as int, i as int),
            all_digits(digits@),
        decreases end - i,
    {
        digits.push(s[i]);
        i = i + 1;
        assert(digits@ =~= s@.subrange(body_start as int, i as int));
    }
    let n_int: usize = i - body_start;
    let ghost n = n_int as int;
    let ghost rest = s@.subrange(i as int, end as int);
    proof {
        assert(body.take(n) =~= digits@);
        lemma_digit_run_exact(body, n);
        assert(body.skip(n) =~= rest);
    }
    let ghost int_part = digits@;
    let mut after: usize = i;
    if i < end && s[i] == 46 {
        let fs = i + 1;
        let mut k: usize = fs;
        assert(s@.subrange(fs as int, fs as int) =~= Seq::<u8>::empty());
        while k < end && 48 <= s[k] && s[k] <= 57
            invariant
                fs <= k <= end <= s@.len(),
                fs == i + 1,
                i < end,
                s@[i as int] == 46,
                digit_run(body) == n,
                body.skip(n) == rest,
                rest == s@.subrange(i as int, end as int),
                int_part == body.take(n),
                digits@ == int_part + s@.subrange(fs as int, k as int),
                all_digits(digits@),
                all_digits(s@.subrange(fs as int, k as int)),
            decreases end - k,
        {
            digits.push(s[k]);
            k = k + 1;
            assert(digits@ =~= int_part + s@.subrange(fs as int, k as int));
            assert forall|j: int| 0 <= j < k - fs implies is_digit(#[trigger] s@.subrange(fs as int, k as int)[j]) by {
                assert(s@.subrange(fs as int, k as int)[j] == s@[fs + j]);
                if j < k - 1 - fs {
                    assert(s@.subrange(fs as int, k - 1)[j] == s@[fs + j]);
                }
            }
        }
        proof {
            let r1 = rest.skip(1);
            assert(r1 =~= s@.subrange(fs as int, end as int));
            assert(r1.take(k - fs) =~= s@.subrange(fs as int, k as int));
            lemma_digit_run_exact(r1, k - fs);
            assert(r1.skip(k - fs) =~= s@.subrange(k as int, end as int));
            assert(digits@ == int_part + r1.take(digit_run(r1) as int));
        }
        after = k;
    } else {
        assert(digits@ =~= int_part + Seq::<u8>::empty());
    }
    (digits, n_int, after)
}

/// Reads a decimal text (see `parse_hundredths`) as a value in hundredths.
#[verifier::rlimit(100)]
pub fn parse_decimal(s: &[u8]) -> (r: Option<i64>)
    ensures
        r is Some <==> parse_hundredths(s@) is Some,
        r is Some ==> parse_hundredths(s@) == Some(r->0 as int),
{
    let (start, end) = trim_bounds(s);
    let ghost t = s@.subrange(start as int, end as int);
    let mut i: usize = start;
    let mut neg = false;
    if i < end && (s[i] == 45 || s[i] == 43) {
        neg = s[i] == 45;
        i = i + 1;
    }
    let body_start = i;
    let ghost signed = t.len() > 0 && (t[0] == 45 || t[0] == 43);
    let ghost body = s@.subrange(body_start as int, end as int);
    assert(signed ==> body =~= t.skip(1));
    assert(!signed ==> body =~= t);
    assert(neg == (signed && t[0] == 45));
    let (digits, n_int, after) = read_mantissa(s, body_start, end);
    let ghost n = n_int as int;
    let ghost after_spec = s@.subrange(after as int, end as int);
    let ghost d_spec = digits@;
    if digits.len() == 0 {
        return None;
    }
    let bound: u128 = digits.len() as u128 + 22;
    let mut e_neg = false;
    let mut e_val: u128 = 0;
    let ghost e_spec: int = 0;
    if after < end {
        if s[after] != 101 && s[after] != 69 {
            return None;
        }
        assert(after_spec.skip(1) =~= s@.subrange(after + 1, end as int));
        match read_exponent(s, after + 1, end, bound) {
            None => {
                return None;
            },
            Some((en, ev)) => {
                e_neg = en;
                e_val = ev;
                proof {
                    e_spec = exponent_of(after_spec.skip(1))->0;
                }
            },
        }
    }
    assert(unsigned_hundredths(body) == Some(scaled(d_spec, n + e_spec + 2)));
    let q: i128 = (n_int as i128 + 2) + if e_neg {
        -(e_val as i128)
    } else {
        e_val as i128
    };
    proof {
        if e_val >= bound {
            lemma_exponent_clamp(d_spec, n, e_spec, bound as int, neg);
        }
    }
    match scaled_value(&digits, q) {
        None => None,
        Some(m) => {
            if neg {
                if m == MAGNITUDE_LIMIT {
                    Some(i64::MIN)
                } else {
                    Some(-(m as i64))
                }
            } else if m >= MAGNITUDE_LIMIT {
                None
            } else {
                Some(m as i64)
            }
        },
    }
}

fn push_digits(n: u64, out: &mut Vec<u8>)
    ensures
        final(out)@ == old(out)@ + nat_digits(n as nat),
    decreases n,
{
    if n >= 10 {
        push_digits(n / 10, out);
    }
    out.push(48 + (n % 10) as u8);
    assert(n >= 10 ==> nat_digits(n as nat) == nat_digits((n / 10) as nat).push((48 + n % 10) as u8));
}

/// Writes a value in hundredths as its shortest decimal text.
pub fn format_hundredths(v: i64) -> (r: Vec<u8>)
    ensures
        r@ == decimal_text(v as int),
{
    let mut out: Vec<u8> = Vec::new();
    let m: u64 = if v == i64::MIN {
        9223372036854775808
    } else if v < 0 {
        (-v) as u64
    } else {
        v as u64
    };
    if v < 0 {
        out.push(45);
    }
    push_digits(m / 100, &mut out);
    let f = m % 100;
    if f != 0 {
        out.push(46);
        out.push(48 + (f / 10) as u8);
        if f % 10 != 0 {
            out.push(48 + (f % 10) as u8);
        }
    }
    assert(out@ =~= decimal_text(v as int));
    out
}

/// ASCII bytes read as characters.
pub open spec fn chars_of(s: Seq<u8>) -> Seq<char> {
    s.map_values(|b: u8| b as char)
}

fn ascii_symbol(b: u8) -> (r: &'static str)
    requires
        is_digit(b) || b == 45 || b == 46,
    ensures
        r@ == seq![b as char],
{
    proof {
        reveal_strlit("0");
        reveal_strlit("1");
        reveal_strlit("2");
        reveal_strlit("3");
        reveal_strlit("4");
        reveal_strlit("5");
        reveal_strlit("6");
        reveal_strlit("7");
        reveal_strlit("8");
        reveal_strlit("9");
        reveal_strlit("-");
        reveal_strlit(".");
    }
    let r = match b {
        48 => "0",
        49 => "1",
        50 => "2",
        51 => "3",
        52 => "4",
        53 => "5",
        54 => "6",
        55 => "7",
        56 => "8",
        57 => "9",
        45 => "-",
        _ => ".",
    };
    assert(r@ =~= seq![b as char]);
    r
}

/// Bytes that a number's text is made of: digits, `-` and `.`.
pub open spec fn numeric_symbols(s: Seq<u8>) -> bool {
    forall|i: int| 0 <= i < s.len() ==> is_digit(#[trigger] s[i]) || s[i] == 45 || s[i] == 46
}

/// The sign of a value in hundredths: `-` for a negative one.
pub open spec fn sign_text(v: int) -> Seq<u8> {
    if v < 0 { seq![45u8] } else { seq![] }
}

/// A value in hundredths rounded to tenths, ties away from zero, with exactly one fraction
/// digit: `1500.0`, `-4.5`, `0.0`.
pub open spec fn tenths_text(v: int) -> Seq<u8> {
    let t = (abs(v) + 5) / 10;
    sign_text(v) + nat_digits(t / 10) + seq![46u8, (48 + t % 10) as u8]
}

/// A value in hundredths with exactly two fraction digits: `21.50`, `0.00`, `7.05`.
pub open spec fn fixed2_text(v: int) -> Seq<u8> {
    let m = abs(v);
    sign_text(v) + nat_digits(m / 100) + seq![46u8, (48 + (m / 10) % 10) as u8, (48 + m % 10) as u8]
}

proof fn lemma_symbols_of(v: int, n: nat, tail: Seq<u8>)
    requires
        numeric_symbols(tail),
    ensures
        numeric_symbols(sign_text(v) + nat_digits(n) + tail),
{
    lemma_nat_digits(n);
    let a = sign_text(v);
    let d = nat_digits(n);
    let t = a + d + tail;
    assert forall|i: int| 0 <= i < t.len() implies is_digit(#[trigger] t[i]) || t[i] == 45 || t[i] == 46 by {
        if i >= a.len() + d.len() {
            assert(t[i] == tail[i - a.len() - d.len()]);
        } else if i >= a.len() {
            assert(t[i] == d[i - a.len()]);
        }
    }
}

fn magnitude_of(v: i64) -> (m: u64)
    ensures
        m == abs(v as int),
{
    if v == i64::MIN {
        9223372036854775808
    } else if v < 0 {
        (-v) as u64
    } else {
        v as u64
    }
}

/// Writes a value in hundredths rounded to tenths, ties away from zero, with one fraction digit.
pub fn format_tenths(v: i64) -> (r: Vec<u8>)
    ensures
        r@ == tenths_text(v as int),
{
    let mut out: Vec<u8> = Vec::new();
    let m = magnitude_of(v);
    let t = (m + 5) / 10;
    if v < 0 {
        out.push(45);
    }
    push_digits(t / 10, &mut out);
    out.push(46);
    out.push(48 + (t % 10) as u8);
    assert(out@ =~= tenths_text(v as int));
    out
}

/// Writes a value in hundredths with exactly two fraction digits.
pub fn format_fixed2(v: i64) -> (r: Vec<u8>)
    ensures
        r@ == fixed2_text(v as int),
{
    let mut out: Vec<u8> = Vec::new();
    let m = magnitude_of(v);
    if v < 0 {
        out.push(45);
    }
    push_digits(m / 100, &mut out);
    out.push(46);
    out.push(48 + ((m / 10) % 10) as u8);
    out.push(48 + (m % 10) as u8);
    assert(out@ =~= fixed2_text(v as int));
    out
}

/// The characters of a number's text.
fn ascii_string(bytes: &Vec<u8>) -> (r: String)
    requires
        numeric_symbols(bytes@),
    ensures
        r@ == chars_of(bytes@),
{
    let mut out = String::new();
    let mut i: usize = 0;
    while i < bytes.len()
        invariant
            0 <= i <= bytes@.len(),
            numeric_symbols(bytes@),
            out@ == chars_of(bytes@.take(i as int)),
        decreases bytes@.len() - i,
    {
        out.append(ascii_symbol(bytes[i]));
        assert(chars_of(bytes@.take(i + 1)) =~= chars_of(bytes@.take(i as int)) + seq![bytes@[i as int] as char]);
        i = i + 1;
    }
    assert(bytes@.take(i as int) =~= bytes@);
    out
}

/// A value in hundredths rounded to tenths (see `tenths_text`), in characters.
pub fn tenths_string(v: i64) -> (r: String)
    ensures
        r@ == chars_of(tenths_text(v as int)),
{
    let bytes = format_tenths(v);
    proof {
        let t = (abs(v as int) + 5) / 10;
        let tail = seq![46u8, (48 + t % 10) as u8];
        assert(numeric_symbols(tail));
        lemma_symbols_of(v as int, (t / 10) as nat, tail);
    }
    ascii_string(&bytes)
}

} // verus!
