//! Fixed-point prices.
//!
//! Ask prices arrive as decimal strings and leave as decimal strings with
//! exactly six digits after the decimal point.  Internally a price is a signed
//! count of millionths, so every aggregation step is exact integer
//! arithmetic.  A price string is well formed when it is an optional minus
//! sign, one or more digits, and optionally a dot followed by one or more
//! digits; fraction digits beyond the sixth carry no weight at this
//! precision and are dropped.

use vstd::prelude::*;
use vstd::string::StringExecFns;
use vstd::string::StrSliceExecFns;

verus! {

/// Largest magnitude, in millionths, that a price may have: any well-formed
/// string whose integer part reaches a thirteenth digit is out of range.
pub const MAX_PRICE_MICROS: u64 = 999_999_999_999_999_999;

/// Largest value the integer part of a price may have.
pub const MAX_PRICE_UNITS: u64 = 999_999_999_999;

pub open spec fn is_dec_digit(c: char) -> bool {
    48 <= c as u32 && c as u32 <= 57
}

pub open spec fn digit_val(c: char) -> nat {
    (c as u32 - 48) as nat
}

pub open spec fn all_dec_digits(s: Seq<char>) -> bool {
    forall|i: int| 0 <= i < s.len() ==> is_dec_digit(s[i])
}

/// The value of a digit string read in base ten.
pub open spec fn digits_val(s: Seq<char>) -> nat
    decreases s.len(),
{
    if s.len() == 0 {
        0
    } else {
        digits_val(s.drop_last()) * 10 + digit_val(s.last())
    }
}

pub open spec fn pow10(n: nat) -> nat
    decreases n,
{
    if n == 0 {
        1
    } else {
        10 * pow10((n - 1) as nat)
    }
}

/// Millionths contributed by the fraction digits: the first six digits,
/// right-padded with zeros to six places; further digits carry no weight.
pub open spec fn frac_micros(t: Seq<char>) -> nat {
    if t.len() >= 6 {
        digits_val(t.take(6))
    } else {
        digits_val(t) * pow10((6 - t.len()) as nat)
    }
}

pub open spec fn has_dot(s: Seq<char>) -> bool {
    exists|i: int| 0 <= i < s.len() && s[i] == '.'
}

pub open spec fn dot_pos(s: Seq<char>) -> int {
    choose|i: int| 0 <= i < s.len() && s[i] == '.'
}

/// Well-formed unsigned price string: digits, or digits dot digits.
pub open spec fn wf_unsigned(s: Seq<char>) -> bool {
    if has_dot(s) {
        let j = dot_pos(s);
        &&& 1 <= j
        &&& j + 1 < s.len()
        &&& all_dec_digits(s.take(j))
        &&& all_dec_digits(s.skip(j + 1))
    } else {
        s.len() >= 1 && all_dec_digits(s)
    }
}

/// Millionths denoted by a well-formed unsigned price string.
pub open spec fn unsigned_micros(s: Seq<char>) -> nat {
    if has_dot(s) {
        digits_val(s.take(dot_pos(s))) * 1_000_000 + frac_micros(s.skip(dot_pos(s) + 1))
    } else {
        digits_val(s) * 1_000_000
    }
}

/// The millionths denoted by a price string, or `None` when the string is
/// malformed or its magnitude is out of range.
pub open spec fn parse_price_spec(s: Seq<char>) -> Option<int> {
    let neg = s.len() > 0 && s[0] == '-';
    let body = if neg { s.skip(1) } else { s };
    if wf_unsigned(body) && unsigned_micros(body) <= MAX_PRICE_MICROS {
        if neg {
            Some(-(unsigned_micros(body) as int))
        } else {
            Some(unsigned_micros(body) as int)
        }
    } else {
        None
    }
}

pub open spec fn in_price_range(m: int) -> bool {
    -(MAX_PRICE_MICROS as int) <= m <= MAX_PRICE_MICROS as int
}

/// Decimal digits of `n`, most significant first, no leading zeros except
/// for `n == 0` itself.
pub open spec fn dec_digits(n: nat) -> Seq<char>
    decreases n,
{
    if n < 10 {
        seq![digit_char(n)]
    } else {
        dec_digits(n / 10).push(digit_char(n % 10))
    }
}

/// The lowest `width` decimal digits of `n`, zero-padded on the left.
pub open spec fn dec_digits_padded(n: nat, width: nat) -> Seq<char>
    decreases width,
{
    if width == 0 {
        Seq::empty()
    } else {
        dec_digits_padded(n / 10, (width - 1) as nat).push(digit_char(n % 10))
    }
}

pub open spec fn digit_char(d: nat) -> char {
    if d == 0 { '0' }
    else if d == 1 { '1' }
    else if d == 2 { '2' }
    else if d == 3 { '3' }
    else if d == 4 { '4' }
    else if d == 5 { '5' }
    else if d == 6 { '6' }
    else if d == 7 { '7' }
    else if d == 8 { '8' }
    else { '9' }
}

/// The rendering of `m` millionths: optional minus sign, the integer part,
/// a dot, and exactly six fraction digits.
pub open spec fn format_micros(m: int) -> Seq<char> {
    let mag = if m < 0 { -m } else { m };
    let sign: Seq<char> = if m < 0 { seq!['-'] } else { Seq::empty() };
    sign + dec_digits((mag / 1_000_000) as nat) + seq!['.'] + dec_digits_padded(
        (mag % 1_000_000) as nat,
        6,
    )
}

proof fn lemma_pow10_vals()
    ensures
        pow10(5) == 100_000,
        pow10(6) == 1_000_000,
{
    reveal_with_fuel(pow10, 7);
}

proof fn lemma_pow10_le(a: nat, b: nat)
    requires
        a <= b,
    ensures
        pow10(a) <= pow10(b),
    decreases b,
{
    if a < b {
        lemma_pow10_le(a, (b - 1) as nat);
    }
}

proof fn lemma_digits_val_step(s: Seq<char>, p: int)
    requires
        0 <= p < s.len(),
    ensures
        digits_val(s.take(p + 1)) == digits_val(s.take(p)) * 10 + digit_val(s[p]),
{
    assert(s.take(p + 1).drop_last() =~= s.take(p));
    assert(s.take(p + 1).last() == s[p]);
}

/// A string whose first offending character comes before any dot denotes no
/// price.
proof fn lemma_malformed_head(body: Seq<char>, q: int)
    requires
        0 <= q < body.len(),
        all_dec_digits(body.take(q)),
        !is_dec_digit(body[q]),
        body[q] != '.',
    ensures
        !wf_unsigned(body),
{
    if has_dot(body) {
        let j = dot_pos(body);
        assert(0 <= j < body.len() && body[j] == '.');
        if j < q {
            assert(is_dec_digit(body.take(q)[j]));
            assert(!is_dec_digit('.'));
        } else {
            assert(j > q);
            if wf_unsigned(body) {
                assert(is_dec_digit(body.take(j)[q]));
            }
        }
    } else {
        assert(!all_dec_digits(body));
    }
}

/// A string that starts with the dot denotes no price.
proof fn lemma_leading_dot(body: Seq<char>)
    requires
        body.len() > 0,
        body[0] == '.',
    ensures
        !wf_unsigned(body),
{
    assert(has_dot(body));
    let j = dot_pos(body);
    if j >= 1 && wf_unsigned(body) {
        assert(is_dec_digit(body.take(j)[0]));
        assert(!is_dec_digit('.'));
    }
}

/// A string whose single dot is its last character denotes no price.
proof fn lemma_dot_at_end(body: Seq<char>, jd: int)
    requires
        0 <= jd,
        jd == body.len() - 1,
        body[jd] == '.',
        all_dec_digits(body.take(jd)),
    ensures
        !wf_unsigned(body),
{
    assert(has_dot(body));
    let j = dot_pos(body);
    assert(0 <= j < body.len() && body[j] == '.');
    if j < jd {
        assert(is_dec_digit(body.take(jd)[j]));
        assert(!is_dec_digit('.'));
    } else {
        assert(j == jd);
        assert(j + 1 == body.len());
    }
}

/// A string with an offending character after its dot denotes no price.
proof fn lemma_malformed_fraction(body: Seq<char>, jd: int, q: int)
    requires
        0 <= jd < body.len(),
        body[jd] == '.',
        all_dec_digits(body.take(jd)),
        jd < q < body.len(),
        !is_dec_digit(body[q]),
    ensures
        !wf_unsigned(body),
{
    assert(has_dot(body));
    let j = dot_pos(body);
    assert(0 <= j < body.len() && body[j] == '.');
    assert(!is_dec_digit('.'));
    if j < jd {
        assert(is_dec_digit(body.take(jd)[j]));
    } else if j == jd {
        if wf_unsigned(body) {
            assert(is_dec_digit(body.skip(j + 1)[q - j - 1]));
        }
    } else {
        if wf_unsigned(body) {
            assert(is_dec_digit(body.take(j)[jd]));
        }
    }
}

/// A well-shaped string has its dot exactly where the scan found it.
proof fn lemma_dot_unique(body: Seq<char>, jd: int)
    requires
        0 <= jd < body.len(),
        body[jd] == '.',
        all_dec_digits(body.take(jd)),
        all_dec_digits(body.skip(jd + 1)),
    ensures
        has_dot(body),
        dot_pos(body) == jd,
{
    assert(has_dot(body));
    let j = dot_pos(body);
    assert(0 <= j < body.len() && body[j] == '.');
    assert(!is_dec_digit('.'));
    if j < jd {
        assert(is_dec_digit(body.take(jd)[j]));
    } else if j > jd {
        assert(is_dec_digit(body.skip(jd + 1)[j - jd - 1]));
    }
}

fn digit_str(d: u64) -> (r: &'static str)
    requires
        d < 10,
    ensures
        r@ =~= seq![digit_char(d as nat)],
{
    proof {
        reveal_strlit("0");
        reveal_strlit("1");
        reveal_strlit("2");
        reveal_strlit("3");
        reveal_strlit("4");
        reveal_strlit("5");
        reveal_strlit("6");
        reveal_strlit("7");
        reveal_strlit("8");
        reveal_strlit("9");
    }
    if d == 0 { "0" }
    else if d == 1 { "1" }
    else if d == 2 { "2" }
    else if d == 3 { "3" }
    else if d == 4 { "4" }
    else if d == 5 { "5" }
    else if d == 6 { "6" }
    else if d == 7 { "7" }
    else if d == 8 { "8" }
    else { "9" }
}

fn push_dec_digits(out: &mut String, n: u64)
    ensures
        final(out)@ == old(out)@ + dec_digits(n as nat),
    decreases n,
{
    if n < 10 {
        out.append(digit_str(n));
    } else {
        push_dec_digits(out, n / 10);
        out.append(digit_str(n % 10));
        proof {
            assert(old(out)@ + dec_digits((n / 10) as nat) + seq![
                digit_char((n % 10) as nat),
            ] =~= old(out)@ + dec_digits(n as nat));
        }
    }
}

fn push_dec_digits_padded(out: &mut String, n: u64, width: u64)
    ensures
        final(out)@ == old(out)@ + dec_digits_padded(n as nat, width as nat),
    decreases width,
{
    if width == 0 {
        proof {
            assert(old(out)@ + dec_digits_padded(n as nat, 0) =~= old(out)@);
        }
    } else {
        push_dec_digits_padded(out, n / 10, width - 1);
        out.append(digit_str(n % 10));
        proof {
            assert(old(out)@ + dec_digits_padded((n / 10) as nat, (width - 1) as nat) + seq![
                digit_char((n % 10) as nat),
            ] =~= old(out)@ + dec_digits_padded(n as nat, width as nat));
        }
    }
}

fn char_at_is_digit(s: &str, i: usize) -> (r: bool)
    requires
        i < s@.len(),
    ensures
        r == is_dec_digit(s@[i as int]),
{
    let cv = s.get_char(i) as u32;
    48 <= cv && cv <= 57
}

fn digit_at(s: &str, i: usize) -> (d: u64)
    requires
        i < s@.len(),
        is_dec_digit(s@[i as int]),
    ensures
        d == digit_val(s@[i as int]),
        d <= 9,
{
    ((s.get_char(i) as u32) - 48) as u64
}

/// Parse a decimal price string into millionths.  Returns `None` exactly
/// when the string is malformed or out of range.
pub fn parse_price(s: &str) -> (r: Option<i64>)
    ensures
        match r {
            Some(m) => parse_price_spec(s@) == Some(m as int) && in_price_range(m as int),
            None => parse_price_spec(s@) is None,
        },
{
    let n = s.unicode_len();
    let neg = if n > 0 {
        s.get_char(0) == '-'
    } else {
        false
    };
    let start: usize = if neg {
        1
    } else {
        0
    };
    let ghost body = s@.skip(start as int);
    proof {
        if !neg {
            assert(s@.skip(0) =~= s@);
        }
    }
    let mut i: usize = start;
    let mut acc: u64 = 0;
    let mut over: bool = false;
    while i < n && char_at_is_digit(s, i)
        invariant
            n == s@.len(),
            start <= i <= n,
            start <= 1,
            neg ==> n >= 1 && start == 1,
            !neg ==> start == 0,
            body == s@.skip(start as int),
            forall|k: int| 0 <= k < i - start ==> is_dec_digit(body[k]),
            over <==> digits_val(body.take(i - start)) > MAX_PRICE_UNITS,
            !over ==> acc == digits_val(body.take(i - start)) && acc <= MAX_PRICE_UNITS,
        decreases n - i,
    {
        let d = digit_at(s, i);
        proof {
            assert(body[i - start] == s@[i as int]);
            lemma_digits_val_step(body, i - start);
        }
        if !over {
            let nv = acc * 10 + d;
            if nv > MAX_PRICE_UNITS {
                over = true;
            } else {
                acc = nv;
            }
        }
        i = i + 1;
    }
    let digit_count = i - start;
    if digit_count == 0 {
        proof {
            if n > start {
                assert(body[0] == s@[start as int]);
                if body[0] == '.' {
                    lemma_leading_dot(body);
                } else {
                    assert(body.take(0) =~= Seq::<char>::empty());
                    lemma_malformed_head(body, 0);
                }
            }
        }
        return None;
    }
    proof {
        assert(all_dec_digits(body.take(i - start)));
    }
    if i == n {
        proof {
            assert(body.take(i - start) =~= body);
            assert(all_dec_digits(body));
            assert(!has_dot(body)) by {
                if has_dot(body) {
                    let j = dot_pos(body);
                    assert(is_dec_digit(body[j]));
                }
            }
            assert(wf_unsigned(body));
        }
        if over {
            proof {
                assert(digits_val(body) * 1_000_000 > MAX_PRICE_MICROS as nat);
            }
            return None;
        }
        let total: u64 = acc * 1_000_000;
        proof {
            assert(unsigned_micros(body) == total as nat);
        }
        if neg {
            return Some(-(total as i64));
        } else {
            return Some(total as i64);
        }
    }
    // the integer digits stopped on some character inside the string
    let c = s.get_char(i);
    proof {
        assert(body[i - start] == s@[i as int]);
    }
    if c != '.' {
        proof {
            lemma_malformed_head(body, i - start);
        }
        return None;
    }
    let ghost jd: int = i - start;
    let fs = i + 1;
    if fs >= n {
        proof {
            lemma_dot_at_end(body, jd);
        }
        return None;
    }
    let ghost fracs = body.skip(jd + 1);
    let mut j = fs;
    let mut frac: u64 = 0;
    let mut k: u64 = 0;
    while j < n
        invariant
            n == s@.len(),
            body == s@.skip(start as int),
            start <= 1,
            start <= i < n,
            fs == i + 1,
            fs <= j <= n,
            jd == i - start,
            neg == (s@.len() > 0 && s@[0] == '-'),
            neg ==> start == 1,
            !neg ==> start == 0,
            body == (if neg { s@.skip(1) } else { s@ }),
            body == s@.skip(start as int),
            0 <= jd < body.len(),
            body[jd] == '.',
            all_dec_digits(body.take(jd)),
            fracs == body.skip(jd + 1),
            fracs.len() == n - fs,
            forall|t: int| 0 <= t < j - fs ==> is_dec_digit(fracs[t]),
            j - fs <= 6 ==> k == j - fs,
            j - fs > 6 ==> k == 6,
            frac == digits_val(fracs.take(k as int)),
            frac < pow10(k as nat),
            k <= 6,
        decreases n - j,
    {
        if !char_at_is_digit(s, j) {
            proof {
                assert(body[j - start] == s@[j as int]);
                lemma_malformed_fraction(body, jd, j - start);
            }
            return None;
        }
        let d = digit_at(s, j);
        proof {
            assert(fracs[j - fs] == body[j - start]);
            assert(body[j - start] == s@[j as int]);
        }
        if k < 6 {
            proof {
                lemma_pow10_vals();
                lemma_pow10_le(k as nat, 5);
                lemma_digits_val_step(fracs, k as int);
            }
            frac = frac * 10 + d;
            k = k + 1;
        }
        j = j + 1;
    }
    proof {
        assert(forall|t: int| 0 <= t < fracs.len() ==> is_dec_digit(fracs[t]));
        if fracs.len() >= 6 {
            assert(k == 6);
        } else {
            assert(k == fracs.len());
            assert(fracs.take(k as int) =~= fracs);
            assert(pow10(0) == 1);
            assert(digits_val(fracs) * 1 == digits_val(fracs));
        }
    }
    while k < 6
        invariant
            k <= 6,
            1 <= fracs.len(),
            fracs.len() <= 6 ==> k >= fracs.len(),
            fracs.len() > 6 ==> k == 6,
            fracs.len() >= 6 ==> frac == digits_val(fracs.take(6)),
            fracs.len() < 6 ==> frac == digits_val(fracs) * pow10((k - fracs.len()) as nat),
            frac < pow10(k as nat),
        decreases 6 - k,
    {
        proof {
            lemma_pow10_vals();
            lemma_pow10_le((k + 1) as nat, 6);
            if fracs.len() < 6 {
                let a = digits_val(fracs);
                let p = (k - fracs.len()) as nat;
                assert(pow10(p + 1) == 10 * pow10(p));
                assert(a * (10 * pow10(p)) == (a * pow10(p)) * 10) by (nonlinear_arith);
            }
        }
        frac = frac * 10;
        k = k + 1;
    }
    proof {
        lemma_pow10_vals();
        assert(frac == frac_micros(fracs));
        assert(frac < 1_000_000);
        lemma_dot_unique(body, jd);
        assert(1 <= jd);
        assert(jd + 1 < body.len());
        assert(wf_unsigned(body));
        assert(unsigned_micros(body) == digits_val(body.take(jd)) * 1_000_000 + frac_micros(
            fracs,
        ));
        assert(body.take(jd) =~= body.take(i - start));
    }
    if over {
        proof {
            assert(digits_val(body.take(jd)) * 1_000_000 > MAX_PRICE_MICROS as nat);
        }
        return None;
    }
    let total: u64 = acc * 1_000_000 + frac;
    proof {
        assert(total as nat == unsigned_micros(body));
        assert(total <= MAX_PRICE_MICROS);
    }
    if neg {
        Some(-(total as i64))
    } else {
        Some(total as i64)
    }
}

/// Render `m` millionths as a decimal string with exactly six digits after
/// the decimal point.
pub fn format_price(m: i64) -> (s: String)
    requires
        in_price_range(m as int),
    ensures
        s@ == format_micros(m as int),
{
    proof {
        reveal_strlit("-");
        reveal_strlit(".");
    }
    let mut out = String::new();
    if m < 0 {
        out.append("-");
    }
    let mag: u64 = if m < 0 {
        (-m) as u64
    } else {
        m as u64
    };
    push_dec_digits(&mut out, mag / 1_000_000);
    out.append(".");
    push_dec_digits_padded(&mut out, mag % 1_000_000, 6);
    proof {
        let magi = if (m as int) < 0 { -(m as int) } else { m as int };
        let sign: Seq<char> = if (m as int) < 0 { seq!['-'] } else { Seq::empty() };
        assert(out@ =~= sign + dec_digits((magi / 1_000_000) as nat) + seq!['.']
            + dec_digits_padded((magi % 1_000_000) as nat, 6));
    }
    out
}

proof fn lemma_dec_digits_shape(n: nat)
    ensures
        dec_digits(n).len() >= 1,
        all_dec_digits(dec_digits(n)),
    decreases n,
{
    if n >= 10 {
        lemma_dec_digits_shape(n / 10);
        assert(is_dec_digit(digit_char(n % 10)));
    } else {
        assert(is_dec_digit(digit_char(n)));
    }
}

proof fn lemma_dec_digits_padded_shape(n: nat, w: nat)
    ensures
        dec_digits_padded(n, w).len() == w,
        all_dec_digits(dec_digits_padded(n, w)),
    decreases w,
{
    if w > 0 {
        lemma_dec_digits_padded_shape(n / 10, (w - 1) as nat);
        assert(is_dec_digit(digit_char(n % 10)));
    }
}

/// The shape every emitted price string has: a single decimal point with
/// exactly six digits after it.
pub open spec fn price_string_shape_ok(s: Seq<char>) -> bool {
    &&& s.len() >= 8
    &&& s[s.len() - 7] == '.'
    &&& forall|t: int| s.len() - 6 <= t < s.len() ==> is_dec_digit(s[t])
    &&& forall|t: int| 0 <= t < s.len() - 7 ==> s[t] != '.'
}

/// Numeric formatting law: every rendered price string carries exactly six
/// digits after its single decimal point.
pub proof fn lemma_price_format_six_digits(m: int)
    ensures
        price_string_shape_ok(format_micros(m)),
{
    let mag = if m < 0 { -m } else { m };
    let sign: Seq<char> = if m < 0 { seq!['-'] } else { Seq::empty() };
    let a = dec_digits((mag / 1_000_000) as nat);
    let b = dec_digits_padded((mag % 1_000_000) as nat, 6);
    lemma_dec_digits_shape((mag / 1_000_000) as nat);
    lemma_dec_digits_padded_shape((mag % 1_000_000) as nat, 6);
    let s = format_micros(m);
    assert(s == sign + a + seq!['.'] + b);
    assert(s.len() == sign.len() + a.len() + 7);
    assert(s[s.len() - 7] == '.');
    assert forall|t: int| s.len() - 6 <= t < s.len() implies is_dec_digit(s[t]) by {
        assert(s[t] == b[t - (s.len() - 6)]);
    }
    assert forall|t: int| 0 <= t < s.len() - 7 implies s[t] != '.' by {
        if m < 0 && t == 0 {
            assert(s[t] == '-');
        } else {
            let u = t - sign.len();
            assert(s[t] == a[u]);
            assert(is_dec_digit(a[u]));
        }
    }
}

} // verus!
