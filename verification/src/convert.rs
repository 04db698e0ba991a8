//! Reading numbers, strings and property names out of BSL values.

use vstd::prelude::*;
use crate::bridge::{spread_err, SpreadError};
use crate::lexer::{all_digits, i64_of, is_ws, is_whitespace, parse_i64};
use crate::model::Value;
use crate::text::push_str;

verus! {

pub open spec fn pow10(n: nat) -> nat
    decreases n,
{
    if n == 0 {
        1
    } else {
        10 * pow10((n - 1) as nat)
    }
}

pub open spec fn abs(m: int) -> nat {
    if m < 0 {
        (-m) as nat
    } else {
        m as nat
    }
}

/// `a / 10^s` when `10^s` divides `a`.
pub open spec fn exact_nat(a: nat, s: nat) -> Option<nat>
    decreases s,
{
    if s == 0 {
        Some(a)
    } else if a % 10 != 0 {
        None
    } else {
        exact_nat(a / 10, (s - 1) as nat)
    }
}

/// `m / 10^s` when it is a whole number.
pub open spec fn exact_int(m: int, s: nat) -> Option<int> {
    match exact_nat(abs(m), s) {
        Some(q) => Some(
            if m < 0 {
                -q
            } else {
                q as int
            },
        ),
        None => None,
    }
}

/// The whole number a value holds: a number without a fraction.
pub open spec fn whole_of(v: Value) -> Option<int> {
    match v {
        Value::Number { mantissa, scale } => exact_int(mantissa as int, scale as nat),
        _ => None,
    }
}

proof fn lemma_exact_zero(s: nat)
    ensures
        exact_nat(0, s) == Some(0nat),
    decreases s,
{
    if s > 0 {
        lemma_exact_zero((s - 1) as nat);
    }
}

proof fn lemma_exact_le(a: nat, s: nat)
    ensures
        exact_nat(a, s) is Some ==> exact_nat(a, s)->0 <= a,
    decreases s,
{
    if s > 0 && a % 10 == 0 {
        lemma_exact_le(a / 10, (s - 1) as nat);
    }
}

/// `mantissa / 10^scale` when it is a whole number.
fn exact_of(mantissa: i64, scale: u32) -> (r: Option<i64>)
    ensures
        r is Some <==> exact_int(mantissa as int, scale as nat) is Some,
        r is Some ==> r->0 as int == exact_int(mantissa as int, scale as nat)->0,
{
    let neg = mantissa < 0;
    let wide: i128 = mantissa as i128;
    let mut a: u64 = if neg {
        (-wide) as u64
    } else {
        mantissa as u64
    };
    let ghost a0: nat = abs(mantissa as int);
    let mut s: u32 = scale;
    while s > 0 && a != 0
        invariant
            exact_nat(a0, scale as nat) == exact_nat(a as nat, s as nat),
            a <= a0,
            a0 == abs(mantissa as int),
        decreases s,
    {
        if a % 10 != 0 {
            return None;
        }
        a = a / 10;
        s = s - 1;
    }
    proof {
        if s > 0 {
            lemma_exact_zero(s as nat);
        }
        lemma_exact_le(a0, scale as nat);
    }
    if neg {
        Some((-(a as i128)) as i64)
    } else {
        Some(a as i64)
    }
}

/// The error of a bridge operation: the name of the operation, then what
/// went wrong.
pub fn failure(what: &str, tail: &str) -> (e: SpreadError)
    ensures
        e matches SpreadError::Spread(s) && s@ == what@ + tail@,
{
    let mut s = String::new();
    push_str(&mut s, what);
    push_str(&mut s, tail);
    SpreadError::Spread(s)
}

/// A whole number out of a value: `what` names the operation in the
/// error.
pub fn number(v: &Value, what: &str) -> (r: Result<i64, SpreadError>)
    ensures
        match *v {
            Value::Number { .. } => match whole_of(*v) {
                Some(q) => r matches Ok(n) && n == q,
                None => spread_err(r, what@ + ": ожидалось целое число"@),
            },
            _ => spread_err(r, what@ + ": ожидалось число"@),
        },
{
    match v {
        Value::Number { mantissa, scale } => match exact_of(*mantissa, *scale) {
            Some(n) => Ok(n),
            None => Err(failure(what, ": ожидалось целое число")),
        },
        _ => Err(failure(what, ": ожидалось число")),
    }
}

// --- hundredths --------------------------------------------------------------------

/// A number `m / 10^s` in hundredths, rounded half away from zero.
pub open spec fn hundredths_of(m: int, s: nat) -> int {
    if s <= 2 {
        m * pow10((2 - s) as nat)
    } else {
        let d = pow10((s - 2) as nat);
        let q = ((2 * abs(m) + d) / (2 * d)) as int;
        if m < 0 {
            -q
        } else {
            q
        }
    }
}

pub open spec fn fits_i64(v: int) -> bool {
    i64::MIN <= v <= i64::MAX
}

pub proof fn lemma_pow10_positive(n: nat)
    ensures
        pow10(n) >= 1,
    decreases n,
{
    if n > 0 {
        lemma_pow10_positive((n - 1) as nat);
    }
}

proof fn lemma_pow10_big(n: nat)
    requires
        n >= 20,
    ensures
        pow10(n) >= 100_000_000_000_000_000_000,
    decreases n,
{
    if n > 20 {
        lemma_pow10_big((n - 1) as nat);
    } else {
        reveal_with_fuel(pow10, 21);
    }
}

/// `10^n` for small `n`.
fn pow10_exec(n: u32) -> (p: u128)
    requires
        n < 20,
    ensures
        p == pow10(n as nat),
        p <= 10_000_000_000_000_000_000,
{
    proof {
        reveal_with_fuel(pow10, 20);
        lemma_pow10_mono(n as nat, 19);
    }
    let mut p: u128 = 1;
    let mut i: u32 = 0;
    while i < n
        invariant
            i <= n < 20,
            p == pow10(i as nat),
            pow10(19) == 10_000_000_000_000_000_000,
        decreases n - i,
    {
        proof {
            lemma_pow10_mono(i as nat + 1, 19);
        }
        p = p * 10;
        i = i + 1;
    }
    p
}

pub proof fn lemma_pow10_mono(a: nat, b: nat)
    requires
        a <= b,
    ensures
        pow10(a) <= pow10(b),
    decreases b,
{
    if a < b {
        lemma_pow10_mono(a, (b - 1) as nat);
        lemma_pow10_positive((b - 1) as nat);
    }
}

/// `mantissa / 10^scale` in hundredths, when that fits.
pub fn hundredths(mantissa: i64, scale: u32) -> (r: Option<i64>)
    ensures
        r is Some <==> fits_i64(hundredths_of(mantissa as int, scale as nat)),
        r is Some ==> r->0 == hundredths_of(mantissa as int, scale as nat),
{
    let wide: i128 = mantissa as i128;
    if scale <= 2 {
        let f: i128 = if scale == 2 {
            1
        } else if scale == 1 {
            10
        } else {
            100
        };
        proof {
            reveal_with_fuel(pow10, 3);
        }
        let v: i128 = wide * f;
        if v < -0x8000_0000_0000_0000 || v > 0x7FFF_FFFF_FFFF_FFFF {
            return None;
        }
        return Some(v as i64);
    }
    let a: u128 = if mantissa < 0 {
        (-wide) as u128
    } else {
        wide as u128
    };
    let k = scale - 2;
    assert(a <= 0x8000_0000_0000_0000);
    if k >= 20 {
        proof {
            lemma_pow10_big(k as nat);
            let d: int = pow10(k as nat) as int;
            vstd::arithmetic::div_mod::lemma_basic_div(2 * (a as int) + d, 2 * d);
        }
        return Some(0);
    }
    let d = pow10_exec(k);
    proof {
        lemma_pow10_positive(k as nat);
    }
    let q: u128 = (2 * a + d) / (2 * d);
    if mantissa < 0 {
        if q > 0x8000_0000_0000_0000 {
            return None;
        }
        Some((-(q as i128)) as i64)
    } else {
        if q > 0x7FFF_FFFF_FFFF_FFFF {
            return None;
        }
        Some(q as i64)
    }
}

// --- decimal strings ---------------------------------------------------------------

/// The decimal separator: the comma of the platform, or a point.
pub open spec fn is_sep(c: char) -> bool {
    c == '.' || c == ','
}

/// The index of the first separator, or the length.
pub open spec fn sep_at(s: Seq<char>) -> int
    decreases s.len(),
{
    if s.len() == 0 {
        0
    } else if is_sep(s[0]) {
        0
    } else {
        1 + sep_at(s.drop_first())
    }
}

/// A decimal written with an optional sign, digits and at most one
/// separator: the digits with their sign, and how many of them follow the
/// separator.
pub open spec fn decimal_of(t: Seq<char>) -> Option<(Seq<char>, nat)> {
    let signed = t.len() > 0 && (t[0] == '+' || t[0] == '-');
    let body = if signed {
        t.drop_first()
    } else {
        t
    };
    let k = sep_at(body);
    let whole = body.take(k);
    let frac = if k < body.len() {
        body.skip(k + 1)
    } else {
        Seq::<char>::empty()
    };
    if all_digits(whole) && all_digits(frac) && whole.len() + frac.len() > 0 {
        Some(
            (
                (if signed {
                    t.take(1)
                } else {
                    Seq::<char>::empty()
                }) + whole + frac,
                frac.len(),
            ),
        )
    } else {
        None
    }
}

/// The mantissa and scale of a decimal, when the mantissa fits in `i64`.
pub open spec fn decimal_value(t: Seq<char>) -> Option<(i64, u32)> {
    match decimal_of(t) {
        Some((d, sc)) => match i64_of(d) {
            Some(m) => if sc <= u32::MAX {
                Some((m, sc as u32))
            } else {
                None
            },
            None => None,
        },
        None => None,
    }
}

proof fn lemma_sep_at(s: Seq<char>, i: int)
    requires
        0 <= i <= s.len(),
        forall|j: int| 0 <= j < i ==> !is_sep(#[trigger] s[j]),
    ensures
        sep_at(s) == i + sep_at(s.skip(i)),
    decreases i,
{
    if i > 0 {
        assert(s.drop_first().skip(i - 1) =~= s.skip(i));
        lemma_sep_at(s.drop_first(), i - 1);
    } else {
        assert(s.skip(0) =~= s);
    }
}

/// Reads a decimal; see [`decimal_value`].
pub fn parse_decimal(t: &Vec<char>) -> (r: Option<(i64, u32)>)
    ensures
        r == decimal_value(t@),
{
    let n = t.len();
    let signed = n > 0 && (t[0] == '+' || t[0] == '-');
    let start: usize = if signed {
        1
    } else {
        0
    };
    let ghost body = if signed {
        t@.drop_first()
    } else {
        t@
    };
    proof {
        assert(body =~= t@.skip(start as int));
    }
    let mut k: usize = start;
    while k < n && !(t[k] == '.' || t[k] == ',')
        invariant
            start <= k <= n,
            n == t@.len(),
            body == t@.skip(start as int),
            forall|j: int| start <= j < k ==> !is_sep(#[trigger] t@[j]),
        decreases n - k,
    {
        k = k + 1;
    }
    proof {
        assert forall|j: int| 0 <= j < k - start implies !is_sep(#[trigger] body[j]) by {
            assert(body[j] == t@[j + start]);
        }
        lemma_sep_at(body, k - start);
        if k < n {
            assert(body.skip(k - start)[0] == t@[k as int]);
        }
        assert(sep_at(body) == k - start);
    }
    let mut digits: Vec<char> = Vec::new();
    if signed {
        digits.push(t[0]);
    }
    let mut i: usize = start;
    let mut ok = true;
    while i < n
        invariant
            start <= k <= n,
            start <= i <= n,
            n == t@.len(),
            ok ==> digits@ == (if signed { t@.take(1) } else { Seq::<char>::empty() }) + (
            if i <= k {
                t@.subrange(start as int, i as int)
            } else {
                t@.subrange(start as int, k as int) + t@.subrange(k + 1, i as int)
            }),
            ok ==> forall|j: int| start <= j < i && j != k ==> crate::lexer::is_digit(#[trigger] t@[j]),
            !ok ==> exists|j: int| start <= j < n && j != k && !crate::lexer::is_digit(#[trigger] t@[j]),
        decreases n - i,
    {
        if i != k {
            let c = t[i];
            if !('0' <= c && c <= '9') {
                ok = false;
            } else if ok {
                proof {
                    let pre = if signed { t@.take(1) } else { Seq::<char>::empty() };
                    if i < k {
                        assert(t@.subrange(start as int, i + 1) =~= t@.subrange(start as int, i as int).push(c));
                    } else {
                        assert(t@.subrange(k + 1, i + 1) =~= t@.subrange(k + 1, i as int).push(c));
                    }
                }
                digits.push(c);
            }
        } else if ok {
            proof {
                assert(t@.subrange(k + 1, k + 1) =~= Seq::<char>::empty());
                assert(t@.subrange(start as int, k as int) + Seq::<char>::empty() =~= t@.subrange(start as int, k as int));
            }
        }
        i = i + 1;
    }
    let frac_len: usize = if k < n {
        n - k - 1
    } else {
        0
    };
    proof {
        let whole = body.take(k - start);
        let frac = if k - start < body.len() {
            body.skip(k - start + 1)
        } else {
            Seq::<char>::empty()
        };
        assert(whole =~= t@.subrange(start as int, k as int));
        if k < n {
            assert(frac =~= t@.subrange(k + 1, n as int));
        }
        assert(frac.len() == frac_len);
        if ok {
            assert(all_digits(whole)) by {
                assert forall|j: int| 0 <= j < whole.len() implies crate::lexer::is_digit(#[trigger] whole[j]) by {
                    assert(whole[j] == t@[j + start]);
                }
            }
            assert(all_digits(frac)) by {
                assert forall|j: int| 0 <= j < frac.len() implies crate::lexer::is_digit(#[trigger] frac[j]) by {
                    assert(frac[j] == t@[j + k + 1]);
                }
            }
            if k < n {
                assert(digits@ =~= (if signed { t@.take(1) } else { Seq::<char>::empty() }) + whole + frac);
            } else {
                assert(t@.subrange(start as int, n as int) =~= whole);
                assert(digits@ =~= (if signed { t@.take(1) } else { Seq::<char>::empty() }) + whole + frac);
            }
        } else {
            let j = choose|j: int| start <= j < n && j != k && !crate::lexer::is_digit(#[trigger] t@[j]);
            if j < k {
                assert(whole[j - start] == t@[j]);
            } else {
                assert(frac[j - k - 1] == t@[j]);
            }
        }
    }
    if !ok || (k - start) + frac_len == 0 {
        return None;
    }
    if frac_len > 0xFFFF_FFFF {
        return None;
    }
    match parse_i64(&digits) {
        Some(m) => Some((m, frac_len as u32)),
        None => None,
    }
}

// --- trimming --------------------------------------------------------------------

pub open spec fn trim_start(s: Seq<char>) -> Seq<char>
    decreases s.len(),
{
    if s.len() > 0 && is_ws(s[0]) {
        trim_start(s.drop_first())
    } else {
        s
    }
}

pub open spec fn trim_end(s: Seq<char>) -> Seq<char>
    decreases s.len(),
{
    if s.len() > 0 && is_ws(s.last()) {
        trim_end(s.drop_last())
    } else {
        s
    }
}

/// `str::trim`: white space off both ends.
pub open spec fn trim(s: Seq<char>) -> Seq<char> {
    trim_end(trim_start(s))
}

pub fn trim_chars(v: &Vec<char>) -> (r: Vec<char>)
    ensures
        r@ == trim(v@),
{
    let n = v.len();
    let mut lo: usize = 0;
    proof {
        assert(v@.skip(0) =~= v@);
    }
    while lo < n && is_whitespace(v[lo])
        invariant
            lo <= n,
            n == v@.len(),
            trim_start(v@) == trim_start(v@.skip(lo as int)),
        decreases n - lo,
    {
        proof {
            assert(v@.skip(lo as int).drop_first() =~= v@.skip(lo + 1));
        }
        lo = lo + 1;
    }
    proof {
        assert(v@.skip(lo as int) =~= v@.subrange(lo as int, n as int));
    }
    let mut hi: usize = n;
    while hi > lo && is_whitespace(v[hi - 1])
        invariant
            lo <= hi <= n,
            n == v@.len(),
            trim_start(v@) == v@.subrange(lo as int, n as int),
            trim(v@) == trim_end(v@.subrange(lo as int, hi as int)),
        decreases hi,
    {
        proof {
            assert(v@.subrange(lo as int, hi as int).drop_last() =~= v@.subrange(lo as int, hi - 1));
        }
        hi = hi - 1;
    }
    let mut out: Vec<char> = Vec::new();
    let mut i: usize = lo;
    while i < hi
        invariant
            lo <= i <= hi <= n,
            n == v@.len(),
            out@ == v@.subrange(lo as int, i as int),
        decreases hi - i,
    {
        proof {
            assert(v@.subrange(lo as int, i + 1) =~= v@.subrange(lo as int, i as int).push(v@[i as int]));
        }
        out.push(v[i]);
        i = i + 1;
    }
    out
}

// --- upper case --------------------------------------------------------------------

/// What `str::to_uppercase` gives for a string.
pub uninterp spec fn str_upper(s: Seq<char>) -> Seq<char>;

/// `str::to_uppercase`: the string in Unicode upper case. The result
/// depends on the string alone; the case tables themselves are not
/// restated here.
#[verifier::external_body]
pub(crate) fn to_upper(s: &str) -> (u: String)
    ensures
        u@ == str_upper(s@),
{
    s.to_uppercase()
}

// --- names -------------------------------------------------------------------------

/// A character folded to ASCII lower case, as a code.
pub open spec fn fold_code(c: char) -> u32 {
    if 'A' <= c && c <= 'Z' {
        (c as u32 + 32) as u32
    } else {
        c as u32
    }
}

/// `str::eq_ignore_ascii_case`.
pub open spec fn eq_fold(a: Seq<char>, b: Seq<char>) -> bool {
    &&& a.len() == b.len()
    &&& forall|i: int| 0 <= i < a.len() ==> fold_code(#[trigger] a[i]) == fold_code(b[i])
}

fn fold(c: char) -> (r: u32)
    ensures
        r == fold_code(c),
{
    if 'A' <= c && c <= 'Z' {
        c as u32 + 32
    } else {
        c as u32
    }
}

/// Equal up to the case of ASCII letters.
pub fn eq_ignore_ascii_case(a: &str, b: &str) -> (r: bool)
    ensures
        r == eq_fold(a@, b@),
{
    let x = crate::text::to_chars(a);
    let y = crate::text::to_chars(b);
    if x.len() != y.len() {
        return false;
    }
    let mut i: usize = 0;
    while i < x.len()
        invariant
            x@ == a@,
            y@ == b@,
            x@.len() == y@.len(),
            i <= x@.len(),
            forall|j: int| 0 <= j < i ==> fold_code(#[trigger] x@[j]) == fold_code(y@[j]),
        decreases x@.len() - i,
    {
        if fold(x[i]) != fold(y[i]) {
            return false;
        }
        i = i + 1;
    }
    true
}

/// A property or method name: its Russian or its English spelling.
pub open spec fn named(name: Seq<char>, ru: Seq<char>, en: Seq<char>) -> bool {
    eq_fold(name, ru) || eq_fold(name, en)
}

pub fn is_named(name: &str, ru: &str, en: &str) -> (r: bool)
    ensures
        r == named(name@, ru@, en@),
{
    eq_ignore_ascii_case(name, ru) || eq_ignore_ascii_case(name, en)
}

} // verus!
