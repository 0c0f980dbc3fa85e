//! Exact decimal amounts (prices, quantities, money) in millionths, with the
//! decimal-text grammar that CSV cells use and the canonical text form.

use vstd::prelude::*;

verus! {

/// The largest magnitude, in millionths, that a single parsed cell may carry
/// (one trillion units). An amount is an exact `i128` of millionths, so some
/// bound is needed: with each cell at most 10^18 millionths, a sum over as
/// many rows as an `i64` row id can number (about 9.2 * 10^18) stays below
/// 10^37, inside `i128`. One trillion yen is far above any single price,
/// quantity or total that a brokerage statement carries.
pub const MAX_CELL_MICROS: i128 = 1_000_000_000_000_000_000i128;

/// Millionths in one unit.
pub const MICROS_PER_UNIT: i128 = 1_000_000i128;

/// A decimal amount held exactly as a whole number of millionths.
#[derive(Clone, Copy, Debug, PartialEq, Eq, Structural)]
pub struct Amount {
    pub micros: i128,
}

pub open spec fn is_digit(c: char) -> bool {
    '0' <= c && c <= '9'
}

pub open spec fn digit_value(c: char) -> nat {
    ((c as int) - ('0' as int)) as nat
}

/// The number written by a run of ASCII digits (most significant first).
pub open spec fn digits_value(s: Seq<char>) -> nat
    decreases s.len(),
{
    if s.len() == 0 {
        0
    } else {
        digits_value(s.drop_last()) * 10 + digit_value(s.last())
    }
}

/// The first index at or after `i` that does not hold an ASCII digit.
pub open spec fn digits_end(s: Seq<char>, i: int) -> int
    decreases s.len() - i,
{
    if 0 <= i < s.len() && is_digit(s[i]) {
        digits_end(s, i + 1)
    } else {
        i
    }
}

pub open spec fn sign_len(s: Seq<char>) -> int {
    if s.len() > 0 && (s[0] == '+' || s[0] == '-') {
        1
    } else {
        0
    }
}

/// The first six fraction digits, padded with zeros on the right.
pub open spec fn pad6(f: Seq<char>) -> Seq<char> {
    Seq::new(6, |k: int| if k < f.len() { f[k] } else { '0' })
}

/// The value in millionths of `int_part '.' frac_part`; fraction digits after
/// the sixth do not count.
pub open spec fn unsigned_micros(int_part: Seq<char>, frac_part: Seq<char>) -> int {
    (digits_value(int_part) * 1_000_000 + digits_value(pad6(frac_part))) as int
}

/// Every character is an ASCII digit.
pub open spec fn all_digits(s: Seq<char>) -> bool {
    forall|i: int| 0 <= i < s.len() ==> is_digit(#[trigger] s[i])
}

/// `n` zero digits.
pub open spec fn zeros(n: nat) -> Seq<char> {
    Seq::new(n, |k: int| '0')
}

/// The integer and fraction digits of `int_part '.' frac_part` once the
/// point moves `e` places to the right (to the left when `e` is negative).
pub open spec fn shift_point(int_part: Seq<char>, frac_part: Seq<char>, e: int) -> (Seq<char>, Seq<char>) {
    let d = int_part + frac_part;
    let p = int_part.len() + e;
    if p <= 0 {
        (Seq::<char>::empty(), zeros((-p) as nat) + d)
    } else if p >= d.len() {
        (d + zeros((p - d.len()) as nat), Seq::<char>::empty())
    } else {
        (d.take(p), d.skip(p))
    }
}

/// The exponent written from position `c` of `s`: nothing at all (zero), or
/// `e` or `E`, an optional sign and digits reaching the end of the text;
/// `None` when anything else follows the digits.
pub open spec fn exponent_from(s: Seq<char>, c: int) -> Option<int> {
    if c >= s.len() {
        Some(0)
    } else if s[c] == 'e' || s[c] == 'E' {
        let signed = c + 1 < s.len() && (s[c + 1] == '+' || s[c + 1] == '-');
        let q = if signed { c + 2 } else { c + 1 };
        let d = digits_end(s, q);
        if d > q && d == s.len() {
            let v = digits_value(s.subrange(q, d)) as int;
            Some(if signed && s[c + 1] == '-' { -v } else { v })
        } else {
            None
        }
    } else {
        None
    }
}

/// Decimal text as Rust reads a float, but for the words for infinity and
/// not-a-number: an optional `+` or `-`, digits with at most one `.` and at
/// least one digit in all, then an optional exponent (`e` or `E`, an optional
/// sign, digits), which moves the point. Its value is counted in millionths
/// (further fraction digits are dropped); `None` when the text is not of
/// this form or its magnitude exceeds `MAX_CELL_MICROS`.
pub open spec fn parse_decimal_spec(s: Seq<char>) -> Option<Amount> {
    let a = sign_len(s);
    let b = digits_end(s, a);
    let negative = s.len() > 0 && s[0] == '-';
    let has_point = b < s.len() && s[b] == '.';
    let c = if has_point {
        digits_end(s, b + 1)
    } else {
        b
    };
    let int_part = s.subrange(a, b);
    let frac_part = if has_point {
        s.subrange(b + 1, c)
    } else {
        Seq::<char>::empty()
    };
    if !(b > a || c > b + 1) {
        None
    } else {
        match exponent_from(s, c) {
            None => None,
            Some(e) => {
                let parts = shift_point(int_part, frac_part, e);
                let m = unsigned_micros(parts.0, parts.1);
                if m > MAX_CELL_MICROS {
                    None
                } else {
                    Some(Amount { micros: (if negative { -m } else { m }) as i128 })
                }
            },
        }
    }
}

proof fn lemma_digits_value_push(s: Seq<char>, c: char)
    ensures
        digits_value(s.push(c)) == digits_value(s) * 10 + digit_value(c),
{
    assert(s.push(c).drop_last() =~= s);
}

proof fn lemma_digits_value_take_step(s: Seq<char>, i: int)
    requires
        0 <= i < s.len(),
    ensures
        digits_value(s.take(i + 1)) == digits_value(s.take(i)) * 10 + digit_value(s[i]),
{
    assert(s.take(i + 1) =~= s.take(i).push(s[i]));
    lemma_digits_value_push(s.take(i), s[i]);
}

proof fn lemma_digits_value_prefix_le(s: Seq<char>, i: int)
    requires
        0 <= i <= s.len(),
    ensures
        digits_value(s.take(i)) <= digits_value(s),
    decreases s.len() - i,
{
    if i < s.len() {
        lemma_digits_value_take_step(s, i);
        lemma_digits_value_prefix_le(s, i + 1);
    } else {
        assert(s.take(i) =~= s);
    }
}

pub proof fn lemma_digits_end_bounds(s: Seq<char>, i: int)
    requires
        0 <= i <= s.len(),
    ensures
        i <= digits_end(s, i) <= s.len(),
        forall|k: int| i <= k < digits_end(s, i) ==> is_digit(#[trigger] s[k]),
        digits_end(s, i) < s.len() ==> !is_digit(s[digits_end(s, i)]),
    decreases s.len() - i,
{
    if i < s.len() && is_digit(s[i]) {
        lemma_digits_end_bounds(s, i + 1);
    }
}

proof fn lemma_digits_end_step(s: Seq<char>, i: int)
    requires
        0 <= i < s.len(),
        is_digit(s[i]),
    ensures
        digits_end(s, i) == digits_end(s, i + 1),
{
}

/// Scans the run of digits of `s` starting at `start`; returns its end and
/// whether the number it writes is at most `cap` (with that number when it is).
pub fn scan_digits(s: &[char], start: usize, cap: u128) -> (r: (usize, Option<u128>))
    requires
        start <= s@.len(),
        cap <= 1_000_000_000_000_000_000_000u128,
    ensures
        r.0 == digits_end(s@, start as int),
        r.1 is Some <==> digits_value(s@.subrange(start as int, r.0 as int)) <= cap,
        r.1 matches Some(v) ==> v == digits_value(s@.subrange(start as int, r.0 as int)),
{
    let n = s.len();
    let mut i = start;
    let mut acc: u128 = 0;
    let mut within = true;
    proof {
        lemma_digits_end_bounds(s@, start as int);
    }
    while i < n && '0' <= s[i] && s[i] <= '9'
        invariant
            n == s@.len(),
            start <= i <= n,
            digits_end(s@, i as int) == digits_end(s@, start as int),
            forall|k: int| start <= k < i ==> is_digit(#[trigger] s@[k]),
            cap <= 1_000_000_000_000_000_000_000u128,
            within ==> acc == digits_value(s@.subrange(start as int, i as int)),
            within ==> acc <= cap,
            !within ==> digits_value(s@.subrange(start as int, i as int)) > cap,
        decreases n - i,
    {
        let ghost run = s@.subrange(start as int, i as int + 1);
        proof {
            lemma_digits_end_step(s@, i as int);
            assert(run.take(i - start) =~= s@.subrange(start as int, i as int));
            lemma_digits_value_take_step(run, i - start);
            assert(run.take(i - start + 1) =~= run);
        }
        let d = (s[i] as u32 - '0' as u32) as u128;
        if within {
            let next = acc * 10 + d;
            if next > cap {
                within = false;
            } else {
                acc = next;
            }
        } else {
            proof {
                assert(digits_value(run) >= digits_value(s@.subrange(start as int, i as int)));
            }
        }
        i = i + 1;
    }
    proof {
        lemma_digits_end_bounds(s@, i as int);
    }
    if within {
        (i, Some(acc))
    } else {
        (i, None)
    }
}

/// The value of the first six fraction digits of `s[start..end]`, padded with zeros.
fn fraction_micros(s: &[char], start: usize, end: usize) -> (r: u128)
    requires
        start <= end <= s@.len(),
        forall|k: int| start <= k < end ==> is_digit(#[trigger] s@[k]),
    ensures
        r == digits_value(pad6(s@.subrange(start as int, end as int))),
        r < 1_000_000,
{
    let ghost f = s@.subrange(start as int, end as int);
    let ghost p = pad6(f);
    let mut acc: u128 = 0;
    let mut k: usize = 0;
    while k < 6
        invariant
            start <= end <= s@.len(),
            f == s@.subrange(start as int, end as int),
            p == pad6(f),
            forall|t: int| start <= t < end ==> is_digit(#[trigger] s@[t]),
            k <= 6,
            acc == digits_value(p.take(k as int)),
            acc < pow10_spec(k as nat),
        decreases 6 - k,
    {
        let c = if k < end - start {
            s[start + k]
        } else {
            '0'
        };
        proof {
            assert(p[k as int] == c);
            lemma_digits_value_take_step(p, k as int);
            if k < end - start {
                assert(is_digit(s@[start + k]));
            }
            reveal_with_fuel(pow10_spec, 7);
            assert(pow10_spec(k as nat) <= 100_000);
            assert(pow10_spec(k as nat + 1) == 10 * pow10_spec(k as nat));
        }
        let d = (c as u32 - '0' as u32) as u128;
        acc = acc * 10 + d;
        k = k + 1;
    }
    assert(p.take(6) =~= p);
    assert(pow10_spec(6) == 1_000_000) by {
        reveal_with_fuel(pow10_spec, 7);
    }
    acc
}

pub open spec fn pow10_spec(n: nat) -> nat
    decreases n,
{
    if n == 0 {
        1
    } else {
        10 * pow10_spec((n - 1) as nat)
    }
}

proof fn lemma_digits_value_zeros_suffix(s: Seq<char>, k: nat)
    ensures
        digits_value(s + zeros(k)) == digits_value(s) * pow10_spec(k),
    decreases k,
{
    if k == 0 {
        assert(s + zeros(0) =~= s);
        assert(pow10_spec(0) == 1);
    } else {
        let k1 = (k - 1) as nat;
        lemma_digits_value_zeros_suffix(s, k1);
        assert(s + zeros(k) =~= (s + zeros(k1)).push('0'));
        lemma_digits_value_push(s + zeros(k1), '0');
        assert(digit_value('0') == 0);
        assert(pow10_spec(k) == 10 * pow10_spec(k1));
        assert(digits_value(s) * pow10_spec(k1) * 10 == digits_value(s) * pow10_spec(k)) by (nonlinear_arith)
            requires
                pow10_spec(k) == 10 * pow10_spec(k1),
        ;
    }
}

proof fn lemma_pow10_large(k: nat)
    requires
        k >= 13,
    ensures
        pow10_spec(k) >= 10_000_000_000_000,
    decreases k,
{
    if k == 13 {
        reveal_with_fuel(pow10_spec, 14);
    } else {
        lemma_pow10_large((k - 1) as nat);
    }
}

proof fn lemma_digits_value_all_zero(s: Seq<char>)
    requires
        forall|i: int| 0 <= i < s.len() ==> #[trigger] s[i] == '0',
    ensures
        digits_value(s) == 0,
    decreases s.len(),
{
    if s.len() > 0 {
        lemma_digits_value_all_zero(s.drop_last());
    }
}

proof fn lemma_digits_value_nonzero(s: Seq<char>, i: int)
    requires
        all_digits(s),
        0 <= i < s.len(),
        s[i] != '0',
    ensures
        digits_value(s) >= 1,
    decreases s.len(),
{
    if i < s.len() - 1 {
        lemma_digits_value_nonzero(s.drop_last(), i);
    }
}

/// With the point moved six or more places left of all the digits, nothing
/// is left within the first six fraction digits.
proof fn lemma_shift_far_left(ip: Seq<char>, fp: Seq<char>, e: int)
    requires
        ip.len() + e <= -6,
    ensures
        unsigned_micros(shift_point(ip, fp, e).0, shift_point(ip, fp, e).1) == 0,
{
    let parts = shift_point(ip, fp, e);
    let p = ip.len() + e;
    assert(parts.0 =~= Seq::<char>::empty());
    assert(parts.1 == zeros((-p) as nat) + (ip + fp));
    assert(pad6(parts.1) =~= zeros(6));
    lemma_digits_value_all_zero(zeros(6));
    lemma_digits_value_all_zero(Seq::<char>::empty());
}

/// With the point moved thirteen or more places right of all the digits,
/// the value is zero when every digit is, and too large otherwise.
proof fn lemma_shift_far_right(ip: Seq<char>, fp: Seq<char>, e: int)
    requires
        ip.len() + e >= ip.len() + fp.len() + 13,
        all_digits(ip + fp),
    ensures
        (forall|i: int| 0 <= i < (ip + fp).len() ==> #[trigger] (ip + fp)[i] == '0') ==> unsigned_micros(
            shift_point(ip, fp, e).0,
            shift_point(ip, fp, e).1,
        ) == 0,
        (exists|i: int| 0 <= i < (ip + fp).len() && #[trigger] (ip + fp)[i] != '0') ==> unsigned_micros(
            shift_point(ip, fp, e).0,
            shift_point(ip, fp, e).1,
        ) > MAX_CELL_MICROS,
{
    let d = ip + fp;
    let parts = shift_point(ip, fp, e);
    let k = (ip.len() + e - d.len()) as nat;
    assert(parts.0 == d + zeros(k));
    assert(parts.1 =~= Seq::<char>::empty());
    assert(pad6(parts.1) =~= zeros(6));
    lemma_digits_value_all_zero(zeros(6));
    lemma_digits_value_zeros_suffix(d, k);
    if forall|i: int| 0 <= i < d.len() ==> #[trigger] d[i] == '0' {
        lemma_digits_value_all_zero(d);
    }
    if exists|i: int| 0 <= i < d.len() && #[trigger] d[i] != '0' {
        let i = choose|i: int| 0 <= i < d.len() && #[trigger] d[i] != '0';
        lemma_digits_value_nonzero(d, i);
        lemma_pow10_large(k);
        assert(digits_value(d) * pow10_spec(k) * 1_000_000 > MAX_CELL_MICROS) by (nonlinear_arith)
            requires
                digits_value(d) >= 1,
                pow10_spec(k) >= 10_000_000_000_000,
                MAX_CELL_MICROS == 1_000_000_000_000_000_000int,
        ;
    }
}

/// Whether every character is the digit zero.
fn all_zero(s: &[char]) -> (r: bool)
    ensures
        r == forall|i: int| 0 <= i < s@.len() ==> #[trigger] s@[i] == '0',
{
    let mut i: usize = 0;
    while i < s.len()
        invariant
            i <= s@.len(),
            forall|k: int| 0 <= k < i ==> #[trigger] s@[k] == '0',
        decreases s@.len() - i,
    {
        if s[i] != '0' {
            return false;
        }
        i = i + 1;
    }
    true
}

fn zero_chars(k: usize) -> (r: Vec<char>)
    ensures
        r@ == zeros(k as nat),
{
    let mut r: Vec<char> = Vec::new();
    let mut i: usize = 0;
    while i < k
        invariant
            i <= k,
            r@ == zeros(i as nat),
        decreases k - i,
    {
        r.push('0');
        i = i + 1;
        assert(r@ =~= zeros(i as nat));
    }
    r
}

fn copy_chars_range(s: &[char], start: usize, end: usize) -> (r: Vec<char>)
    requires
        start <= end <= s@.len(),
    ensures
        r@ == s@.subrange(start as int, end as int),
{
    let mut r: Vec<char> = Vec::new();
    let mut i = start;
    while i < end
        invariant
            start <= i <= end <= s@.len(),
            r@ == s@.subrange(start as int, i as int),
        decreases end - i,
    {
        r.push(s[i]);
        i = i + 1;
        assert(r@ =~= s@.subrange(start as int, i as int));
    }
    r
}

/// The millionths of `int_part '.' frac_part` when they are at most
/// `MAX_CELL_MICROS`.
fn micros_of_parts(int_part: &[char], frac_part: &[char]) -> (r: Option<u128>)
    requires
        all_digits(int_part@),
        all_digits(frac_part@),
    ensures
        r matches Some(v) ==> v == unsigned_micros(int_part@, frac_part@) && v <= MAX_CELL_MICROS,
        r is None ==> unsigned_micros(int_part@, frac_part@) > MAX_CELL_MICROS,
{
    let ghost ip = int_part@;
    let ghost fp = frac_part@;
    proof {
        lemma_digits_end_bounds(ip, 0);
        assert(ip.subrange(0, ip.len() as int) =~= ip);
        assert(fp.subrange(0, fp.len() as int) =~= fp);
    }
    let (_, int_value) = scan_digits(int_part, 0, 1_000_000_000_000u128);
    let iv = match int_value {
        None => {
            proof {
                assert(unsigned_micros(ip, fp) > MAX_CELL_MICROS) by (nonlinear_arith)
                    requires
                        digits_value(ip) > 1_000_000_000_000,
                        unsigned_micros(ip, fp) == digits_value(ip) * 1_000_000 + digits_value(pad6(fp)),
                ;
            }
            return None;
        },
        Some(v) => v,
    };
    let fv = fraction_micros(frac_part, 0, frac_part.len());
    let total: u128 = iv * 1_000_000 + fv;
    if total > 1_000_000_000_000_000_000u128 {
        None
    } else {
        Some(total)
    }
}

/// The millionths of the digits `int_part '.' frac_part` with the point moved
/// by the exponent: `exp` is its magnitude when it is at most 10^21.
fn shifted_micros(
    int_part: &Vec<char>,
    frac_part: &Vec<char>,
    exp_negative: bool,
    exp: Option<u128>,
    Ghost(e): Ghost<int>,
) -> (r: Option<u128>)
    requires
        all_digits(int_part@),
        all_digits(frac_part@),
        int_part@.len() + frac_part@.len() <= usize::MAX,
        exp matches Some(v) ==> v <= 1_000_000_000_000_000_000_000 && e == (if exp_negative { -v } else { v as int }),
        exp is None ==> (if exp_negative { e < -1_000_000_000_000_000_000_000 } else { e > 1_000_000_000_000_000_000_000 }),
    ensures
        ({
            let parts = shift_point(int_part@, frac_part@, e);
            &&& r matches Some(v) ==> v == unsigned_micros(parts.0, parts.1) && v <= MAX_CELL_MICROS
            &&& r is None ==> unsigned_micros(parts.0, parts.1) > MAX_CELL_MICROS
        }),
{
    let ghost ip = int_part@;
    let ghost fp = frac_part@;
    let ghost d = ip + fp;
    let ghost parts = shift_point(ip, fp, e);
    let mut digits = copy_chars_range(int_part.as_slice(), 0, int_part.len());
    append_chars_to(&mut digits, frac_part.as_slice());
    let n = digits.len();
    proof {
        assert(digits@ =~= d);
        assert(all_digits(d)) by {
            assert forall|t: int| 0 <= t < d.len() implies is_digit(#[trigger] d[t]) by {
                if t < ip.len() {
                    assert(d[t] == ip[t]);
                } else {
                    assert(d[t] == fp[t - ip.len()]);
                }
            }
        }
    }
    let v = match exp {
        Some(v) => v,
        None => {
            if exp_negative {
                proof {
                    lemma_shift_far_left(ip, fp, e);
                }
                return Some(0);
            }
            let z = all_zero(digits.as_slice());
            proof {
                lemma_shift_far_right(ip, fp, e);
            }
            if z {
                return Some(0);
            } else {
                return None;
            }
        },
    };
    let p: i128 = if exp_negative {
        int_part.len() as i128 - v as i128
    } else {
        int_part.len() as i128 + v as i128
    };
    assert(p == ip.len() + e);
    if p <= -6 {
        proof {
            lemma_shift_far_left(ip, fp, e);
        }
        Some(0)
    } else if p <= 0 {
        let mut f = zero_chars((0 - p) as usize);
        append_chars_to(&mut f, digits.as_slice());
        let empty: Vec<char> = Vec::new();
        proof {
            assert(empty@ =~= parts.0);
            assert(f@ =~= parts.1);
            assert forall|t: int| 0 <= t < f@.len() implies is_digit(#[trigger] f@[t]) by {
                if t >= (0 - p) {
                    assert(f@[t] == d[t - (0 - p)]);
                }
            }
        }
        micros_of_parts(empty.as_slice(), f.as_slice())
    } else if p >= n as i128 + 13 {
        let z = all_zero(digits.as_slice());
        proof {
            lemma_shift_far_right(ip, fp, e);
        }
        if z {
            Some(0)
        } else {
            None
        }
    } else if p >= n as i128 {
        let mut w = digits;
        let z = zero_chars((p - n as i128) as usize);
        append_chars_to(&mut w, z.as_slice());
        let empty: Vec<char> = Vec::new();
        proof {
            assert(w@ =~= parts.0);
            assert(empty@ =~= parts.1);
            assert forall|t: int| 0 <= t < w@.len() implies is_digit(#[trigger] w@[t]) by {
                if t < d.len() {
                    assert(w@[t] == d[t]);
                }
            }
        }
        micros_of_parts(w.as_slice(), empty.as_slice())
    } else {
        let w = copy_chars_range(digits.as_slice(), 0, p as usize);
        let f = copy_chars_range(digits.as_slice(), p as usize, n);
        proof {
            assert(w@ =~= parts.0);
            assert(f@ =~= parts.1);
        }
        micros_of_parts(w.as_slice(), f.as_slice())
    }
}

/// Reads the exponent that starts at position `c`: `None` when the text from
/// there is not an exponent; else its sign and, when its magnitude is at most
/// 10^21, that magnitude.
fn scan_exponent(s: &[char], c: usize) -> (r: Option<(bool, Option<u128>)>)
    requires
        c <= s@.len(),
    ensures
        r is None <==> exponent_from(s@, c as int) is None,
        r matches Some((neg, v)) ==> exponent_from(s@, c as int) matches Some(e) && (v matches Some(
            m,
        ) ==> m <= 1_000_000_000_000_000_000_000 && e == (if neg {
            -m
        } else {
            m as int
        })) && (v is None ==> (if neg {
            e < -1_000_000_000_000_000_000_000
        } else {
            e > 1_000_000_000_000_000_000_000
        })),
{
    let n = s.len();
    if c >= n {
        return Some((false, Some(0)));
    }
    if !(s[c] == 'e' || s[c] == 'E') {
        return None;
    }
    let signed = c + 1 < n && (s[c + 1] == '+' || s[c + 1] == '-');
    let q = if signed {
        c + 2
    } else {
        c + 1
    };
    proof {
        lemma_digits_end_bounds(s@, q as int);
    }
    let (d, v) = scan_digits(s, q, 1_000_000_000_000_000_000_000u128);
    if !(d > q && d == n) {
        return None;
    }
    Some((signed && s[c + 1] == '-', v))
}

/// Parses decimal text as `parse_decimal_spec` describes.
pub fn parse_decimal(s: &[char]) -> (r: Option<Amount>)
    ensures
        r == parse_decimal_spec(s@),
{
    let n = s.len();
    let a: usize = if n > 0 && (s[0] == '+' || s[0] == '-') {
        1
    } else {
        0
    };
    let negative = n > 0 && s[0] == '-';
    proof {
        lemma_digits_end_bounds(s@, a as int);
    }
    let (b, _) = scan_digits(s, a, 0);
    let has_point = b < n && s[b] == '.';
    let c = if has_point {
        proof {
            lemma_digits_end_bounds(s@, b + 1);
        }
        let (e, _) = scan_digits(s, b + 1, 0);
        e
    } else {
        b
    };
    if !(b > a || c > b + 1) {
        return None;
    }
    let (exp_negative, exp) = match scan_exponent(s, c) {
        None => {
            return None;
        },
        Some(x) => x,
    };
    let ghost e: int = exponent_from(s@, c as int)->Some_0;
    let ip = copy_chars_range(s, a, b);
    let fp = if has_point {
        copy_chars_range(s, b + 1, c)
    } else {
        Vec::new()
    };
    proof {
        assert(all_digits(ip@)) by {
            assert forall|t: int| 0 <= t < ip@.len() implies is_digit(#[trigger] ip@[t]) by {
                assert(ip@[t] == s@[a + t]);
            }
        }
        if has_point {
            assert(all_digits(fp@)) by {
                assert forall|t: int| 0 <= t < fp@.len() implies is_digit(#[trigger] fp@[t]) by {
                    assert(fp@[t] == s@[b + 1 + t]);
                }
            }
        } else {
            assert(fp@ =~= Seq::<char>::empty());
        }
    }
    match shifted_micros(&ip, &fp, exp_negative, exp, Ghost(e)) {
        None => None,
        Some(total) => {
            let m = total as i128;
            if negative {
                Some(Amount { micros: -m })
            } else {
                Some(Amount { micros: m })
            }
        },
    }
}

pub open spec fn digit_char(d: nat) -> char {
    (('0' as int) + d) as char
}

/// The decimal digits of `n`, without leading zeros ("0" for zero).
pub open spec fn nat_digits(n: nat) -> Seq<char>
    decreases n,
{
    if n < 10 {
        seq![digit_char(n)]
    } else {
        nat_digits(n / 10).push(digit_char(n % 10))
    }
}

/// The last `w` decimal digits of `n`, with leading zeros.
pub open spec fn fixed_digits(n: nat, w: nat) -> Seq<char>
    decreases w,
{
    if w == 0 {
        Seq::<char>::empty()
    } else {
        fixed_digits(n / 10, (w - 1) as nat).push(digit_char(n % 10))
    }
}

pub open spec fn strip_trailing_zeros(s: Seq<char>) -> Seq<char>
    decreases s.len(),
{
    if s.len() > 0 && s.last() == '0' {
        strip_trailing_zeros(s.drop_last())
    } else {
        s
    }
}

pub open spec fn abs_micros(a: Amount) -> nat {
    (if a.micros < 0 {
        -a.micros
    } else {
        a.micros as int
    }) as nat
}

/// Plain decimal text of an amount: a `-` for negative amounts, the whole part
/// without leading zeros, and the fraction without trailing zeros after a `.`
/// when it is not zero ("-12.5", "100", "0.000001").
pub open spec fn amount_text(a: Amount) -> Seq<char> {
    let m = abs_micros(a);
    let whole = m / 1_000_000;
    let frac = m % 1_000_000;
    let sign = if a.micros < 0 {
        seq!['-']
    } else {
        Seq::<char>::empty()
    };
    let fraction = if frac == 0 {
        Seq::<char>::empty()
    } else {
        seq!['.'] + strip_trailing_zeros(fixed_digits(frac, 6))
    };
    sign + nat_digits(whole) + fraction
}

/// The text that Rust's `Debug` gives a float with this value: the plain text
/// with ".0" appended to whole numbers, and the exponent form ("5e-6",
/// "1.2e-5") for magnitudes below one ten-thousandth.
pub open spec fn amount_debug_text(a: Amount) -> Seq<char> {
    let m = abs_micros(a);
    let sign = if a.micros < 0 {
        seq!['-']
    } else {
        Seq::<char>::empty()
    };
    if 0 < m < 10 {
        sign + seq![digit_char(m)] + seq!['e', '-', '6']
    } else if 10 <= m < 100 {
        if m % 10 == 0 {
            sign + seq![digit_char(m / 10)] + seq!['e', '-', '5']
        } else {
            sign + seq![digit_char(m / 10), '.', digit_char(m % 10)] + seq!['e', '-', '5']
        }
    } else if m % 1_000_000 == 0 {
        amount_text(a) + seq!['.', '0']
    } else {
        amount_text(a)
    }
}

pub fn digit_char_exec(d: u128) -> (c: char)
    requires
        d < 10,
    ensures
        c == digit_char(d as nat),
{
    if d == 0 {
        '0'
    } else if d == 1 {
        '1'
    } else if d == 2 {
        '2'
    } else if d == 3 {
        '3'
    } else if d == 4 {
        '4'
    } else if d == 5 {
        '5'
    } else if d == 6 {
        '6'
    } else if d == 7 {
        '7'
    } else if d == 8 {
        '8'
    } else {
        '9'
    }
}

pub fn nat_digits_u(n: u128) -> (r: Vec<char>)
    ensures
        r@ == nat_digits(n as nat),
    decreases n,
{
    if n < 10 {
        let mut r = Vec::new();
        r.push(digit_char_exec(n));
        assert(r@ =~= seq![digit_char(n as nat)]);
        r
    } else {
        let mut r = nat_digits_u(n / 10);
        r.push(digit_char_exec(n % 10));
        r
    }
}

pub fn fixed_digits_u(n: u128, w: u32) -> (r: Vec<char>)
    ensures
        r@ == fixed_digits(n as nat, w as nat),
    decreases w,
{
    if w == 0 {
        let r: Vec<char> = Vec::new();
        assert(r@ =~= Seq::<char>::empty());
        r
    } else {
        let mut r = fixed_digits_u(n / 10, w - 1);
        r.push(digit_char_exec(n % 10));
        r
    }
}

fn strip_trailing_zeros_exec(v: &mut Vec<char>)
    ensures
        final(v)@ == strip_trailing_zeros(old(v)@),
{
    while v.len() > 0 && v[v.len() - 1] == '0'
        invariant
            strip_trailing_zeros(v@) == strip_trailing_zeros(old(v)@),
        decreases v@.len(),
    {
        v.pop();
    }
}

fn abs_micros_exec(a: Amount) -> (r: u128)
    ensures
        r == abs_micros(a),
{
    if a.micros < 0 {
        ((0 - (a.micros + 1)) as u128) + 1
    } else {
        a.micros as u128
    }
}

pub fn append_chars_to(v: &mut Vec<char>, w: &[char])
    ensures
        final(v)@ == old(v)@ + w@,
{
    let mut i: usize = 0;
    while i < w.len()
        invariant
            i <= w@.len(),
            v@ == old(v)@ + w@.take(i as int),
        decreases w@.len() - i,
    {
        v.push(w[i]);
        i = i + 1;
        assert(v@ =~= old(v)@ + w@.take(i as int));
    }
    assert(w@.take(w@.len() as int) =~= w@);
}

impl Amount {
    /// The plain decimal text of this amount (`amount_text`).
    pub fn to_text_chars(&self) -> (r: Vec<char>)
        ensures
            r@ == amount_text(*self),
    {
        let m = abs_micros_exec(*self);
        let mut r: Vec<char> = Vec::new();
        if self.micros < 0 {
            r.push('-');
        }
        let whole = nat_digits_u(m / 1_000_000);
        append_chars_to(&mut r, &whole);
        let frac = m % 1_000_000;
        if frac != 0 {
            r.push('.');
            let mut f = fixed_digits_u(frac, 6);
            strip_trailing_zeros_exec(&mut f);
            append_chars_to(&mut r, &f);
        }
        proof {
            let sign = if self.micros < 0 {
                seq!['-']
            } else {
                Seq::<char>::empty()
            };
            let fraction = if frac == 0 {
                Seq::<char>::empty()
            } else {
                seq!['.'] + strip_trailing_zeros(fixed_digits(frac as nat, 6))
            };
            assert(r@ =~= sign + nat_digits((m / 1_000_000) as nat) + fraction);
        }
        r
    }

    /// The `Debug` text of a float with this value (`amount_debug_text`).
    pub fn to_debug_chars(&self) -> (r: Vec<char>)
        ensures
            r@ == amount_debug_text(*self),
    {
        let m = abs_micros_exec(*self);
        let mut r: Vec<char> = Vec::new();
        if 0 < m && m < 100 {
            if self.micros < 0 {
                r.push('-');
            }
            if m < 10 {
                r.push(digit_char_exec(m));
                r.push('e');
                r.push('-');
                r.push('6');
            } else {
                r.push(digit_char_exec(m / 10));
                if m % 10 != 0 {
                    r.push('.');
                    r.push(digit_char_exec(m % 10));
                }
                r.push('e');
                r.push('-');
                r.push('5');
            }
            proof {
                let sign = if self.micros < 0 {
                    seq!['-']
                } else {
                    Seq::<char>::empty()
                };
                if m < 10 {
                    assert(r@ =~= sign + seq![digit_char(m as nat)] + seq!['e', '-', '6']);
                } else if m % 10 == 0 {
                    assert(r@ =~= sign + seq![digit_char((m / 10) as nat)] + seq!['e', '-', '5']);
                } else {
                    assert(r@ =~= sign + seq![
                        digit_char((m / 10) as nat),
                        '.',
                        digit_char((m % 10) as nat),
                    ] + seq!['e', '-', '5']);
                }
            }
            r
        } else {
            let mut t = self.to_text_chars();
            if m % 1_000_000 == 0 {
                t.push('.');
                t.push('0');
                assert(t@ =~= amount_text(*self) + seq!['.', '0']);
            }
            t
        }
    }
}

} // verus!
