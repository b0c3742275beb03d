use vstd::prelude::*;

verus! {

/// Fixed-point scale of numbers read from a problem file: this value stands
/// for one unit of length.
pub const FIXED_ONE: u64 = 1000;

/// Number of entries in the first `m` rows of a lower triangle with its
/// diagonal: row `r` holds `r + 1` entries.
pub open spec fn triangle(m: nat) -> nat
    decreases m,
{
    if m == 0 {
        0
    } else {
        triangle((m - 1) as nat) + m
    }
}

/// Twice a triangle number is `m * (m + 1)`.
pub proof fn lemma_triangle(m: nat)
    ensures
        2 * triangle(m) == m * (m + 1),
    decreases m,
{
    if m > 0 {
        lemma_triangle((m - 1) as nat);
        assert(2 * triangle(m) == (m - 1) * m + 2 * m);
        assert((m - 1) * m + 2 * m == m * (m + 1)) by (nonlinear_arith)
            requires m > 0;
    } else {
        assert(m * (m + 1) == 0) by (nonlinear_arith)
            requires m == 0;
    }
}

/// Largest magnitude of a number read from a problem file, in thousandths
/// (2^62): coordinates this large still give squared distances that fit.
pub const FIXED_LIMIT: u64 = 0x4000_0000_0000_0000;

/// A problem as read from a file: either explicit distances, all the
/// numbers of the section in order, or one point per city in fixed-point
/// coordinates.
pub enum FileType {
    Explicit((Vec<u64>, u32)),
    Coordinates((Vec<(i64, i64)>, u32)),
}

impl FileType {
    /// The distances fill a full `dim` by `dim` matrix, row by row, or its
    /// lower triangle with the diagonal, row by row; the points are one per
    /// city.
    pub open spec fn well_formed(&self) -> bool {
        match self {
            FileType::Explicit((data, dim)) => data@.len() == *dim * *dim || data@.len() == triangle(
                *dim as nat,
            ),
            FileType::Coordinates((coord, dim)) => coord.len() == *dim
                && crate::tsp_instance::all_within(coord@),
        }
    }
}

/// Why a file could not be read as a problem or a tour.
#[derive(Clone, Copy, Debug, PartialEq, Eq, Structural)]
pub enum ParseError {
    /// No line declares the number of cities, or it is not a number.
    MissingDimension,
    /// The line that opens the data section is missing.
    MissingSection,
    /// The data section has fewer lines than the file declares.
    Truncated,
    /// A line of the data section does not hold the numbers it should.
    BadNumber,
    /// The explicit distances are neither a full matrix nor a lower
    /// triangle of the declared size.
    WrongCount,
}

/// ASCII white space.
pub open spec fn is_space(b: u8) -> bool {
    b == 32 || b == 9 || b == 10 || b == 11 || b == 12 || b == 13
}

/// An ASCII decimal digit.
pub open spec fn is_digit(b: u8) -> bool {
    48 <= b <= 57
}

/// Every byte of `s` is a digit.
pub open spec fn all_digits(s: Seq<u8>) -> bool {
    forall|k: int| 0 <= k < s.len() ==> is_digit(#[trigger] s[k])
}

/// Value of a string of decimal digits.
pub open spec fn digits_value(s: Seq<u8>) -> nat
    decreases s.len(),
{
    if s.len() == 0 {
        0
    } else {
        digits_value(s.drop_last()) * 10 + (s.last() - 48) as nat
    }
}

/// `s` without leading white space.
pub open spec fn trim_start(s: Seq<u8>) -> Seq<u8>
    decreases s.len(),
{
    if s.len() > 0 && is_space(s[0]) {
        trim_start(s.drop_first())
    } else {
        s
    }
}

/// `s` without trailing white space.
pub open spec fn trim_end(s: Seq<u8>) -> Seq<u8>
    decreases s.len(),
{
    if s.len() > 0 && is_space(s.last()) {
        trim_end(s.drop_last())
    } else {
        s
    }
}

/// `s` without leading and trailing white space.
pub open spec fn trim(s: Seq<u8>) -> Seq<u8> {
    trim_end(trim_start(s))
}

/// The sign of a number and the text after it: a leading `-` or `+` is taken
/// off.
pub open spec fn sign_split(s: Seq<u8>) -> (int, Seq<u8>) {
    if s.len() > 0 && s[0] == 45 {
        (-1, s.drop_first())
    } else if s.len() > 0 && s[0] == 43 {
        (1, s.drop_first())
    } else {
        (1, s)
    }
}

/// A decimal integer: an optional sign and at least one digit.
pub open spec fn int_value(s: Seq<u8>) -> Option<int> {
    let (sign, body) = sign_split(s);
    if body.len() > 0 && all_digits(body) {
        Some(sign * digits_value(body))
    } else {
        None
    }
}

/// Index of the first `c` in `s`, or the length of `s` when there is none.
pub open spec fn first_of(s: Seq<u8>, c: u8) -> int
    decreases s.len(),
{
    if s.len() == 0 {
        0
    } else if s[0] == c {
        0
    } else {
        1 + first_of(s.drop_first(), c)
    }
}

/// Index of the first exponent mark (`e` or `E`) in `s`, or the length of
/// `s` when there is none.
pub open spec fn first_exponent_mark(s: Seq<u8>) -> int
    decreases s.len(),
{
    if s.len() == 0 {
        0
    } else if s[0] == 101 || s[0] == 69 {
        0
    } else {
        1 + first_exponent_mark(s.drop_first())
    }
}

/// Ten to the power `n`.
pub open spec fn pow10(n: nat) -> nat
    decreases n,
{
    if n == 0 {
        1
    } else {
        10 * pow10((n - 1) as nat)
    }
}

/// The value of the digits `d` times ten to the power `k`, rounded towards
/// zero.
pub open spec fn scaled(d: Seq<u8>, k: int) -> nat {
    if k >= 0 {
        digits_value(d) * pow10(k as nat)
    } else {
        digits_value(d) / pow10((-k) as nat)
    }
}

/// A decimal number in thousandths of a unit, rounded towards zero: an
/// optional sign, digits with an optional point among or after them (at
/// least one digit in all), and optionally an exponent mark `e` or `E`
/// followed by a decimal integer.
pub open spec fn fixed_value(s: Seq<u8>) -> Option<int> {
    let (sign, body) = sign_split(s);
    let e = first_exponent_mark(body);
    let mantissa = body.take(e);
    let d = first_of(mantissa, 46);
    let whole = mantissa.take(d);
    let fraction = if d < mantissa.len() { mantissa.skip(d + 1) } else { Seq::<u8>::empty() };
    let exponent = if e < body.len() { int_value(body.skip(e + 1)) } else { Some(0int) };
    if all_digits(whole) && all_digits(fraction) && whole.len() + fraction.len() > 0 && exponent is Some {
        Some(sign * scaled(whole + fraction, 3 + exponent->0 - fraction.len()))
    } else {
        None
    }
}

proof fn lemma_digits_take(s: Seq<u8>, k: int)
    requires
        0 <= k < s.len(),
    ensures
        digits_value(s.take(k + 1)) == digits_value(s.take(k)) * 10 + (s[k] - 48) as nat,
{
    assert(s.take(k + 1).drop_last() == s.take(k));
}

/// Value of the digits `s[lo..hi]`, when they are all digits and the value
/// is at most `limit`.
fn parse_digits(s: &[u8], lo: usize, hi: usize, limit: u128) -> (r: Option<u128>)
    requires
        lo <= hi <= s@.len(),
        limit <= 0x100_0000_0000_0000_0000_0000_0000_0000,
    ensures
        r matches Some(v) ==> all_digits(s@.subrange(lo as int, hi as int)) && v == digits_value(
            s@.subrange(lo as int, hi as int),
        ) && v <= limit,
        r is None ==> !all_digits(s@.subrange(lo as int, hi as int)) || digits_value(
            s@.subrange(lo as int, hi as int),
        ) > limit,
{
    let ghost t = s@.subrange(lo as int, hi as int);
    let mut acc: u128 = 0;
    let mut k: usize = lo;
    while k < hi
        invariant
            lo <= k <= hi <= s@.len(),
            t == s@.subrange(lo as int, hi as int),
            limit <= 0x100_0000_0000_0000_0000_0000_0000_0000,
            all_digits(t.take(k - lo)),
            acc == digits_value(t.take(k - lo)),
            acc <= limit,
        decreases hi - k,
    {
        let b = s[k];
        if b < 48 || b > 57 {
            assert(t[k - lo] == b);
            return None;
        }
        proof {
            lemma_digits_take(t, k - lo);
        }
        let next: u128 = acc * 10 + (b - 48) as u128;
        if next > limit {
            proof {
                lemma_digits_monotone(t, (k - lo + 1) as int);
            }
            return None;
        }
        acc = next;
        k = k + 1;
        assert(all_digits(t.take(k - lo))) by {
            assert forall|m: int| 0 <= m < k - lo implies is_digit(#[trigger] t.take(k - lo)[m]) by {
                if m < k - lo - 1 {
                    assert(t.take(k - lo)[m] == t.take(k - lo - 1)[m]);
                }
            }
        }
    }
    assert(t.take(hi - lo) == t);
    Some(acc)
}

/// Digits only grow in value as more follow.
proof fn lemma_digits_monotone(t: Seq<u8>, k: int)
    requires
        0 <= k <= t.len(),
    ensures
        digits_value(t) >= digits_value(t.take(k)),
    decreases t.len() - k,
{
    if k < t.len() {
        lemma_digits_take(t, k);
        lemma_digits_monotone(t, k + 1);
    } else {
        assert(t.take(k) == t);
    }
}


/// Bounds of `s[lo..hi]` without leading and trailing white space.
fn trimmed_range(s: &[u8], lo: usize, hi: usize) -> (r: (usize, usize))
    requires
        lo <= hi <= s@.len(),
    ensures
        lo <= r.0 <= r.1 <= hi,
        s@.subrange(r.0 as int, r.1 as int) == trim(s@.subrange(lo as int, hi as int)),
{
    let mut a: usize = lo;
    while a < hi && (s[a] == 32 || s[a] == 9 || s[a] == 10 || s[a] == 11 || s[a] == 12 || s[a] == 13)
        invariant
            lo <= a <= hi <= s@.len(),
            trim_start(s@.subrange(lo as int, hi as int)) == trim_start(s@.subrange(a as int, hi as int)),
        decreases hi - a,
    {
        assert(s@.subrange(a as int, hi as int).drop_first() == s@.subrange(a + 1, hi as int));
        a = a + 1;
    }
    let mut b: usize = hi;
    while b > a && (s[b - 1] == 32 || s[b - 1] == 9 || s[b - 1] == 10 || s[b - 1] == 11 || s[b - 1] == 12
        || s[b - 1] == 13)
        invariant
            lo <= a <= b <= hi <= s@.len(),
            trim(s@.subrange(lo as int, hi as int)) == trim_end(s@.subrange(a as int, b as int)),
        decreases b - a,
    {
        assert(s@.subrange(a as int, b as int).drop_last() == s@.subrange(a as int, b - 1));
        b = b - 1;
    }
    (a, b)
}

/// Index of the first `c` in `s[lo..hi]`, counted from `lo`, or `hi - lo`.
fn find_byte(s: &[u8], lo: usize, hi: usize, c: u8) -> (r: usize)
    requires
        lo <= hi <= s@.len(),
    ensures
        r == first_of(s@.subrange(lo as int, hi as int), c),
        r <= hi - lo,
{
    let ghost t = s@.subrange(lo as int, hi as int);
    let mut k: usize = lo;
    while k < hi && s[k] != c
        invariant
            lo <= k <= hi <= s@.len(),
            t == s@.subrange(lo as int, hi as int),
            first_of(t, c) == (k - lo) + first_of(s@.subrange(k as int, hi as int), c),
        decreases hi - k,
    {
        assert(s@.subrange(k as int, hi as int).drop_first() == s@.subrange(k + 1, hi as int));
        k = k + 1;
    }
    k - lo
}

/// Largest magnitude `parse_int` accepts.
pub const INT_LIMIT: u64 = 0x1_0000_0000;

/// The integer written in `s[lo..hi]`, white space around it allowed, when
/// its magnitude is at most `INT_LIMIT`.
pub fn parse_int(s: &[u8], lo: usize, hi: usize) -> (r: Option<i64>)
    requires
        lo <= hi <= s@.len(),
    ensures
        match int_value(trim(s@.subrange(lo as int, hi as int))) {
            Some(v) => if -INT_LIMIT <= v <= INT_LIMIT {
                r == Some(v as i64)
            } else {
                r is None
            },
            None => r is None,
        },
{
    let (a, b) = trimmed_range(s, lo, hi);
    let ghost t = s@.subrange(a as int, b as int);
    let (sign, start): (i64, usize) = if a < b && s[a] == 45 {
        (-1, a + 1)
    } else if a < b && s[a] == 43 {
        (1, a + 1)
    } else {
        (1, a)
    };
    assert(sign_split(t).1 == s@.subrange(start as int, b as int));
    assert(sign_split(t).0 == sign);
    if start == b {
        return None;
    }
    match parse_digits(s, start, b, INT_LIMIT as u128) {
        Some(v) => {
            let m = v as i64;
            if sign < 0 {
                Some(-m)
            } else {
                Some(m)
            }
        },
        None => None,
    }
}

proof fn lemma_pow10_positive(n: nat)
    ensures
        pow10(n) >= 1,
        pow10(n) > n,
    decreases n,
{
    if n > 0 {
        lemma_pow10_positive((n - 1) as nat);
    }
}

proof fn lemma_pow10_monotone(a: nat, b: nat)
    requires
        a <= b,
    ensures
        pow10(a) <= pow10(b),
    decreases b,
{
    if a < b {
        lemma_pow10_monotone(a, (b - 1) as nat);
        lemma_pow10_positive((b - 1) as nat);
    }
}

proof fn lemma_digits_below_pow10(d: Seq<u8>)
    requires
        all_digits(d),
    ensures
        digits_value(d) < pow10(d.len()),
    decreases d.len(),
{
    if d.len() > 0 {
        let e = d.drop_last();
        assert(all_digits(e)) by {
            assert forall|k: int| 0 <= k < e.len() implies is_digit(#[trigger] e[k]) by {
                assert(e[k] == d[k]);
            }
        }
        lemma_digits_below_pow10(e);
        assert(is_digit(d[d.len() - 1]));
        let x = (d.last() - 48) as nat;
        assert(digits_value(d) == digits_value(e) * 10 + x);
        assert(digits_value(e) * 10 + x < 10 * pow10(e.len())) by (nonlinear_arith)
            requires digits_value(e) < pow10(e.len()), x < 10;
    }
}

/// Dropping the last `m` digits divides by ten to the power `m`.
proof fn lemma_digits_shift(d: Seq<u8>, m: nat)
    requires
        all_digits(d),
        m <= d.len(),
    ensures
        digits_value(d) / pow10(m) == digits_value(d.take(d.len() - m)),
    decreases m,
{
    if m == 0 {
        assert(d.take(d.len() as int) == d);
        assert(digits_value(d) / 1 == digits_value(d));
    } else {
        let e = d.drop_last();
        assert(all_digits(e)) by {
            assert forall|k: int| 0 <= k < e.len() implies is_digit(#[trigger] e[k]) by {
                assert(e[k] == d[k]);
            }
        }
        lemma_digits_shift(e, (m - 1) as nat);
        assert(e.take(e.len() - (m - 1)) == d.take(d.len() - m));
        assert(is_digit(d[d.len() - 1]));
        let x = (d.last() - 48) as nat;
        assert(digits_value(d) == digits_value(e) * 10 + x);
        vstd::arithmetic::div_mod::lemma_fundamental_div_mod_converse(
            digits_value(d) as int,
            10,
            digits_value(e) as int,
            x as int,
        );
        lemma_pow10_positive((m - 1) as nat);
        vstd::arithmetic::div_mod::lemma_div_denominator(digits_value(d) as int, 10, pow10((m - 1) as nat) as int);
        assert(digits_value(d) / 10 == digits_value(e));
        assert(pow10(m) == 10 * pow10((m - 1) as nat));
    }
}

/// Dropping more digits than there are leaves nothing.
proof fn lemma_digits_vanish(d: Seq<u8>, m: nat)
    requires
        all_digits(d),
        m > d.len(),
    ensures
        digits_value(d) / pow10(m) == 0,
{
    lemma_digits_below_pow10(d);
    lemma_pow10_monotone(d.len(), m);
    vstd::arithmetic::div_mod::lemma_fundamental_div_mod_converse(
        digits_value(d) as int,
        pow10(m) as int,
        0,
        digits_value(d) as int,
    );
}

/// Whether `s[lo..hi]` is all digits.
fn all_digits_in(s: &[u8], lo: usize, hi: usize) -> (r: bool)
    requires
        lo <= hi <= s@.len(),
    ensures
        r == all_digits(s@.subrange(lo as int, hi as int)),
{
    let ghost t = s@.subrange(lo as int, hi as int);
    let mut k: usize = lo;
    while k < hi
        invariant
            lo <= k <= hi <= s@.len(),
            t == s@.subrange(lo as int, hi as int),
            forall|m: int| 0 <= m < k - lo ==> is_digit(#[trigger] t[m]),
        decreases hi - k,
    {
        if s[k] < 48 || s[k] > 57 {
            assert(t[k - lo] == s[k as int]);
            return false;
        }
        k = k + 1;
    }
    true
}

/// Index of the first exponent mark in `s[lo..hi]`, counted from `lo`, or `hi - lo`.
fn find_exponent_mark(s: &[u8], lo: usize, hi: usize) -> (r: usize)
    requires
        lo <= hi <= s@.len(),
    ensures
        r == first_exponent_mark(s@.subrange(lo as int, hi as int)),
        r <= hi - lo,
{
    let ghost t = s@.subrange(lo as int, hi as int);
    let mut k: usize = lo;
    while k < hi && s[k] != 101 && s[k] != 69
        invariant
            lo <= k <= hi <= s@.len(),
            t == s@.subrange(lo as int, hi as int),
            first_exponent_mark(t) == (k - lo) + first_exponent_mark(s@.subrange(k as int, hi as int)),
        decreases hi - k,
    {
        assert(s@.subrange(k as int, hi as int).drop_first() == s@.subrange(k + 1, hi as int));
        k = k + 1;
    }
    k - lo
}

/// Value of the first `count` digits of `s[a1..b1] + s[a2..b2]`, when it is
/// at most `limit`.
fn joined_digits(s: &[u8], a1: usize, b1: usize, a2: usize, b2: usize, count: usize, limit: u128) -> (r: Option<u128>)
    requires
        a1 <= b1 <= s@.len(),
        a2 <= b2 <= s@.len(),
        all_digits(s@.subrange(a1 as int, b1 as int) + s@.subrange(a2 as int, b2 as int)),
        count <= (b1 - a1) + (b2 - a2),
        limit <= 0x100_0000_0000_0000_0000_0000_0000_0000,
    ensures
        ({
            let v = digits_value((s@.subrange(a1 as int, b1 as int) + s@.subrange(a2 as int, b2 as int)).take(count as int));
            &&& r matches Some(x) ==> x == v && x <= limit
            &&& r is None ==> v > limit
        }),
{
    let ghost t = s@.subrange(a1 as int, b1 as int) + s@.subrange(a2 as int, b2 as int);
    let n1: usize = b1 - a1;
    let mut acc: u128 = 0;
    let mut i: usize = 0;
    assert(t.take(0).len() == 0);
    while i < count
        invariant
            a1 <= b1 <= s@.len(),
            a2 <= b2 <= s@.len(),
            n1 == b1 - a1,
            t == s@.subrange(a1 as int, b1 as int) + s@.subrange(a2 as int, b2 as int),
            all_digits(t),
            count <= t.len(),
            i <= count,
            acc == digits_value(t.take(i as int)),
            acc <= limit,
            limit <= 0x100_0000_0000_0000_0000_0000_0000_0000,
        decreases count - i,
    {
        let byte: u8 = if i < n1 { s[a1 + i] } else { s[a2 + (i - n1)] };
        assert(byte == t[i as int]);
        assert(is_digit(t[i as int]));
        proof {
            lemma_digits_take(t, i as int);
        }
        let next: u128 = acc * 10 + (byte - 48) as u128;
        if next > limit {
            proof {
                lemma_digits_monotone(t.take(count as int), (i + 1) as int);
                assert(t.take(count as int).take(i + 1) == t.take(i + 1));
            }
            return None;
        }
        acc = next;
        i = i + 1;
    }
    Some(acc)
}

/// The digits `s[a1..b1] + s[a2..b2]` times ten to the power
/// `3 + exponent - (b2 - a2)`, rounded towards zero, when it is at most
/// `FIXED_LIMIT`. `exp_value` is the exponent, or only its sign when
/// `exp_big` says its magnitude is beyond 2^100; `exp_ghost` is the exponent.
fn scale_digits(
    s: &[u8],
    start: usize,
    point: usize,
    frac_start: usize,
    mend: usize,
    exp_value: i128,
    exp_big: bool,
    exp_ghost: Ghost<int>,
) -> (r: Option<u128>)
    requires
        start <= point <= frac_start <= mend <= s@.len(),
        all_digits(s@.subrange(start as int, point as int) + s@.subrange(frac_start as int, mend as int)),
        !exp_big ==> exp_value == exp_ghost@ && -0x10_0000_0000_0000_0000_0000_0000 <= exp_value
            <= 0x10_0000_0000_0000_0000_0000_0000,
        exp_big ==> (exp_value == 1 && exp_ghost@ > 0x10_0000_0000_0000_0000_0000_0000) || (exp_value == -1
            && exp_ghost@ < -0x10_0000_0000_0000_0000_0000_0000),
    ensures
        ({
            let v = scaled(
                s@.subrange(start as int, point as int) + s@.subrange(frac_start as int, mend as int),
                3 + exp_ghost@ - (mend - frac_start),
            );
            &&& r matches Some(x) ==> x == v && x <= FIXED_LIMIT
            &&& r is None ==> v > FIXED_LIMIT
        }),
{
    let ghost digits = s@.subrange(start as int, point as int) + s@.subrange(frac_start as int, mend as int);
    let ghost exponent = exp_ghost@;
    let ghost fraction = s@.subrange(frac_start as int, mend as int);
    let fl: usize = mend - frac_start;
    let len: usize = (point - start) + fl;
    let ghost k = 3 + exponent - fraction.len();
    let ghost dv = digits_value(digits);
    let magnitude: u128;
    if exp_big && exp_value > 0 {
        match joined_digits(s, start, point, frac_start, mend, len, 0) {
            Some(_) => {
                assert(digits.take(len as int) == digits);
                magnitude = 0;
                assert(dv == 0);
                assert(dv * pow10(k as nat) == 0) by (nonlinear_arith)
                    requires dv == 0;
            },
            None => {
                assert(digits.take(len as int) == digits);
                proof {
                    lemma_pow10_positive(k as nat);
                    assert(dv * pow10(k as nat) >= pow10(k as nat)) by (nonlinear_arith)
                        requires dv >= 1;
                }
                return None;
            },
        }
    } else if exp_big {
        proof {
            lemma_digits_vanish(digits, (-k) as nat);
        }
        magnitude = 0;
    } else {
        let kk: i128 = 3 + exp_value - fl as i128;
        assert(kk == k);
        if kk >= 0 {
            let v = match joined_digits(s, start, point, frac_start, mend, len, FIXED_LIMIT as u128) {
                Some(v) => v,
                None => {
                    assert(digits.take(len as int) == digits);
                    proof {
                        lemma_pow10_positive(k as nat);
                        assert(dv * pow10(k as nat) >= dv) by (nonlinear_arith)
                            requires pow10(k as nat) >= 1;
                    }
                    return None;
                },
            };
            assert(digits.take(len as int) == digits);
            let mut m: u128 = v;
            let mut i: i128 = 0;
            assert(dv * pow10(0) == dv) by (nonlinear_arith)
                requires pow10(0) == 1;
            assert(scaled(digits, 3 + exponent - (mend - frac_start)) == dv * pow10(k as nat));
            if v > 0 {
                while i < kk
                    invariant
                        digits == s@.subrange(start as int, point as int) + s@.subrange(frac_start as int, mend as int),
                        exponent == exp_ghost@,
                        scaled(digits, 3 + exponent - (mend - frac_start)) == dv * pow10(k as nat),
                        k >= 0,
                        0 <= i <= kk,
                        kk == k,
                        v == dv,
                        v >= 1,
                        m == dv * pow10(i as nat),
                        m <= FIXED_LIMIT,
                    decreases kk - i,
                {
                    if m * 10 > FIXED_LIMIT as u128 {
                        proof {
                            lemma_pow10_monotone((i + 1) as nat, k as nat);
                            assert(dv * pow10(k as nat) >= dv * pow10((i + 1) as nat)) by (nonlinear_arith)
                                requires pow10(k as nat) >= pow10((i + 1) as nat);
                            assert(pow10((i + 1) as nat) == 10 * pow10(i as nat));
                            assert(dv * pow10((i + 1) as nat) == m * 10) by (nonlinear_arith)
                                requires m == dv * pow10(i as nat), pow10((i + 1) as nat) == 10 * pow10(i as nat);
                        }
                        return None;
                    }
                    m = m * 10;
                    assert(m == dv * pow10((i + 1) as nat)) by (nonlinear_arith)
                        requires m == 10 * (dv * pow10(i as nat)), pow10((i + 1) as nat) == 10 * pow10(i as nat);
                    i = i + 1;
                }
            } else {
                assert(dv * pow10(k as nat) == 0) by (nonlinear_arith)
                    requires dv == 0;
            }
            magnitude = m;
        } else {
            let shift: i128 = -kk;
            if shift > len as i128 {
                proof {
                    lemma_digits_vanish(digits, (-k) as nat);
                }
                magnitude = 0;
            } else {
                proof {
                    lemma_digits_shift(digits, (-k) as nat);
                }
                match joined_digits(s, start, point, frac_start, mend, len - shift as usize, FIXED_LIMIT as u128) {
                    Some(v) => {
                        magnitude = v;
                    },
                    None => {
                        return None;
                    },
                }
            }
        }
    }
    assert(magnitude == scaled(digits, k));
    if magnitude > FIXED_LIMIT as u128 {
        return None;
    }
    Some(magnitude)
}

/// The exponent written in `s[lo..hi]`: its value when its magnitude is at
/// most 2^100, else only its sign with the flag set; `None` when it is not
/// a decimal integer.
fn parse_exponent(s: &[u8], lo: usize, hi: usize) -> (r: Option<(i128, bool)>)
    requires
        lo <= hi <= s@.len(),
    ensures
        ({
            let iv = int_value(s@.subrange(lo as int, hi as int));
            &&& iv is None <==> r is None
            &&& r matches Some((v, big)) ==> {
                &&& !big ==> v == iv->0 && -0x10_0000_0000_0000_0000_0000_0000 <= v
                    <= 0x10_0000_0000_0000_0000_0000_0000
                &&& big ==> (v == 1 && iv->0 > 0x10_0000_0000_0000_0000_0000_0000) || (v == -1 && iv->0
                    < -0x10_0000_0000_0000_0000_0000_0000)
            }
        }),
{
    let ghost etext = s@.subrange(lo as int, hi as int);
    let (esign, estart): (i128, usize) = if lo < hi && s[lo] == 45 {
        (-1, lo + 1)
    } else if lo < hi && s[lo] == 43 {
        (1, lo + 1)
    } else {
        (1, lo)
    };
    assert(sign_split(etext).1 == s@.subrange(estart as int, hi as int));
    assert(sign_split(etext).0 == esign);
    if estart == hi || !all_digits_in(s, estart, hi) {
        return None;
    }
    match parse_digits(s, estart, hi, 0x10_0000_0000_0000_0000_0000_0000) {
        Some(v) => Some((esign * v as i128, false)),
        None => Some((esign, true)),
    }
}

/// The decimal number written in `s[lo..hi]`, white space around it allowed,
/// in thousandths of a unit, when its magnitude is at most `FIXED_LIMIT`.
#[verifier::rlimit(80)]
pub fn parse_fixed(s: &[u8], lo: usize, hi: usize) -> (r: Option<i64>)
    requires
        lo <= hi <= s@.len(),
    ensures
        match fixed_value(trim(s@.subrange(lo as int, hi as int))) {
            Some(v) => if -FIXED_LIMIT <= v <= FIXED_LIMIT {
                r == Some(v as i64)
            } else {
                r is None
            },
            None => r is None,
        },
{
    let (a, b) = trimmed_range(s, lo, hi);
    let ghost t = s@.subrange(a as int, b as int);
    let (sign, start): (i64, usize) = if a < b && s[a] == 45 {
        (-1, a + 1)
    } else if a < b && s[a] == 43 {
        (1, a + 1)
    } else {
        (1, a)
    };
    let ghost body = s@.subrange(start as int, b as int);
    assert(sign_split(t).1 == body);
    assert(sign_split(t).0 == sign);
    let e = find_exponent_mark(s, start, b);
    let mend: usize = start + e;
    let ghost mantissa = body.take(e as int);
    assert(mantissa == s@.subrange(start as int, mend as int));
    let d = find_byte(s, start, mend, 46);
    let point: usize = start + d;
    let frac_start: usize = if point < mend { point + 1 } else { mend };
    let ghost whole = mantissa.take(d as int);
    let ghost fraction = if d < mantissa.len() { mantissa.skip(d + 1) } else { Seq::<u8>::empty() };
    assert(whole == s@.subrange(start as int, point as int));
    assert(fraction == s@.subrange(frac_start as int, mend as int));
    if point == start && frac_start == mend {
        return None;
    }
    if !all_digits_in(s, start, point) || !all_digits_in(s, frac_start, mend) {
        return None;
    }
    let ghost digits = whole + fraction;
    assert(all_digits(digits)) by {
        assert forall|k: int| 0 <= k < digits.len() implies is_digit(#[trigger] digits[k]) by {
            if k < whole.len() {
                assert(digits[k] == whole[k]);
            } else {
                assert(digits[k] == fraction[k - whole.len()]);
            }
        }
    }
    let wl: usize = point - start;
    let fl: usize = mend - frac_start;
    let (exp_value, exp_big): (i128, bool) = if mend < b {
        assert(body.skip(e + 1) == s@.subrange(mend + 1, b as int));
        match parse_exponent(s, mend + 1, b) {
            Some(p) => p,
            None => {
                return None;
            },
        }
    } else {
        (0, false)
    };
    let ghost exponent: int = if mend < b { int_value(body.skip(e + 1))->0 } else { 0 };
    let ghost k = 3 + exponent - fraction.len();
    let magnitude = match scale_digits(s, start, point, frac_start, mend, exp_value, exp_big, Ghost(exponent)) {
        Some(m) => m,
        None => {
            return None;
        },
    };
    Some(sign * magnitude as i64)
}

/// The text `DIMENSION`.
pub open spec fn dimension_tag() -> Seq<u8> {
    seq![68u8, 73, 77, 69, 78, 83, 73, 79, 78]
}

/// The text `TOUR_SECTION`.
pub open spec fn tour_section_tag() -> Seq<u8> {
    seq![84u8, 79, 85, 82, 95, 83, 69, 67, 84, 73, 79, 78]
}

/// The text `EDGE_WEIGHT_TYPE`.
pub open spec fn edge_weight_type_tag() -> Seq<u8> {
    seq![69u8, 68, 71, 69, 95, 87, 69, 73, 71, 72, 84, 95, 84, 89, 80, 69]
}

/// The text `EXPLICIT`.
pub open spec fn explicit_tag() -> Seq<u8> {
    seq![69u8, 88, 80, 76, 73, 67, 73, 84]
}

/// The text `EDGE_WEIGHT_SECTION`.
pub open spec fn edge_weight_section_tag() -> Seq<u8> {
    seq![69u8, 68, 71, 69, 95, 87, 69, 73, 71, 72, 84, 95, 83, 69, 67, 84, 73, 79, 78]
}

/// The text `NODE_COORD_SECTION`.
pub open spec fn node_coord_section_tag() -> Seq<u8> {
    seq![78u8, 79, 68, 69, 95, 67, 79, 79, 82, 68, 95, 83, 69, 67, 84, 73, 79, 78]
}

/// The bytes of `dimension_tag`.
fn dimension_bytes() -> (r: Vec<u8>)
    ensures
        r@ == dimension_tag(),
{
    let r: Vec<u8> = vec![68u8, 73, 77, 69, 78, 83, 73, 79, 78];
    assert(r@ == dimension_tag());
    r
}

/// The bytes of `tour_section_tag`.
fn tour_section_bytes() -> (r: Vec<u8>)
    ensures
        r@ == tour_section_tag(),
{
    let r: Vec<u8> = vec![84u8, 79, 85, 82, 95, 83, 69, 67, 84, 73, 79, 78];
    assert(r@ == tour_section_tag());
    r
}

/// The bytes of `edge_weight_type_tag`.
fn edge_weight_type_bytes() -> (r: Vec<u8>)
    ensures
        r@ == edge_weight_type_tag(),
{
    let r: Vec<u8> = vec![69u8, 68, 71, 69, 95, 87, 69, 73, 71, 72, 84, 95, 84, 89, 80, 69];
    assert(r@ == edge_weight_type_tag());
    r
}

/// The bytes of `explicit_tag`.
fn explicit_bytes() -> (r: Vec<u8>)
    ensures
        r@ == explicit_tag(),
{
    let r: Vec<u8> = vec![69u8, 88, 80, 76, 73, 67, 73, 84];
    assert(r@ == explicit_tag());
    r
}

/// The bytes of `edge_weight_section_tag`.
fn edge_weight_section_bytes() -> (r: Vec<u8>)
    ensures
        r@ == edge_weight_section_tag(),
{
    let r: Vec<u8> = vec![69u8, 68, 71, 69, 95, 87, 69, 73, 71, 72, 84, 95, 83, 69, 67, 84, 73, 79, 78];
    assert(r@ == edge_weight_section_tag());
    r
}

/// The bytes of `node_coord_section_tag`.
fn node_coord_section_bytes() -> (r: Vec<u8>)
    ensures
        r@ == node_coord_section_tag(),
{
    let r: Vec<u8> = vec![78u8, 79, 68, 69, 95, 67, 79, 79, 82, 68, 95, 83, 69, 67, 84, 73, 79, 78];
    assert(r@ == node_coord_section_tag());
    r
}

/// The lines of a file, each as its bytes.
pub open spec fn text(lines: Seq<Vec<u8>>) -> Seq<Seq<u8>> {
    lines.map_values(|l: Vec<u8>| l@)
}

/// `pat` stands in `line` from position `k`.
pub open spec fn occurs_at(line: Seq<u8>, pat: Seq<u8>, k: int) -> bool {
    0 <= k && k + pat.len() <= line.len() && line.subrange(k, k + pat.len()) == pat
}

/// `pat` stands somewhere in `line`.
pub open spec fn contains_text(line: Seq<u8>, pat: Seq<u8>) -> bool {
    exists|k: int| occurs_at(line, pat, k)
}

/// Index of the first line from `from` on that contains `pat`, or the number
/// of lines when there is none.
pub open spec fn first_containing(t: Seq<Seq<u8>>, pat: Seq<u8>, from: int) -> int
    decreases t.len() - from,
{
    if from < 0 || from >= t.len() {
        t.len() as int
    } else if contains_text(t[from], pat) {
        from
    } else {
        first_containing(t, pat, from + 1)
    }
}

/// Index of the first line from `from` on that is `p1` or `p2`, or the
/// number of lines when there is none.
pub open spec fn first_equal(t: Seq<Seq<u8>>, p1: Seq<u8>, p2: Seq<u8>, from: int) -> int
    decreases t.len() - from,
{
    if from < 0 || from >= t.len() {
        t.len() as int
    } else if t[from] == p1 || t[from] == p2 {
        from
    } else {
        first_equal(t, p1, p2, from + 1)
    }
}

/// An unsigned decimal integer that fits a `u32`.
pub open spec fn u32_value(s: Seq<u8>) -> Option<u32> {
    if s.len() > 0 && s[0] == 45 {
        None
    } else {
        match int_value(s) {
            Some(v) => if 0 <= v <= u32::MAX {
                Some(v as u32)
            } else {
                None
            },
            None => None,
        }
    }
}

/// A signed decimal integer that fits an `i32`.
pub open spec fn i32_value(s: Seq<u8>) -> Option<i32> {
    match int_value(s) {
        Some(v) => if i32::MIN <= v <= i32::MAX {
            Some(v as i32)
        } else {
            None
        },
        None => None,
    }
}

/// The number of cities declared in a file: on the first line that contains
/// `DIMENSION`, the text between its first colon and the next colon (or the
/// end of the line), trimmed.
pub open spec fn dimension_of(t: Seq<Seq<u8>>) -> Option<u32> {
    let i = first_containing(t, dimension_tag(), 0);
    if i >= t.len() {
        None
    } else {
        let line = t[i];
        let c = first_of(line, 58);
        if c >= line.len() {
            None
        } else {
            let rest = line.skip(c + 1);
            u32_value(trim(rest.take(first_of(rest, 58))))
        }
    }
}

/// Whether `pat` stands in `line` at `k`.
fn occurs_at_exec(line: &[u8], pat: &[u8], k: usize) -> (r: bool)
    ensures
        r == occurs_at(line@, pat@, k as int),
{
    if pat.len() > line.len() || k > line.len() - pat.len() {
        return false;
    }
    let ll: usize = line.len();
    let mut m: usize = 0;
    while m < pat.len()
        invariant
            ll == line@.len(),
            k + pat@.len() <= line@.len(),
            m <= pat@.len(),
            forall|q: int| 0 <= q < m ==> line@[k + q] == pat@[q],
        decreases pat@.len() - m,
    {
        if line[k + m] != pat[m] {
            assert(line@.subrange(k as int, k + pat@.len())[m as int] != pat@[m as int]);
            return false;
        }
        m = m + 1;
    }
    assert(line@.subrange(k as int, k + pat@.len()) == pat@);
    true
}

/// Whether `pat` stands somewhere in `line`.
fn contains_exec(line: &[u8], pat: &[u8]) -> (r: bool)
    ensures
        r == contains_text(line@, pat@),
{
    if pat.len() > line.len() {
        return false;
    }
    let last: usize = line.len() - pat.len();
    let mut k: usize = 0;
    while k <= last
        invariant
            last == line@.len() - pat@.len(),
            forall|q: int| 0 <= q < k ==> !occurs_at(line@, pat@, q),
        decreases last + 1 - k,
    {
        if occurs_at_exec(line, pat, k) {
            return true;
        }
        if k == last {
            assert forall|q: int| !occurs_at(line@, pat@, q) by {
                if 0 <= q < k {
                }
            }
            return false;
        }
        k = k + 1;
    }
    false
}

/// Index of the first line that contains `pat`, or the number of lines.
fn find_containing(lines: &Vec<Vec<u8>>, pat: &[u8]) -> (r: usize)
    ensures
        r == first_containing(text(lines@), pat@, 0),
{
    let ghost t = text(lines@);
    let mut i: usize = 0;
    while i < lines.len()
        invariant
            t == text(lines@),
            i <= lines@.len(),
            first_containing(t, pat@, 0) == first_containing(t, pat@, i as int),
        decreases lines@.len() - i,
    {
        if contains_exec(lines[i].as_slice(), pat) {
            return i;
        }
        i = i + 1;
    }
    i
}

/// Whether two byte strings are equal.
fn equal_exec(a: &[u8], b: &[u8]) -> (r: bool)
    ensures
        r == (a@ == b@),
{
    if a.len() != b.len() {
        return false;
    }
    let r = occurs_at_exec(a, b, 0);
    assert(r ==> a@.subrange(0, b@.len() as int) == a@);
    if !r {
        assert(a@ != b@) by {
            if a@ == b@ {
                assert(a@.subrange(0, b@.len() as int) == a@);
            }
        }
    }
    r
}

/// Index of the first line that is `p1` or `p2`, or the number of lines.
fn find_equal(lines: &Vec<Vec<u8>>, p1: &[u8], p2: &[u8]) -> (r: usize)
    ensures
        r == first_equal(text(lines@), p1@, p2@, 0),
        r <= lines@.len(),
{
    let ghost t = text(lines@);
    let mut i: usize = 0;
    while i < lines.len()
        invariant
            t == text(lines@),
            i <= lines@.len(),
            first_equal(t, p1@, p2@, 0) == first_equal(t, p1@, p2@, i as int),
        decreases lines@.len() - i,
    {
        if equal_exec(lines[i].as_slice(), p1) || equal_exec(lines[i].as_slice(), p2) {
            return i;
        }
        i = i + 1;
    }
    i
}

/// The number of cities declared in a file.
pub fn find_dimension(lines: &Vec<Vec<u8>>) -> (r: Option<u32>)
    ensures
        r == dimension_of(text(lines@)),
{
    let tag = dimension_bytes();
    let i = find_containing(lines, tag.as_slice());
    if i >= lines.len() {
        return None;
    }
    let line = lines[i].as_slice();
    assert(line@ == text(lines@)[i as int]);
    let c = find_byte(line, 0, line.len(), 58);
    assert(line@.subrange(0, line@.len() as int) == line@);
    if c >= line.len() {
        return None;
    }
    let e = find_byte(line, c + 1, line.len(), 58);
    let ghost rest = line@.skip(c + 1);
    assert(line@.subrange(c + 1, line@.len() as int) == rest);
    assert(rest.take(e as int) == line@.subrange(c + 1, c + 1 + e));
    let (a, b) = trimmed_range(line, c + 1, c + 1 + e);
    if a < b && line[a] == 45 {
        assert(trim(rest.take(e as int))[0] == 45);
        return None;
    }
    match parse_int(line, c + 1, c + 1 + e) {
        Some(v) => {
            if v >= 0 && v <= 0xffff_ffff {
                Some(v as u32)
            } else {
                None
            }
        },
        None => None,
    }
}

/// The entries of a tour file: after the line `TOUR_SECTION`, one signed
/// integer per line for `dimension + 1` lines.
pub open spec fn tour_of(t: Seq<Seq<u8>>) -> Result<Seq<i32>, ParseError> {
    match dimension_of(t) {
        None => Err(ParseError::MissingDimension),
        Some(dim) => {
            let sec = first_equal(t, tour_section_tag(), tour_section_tag(), 0);
            if sec >= t.len() {
                Err(ParseError::MissingSection)
            } else if sec + 1 + dim + 1 > t.len() {
                Err(ParseError::Truncated)
            } else if forall|k: int| 0 <= k <= dim ==> #[trigger] i32_value(trim(t[sec + 1 + k])) is Some {
                Ok(Seq::new((dim + 1) as nat, |k: int| i32_value(trim(t[sec + 1 + k]))->0))
            } else {
                Err(ParseError::BadNumber)
            }
        },
    }
}

/// Reads a tour file given as its lines; `None` when there is no file.
pub fn load_sol_file(lines: Option<&Vec<Vec<u8>>>) -> (r: Result<Option<Vec<i32>>, ParseError>)
    ensures
        lines is None ==> r == Ok::<Option<Vec<i32>>, ParseError>(None),
        lines matches Some(l) ==> match tour_of(text(l@)) {
            Ok(v) => r matches Ok(Some(w)) && w@ == v,
            Err(e) => r == Err::<Option<Vec<i32>>, ParseError>(e),
        },
{
    let file = match lines {
        Some(l) => l,
        None => return Ok(None),
    };
    let ghost t = text(file@);
    let dim = match find_dimension(file) {
        Some(d) => d,
        None => return Err(ParseError::MissingDimension),
    };
    let tag = tour_section_bytes();
    let sec = find_equal(file, tag.as_slice(), tag.as_slice());
    if sec >= file.len() {
        return Err(ParseError::MissingSection);
    }
    let start: usize = sec + 1;
    if (file.len() - start) as u64 <= dim as u64 {
        return Err(ParseError::Truncated);
    }
    let count: usize = dim as usize + 1;
    let nl: usize = file.len();
    let mut data: Vec<i32> = Vec::new();
    let mut k: usize = 0;
    while k < count
        invariant
            lines == Some(file),
            dimension_of(t) == Some(dim),
            sec == first_equal(t, tour_section_tag(), tour_section_tag(), 0),
            t == text(file@),
            nl == file@.len(),
            start == sec + 1,
            count == dim + 1,
            start + count <= file@.len(),
            k <= count,
            data@.len() == k,
            forall|m: int| 0 <= m < k ==> i32_value(trim(#[trigger] t[start + m])) == Some(data@[m]),
        decreases count - k,
    {
        let line = file[start + k].as_slice();
        assert(line@ == t[start + k]);
        assert(line@.subrange(0, line@.len() as int) == line@);
        match parse_int(line, 0, line.len()) {
            Some(v) => {
                if v < -0x8000_0000 || v > 0x7fff_ffff {
                    assert(i32_value(trim(t[sec + 1 + k])) is None);
                    return Err(ParseError::BadNumber);
                }
                data.push(v as i32);
            },
            None => {
                assert(i32_value(trim(t[sec + 1 + k])) is None);
                return Err(ParseError::BadNumber);
            },
        }
        k = k + 1;
    }
    assert(data@ == Seq::new((dim + 1) as nat, |k: int| i32_value(trim(t[sec + 1 + k]))->0));
    Ok(Some(data))
}

/// The white-space separated words of `s` from position `i` on, where
/// `start` is where the word under way began, or -1 between words.
pub open spec fn fields_from(s: Seq<u8>, i: int, start: int) -> Seq<Seq<u8>>
    decreases s.len() - i,
{
    if i >= s.len() {
        if start >= 0 {
            seq![s.subrange(start, s.len() as int)]
        } else {
            seq![]
        }
    } else if is_space(s[i]) {
        if start >= 0 {
            seq![s.subrange(start, i)] + fields_from(s, i + 1, -1)
        } else {
            fields_from(s, i + 1, -1)
        }
    } else {
        fields_from(s, i + 1, if start >= 0 { start } else { i })
    }
}

/// The white-space separated words of `s`.
pub open spec fn fields(s: Seq<u8>) -> Seq<Seq<u8>> {
    fields_from(s, 0, -1)
}

/// The words that a list of bounds picks out of `s`.
pub open spec fn pieces(s: Seq<u8>, rs: Seq<(usize, usize)>) -> Seq<Seq<u8>> {
    rs.map_values(|p: (usize, usize)| s.subrange(p.0 as int, p.1 as int))
}

/// Bounds of the white-space separated words of `line`.
fn split_fields(line: &[u8]) -> (r: Vec<(usize, usize)>)
    ensures
        pieces(line@, r@) == fields(line@),
        forall|k: int| 0 <= k < r@.len() ==> (#[trigger] r@[k]).0 <= r@[k].1 <= line@.len(),
{
    let mut out: Vec<(usize, usize)> = Vec::new();
    let mut in_word: bool = false;
    let mut start: usize = 0;
    let mut i: usize = 0;
    while i < line.len()
        invariant
            i <= line@.len(),
            in_word ==> start < i,
            fields(line@) == pieces(line@, out@) + fields_from(line@, i as int, if in_word { start as int } else { -1 }),
            forall|k: int| 0 <= k < out@.len() ==> (#[trigger] out@[k]).0 <= out@[k].1 <= line@.len(),
        decreases line@.len() - i,
    {
        let b = line[i];
        let ghost before = out@;
        if b == 32 || b == 9 || b == 10 || b == 11 || b == 12 || b == 13 {
            if in_word {
                out.push((start, i));
                assert(pieces(line@, out@) == pieces(line@, before).push(line@.subrange(start as int, i as int)));
                assert(pieces(line@, out@) + fields_from(line@, i + 1, -1) == pieces(line@, before) + (
                seq![line@.subrange(start as int, i as int)] + fields_from(line@, i + 1, -1)));
                in_word = false;
            }
        } else {
            if !in_word {
                start = i;
                in_word = true;
            }
        }
        i = i + 1;
    }
    if in_word {
        let ghost before = out@;
        out.push((start, i));
        assert(pieces(line@, out@) == pieces(line@, before).push(line@.subrange(start as int, i as int)));
        assert(pieces(line@, out@) == pieces(line@, before) + seq![line@.subrange(start as int, line@.len() as int)]);
    } else {
        assert(pieces(line@, out@) + Seq::<Seq<u8>>::empty() == pieces(line@, out@));
    }
    out
}

/// Some line starts with `EDGE_WEIGHT_TYPE` and names `EXPLICIT`.
pub open spec fn is_explicit(t: Seq<Seq<u8>>) -> bool {
    exists|j: int|
        0 <= j < t.len() && occurs_at(t[j], edge_weight_type_tag(), 0) && #[trigger] contains_text(
            t[j],
            explicit_tag(),
        )
}

/// Whether the distances are explicit, and the index of the line after
/// `EDGE_WEIGHT_SECTION` or `NODE_COORD_SECTION`; `None` when neither line
/// is there.
pub fn find_file_type(lines: &Vec<Vec<u8>>) -> (r: Option<(bool, usize)>)
    ensures
        ({
            let t = text(lines@);
            let sec = first_equal(t, edge_weight_section_tag(), node_coord_section_tag(), 0);
            if sec >= t.len() {
                r is None
            } else {
                r == Some((is_explicit(t), (sec + 1) as usize))
            }
        }),
        0 <= first_equal(text(lines@), edge_weight_section_tag(), node_coord_section_tag(), 0) <= lines@.len(),
{
    let ghost t = text(lines@);
    let type_tag = edge_weight_type_bytes();
    let explicit = explicit_bytes();
    let mut found: bool = false;
    let mut j: usize = 0;
    while j < lines.len()
        invariant
            t == text(lines@),
            type_tag@ == edge_weight_type_tag(),
            explicit@ == explicit_tag(),
            j <= lines@.len(),
            found == exists|q: int|
                0 <= q < j && occurs_at(t[q], edge_weight_type_tag(), 0) && #[trigger] contains_text(
                    t[q],
                    explicit_tag(),
                ),
        decreases lines@.len() - j,
    {
        let line = lines[j].as_slice();
        assert(line@ == t[j as int]);
        if occurs_at_exec(line, type_tag.as_slice(), 0) && contains_exec(line, explicit.as_slice()) {
            found = true;
        }
        j = j + 1;
    }
    let ews = edge_weight_section_bytes();
    let ncs = node_coord_section_bytes();
    let sec = find_equal(lines, ews.as_slice(), ncs.as_slice());
    if sec >= lines.len() {
        return None;
    }
    Some((found, sec + 1))
}

/// A row of explicit distances: every word of the line a decimal number
/// that is not negative, in thousandths, at most `FIXED_LIMIT`.
pub open spec fn row_of(line: Seq<u8>) -> Option<Seq<u64>> {
    let f = fields(line);
    if forall|k: int| 0 <= k < f.len() ==> #[trigger] distance_token(f[k]) is Some {
        Some(Seq::new(f.len(), |k: int| distance_token(f[k])->0))
    } else {
        None
    }
}

/// A distance: a decimal number that is not negative, in thousandths.
pub open spec fn distance_token(w: Seq<u8>) -> Option<u64> {
    match fixed_value(trim(w)) {
        Some(v) => if 0 <= v <= FIXED_LIMIT {
            Some(v as u64)
        } else {
            None
        },
        None => None,
    }
}

/// A point: the second and third words of the line (the first is its
/// number) as decimal numbers, in thousandths.
pub open spec fn point_of(line: Seq<u8>) -> Option<(i64, i64)> {
    let f = fields(line);
    if f.len() < 3 {
        None
    } else {
        match (fixed_value(trim(f[1])), fixed_value(trim(f[2]))) {
            (Some(x), Some(y)) => if -FIXED_LIMIT <= x <= FIXED_LIMIT && -FIXED_LIMIT <= y <= FIXED_LIMIT {
                Some((x as i64, y as i64))
            } else {
                None
            },
            _ => None,
        }
    }
}

fn parse_row(line: &[u8]) -> (r: Option<Vec<u64>>)
    ensures
        match row_of(line@) {
            Some(row) => r matches Some(v) && v@ == row,
            None => r is None,
        },
{
    let ghost f = fields(line@);
    let bounds = split_fields(line);
    let mut row: Vec<u64> = Vec::new();
    let mut k: usize = 0;
    while k < bounds.len()
        invariant
            f == fields(line@),
            pieces(line@, bounds@) == f,
            forall|m: int| 0 <= m < bounds@.len() ==> (#[trigger] bounds@[m]).0 <= bounds@[m].1 <= line@.len(),
            k <= bounds@.len(),
            row@.len() == k,
            forall|m: int| 0 <= m < k ==> #[trigger] distance_token(f[m]) == Some(row@[m]),
        decreases bounds@.len() - k,
    {
        let (a, b) = bounds[k];
        assert(f[k as int] == line@.subrange(a as int, b as int));
        match parse_fixed(line, a, b) {
            Some(v) => {
                if v < 0 {
                    assert(distance_token(f[k as int]) is None);
                    return None;
                }
                row.push(v as u64);
            },
            None => {
                assert(distance_token(f[k as int]) is None);
                return None;
            },
        }
        k = k + 1;
    }
    assert(row@ == Seq::new(f.len(), |k: int| distance_token(f[k])->0));
    Some(row)
}

fn parse_point(line: &[u8]) -> (r: Option<(i64, i64)>)
    ensures
        r == point_of(line@),
{
    let ghost f = fields(line@);
    let bounds = split_fields(line);
    if bounds.len() < 3 {
        return None;
    }
    let (a1, b1) = bounds[1];
    let (a2, b2) = bounds[2];
    assert(f[1] == line@.subrange(a1 as int, b1 as int));
    assert(f[2] == line@.subrange(a2 as int, b2 as int));
    let x = match parse_fixed(line, a1, b1) {
        Some(x) => x,
        None => return None,
    };
    let y = match parse_fixed(line, a2, b2) {
        Some(y) => y,
        None => return None,
    };
    Some((x, y))
}

/// All the distances on the `count` lines from `start` on, in order; `None`
/// when a word there is not a distance.
pub open spec fn tokens_of(t: Seq<Seq<u8>>, start: int, count: nat) -> Option<Seq<u64>>
    decreases count,
{
    if count == 0 {
        Some(Seq::empty())
    } else {
        match (tokens_of(t, start, (count - 1) as nat), row_of(t[start + count - 1])) {
            (Some(a), Some(b)) => Some(a + b),
            _ => None,
        }
    }
}

/// Each of the `dim` lines from `start` on is a point.
pub open spec fn points_ok(t: Seq<Seq<u8>>, start: int, dim: nat) -> bool {
    forall|k: int| 0 <= k < dim ==> #[trigger] point_of(t[start + k]) is Some
}

/// `r` is what the data section of `dim` lines from `start` holds: all its
/// distances in order when `explicit`, its points otherwise, or `BadNumber`
/// when a line does not read as such.
pub open spec fn section_result(
    t: Seq<Seq<u8>>,
    explicit: bool,
    start: int,
    dim: u32,
    r: Result<FileType, ParseError>,
) -> bool {
    if explicit {
        if tokens_of(t, start, dim as nat) is Some {
            r matches Ok(FileType::Explicit((data, d))) && d == dim && data@ == tokens_of(
                t,
                start,
                dim as nat,
            )->0
        } else {
            r == Err::<FileType, ParseError>(ParseError::BadNumber)
        }
    } else {
        if points_ok(t, start, dim as nat) {
            r matches Ok(FileType::Coordinates((pts, d))) && d == dim && pts@ == Seq::new(
                dim as nat,
                |k: int| point_of(t[start + k])->0,
            )
        } else {
            r == Err::<FileType, ParseError>(ParseError::BadNumber)
        }
    }
}

/// A line that is not a row of distances spoils every longer section.
proof fn lemma_tokens_none(t: Seq<Seq<u8>>, start: int, count: nat, total: nat)
    requires
        tokens_of(t, start, count) is None,
        count <= total,
    ensures
        tokens_of(t, start, total) is None,
    decreases total - count,
{
    if count < total {
        lemma_tokens_none(t, start, count + 1, total);
    }
}

/// Reads the `dim` lines of the data section from `starting_index` on.
pub fn construct_option(
    is_explicit: bool,
    lines: &Vec<Vec<u8>>,
    starting_index: usize,
    dim: u32,
) -> (r: Result<FileType, ParseError>)
    requires
        starting_index + dim <= lines@.len(),
    ensures
        section_result(text(lines@), is_explicit, starting_index as int, dim, r),
        r matches Ok(f) ==> (f is Coordinates ==> f.well_formed()),
{
    let ghost t = text(lines@);
    let n: usize = dim as usize;
    let nl: usize = lines.len();
    if is_explicit {
        let mut data: Vec<u64> = Vec::new();
        let mut k: usize = 0;
        while k < n
            invariant
                t == text(lines@),
                is_explicit,
                n == dim,
                nl == lines@.len(),
                starting_index + n <= lines@.len(),
                k <= n,
                tokens_of(t, starting_index as int, k as nat) == Some(data@),
            decreases n - k,
        {
            let line = lines[starting_index + k].as_slice();
            assert(line@ == t[starting_index + k]);
            match parse_row(line) {
                Some(row) => {
                    let mut row = row;
                    data.append(&mut row);
                },
                None => {
                    proof {
                        lemma_tokens_none(t, starting_index as int, (k + 1) as nat, dim as nat);
                    }
                    return Err(ParseError::BadNumber);
                },
            }
            k = k + 1;
        }
        Ok(FileType::Explicit((data, dim)))
    } else {
        let mut pts: Vec<(i64, i64)> = Vec::new();
        let mut k: usize = 0;
        while k < n
            invariant
                t == text(lines@),
                !is_explicit,
                n == dim,
                nl == lines@.len(),
                starting_index + n <= lines@.len(),
                k <= n,
                pts@.len() == k,
                forall|m: int|
                    0 <= m < k ==> #[trigger] point_of(t[starting_index + m]) is Some
                        && pts@[m] == point_of(t[starting_index + m])->0,
            decreases n - k,
        {
            let line = lines[starting_index + k].as_slice();
            assert(line@ == t[starting_index + k]);
            match parse_point(line) {
                Some(p) => {
                    pts.push(p);
                },
                None => {
                    assert(point_of(t[starting_index + k]) is None);
                    assert(!points_ok(t, starting_index as int, dim as nat));
                    return Err(ParseError::BadNumber);
                },
            }
            k = k + 1;
        }
        assert(pts@ == Seq::new(dim as nat, |k: int| point_of(t[starting_index + k])->0));
        Ok(FileType::Coordinates((pts, dim)))
    }
}

impl FileType {
    /// Reads a problem file given as its lines. Explicit distances must
    /// fill a full matrix or its lower triangle with the diagonal.
    pub fn load_problem_file(lines: &Vec<Vec<u8>>) -> (r: Result<FileType, ParseError>)
        ensures
            ({
                let t = text(lines@);
                match dimension_of(t) {
                    None => r == Err::<FileType, ParseError>(ParseError::MissingDimension),
                    Some(dim) => {
                        let sec = first_equal(t, edge_weight_section_tag(), node_coord_section_tag(), 0);
                        let start = sec + 1;
                        if sec >= t.len() {
                            r == Err::<FileType, ParseError>(ParseError::MissingSection)
                        } else if start + dim > t.len() {
                            r == Err::<FileType, ParseError>(ParseError::Truncated)
                        } else if !is_explicit(t) {
                            section_result(t, false, start, dim, r)
                        } else {
                            match tokens_of(t, start, dim as nat) {
                                None => r == Err::<FileType, ParseError>(ParseError::BadNumber),
                                Some(v) => if v.len() == dim * dim || v.len() == triangle(dim as nat) {
                                    r matches Ok(FileType::Explicit((data, d))) && d == dim && data@ == v
                                } else {
                                    r == Err::<FileType, ParseError>(ParseError::WrongCount)
                                },
                            }
                        }
                    },
                }
            }),
            r matches Ok(f) ==> f.well_formed(),
    {
        let dim = match find_dimension(lines) {
            Some(d) => d,
            None => return Err(ParseError::MissingDimension),
        };
        let (explicit, starting_index) = match find_file_type(lines) {
            Some(p) => p,
            None => return Err(ParseError::MissingSection),
        };
        let nl: usize = lines.len();
        assert(text(lines@).len() == nl);
        if (lines.len() - starting_index) < dim as usize {
            return Err(ParseError::Truncated);
        }
        let r = construct_option(explicit, lines, starting_index, dim);
        match r {
            Ok(FileType::Explicit((data, d))) => {
                let len: u64 = data.len() as u64;
                let n: u64 = dim as u64;
                proof {
                    lemma_triangle(dim as nat);
                }
                assert(n * n <= 0xffff_ffff_ffff_ffff) by (nonlinear_arith)
                    requires n <= 0xffff_ffff;
                assert(n * (n + 1) <= 0xffff_ffff_ffff_ffff) by (nonlinear_arith)
                    requires n <= 0xffff_ffff;
                if len == n * n || len == n * (n + 1) / 2 {
                    Ok(FileType::Explicit((data, d)))
                } else {
                    Err(ParseError::WrongCount)
                }
            },
            other => other,
        }
    }
}

} // verus!
