//! Fixed-point decimal numbers for preset values.
//!
//! A `Decimal` holds a value as a count of 10^-18 units. Values whose
//! magnitude is 10^20 or more, and the words `inf`, `infinity` and `nan`,
//! are held at the saturation point `LIMIT`; every range that a profile
//! admits lies far inside it, so such values are rejected wherever a range is
//! checked, as non-finite or huge floating-point values were.

use vstd::prelude::*;

verus! {

/// Units per whole number: values have eighteen fractional digits.
pub const UNIT: i128 = 1_000_000_000_000_000_000;

/// Saturation point, in units (a magnitude of 10^20).
pub const LIMIT: i128 = 100_000_000_000_000_000_000_000_000_000_000_000_000;

/// Exponents beyond this magnitude cannot change a saturated result.
pub const EXP_CAP: u64 = 100_000_000;

/// Longest token that the parser accepts.
pub const MAX_TOKEN: usize = 16_777_216;

#[derive(Clone, Copy, Debug, PartialEq, Eq, Structural)]
pub struct Decimal {
    pub units: i128,
}

impl Decimal {
    pub open spec fn wf(self) -> bool {
        -LIMIT <= self.units <= LIMIT
    }

    pub open spec fn is_saturated(self) -> bool {
        self.units == LIMIT || self.units == -LIMIT
    }

    /// A value given as whole numbers and a count of 10^-18 units.
    pub fn from_units(units: i128) -> (d: Decimal)
        ensures
            d.units == units,
    {
        Decimal { units }
    }

    pub fn zero() -> (d: Decimal)
        ensures
            d.units == 0,
    {
        Decimal { units: 0 }
    }
}

pub open spec fn pow10(n: nat) -> nat
    decreases n,
{
    if n == 0 {
        1
    } else {
        10 * pow10((n - 1) as nat)
    }
}

pub open spec fn is_digit(c: char) -> bool {
    '0' <= c && c <= '9'
}

pub open spec fn digit_value(c: char) -> nat {
    (c as int - '0' as int) as nat
}

pub open spec fn all_digits(s: Seq<char>) -> bool {
    forall|i: int| 0 <= i < s.len() ==> is_digit(#[trigger] s[i])
}

/// The number that a run of decimal digits spells.
pub open spec fn digits_value(s: Seq<char>) -> nat
    decreases s.len(),
{
    if s.len() == 0 {
        0
    } else {
        digits_value(s.drop_last()) * 10 + digit_value(s.last())
    }
}

pub open spec fn lower(c: char) -> char {
    if 'A' <= c && c <= 'Z' {
        ((c as u32) + 32) as char
    } else {
        c
    }
}

/// ASCII case-insensitive equality.
pub open spec fn ascii_ci_eq(a: Seq<char>, b: Seq<char>) -> bool {
    a.len() == b.len() && forall|i: int| 0 <= i < a.len() ==> lower(#[trigger] a[i]) == lower(b[i])
}

pub open spec fn sign_len(t: Seq<char>) -> int {
    if t.len() > 0 && (t[0] == '+' || t[0] == '-') {
        1
    } else {
        0
    }
}

pub open spec fn is_negative(t: Seq<char>) -> bool {
    t.len() > 0 && t[0] == '-'
}

pub open spec fn is_special_word(b: Seq<char>) -> bool {
    ||| ascii_ci_eq(b, seq!['i', 'n', 'f'])
    ||| ascii_ci_eq(b, seq!['i', 'n', 'f', 'i', 'n', 'i', 't', 'y'])
    ||| ascii_ci_eq(b, seq!['n', 'a', 'n'])
}

pub open spec fn is_nan_word(b: Seq<char>) -> bool {
    ascii_ci_eq(b, seq!['n', 'a', 'n'])
}

pub open spec fn is_exp_mark(c: char) -> bool {
    c == 'e' || c == 'E'
}

/// Index of the first exponent mark, or the length when there is none.
pub open spec fn exp_index(b: Seq<char>) -> int
    decreases b.len(),
{
    if b.len() == 0 {
        0
    } else if is_exp_mark(b[0]) {
        0
    } else {
        1 + exp_index(b.drop_first())
    }
}

/// Index of the first `.`, or the length when there is none.
pub open spec fn dot_index(b: Seq<char>) -> int
    decreases b.len(),
{
    if b.len() == 0 {
        0
    } else if b[0] == '.' {
        0
    } else {
        1 + dot_index(b.drop_first())
    }
}

pub open spec fn mantissa(b: Seq<char>) -> Seq<char> {
    b.take(exp_index(b))
}

pub open spec fn exponent_part(b: Seq<char>) -> Seq<char> {
    b.skip(exp_index(b))
}

pub open spec fn int_digits(m: Seq<char>) -> Seq<char> {
    m.take(dot_index(m))
}

pub open spec fn frac_digits(m: Seq<char>) -> Seq<char> {
    if dot_index(m) < m.len() {
        m.skip(dot_index(m) + 1)
    } else {
        Seq::empty()
    }
}

pub open spec fn exp_sign_len(x: Seq<char>) -> int {
    if x.len() > 1 && (x[1] == '+' || x[1] == '-') {
        2
    } else {
        1
    }
}

pub open spec fn exp_digits(x: Seq<char>) -> Seq<char> {
    x.skip(exp_sign_len(x))
}

pub open spec fn exp_valid(x: Seq<char>) -> bool {
    x.len() == 0 || (exp_digits(x).len() > 0 && all_digits(exp_digits(x)))
}

pub open spec fn exp_value(x: Seq<char>) -> int {
    if x.len() == 0 {
        0
    } else if x[1] == '-' {
        -digits_value(exp_digits(x))
    } else {
        digits_value(exp_digits(x)) as int
    }
}

/// Decimal notation: digits with at most one `.`, at least one digit, and
/// an optional exponent `e`/`E`, sign, digits.
pub open spec fn decimal_valid(b: Seq<char>) -> bool {
    let m = mantissa(b);
    &&& all_digits(int_digits(m))
    &&& all_digits(frac_digits(m))
    &&& int_digits(m).len() + frac_digits(m).len() >= 1
    &&& exp_valid(exponent_part(b))
}

/// `m * 10^k`, rounded to the nearest whole number, halves up.
pub open spec fn scaled(m: nat, k: int) -> nat {
    if k >= 0 {
        m * pow10(k as nat)
    } else {
        (m + 5 * pow10((-k - 1) as nat)) / pow10((-k) as nat)
    }
}

pub open spec fn saturate(x: nat) -> int {
    if x > LIMIT {
        LIMIT as int
    } else {
        x as int
    }
}

/// Magnitude, in units, of a valid decimal body.
pub open spec fn decimal_units(b: Seq<char>) -> int {
    let m = mantissa(b);
    let digits = int_digits(m) + frac_digits(m);
    saturate(scaled(digits_value(digits), exp_value(exponent_part(b)) - frac_digits(m).len() + 18))
}

/// What a token means as a number: `None` where the floating-point syntax
/// rejects it; otherwise its value in units, rounded to the nearest unit
/// (halves away from zero) and held at
/// `LIMIT` in magnitude (the words `inf`, `infinity`, `nan` included).
pub open spec fn number_value(t: Seq<char>) -> Option<int> {
    let b = t.skip(sign_len(t));
    if is_special_word(b) {
        Some(
            if is_negative(t) && !is_nan_word(b) {
                -LIMIT
            } else {
                LIMIT as int
            },
        )
    } else if decimal_valid(b) {
        Some(
            if is_negative(t) {
                -decimal_units(b)
            } else {
                decimal_units(b)
            },
        )
    } else {
        None
    }
}

// ---------------------------------------------------------------------------
// Lemmas on digits and powers of ten
// ---------------------------------------------------------------------------
pub proof fn lemma_pow10_pos(n: nat)
    ensures
        pow10(n) >= 1,
    decreases n,
{
    if n > 0 {
        lemma_pow10_pos((n - 1) as nat);
    }
}

pub proof fn lemma_pow10_add(a: nat, b: nat)
    ensures
        pow10(a + b) == pow10(a) * pow10(b),
    decreases a,
{
    if a > 0 {
        let a1 = (a - 1) as nat;
        lemma_pow10_add(a1, b);
        let x = pow10(a1);
        let y = pow10(b);
        let z = pow10(a1 + b);
        assert(z == x * y);
        assert(a + b == (a1 + b) + 1);
        assert(pow10(a + b) == 10 * z);
        assert(pow10(a) == 10 * x);
        assert(10 * (x * y) == (10 * x) * y) by (nonlinear_arith);
    } else {
        assert(pow10(0) == 1);
        assert(a + b == b);
    }
}

pub proof fn lemma_pow10_mono(a: nat, b: nat)
    requires
        a <= b,
    ensures
        pow10(a) <= pow10(b),
    decreases b,
{
    if a < b {
        lemma_pow10_mono(a, (b - 1) as nat);
        lemma_pow10_pos((b - 1) as nat);
    }
}

pub proof fn lemma_pow10_grows(n: nat)
    ensures
        pow10(n) > n,
    decreases n,
{
    if n > 0 {
        lemma_pow10_grows((n - 1) as nat);
    }
}

pub proof fn lemma_pow10_38()
    ensures
        pow10(38) == LIMIT,
        pow10(18) == UNIT,
{
    reveal_with_fuel(pow10, 39);
}

pub proof fn lemma_digits_value_bound(s: Seq<char>)
    requires
        all_digits(s),
    ensures
        digits_value(s) < pow10(s.len()),
    decreases s.len(),
{
    if s.len() > 0 {
        let p = s.drop_last();
        assert(all_digits(p)) by {
            assert forall|i: int| 0 <= i < p.len() implies is_digit(#[trigger] p[i]) by {
                assert(p[i] == s[i]);
            }
        }
        lemma_digits_value_bound(p);
        assert(is_digit(s[s.len() - 1]));
        let x = digits_value(p);
        let d = digit_value(s.last());
        assert(x * 10 + d < pow10(p.len()) * 10) by (nonlinear_arith)
            requires
                x < pow10(p.len()),
                d < 10,
        ;
    }
}

pub proof fn lemma_digits_value_concat(a: Seq<char>, b: Seq<char>)
    ensures
        digits_value(a + b) == digits_value(a) * pow10(b.len()) + digits_value(b),
    decreases b.len(),
{
    if b.len() == 0 {
        assert(a + b =~= a);
        assert(pow10(0) == 1);
    } else {
        let bp = b.drop_last();
        assert(pow10(b.len()) == 10 * pow10(bp.len()));
        assert((a + b).drop_last() =~= a + bp);
        assert((a + b).last() == b.last());
        lemma_digits_value_concat(a, bp);
        let x = digits_value(a);
        let y = digits_value(bp);
        let p = pow10(bp.len());
        let d = digit_value(b.last());
        assert((x * p + y) * 10 + d == x * (10 * p) + (y * 10 + d)) by (nonlinear_arith);
    }
}

/// Dropping the last `j` digits divides by 10^j.
pub proof fn lemma_digits_value_prefix(s: Seq<char>, j: nat)
    requires
        all_digits(s),
        j <= s.len(),
    ensures
        digits_value(s) / pow10(j) == digits_value(s.take(s.len() - j)),
{
    let a = s.take(s.len() - j);
    let b = s.skip(s.len() - j);
    assert(a + b =~= s);
    lemma_digits_value_concat(a, b);
    assert(all_digits(b)) by {
        assert forall|i: int| 0 <= i < b.len() implies is_digit(#[trigger] b[i]) by {
            assert(b[i] == s[s.len() - j + i]);
        }
    }
    lemma_digits_value_bound(b);
    lemma_pow10_pos(j);
    let x = digits_value(a);
    let y = digits_value(b);
    let p = pow10(j);
    assert((x * p + y) / p == x) by (nonlinear_arith)
        requires
            0 <= y < p,
            p >= 1,
    ;
}

/// Digits beyond every kept position contribute nothing.
pub proof fn lemma_digits_value_small(s: Seq<char>, j: nat)
    requires
        all_digits(s),
        j >= s.len(),
    ensures
        digits_value(s) / pow10(j) == 0,
{
    lemma_digits_value_bound(s);
    lemma_pow10_mono(s.len(), j);
    lemma_div_small(digits_value(s), pow10(j));
}

pub proof fn lemma_div_small(x: nat, p: nat)
    requires
        x < p,
    ensures
        x / p == 0,
{
    assert(x / p == 0) by (nonlinear_arith)
        requires
            x < p,
            0 <= x,
    ;
}

/// A value below 10^(j-1) rounds to no unit at the scale 10^-j.
pub proof fn lemma_round_small(m: nat, j: nat)
    requires
        j >= 1,
        m < pow10((j - 1) as nat),
    ensures
        scaled(m, -(j as int)) == 0,
{
    let p = pow10((j - 1) as nat);
    assert(pow10(j) == 10 * p);
    lemma_div_small((m + 5 * p) as nat, pow10(j));
}

/// Rounding at the scale 10^-j looks at the first dropped digit `c` only.
pub proof fn lemma_round_split(q: nat, c: nat, rest: nat, j: nat)
    requires
        j >= 1,
        c < 10,
        rest < pow10((j - 1) as nat),
    ensures
        scaled(q * pow10(j) + c * pow10((j - 1) as nat) + rest, -(j as int)) == q + (if c >= 5 {
            1int
        } else {
            0int
        }),
{
    let p = pow10((j - 1) as nat);
    lemma_pow10_pos((j - 1) as nat);
    assert(pow10(j) == 10 * p);
    let b: int = if c >= 5 {
        1
    } else {
        0
    };
    let x: int = (q * (10 * p) + c * p + rest + 5 * p) as int;
    let r: int = (c + 5 - 10 * b) * p + rest;
    assert(x == (q + b) * (10 * p) + r) by (nonlinear_arith)
        requires
            x == q * (10 * p) + c * p + rest + 5 * p,
            r == (c + 5 - 10 * b) * p + rest,
    ;
    assert(0 <= r < 10 * p) by (nonlinear_arith)
        requires
            r == (c + 5 - 10 * b) * p + rest,
            0 <= rest < p,
            c < 10,
            b == 1 ==> c >= 5,
            b == 0 ==> c < 5,
            b == 0 || b == 1,
            0 <= c,
            p >= 1,
    ;
    vstd::arithmetic::div_mod::lemma_fundamental_div_mod_converse_div(x, (10 * p) as int, q + b, r);
}

pub proof fn lemma_sat_step(x: nat, d: nat)
    ensures
        saturate((10 * saturate(x) + d) as nat) == saturate(10 * x + d),
{
    if x > LIMIT {
        assert(10 * x + d > LIMIT) by (nonlinear_arith)
            requires
                x > LIMIT,
                LIMIT > 0,
        ;
    }
}

pub proof fn lemma_scaled_large(m: nat, k: int)
    requires
        k >= 60,
    ensures
        saturate(scaled(m, k)) == (if m == 0 {
            0
        } else {
            LIMIT as int
        }),
{
    lemma_pow10_mono(60, k as nat);
    lemma_pow10_grows(60);
    lemma_pow10_mono(38, 60);
    lemma_pow10_38();
    lemma_pow10_add(38, 22);
    lemma_pow10_pos(22);
    let p = pow10(k as nat);
    if m > 0 {
        assert(m * p >= p) by (nonlinear_arith)
            requires
                m >= 1,
                p >= 1,
        ;
        assert(pow10(60) == pow10(38) * pow10(22));
        assert(pow10(38) * pow10(22) > pow10(38)) by (nonlinear_arith)
            requires
                pow10(22) > 1,
                pow10(38) >= 1,
        ;
    } else {
        assert(m * p == 0);
    }
}

// ---------------------------------------------------------------------------
// Executable parsing
// ---------------------------------------------------------------------------
pub fn digit(c: char) -> (r: bool)
    ensures
        r == is_digit(c),
{
    '0' <= c && c <= '9'
}

pub fn lower_char(c: char) -> (r: char)
    ensures
        r == lower(c),
{
    if 'A' <= c && c <= 'Z' {
        ((c as u8) + 32) as char
    } else {
        c
    }
}

/// ASCII case-insensitive comparison of `t[start..]` with `w`.
pub fn ci_eq_at(t: &Vec<char>, start: usize, w: &[char]) -> (r: bool)
    requires
        start <= t.len(),
    ensures
        r == ascii_ci_eq(t@.skip(start as int), w@),
{
    if t.len() - start != w.len() {
        return false;
    }
    let mut i: usize = 0;
    while i < w.len()
        invariant
            t.len() - start == w.len(),
            start <= t.len(),
            i <= w.len(),
            forall|j: int| 0 <= j < i ==> lower(#[trigger] t@.skip(start as int)[j]) == lower(w@[j]),
        decreases w.len() - i,
    {
        if lower_char(t[start + i]) != lower_char(w[i]) {
            assert(lower(t@.skip(start as int)[i as int]) != lower(w@[i as int]));
            return false;
        }
        i += 1;
    }
    true
}

proof fn lemma_exp_index_skip(b: Seq<char>, i: int)
    requires
        0 <= i <= b.len(),
        forall|j: int| 0 <= j < i ==> !is_exp_mark(#[trigger] b[j]),
    ensures
        exp_index(b) == i + exp_index(b.skip(i)),
    decreases i,
{
    if i > 0 {
        assert(!is_exp_mark(b[0]));
        let d = b.drop_first();
        assert forall|j: int| 0 <= j < i - 1 implies !is_exp_mark(#[trigger] d[j]) by {
            assert(d[j] == b[j + 1]);
        }
        lemma_exp_index_skip(d, i - 1);
        assert(d.skip(i - 1) =~= b.skip(i));
    } else {
        assert(b.skip(0) =~= b);
    }
}

proof fn lemma_dot_index_skip(b: Seq<char>, i: int)
    requires
        0 <= i <= b.len(),
        forall|j: int| 0 <= j < i ==> #[trigger] b[j] != '.',
    ensures
        dot_index(b) == i + dot_index(b.skip(i)),
    decreases i,
{
    if i > 0 {
        let d = b.drop_first();
        assert forall|j: int| 0 <= j < i - 1 implies #[trigger] d[j] != '.' by {
            assert(d[j] == b[j + 1]);
        }
        lemma_dot_index_skip(d, i - 1);
        assert(d.skip(i - 1) =~= b.skip(i));
    } else {
        assert(b.skip(0) =~= b);
    }
}

/// Index of the first exponent mark at or after `from`.
fn find_exp(t: &Vec<char>, from: usize) -> (r: usize)
    requires
        from <= t.len(),
    ensures
        from <= r <= t.len(),
        r - from == exp_index(t@.skip(from as int)),
{
    let mut i = from;
    while i < t.len() && !(t[i] == 'e' || t[i] == 'E')
        invariant
            from <= i <= t.len(),
            forall|j: int| from <= j < i ==> !is_exp_mark(#[trigger] t@[j]),
        decreases t.len() - i,
    {
        i += 1;
    }
    proof {
        let b = t@.skip(from as int);
        assert forall|j: int| 0 <= j < i - from implies !is_exp_mark(#[trigger] b[j]) by {
            assert(b[j] == t@[from + j]);
        }
        lemma_exp_index_skip(b, i - from);
        if i < t.len() {
            assert(b.skip(i - from)[0] == t@[i as int]);
        }
    }
    i
}

/// Index of the first `.` in `t[from..to]`, or `to`.
fn find_dot(t: &Vec<char>, from: usize, to: usize) -> (r: usize)
    requires
        from <= to <= t.len(),
    ensures
        from <= r <= to,
        r - from == dot_index(t@.subrange(from as int, to as int)),
{
    let mut i = from;
    while i < to && t[i] != '.'
        invariant
            from <= i <= to,
            to <= t.len(),
            forall|j: int| from <= j < i ==> #[trigger] t@[j] != '.',
        decreases to - i,
    {
        i += 1;
    }
    proof {
        let b = t@.subrange(from as int, to as int);
        assert forall|j: int| 0 <= j < i - from implies #[trigger] b[j] != '.' by {
            assert(b[j] == t@[from + j]);
        }
        lemma_dot_index_skip(b, i - from);
        if i < to {
            assert(b.skip(i - from)[0] == t@[i as int]);
        }
    }
    i
}

/// Whether every character of `t[from..to]` is a digit.
fn digits_between(t: &Vec<char>, from: usize, to: usize) -> (r: bool)
    requires
        from <= to <= t.len(),
    ensures
        r == all_digits(t@.subrange(from as int, to as int)),
{
    let mut i = from;
    while i < to
        invariant
            from <= i <= to,
            to <= t.len(),
            forall|j: int| from <= j < i ==> is_digit(#[trigger] t@[j]),
        decreases to - i,
    {
        if !digit(t[i]) {
            assert(!is_digit(t@.subrange(from as int, to as int)[i - from]));
            return false;
        }
        i += 1;
    }
    assert forall|j: int| 0 <= j < to - from implies is_digit(
        #[trigger] t@.subrange(from as int, to as int)[j],
    ) by {
        assert(t@.subrange(from as int, to as int)[j] == t@[from + j]);
    }
    true
}

/// Saturated value of a run of digits.
fn sat_digits(d: &Vec<char>, len: usize) -> (r: i128)
    requires
        len <= d.len(),
        all_digits(d@),
    ensures
        r == saturate(digits_value(d@.take(len as int))),
{
    let mut acc: i128 = 0;
    let mut i: usize = 0;
    assert(d@.take(0) =~= Seq::<char>::empty());
    while i < len
        invariant
            i <= len <= d.len(),
            all_digits(d@),
            acc == saturate(digits_value(d@.take(i as int))),
            0 <= acc <= LIMIT,
        decreases len - i,
    {
        let c = d[i];
        assert(is_digit(d@[i as int]));
        let v: i128 = ((c as u32) - ('0' as u32)) as i128;
        proof {
            assert(d@.take(i + 1).drop_last() =~= d@.take(i as int));
            assert(d@.take(i + 1).last() == c);
            lemma_sat_step(digits_value(d@.take(i as int)), digit_value(c));
        }
        if acc > LIMIT / 10 {
            acc = LIMIT;
        } else {
            acc = acc * 10 + v;
            if acc > LIMIT {
                acc = LIMIT;
            }
        }
        i += 1;
    }
    acc
}

/// Saturated value of a run of exponent digits, held at `EXP_CAP`.
fn capped_exponent(t: &Vec<char>, from: usize) -> (r: u64)
    requires
        from <= t.len(),
        all_digits(t@.skip(from as int)),
    ensures
        r == (if digits_value(t@.skip(from as int)) > EXP_CAP {
            EXP_CAP as int
        } else {
            digits_value(t@.skip(from as int)) as int
        }),
{
    let mut acc: u64 = 0;
    let mut i = from;
    assert(t@.subrange(from as int, from as int) =~= Seq::<char>::empty());
    while i < t.len()
        invariant
            from <= i <= t.len(),
            all_digits(t@.skip(from as int)),
            acc == (if digits_value(t@.subrange(from as int, i as int)) > EXP_CAP {
                EXP_CAP as int
            } else {
                digits_value(t@.subrange(from as int, i as int)) as int
            }),
        decreases t.len() - i,
    {
        let c = t[i];
        assert(t@.skip(from as int)[i - from] == c);
        let v: u64 = ((c as u32) - ('0' as u32)) as u64;
        let ghost x = digits_value(t@.subrange(from as int, i as int));
        proof {
            assert(t@.subrange(from as int, i + 1).drop_last() =~= t@.subrange(from as int, i as int));
            assert(t@.subrange(from as int, i + 1).last() == c);
            if x > EXP_CAP {
                assert(x * 10 + digit_value(c) > EXP_CAP) by (nonlinear_arith)
                    requires
                        x > EXP_CAP,
                ;
            }
        }
        if acc >= EXP_CAP {
            acc = EXP_CAP;
        } else {
            acc = acc * 10 + v;
            if acc > EXP_CAP {
                acc = EXP_CAP;
            }
        }
        i += 1;
    }
    assert(t@.subrange(from as int, t.len() as int) =~= t@.skip(from as int));
    acc
}

/// Saturated `digits * 10^k`, rounded to the nearest, where `digits` is the
/// run of mantissa digits.
fn scale_digits(d: &Vec<char>, k: i64) -> (r: i128)
    requires
        all_digits(d@),
    ensures
        r == saturate(scaled(digits_value(d@), k as int)),
        0 <= r <= LIMIT,
{
    if k >= 0 {
        assert(d@.take(d.len() as int) =~= d@);
        let mut acc = sat_digits(d, d.len());
        assert(pow10(0) == 1);
        let steps: i64 = if k > 60 {
            60
        } else {
            k
        };
        let mut j: i64 = 0;
        let ghost m = digits_value(d@);
        proof {
            assert(m * pow10(0) == m);
            assert(acc == saturate(m * pow10(j as nat)));
        }
        while j < steps
            invariant
                0 <= j <= steps <= 60,
                acc == saturate(m * pow10(j as nat)),
                0 <= acc <= LIMIT,
            decreases steps - j,
        {
            proof {
                lemma_sat_step(m * pow10(j as nat), 0);
                assert(m * pow10((j + 1) as nat) == 10 * (m * pow10(j as nat))) by (nonlinear_arith)
                    requires
                        pow10((j + 1) as nat) == 10 * pow10(j as nat),
                ;
            }
            if acc > LIMIT / 10 {
                acc = LIMIT;
            } else {
                acc = acc * 10;
            }
            j += 1;
        }
        proof {
            if k > 60 {
                lemma_scaled_large(m, k as int);
                lemma_scaled_large(m, 60);
            }
        }
        acc
    } else {
        let drop = -(k as i128);
        if drop > d.len() as i128 {
            proof {
                lemma_digits_value_bound(d@);
                lemma_pow10_mono(d.len() as nat, ((-k) - 1) as nat);
                lemma_round_small(digits_value(d@), (-k) as nat);
            }
            0
        } else {
            let keep = (d.len() as i128 - drop) as usize;
            let base = sat_digits(d, keep);
            let up = d[keep] >= '5';
            proof {
                let j = (-k) as nat;
                let pre = d@.take(keep as int);
                let c = d@[keep as int];
                let tail = d@.skip(keep + 1);
                assert(d@ =~= pre.push(c) + tail);
                assert(pre.push(c).drop_last() =~= pre);
                lemma_digits_value_concat(pre.push(c), tail);
                assert(all_digits(tail)) by {
                    assert forall|i: int| 0 <= i < tail.len() implies is_digit(#[trigger] tail[i]) by {
                        assert(tail[i] == d@[keep + 1 + i]);
                    }
                }
                lemma_digits_value_bound(tail);
                assert(is_digit(c));
                let q = digits_value(pre);
                let cv = digit_value(c);
                let rest = digits_value(tail);
                let p = pow10((j - 1) as nat);
                assert(pow10(j) == 10 * p);
                assert((10 * q + cv) * p + rest == q * pow10(j) + cv * p + rest) by (nonlinear_arith)
                    requires
                        pow10(j) == 10 * p,
                ;
                lemma_round_split(q, cv, rest, j);
            }
            if up {
                if base < LIMIT {
                    base + 1
                } else {
                    LIMIT
                }
            } else {
                base
            }
        }
    }
}

/// The mantissa digits of `t[from..to]` with the `.` at `dot` removed.
fn mantissa_digits(t: &Vec<char>, from: usize, dot: usize, to: usize) -> (d: Vec<char>)
    requires
        from <= dot <= to <= t.len(),
    ensures
        d@ == t@.subrange(from as int, dot as int) + (if dot < to {
            t@.subrange(dot + 1, to as int)
        } else {
            Seq::<char>::empty()
        }),
{
    let mut d: Vec<char> = Vec::new();
    let mut i = from;
    while i < dot
        invariant
            from <= i <= dot <= to <= t.len(),
            d@ == t@.subrange(from as int, i as int),
        decreases dot - i,
    {
        d.push(t[i]);
        i += 1;
        assert(d@ =~= t@.subrange(from as int, i as int));
    }
    if dot < to {
        let ghost head = d@;
        let mut i = dot + 1;
        assert(t@.subrange(dot + 1, i as int) =~= Seq::<char>::empty());
        assert(d@ =~= head + t@.subrange(dot + 1, i as int));
        while i < to
            invariant
                dot + 1 <= i <= to <= t.len(),
                d@ == head + t@.subrange(dot + 1, i as int),
            decreases to - i,
        {
            d.push(t[i]);
            i += 1;
            assert(d@ =~= head + t@.subrange(dot + 1, i as int));
        }
    }
    d
}

proof fn lemma_exponent_cap(m: nat, n: nat, f: nat, e: int, ec: int)
    requires
        n <= MAX_TOKEN,
        f <= n,
        m < pow10(n),
        e == ec || (e > EXP_CAP && ec == EXP_CAP) || (e < -EXP_CAP && ec == -EXP_CAP),
    ensures
        saturate(scaled(m, e - f + 18)) == saturate(scaled(m, ec - f + 18)),
{
    if e != ec {
        if e > 0 {
            lemma_scaled_large(m, e - f + 18);
            lemma_scaled_large(m, ec - f + 18);
        } else {
            lemma_pow10_mono(n, (-(e - f + 18) - 1) as nat);
            lemma_pow10_mono(n, (-(ec - f + 18) - 1) as nat);
            lemma_round_small(m, (-(e - f + 18)) as nat);
            lemma_round_small(m, (-(ec - f + 18)) as nat);
        }
    }
}

/// Parses a number token as `f64::from_str` reads its syntax.
pub fn parse_number(t: &Vec<char>) -> (r: Option<Decimal>)
    requires
        t.len() <= MAX_TOKEN,
    ensures
        r.is_some() == number_value(t@).is_some(),
        r matches Some(d) ==> d.units == number_value(t@).unwrap() && d.wf(),
{
    let neg = t.len() > 0 && t[0] == '-';
    let s: usize = if t.len() > 0 && (t[0] == '+' || t[0] == '-') {
        1
    } else {
        0
    };
    let ghost b = t@.skip(s as int);
    if ci_eq_at(t, s, &['i', 'n', 'f']) || ci_eq_at(t, s, &['i', 'n', 'f', 'i', 'n', 'i', 't', 'y'])
        || ci_eq_at(t, s, &['n', 'a', 'n']) {
        let nan = ci_eq_at(t, s, &['n', 'a', 'n']);
        return Some(Decimal { units: if neg && !nan { -LIMIT } else { LIMIT } });
    }
    let mag = decimal_body(t, s);
    match mag {
        None => None,
        Some(mag) => Some(Decimal { units: if neg { -mag } else { mag } }),
    }
}

/// Magnitude of the decimal notation in `t[s..]`.
fn decimal_body(t: &Vec<char>, s: usize) -> (r: Option<i128>)
    requires
        t.len() <= MAX_TOKEN,
        s <= t.len(),
    ensures
        r.is_some() == decimal_valid(t@.skip(s as int)),
        r matches Some(m) ==> m == decimal_units(t@.skip(s as int)) && 0 <= m <= LIMIT,
{
    let ghost b = t@.skip(s as int);
    let ie = find_exp(t, s);
    let dot = find_dot(t, s, ie);
    proof {
        assert(mantissa(b) =~= t@.subrange(s as int, ie as int));
        assert(exponent_part(b) =~= t@.skip(ie as int));
        let m = mantissa(b);
        assert(int_digits(m) =~= t@.subrange(s as int, dot as int));
        if dot < ie {
            assert(frac_digits(m) =~= t@.subrange(dot + 1, ie as int));
        } else {
            assert(frac_digits(m) =~= Seq::<char>::empty());
        }
    }
    let frac_len: usize = if dot < ie {
        ie - dot - 1
    } else {
        0
    };
    if !digits_between(t, s, dot) {
        return None;
    }
    if dot < ie && !digits_between(t, dot + 1, ie) {
        return None;
    }
    if dot < ie {
    } else {
        assert(all_digits(Seq::<char>::empty()));
    }
    if (dot - s) + frac_len == 0 {
        return None;
    }
    // exponent
    let mut e: i64 = 0;
    if ie < t.len() {
        let es: usize = if ie + 1 < t.len() && (t[ie + 1] == '+' || t[ie + 1] == '-') {
            ie + 2
        } else {
            ie + 1
        };
        proof {
            let x = t@.skip(ie as int);
            assert(exp_digits(x) =~= t@.skip(es as int));
        }
        if es >= t.len() {
            return None;
        }
        if !digits_between(t, es, t.len()) {
            assert(t@.subrange(es as int, t.len() as int) =~= t@.skip(es as int));
            return None;
        }
        assert(t@.subrange(es as int, t.len() as int) =~= t@.skip(es as int));
        let v = capped_exponent(t, es);
        e = if t[ie + 1] == '-' {
            -(v as i64)
        } else {
            v as i64
        };
    }
    let d = mantissa_digits(t, s, dot, ie);
    assert(all_digits(d@)) by {
        let m = mantissa(b);
        assert(d@ == int_digits(m) + frac_digits(m));
        assert forall|i: int| 0 <= i < d@.len() implies is_digit(#[trigger] d@[i]) by {
            if i < int_digits(m).len() {
                assert(d@[i] == int_digits(m)[i]);
            } else {
                assert(d@[i] == frac_digits(m)[i - int_digits(m).len()]);
            }
        }
    }
    let k: i64 = e - frac_len as i64 + 18;
    let mag = scale_digits(&d, k);
    proof {
        let m = mantissa(b);
        let x = exponent_part(b);
        lemma_digits_value_bound(d@);
        lemma_exponent_cap(digits_value(d@), d@.len(), frac_len as nat, exp_value(x), e as int);
    }
    Some(mag)
}

// ---------------------------------------------------------------------------
// Decimal notation of a value
// ---------------------------------------------------------------------------
pub open spec fn digit_char(d: nat) -> char {
    if d == 0 {
        '0'
    } else if d == 1 {
        '1'
    } else if d == 2 {
        '2'
    } else if d == 3 {
        '3'
    } else if d == 4 {
        '4'
    } else if d == 5 {
        '5'
    } else if d == 6 {
        '6'
    } else if d == 7 {
        '7'
    } else if d == 8 {
        '8'
    } else {
        '9'
    }
}

/// Shortest decimal notation of a natural number.
pub open spec fn nat_text(n: nat) -> Seq<char>
    decreases n,
{
    if n < 10 {
        seq![digit_char(n)]
    } else {
        nat_text(n / 10).push(digit_char(n % 10))
    }
}

/// The last `w` decimal digits of `n`, zero-padded.
pub open spec fn fixed_text(n: nat, w: nat) -> Seq<char>
    decreases w,
{
    if w == 0 {
        Seq::empty()
    } else {
        fixed_text(n / 10, (w - 1) as nat).push(digit_char(n % 10))
    }
}

/// Drops trailing zeros.
pub open spec fn strip_zeros(s: Seq<char>) -> Seq<char>
    decreases s.len(),
{
    if s.len() > 0 && s.last() == '0' {
        strip_zeros(s.drop_last())
    } else {
        s
    }
}

pub open spec fn magnitude(u: int) -> nat {
    if u < 0 {
        (-u) as nat
    } else {
        u as nat
    }
}

/// Plain decimal notation of a value held in units: a `-` for negative
/// values, the whole part, and the fractional digits without trailing zeros
/// after a `.` when there are any. This is how `{}` prints an `f64` whose
/// shortest round-trip form has at most eighteen fractional digits.
pub open spec fn number_text(u: int) -> Seq<char> {
    let a = magnitude(u);
    let ip = a / (UNIT as nat);
    let fp = a % (UNIT as nat);
    (if u < 0 {
        seq!['-']
    } else {
        Seq::empty()
    }) + nat_text(ip) + (if fp == 0 {
        Seq::empty()
    } else {
        seq!['.'] + strip_zeros(fixed_text(fp, 18))
    })
}

pub proof fn lemma_digit_char(d: nat)
    requires
        d < 10,
    ensures
        is_digit(digit_char(d)),
        digit_value(digit_char(d)) == d,
{
}

pub proof fn lemma_nat_text(n: nat)
    ensures
        nat_text(n).len() >= 1,
        all_digits(nat_text(n)),
        digits_value(nat_text(n)) == n,
    decreases n,
{
    if n < 10 {
        lemma_digit_char(n);
        let s = nat_text(n);
        assert(s.drop_last() =~= Seq::<char>::empty());
        assert(digits_value(s) == digits_value(s.drop_last()) * 10 + digit_value(s.last()));
    } else {
        assert((n / 10) * 10 + n % 10 == n);
        lemma_digit_char(n % 10);
        lemma_nat_text(n / 10);
        let s = nat_text(n);
        assert(s.drop_last() =~= nat_text(n / 10));
        assert forall|i: int| 0 <= i < s.len() implies is_digit(#[trigger] s[i]) by {
            if i < s.len() - 1 {
                assert(s[i] == nat_text(n / 10)[i]);
            }
        }
    }
}

pub proof fn lemma_fixed_text(n: nat, w: nat)
    requires
        n < pow10(w),
    ensures
        fixed_text(n, w).len() == w,
        all_digits(fixed_text(n, w)),
        digits_value(fixed_text(n, w)) == n,
    decreases w,
{
    if w > 0 {
        let w1 = (w - 1) as nat;
        assert(n / 10 < pow10(w1)) by (nonlinear_arith)
            requires
                n < pow10(w),
                pow10(w) == 10 * pow10(w1),
        ;
        lemma_fixed_text(n / 10, w1);
        let s = fixed_text(n, w);
        assert(s.drop_last() =~= fixed_text(n / 10, w1));
        assert forall|i: int| 0 <= i < s.len() implies is_digit(#[trigger] s[i]) by {
            if i < s.len() - 1 {
                assert(s[i] == fixed_text(n / 10, w1)[i]);
            }
        }
    } else {
        assert(n == 0);
    }
}

pub proof fn lemma_strip_zeros(s: Seq<char>)
    requires
        all_digits(s),
    ensures
        strip_zeros(s).len() <= s.len(),
        strip_zeros(s) =~= s.take(strip_zeros(s).len() as int),
        digits_value(s) == digits_value(strip_zeros(s)) * pow10((s.len() - strip_zeros(s).len()) as nat),
        digits_value(s) != 0 ==> strip_zeros(s).len() > 0,
    decreases s.len(),
{
    if s.len() > 0 && s.last() == '0' {
        let p = s.drop_last();
        assert(all_digits(p)) by {
            assert forall|i: int| 0 <= i < p.len() implies is_digit(#[trigger] p[i]) by {
                assert(p[i] == s[i]);
            }
        }
        lemma_strip_zeros(p);
        let r = strip_zeros(p);
        assert(strip_zeros(s) == r);
        let j = (p.len() - r.len()) as nat;
        assert((s.len() - r.len()) as nat == j + 1);
        assert(pow10(j + 1) == 10 * pow10(j));
        assert(digits_value(s) == digits_value(p) * 10);
        assert(digits_value(p) * 10 == digits_value(r) * (10 * pow10(j))) by (nonlinear_arith)
            requires
                digits_value(p) == digits_value(r) * pow10(j),
        ;
        assert(digits_value(s) == digits_value(r) * pow10(j + 1));
        assert(r =~= s.take(r.len() as int)) by {
            assert forall|i: int| 0 <= i < r.len() implies r[i] == s[i] by {
                assert(r[i] == p.take(r.len() as int)[i]);
            }
        }
    } else {
        assert(strip_zeros(s) == s);
        assert(s.take(s.len() as int) =~= s);
        assert(pow10(0) == 1);
        assert(digits_value(s) * 1 == digits_value(s));
    }
}

proof fn lemma_value_split(a: nat, ip: nat, fp: nat, df: nat, pl: nat, pr: nat)
    requires
        ip == a / (UNIT as nat),
        fp == a % (UNIT as nat),
        df * pr == fp,
        pl * pr == UNIT,
    ensures
        (ip * pl + df) * pr == a,
{
    assert((ip * pl + df) * pr == ip * (pl * pr) + df * pr) by (nonlinear_arith);
    assert(ip * (UNIT as nat) + fp == a) by (nonlinear_arith)
        requires
            ip == a / (UNIT as nat),
            fp == a % (UNIT as nat),
            UNIT > 0,
    ;
}

proof fn lemma_exp_index_none(b: Seq<char>)
    requires
        forall|j: int| 0 <= j < b.len() ==> !is_exp_mark(#[trigger] b[j]),
    ensures
        exp_index(b) == b.len(),
{
    lemma_exp_index_skip(b, b.len() as int);
}

/// Printing a value and reading it back gives the same value.
/// Shape of plain decimal notation: whole digits, then `.` and fraction
/// digits when there are any.
proof fn lemma_plain_body(it: Seq<char>, f: Seq<char>, b: Seq<char>)
    requires
        it.len() >= 1,
        all_digits(it),
        all_digits(f),
        b == it + (if f.len() == 0 {
            Seq::<char>::empty()
        } else {
            seq!['.'] + f
        }),
    ensures
        !is_special_word(b),
        decimal_valid(b),
        decimal_units(b) == saturate(scaled(digits_value(it + f), 18 - f.len())),
{
    assert(b[0] == it[0]);
    assert(is_digit(b[0]));
    assert(!is_special_word(b)) by {
        assert(lower(b[0]) == b[0]);
    }
    let rest: Seq<char> = if f.len() == 0 {
        Seq::<char>::empty()
    } else {
        seq!['.'] + f
    };
    assert forall|j: int| 0 <= j < b.len() implies !is_exp_mark(#[trigger] b[j]) by {
        if j < it.len() {
            assert(b[j] == it[j]);
            assert(is_digit(it[j]));
        } else if j > it.len() {
            assert(b[j] == f[j - it.len() - 1]);
            assert(is_digit(f[j - it.len() - 1]));
        }
    }
    lemma_exp_index_none(b);
    assert(mantissa(b) =~= b);
    assert(exponent_part(b) =~= Seq::<char>::empty());
    assert forall|j: int| 0 <= j < it.len() implies #[trigger] b[j] != '.' by {
        assert(b[j] == it[j]);
        assert(is_digit(it[j]));
    }
    lemma_dot_index_skip(b, it.len() as int);
    assert(b.skip(it.len() as int) =~= rest);
    if f.len() == 0 {
        assert(dot_index(b) == b.len());
        assert(int_digits(b) =~= it);
        assert(frac_digits(b) =~= Seq::<char>::empty());
        assert(f =~= Seq::<char>::empty());
    } else {
        assert(dot_index(rest) == 0);
        assert(int_digits(b) =~= it);
        assert(frac_digits(b) =~= f);
    }
    assert(int_digits(b) + frac_digits(b) =~= it + f);
}

/// The fraction digits of `number_text` scaled back give the fraction.
pub proof fn lemma_fraction_text(fp: nat) -> (f: Seq<char>)
    requires
        0 < fp < UNIT,
    ensures
        f == strip_zeros(fixed_text(fp, 18)),
        f.len() >= 1,
        f.len() <= 18,
        all_digits(f),
        digits_value(f) * pow10((18 - f.len()) as nat) == fp,
{
    lemma_pow10_38();
    lemma_fixed_text(fp, 18);
    lemma_strip_zeros(fixed_text(fp, 18));
    let f = strip_zeros(fixed_text(fp, 18));
    assert forall|i: int| 0 <= i < f.len() implies is_digit(#[trigger] f[i]) by {
        assert(f[i] == fixed_text(fp, 18)[i]);
    }
    f
}

/// Printing a value and reading it back gives the same value.
pub proof fn lemma_number_text_roundtrip(u: int)
    requires
        -LIMIT <= u <= LIMIT,
    ensures
        number_value(number_text(u)) == Some(u),
{
    let a = magnitude(u);
    let ip = a / (UNIT as nat);
    let fp = a % (UNIT as nat);
    let t = number_text(u);
    let sign: Seq<char> = if u < 0 {
        seq!['-']
    } else {
        Seq::empty()
    };
    let it = nat_text(ip);
    lemma_nat_text(ip);
    lemma_pow10_38();
    let f: Seq<char> = if fp == 0 {
        Seq::empty()
    } else {
        lemma_fraction_text(fp)
    };
    let rest: Seq<char> = if f.len() == 0 {
        Seq::<char>::empty()
    } else {
        seq!['.'] + f
    };
    assert(t =~= sign + it + rest);
    let b = it + rest;
    assert(t.skip(sign_len(t)) =~= b);
    assert(is_negative(t) == (u < 0));
    lemma_plain_body(it, f, b);
    lemma_digits_value_concat(it, f);
    let lf = f.len();
    let r = (18 - lf) as nat;
    lemma_pow10_add(lf, r);
    if fp == 0 {
        assert(digits_value(f) == 0);
        assert(digits_value(f) * pow10(r) == fp);
    } else {
        let g = lemma_fraction_text(fp);
        assert(g == f);
        assert(digits_value(f) * pow10(r) == fp);
    }
    lemma_value_split(a, ip, fp, digits_value(f), pow10(lf), pow10(r));
    assert(scaled(ip * pow10(lf) + digits_value(f), 18 - lf) == a);
}

pub fn push_digit(out: &mut Vec<char>, d: u128)
    requires
        d < 10,
    ensures
        final(out)@ == old(out)@.push(digit_char(d as nat)),
{
    let c: char = if d == 0 {
        '0'
    } else if d == 1 {
        '1'
    } else if d == 2 {
        '2'
    } else if d == 3 {
        '3'
    } else if d == 4 {
        '4'
    } else if d == 5 {
        '5'
    } else if d == 6 {
        '6'
    } else if d == 7 {
        '7'
    } else if d == 8 {
        '8'
    } else {
        '9'
    };
    out.push(c);
}

pub fn push_nat_text(out: &mut Vec<char>, n: u128)
    ensures
        final(out)@ == old(out)@ + nat_text(n as nat),
    decreases n,
{
    if n < 10 {
        push_digit(out, n);
        assert(nat_text(n as nat) =~= seq![digit_char(n as nat)]);
    } else {
        push_nat_text(out, n / 10);
        push_digit(out, n % 10);
        assert(nat_text(n as nat) =~= nat_text((n / 10) as nat).push(digit_char((n % 10) as nat)));
    }
}

fn push_fixed_text(out: &mut Vec<char>, n: u128, w: u32)
    ensures
        final(out)@ == old(out)@ + fixed_text(n as nat, w as nat),
    decreases w,
{
    if w == 0 {
    } else {
        push_fixed_text(out, n / 10, w - 1);
        push_digit(out, n % 10);
        assert(fixed_text(n as nat, w as nat) =~= fixed_text((n / 10) as nat, (w - 1) as nat).push(
            digit_char((n % 10) as nat),
        ));
    }
}

proof fn lemma_strip_zeros_suffix(pre: Seq<char>, s: Seq<char>)
    ensures
        pre + strip_zeros(s) == strip_zeros_after(pre, s),
    decreases s.len(),
{
    if s.len() > 0 && s.last() == '0' {
        lemma_strip_zeros_suffix(pre, s.drop_last());
    }
}

spec fn strip_zeros_after(pre: Seq<char>, s: Seq<char>) -> Seq<char>
    decreases s.len(),
{
    if s.len() > 0 && s.last() == '0' {
        strip_zeros_after(pre, s.drop_last())
    } else {
        pre + s
    }
}

/// Prints a value in the notation of `number_text`.
pub fn format_number(d: Decimal) -> (r: Vec<char>)
    requires
        d.wf(),
    ensures
        r@ == number_text(d.units as int),
{
    let mut out: Vec<char> = Vec::new();
    let a: u128 = if d.units < 0 {
        out.push('-');
        (-d.units) as u128
    } else {
        d.units as u128
    };
    let ip = a / (UNIT as u128);
    let fp = a % (UNIT as u128);
    push_nat_text(&mut out, ip);
    if fp != 0 {
        out.push('.');
        let ghost pre = out@;
        push_fixed_text(&mut out, fp, 18);
        let ghost full = fixed_text(fp as nat, 18);
        assert(out@ =~= pre + full);
        proof {
            lemma_pow10_38();
            lemma_fixed_text(fp as nat, 18);
        }
        // drop trailing zeros
        let ghost mut rem = full;
        while out.len() > 0 && out[out.len() - 1] == '0'
            invariant
                out@ == pre + rem,
                strip_zeros_after(pre, rem) == strip_zeros_after(pre, full),
                all_digits(rem),
                rem.len() <= 18,
                fp != 0,
                digits_value(rem) != 0,
            decreases out.len(),
        {
            proof {
                if rem.len() == 0 {
                    assert(false);
                }
                assert(rem.last() == '0');
                let p = rem.drop_last();
                assert(digits_value(rem) == digits_value(p) * 10);
                assert forall|i: int| 0 <= i < p.len() implies is_digit(#[trigger] p[i]) by {
                    assert(p[i] == rem[i]);
                }
                rem = p;
            }
            out.pop();
            assert(out@ =~= pre + rem);
        }
        proof {
            lemma_fixed_text(fp as nat, 18);
            lemma_strip_zeros_suffix(pre, full);
            if rem.len() > 0 {
                assert(rem.last() == out@.last());
            }
        }
    }
    proof {
        lemma_pow10_38();
    }
    out
}


pub open spec fn number_char(c: char) -> bool {
    is_digit(c) || c == '-' || c == '.'
}

/// Printed values consist of digits, `-` and `.`, and end with a digit.
pub proof fn lemma_number_text_chars(u: int)
    requires
        -LIMIT <= u <= LIMIT,
    ensures
        number_text(u).len() > 0,
        forall|i: int| 0 <= i < number_text(u).len() ==> number_char(#[trigger] number_text(u)[i]),
        is_digit(number_text(u).last()),
{
    let a = magnitude(u);
    let ip = a / (UNIT as nat);
    let fp = a % (UNIT as nat);
    let sign: Seq<char> = if u < 0 {
        seq!['-']
    } else {
        Seq::empty()
    };
    let it = nat_text(ip);
    lemma_nat_text(ip);
    lemma_pow10_38();
    let t = number_text(u);
    if fp == 0 {
        assert(t =~= sign + it);
        assert forall|i: int| 0 <= i < t.len() implies number_char(#[trigger] t[i]) by {
            if i >= sign.len() {
                assert(t[i] == it[i - sign.len()]);
                assert(is_digit(it[i - sign.len()]));
            }
        }
        assert(t.last() == it.last());
        assert(is_digit(it[it.len() - 1]));
    } else {
        let f = lemma_fraction_text(fp);
        let rest = seq!['.'] + f;
        assert(t =~= sign + it + rest);
        assert forall|i: int| 0 <= i < t.len() implies number_char(#[trigger] t[i]) by {
            if i >= sign.len() && i < sign.len() + it.len() {
                assert(t[i] == it[i - sign.len()]);
                assert(is_digit(it[i - sign.len()]));
            } else if i > sign.len() + it.len() {
                assert(t[i] == f[i - sign.len() - it.len() - 1]);
                assert(is_digit(f[i - sign.len() - it.len() - 1]));
            }
        }
        assert(t.last() == f.last());
        assert(is_digit(f[f.len() - 1]));
    }
}

} // verus!
