//! The numeric forms a raw file writes its values in.
//!
//! A field counts as a number when it has the form the standard library's floating-point
//! reader accepts: an optional sign, then `inf`, `infinity` or `nan` in any case, or decimal
//! digits with an optional point and an optional exponent. Integer fields are read leniently:
//! any such number is accepted and its integer part taken, saturating at the bounds of `i32`
//! and reading `nan` as zero.

use vstd::prelude::*;

verus! {

pub open spec fn is_digit(c: char) -> bool {
    '0' <= c && c <= '9'
}

pub open spec fn digit_val(c: char) -> nat {
    (c as u32 - '0' as u32) as nat
}

/// The value of a string of decimal digits, most significant first.
pub open spec fn digits_value(s: Seq<char>) -> nat
    decreases s.len(),
{
    if s.len() == 0 {
        0
    } else {
        digits_value(s.drop_last()) * 10 + digit_val(s.last())
    }
}

/// How many decimal digits `s` opens with.
pub open spec fn digit_run(s: Seq<char>) -> nat
    decreases s.len(),
{
    if s.len() > 0 && is_digit(s[0]) {
        1 + digit_run(s.drop_first())
    } else {
        0
    }
}

pub open spec fn pow10(n: nat) -> nat
    decreases n,
{
    if n == 0 {
        1
    } else {
        10 * pow10((n - 1) as nat)
    }
}

pub open spec fn lower_ascii(c: char) -> char {
    if 'A' <= c && c <= 'Z' {
        ((c as u32) + 32) as char
    } else {
        c
    }
}

/// `s` spells the lower-case word `word`, ignoring ASCII case.
pub open spec fn spells(s: Seq<char>, word: Seq<char>) -> bool {
    &&& s.len() == word.len()
    &&& forall|i: int| 0 <= i < s.len() ==> lower_ascii(#[trigger] s[i]) == word[i]
}

/// An optional leading sign: whether it is a minus, and what follows it.
pub open spec fn sign_split(t: Seq<char>) -> (bool, Seq<char>) {
    if t.len() > 0 && (t[0] == '+' || t[0] == '-') {
        (t[0] == '-', t.drop_first())
    } else {
        (false, t)
    }
}

/// What may follow the digits of a number: nothing, or an exponent `e`/`E`, an optional sign
/// and at least one digit.
pub open spec fn exponent_form(s: Seq<char>) -> Option<int> {
    if s.len() == 0 {
        Some(0)
    } else if s[0] == 'e' || s[0] == 'E' {
        let (neg, d) = sign_split(s.drop_first());
        if d.len() > 0 && digit_run(d) == d.len() {
            Some(
                if neg {
                    -digits_value(d)
                } else {
                    digits_value(d) as int
                },
            )
        } else {
            None
        }
    } else {
        None
    }
}

/// A number as written: its sign, its digits with the point removed, how many of them stand
/// before the point, and the exponent.
pub enum Numeral {
    Finite { negative: bool, digits: Seq<char>, int_len: nat, exp: int },
    Infinite { negative: bool },
    NotANumber,
}

pub open spec fn word_inf() -> Seq<char> {
    seq!['i', 'n', 'f']
}

pub open spec fn word_infinity() -> Seq<char> {
    seq!['i', 'n', 'f', 'i', 'n', 'i', 't', 'y']
}

pub open spec fn word_nan() -> Seq<char> {
    seq!['n', 'a', 'n']
}

/// The digits after the point, if `after` (what follows the integer digits) opens with one.
pub open spec fn frac_digits(after: Seq<char>) -> Seq<char> {
    if after.len() > 0 && after[0] == '.' {
        after.drop_first().take(digit_run(after.drop_first()) as int)
    } else {
        Seq::empty()
    }
}

/// What follows the fraction digits.
pub open spec fn after_fraction(after: Seq<char>) -> Seq<char> {
    if after.len() > 0 && after[0] == '.' {
        after.drop_first().skip(digit_run(after.drop_first()) as int)
    } else {
        after
    }
}

/// How the unsigned part `r` of a text reads as a finite number, if it does.
pub open spec fn finite_form(negative: bool, r: Seq<char>) -> Option<Numeral> {
    let a = digit_run(r);
    let after = r.skip(a as int);
    let frac = frac_digits(after);
    if a + frac.len() == 0 {
        None
    } else {
        match exponent_form(after_fraction(after)) {
            Some(e) => Some(
                Numeral::Finite { negative, digits: r.take(a as int) + frac, int_len: a, exp: e },
            ),
            None => None,
        }
    }
}

/// How `t` reads as a number, if it is one.
pub open spec fn numeral(t: Seq<char>) -> Option<Numeral> {
    let (neg, r) = sign_split(t);
    if spells(r, word_inf()) || spells(r, word_infinity()) {
        Some(Numeral::Infinite { negative: neg })
    } else if spells(r, word_nan()) {
        Some(Numeral::NotANumber)
    } else {
        finite_form(neg, r)
    }
}

/// Whether `t` is a number.
pub open spec fn is_number(t: Seq<char>) -> bool {
    numeral(t) is Some
}

/// The first `k` digits of `d` read as an integer, with zeros appended past its end: the integer
/// part of a number whose point stands after its `k`-th digit.
pub open spec fn leading_value(d: Seq<char>, k: int) -> nat {
    if k <= 0 {
        0
    } else if k <= d.len() {
        digits_value(d.take(k))
    } else {
        digits_value(d) * pow10((k - d.len()) as nat)
    }
}

pub open spec fn clamp_i32(v: int) -> i32 {
    if v < i32::MIN {
        i32::MIN
    } else if v > i32::MAX {
        i32::MAX
    } else {
        v as i32
    }
}

/// The integer a field holds: the integer part of the number it writes, saturating at the
/// bounds of `i32`, with `nan` read as zero.
pub open spec fn lenient_int(t: Seq<char>) -> Option<i32> {
    match numeral(t) {
        None => None,
        Some(Numeral::NotANumber) => Some(0),
        Some(Numeral::Infinite { negative }) => Some(
            if negative {
                i32::MIN
            } else {
                i32::MAX
            },
        ),
        Some(Numeral::Finite { negative, digits, int_len, exp }) => {
            let mag = leading_value(digits, int_len + exp);
            Some(clamp_i32(if negative { -mag } else { mag as int }))
        },
    }
}


proof fn lemma_digit_run_step(s: Seq<char>, i: int)
    requires
        0 <= i < s.len(),
        is_digit(s[i]),
    ensures
        digit_run(s.skip(i)) == 1 + digit_run(s.skip(i + 1)),
{
    assert(s.skip(i).drop_first() =~= s.skip(i + 1));
}

proof fn lemma_digit_run_all(s: Seq<char>)
    requires
        forall|k: int| 0 <= k < s.len() ==> is_digit(#[trigger] s[k]),
    ensures
        digit_run(s) == s.len(),
    decreases s.len(),
{
    if s.len() > 0 {
        lemma_digit_run_all(s.drop_first());
    }
}

proof fn lemma_digit_run_bounds(s: Seq<char>)
    ensures
        digit_run(s) <= s.len(),
        forall|k: int| 0 <= k < digit_run(s) ==> is_digit(#[trigger] s[k]),
        digit_run(s) < s.len() ==> !is_digit(s[digit_run(s) as int]),
    decreases s.len(),
{
    if s.len() > 0 && is_digit(s[0]) {
        lemma_digit_run_bounds(s.drop_first());
        assert forall|k: int| 0 <= k < digit_run(s) implies is_digit(#[trigger] s[k]) by {
            if k > 0 {
                assert(s[k] == s.drop_first()[k - 1]);
            }
        }
    }
}

/// The end of the run of digits that starts at `i`.
fn digit_run_at(t: &[char], i: usize) -> (j: usize)
    requires
        i <= t@.len(),
    ensures
        i <= j <= t@.len(),
        j - i == digit_run(t@.skip(i as int)),
        forall|k: int| i <= k < j ==> is_digit(#[trigger] t@[k]),
{
    let mut j = i;
    while j < t.len() && '0' <= t[j] && t[j] <= '9'
        invariant
            i <= j <= t@.len(),
            digit_run(t@.skip(i as int)) == (j - i) + digit_run(t@.skip(j as int)),
        decreases t@.len() - j,
    {
        proof {
            lemma_digit_run_step(t@, j as int);
        }
        j = j + 1;
    }
    proof {
        if j < t@.len() {
            assert(t@.skip(j as int)[0] == t@[j as int]);
        } else {
            assert(t@.skip(j as int).len() == 0);
        }
        lemma_digit_run_bounds(t@.skip(i as int));
        assert forall|k: int| i <= k < j implies is_digit(#[trigger] t@[k]) by {
            assert(t@[k] == t@.skip(i as int)[k - i]);
        }
    }
    j
}

/// Whether `t[i..]` spells `word` (which is lower case), ignoring ASCII case.
fn spells_at(t: &[char], i: usize, word: &[char]) -> (r: bool)
    requires
        i <= t@.len(),
    ensures
        r == spells(t@.skip(i as int), word@),
{
    if t.len() - i != word.len() {
        return false;
    }
    let mut m: usize = i;
    while m < t.len()
        invariant
            i <= m <= t@.len(),
            t@.len() - i == word@.len(),
            forall|n: int| 0 <= n < m - i ==> lower_ascii(#[trigger] t@.skip(i as int)[n]) == word@[n],
        decreases t@.len() - m,
    {
        let c = t[m];
        let lc = if 'A' <= c && c <= 'Z' {
            ((c as u32) + 32) as u8 as char
        } else {
            c
        };
        proof {
            assert(t@.skip(i as int)[m - i] == c);
            if 'A' <= c && c <= 'Z' {
                assert(((c as u32) + 32) as u8 as char == ((c as u32) + 32) as char);
            }
        }
        if lc != word[m - i] {
            return false;
        }
        m = m + 1;
    }
    true
}

pub const EXP_CAP: u128 = 100_000_000_000_000_000_000;

pub const INT_CAP: u64 = 2_147_483_648;

proof fn lemma_digits_value_push(s: Seq<char>, c: char)
    ensures
        digits_value(s.push(c)) == digits_value(s) * 10 + digit_val(c),
{
    assert(s.push(c).drop_last() =~= s);
}

/// The value of the digits `t[i..j]`, capped at `cap`.
fn value_capped(t: &[char], i: usize, j: usize, cap: u128) -> (v: u128)
    requires
        i <= j <= t@.len(),
        forall|k: int| i <= k < j ==> is_digit(#[trigger] t@[k]),
        1 <= cap <= EXP_CAP,
    ensures
        v == if digits_value(t@.subrange(i as int, j as int)) < cap {
            digits_value(t@.subrange(i as int, j as int))
        } else {
            cap as nat
        },
{
    let mut v: u128 = 0;
    let mut k = i;
    proof {
        assert(t@.subrange(i as int, i as int) =~= Seq::<char>::empty());
    }
    while k < j
        invariant
            i <= k <= j <= t@.len(),
            forall|m: int| i <= m < j ==> is_digit(#[trigger] t@[m]),
            1 <= cap <= EXP_CAP,
            v == if digits_value(t@.subrange(i as int, k as int)) < cap {
                digits_value(t@.subrange(i as int, k as int))
            } else {
                cap as nat
            },
        decreases j - k,
    {
        let d = (t[k] as u32 - '0' as u32) as u128;
        proof {
            assert(is_digit(t@[k as int]));
            assert(t@.subrange(i as int, k + 1) =~= t@.subrange(i as int, k as int).push(t@[k as int]));
            lemma_digits_value_push(t@.subrange(i as int, k as int), t@[k as int]);
        }
        let w = v * 10 + d;
        v = if w < cap { w } else { cap };
        k = k + 1;
    }
    v
}


/// `capped` is the size of the exponent `exp`, capped at `EXP_CAP`, and `negative` its sign.
pub open spec fn exp_matches(negative: bool, capped: u128, exp: int) -> bool {
    if negative {
        exp <= 0 && capped == (if -exp < EXP_CAP {
            -exp
        } else {
            EXP_CAP as int
        })
    } else {
        exp >= 0 && capped == (if exp < EXP_CAP {
            exp
        } else {
            EXP_CAP as int
        })
    }
}

/// Reads what follows the digits of a number, starting at `p`: the exponent's sign and capped
/// size, or `None` when it is not a well-formed exponent.
fn scan_exponent(t: &[char], p: usize) -> (r: Option<(bool, u128)>)
    requires
        p <= t@.len(),
    ensures
        r is None <==> exponent_form(t@.skip(p as int)) is None,
        r matches Some((neg, capped)) ==> exponent_form(t@.skip(p as int)) matches Some(e)
            && exp_matches(neg, capped, e),
{
    let ghost rest = t@.skip(p as int);
    if p == t.len() {
        proof {
            assert(rest.len() == 0);
        }
        return Some((false, 0));
    }
    proof {
        assert(rest[0] == t@[p as int]);
    }
    if t[p] != 'e' && t[p] != 'E' {
        return None;
    }
    let mut exp_negative = false;
    let mut q = p + 1;
    if q < t.len() && (t[q] == '+' || t[q] == '-') {
        exp_negative = t[q] == '-';
        q = q + 1;
    }
    proof {
        let e = rest.drop_first();
        assert(e =~= t@.skip(p + 1));
        if q == p + 2 {
            assert(e[0] == t@[p + 1]);
            assert(e.drop_first() =~= t@.skip(q as int));
        } else {
            if e.len() > 0 {
                assert(e[0] == t@[p + 1]);
            }
        }
        assert(sign_split(e) == (exp_negative, t@.skip(q as int)));
    }
    let d_end = digit_run_at(t, q);
    if d_end == q || d_end != t.len() {
        return None;
    }
    proof {
        lemma_digit_run_bounds(t@.skip(q as int));
        assert forall|k: int| q <= k < d_end implies is_digit(#[trigger] t@[k]) by {
            assert(t@[k] == t@.skip(q as int)[k - q]);
        }
        assert(t@.skip(q as int) =~= t@.subrange(q as int, d_end as int));
    }
    let capped = value_capped(t, q, d_end, EXP_CAP);
    Some((exp_negative, capped))
}

/// Where the parts of a number stand in its text.
#[derive(Clone, Copy, Debug)]
pub enum NumberScan {
    Finite {
        negative: bool,
        int_start: usize,
        int_end: usize,
        frac_start: usize,
        frac_end: usize,
        exp_negative: bool,
        exp_capped: u128,
    },
    Infinite { negative: bool },
    NotANumber,
}

/// `scan` locates the parts of the finite number `t[start..]` writes.
pub open spec fn finite_locates(t: Seq<char>, start: int, scan: NumberScan) -> bool {
    match scan {
        NumberScan::Finite {
            negative,
            int_start,
            int_end,
            frac_start,
            frac_end,
            exp_negative,
            exp_capped,
        } => {
            &&& int_start <= int_end <= frac_start <= frac_end <= t.len()
            &&& forall|i: int| int_start <= i < int_end ==> is_digit(#[trigger] t[i])
            &&& forall|i: int| frac_start <= i < frac_end ==> is_digit(#[trigger] t[i])
            &&& finite_form(negative, t.skip(start)) matches Some(Numeral::Finite { negative: n, digits, int_len, exp }) && {
                &&& n == negative
                &&& digits == t.subrange(int_start as int, int_end as int) + t.subrange(
                    frac_start as int,
                    frac_end as int,
                )
                &&& int_len == int_end - int_start
                &&& exp_matches(exp_negative, exp_capped, exp)
            }
        },
        _ => false,
    }
}

/// `scan` locates the parts of `numeral(t)` in `t`, its exponent's size capped at `EXP_CAP`.
pub open spec fn scan_locates(t: Seq<char>, scan: NumberScan) -> bool {
    match scan {
        NumberScan::Infinite { negative } => numeral(t) == Some(Numeral::Infinite { negative }),
        NumberScan::NotANumber => numeral(t) == Some(Numeral::NotANumber),
        NumberScan::Finite {
            negative,
            int_start,
            int_end,
            frac_start,
            frac_end,
            exp_negative,
            exp_capped,
        } => {
            &&& int_start <= int_end <= frac_start <= frac_end <= t.len()
            &&& forall|i: int| int_start <= i < int_end ==> is_digit(#[trigger] t[i])
            &&& forall|i: int| frac_start <= i < frac_end ==> is_digit(#[trigger] t[i])
            &&& numeral(t) matches Some(Numeral::Finite { negative: n, digits, int_len, exp }) && {
                &&& n == negative
                &&& digits == t.subrange(int_start as int, int_end as int) + t.subrange(
                    frac_start as int,
                    frac_end as int,
                )
                &&& int_len == int_end - int_start
                &&& exp_matches(exp_negative, exp_capped, exp)
            }
        },
    }
}

/// Locates the parts of the number `t` writes, or `None` when it writes none.
pub fn scan_number(t: &[char]) -> (r: Option<NumberScan>)
    ensures
        r is None <==> numeral(t@) is None,
        r matches Some(scan) ==> scan_locates(t@, scan),
{
    let negative = t.len() > 0 && t[0] == '-';
    let start: usize = if t.len() > 0 && (t[0] == '+' || t[0] == '-') {
        1
    } else {
        0
    };
    let ghost r = t@.skip(start as int);
    proof {
        if start == 1 {
            assert(t@.drop_first() =~= r);
        } else {
            assert(t@.skip(0) =~= t@);
        }
        assert(sign_split(t@) == (negative, r));
    }
    let inf = ['i', 'n', 'f'];
    let infinity = ['i', 'n', 'f', 'i', 'n', 'i', 't', 'y'];
    let nan = ['n', 'a', 'n'];
    proof {
        assert(inf@ =~= word_inf());
        assert(infinity@ =~= word_infinity());
        assert(nan@ =~= word_nan());
    }
    if spells_at(t, start, inf.as_slice()) || spells_at(t, start, infinity.as_slice()) {
        return Some(NumberScan::Infinite { negative });
    }
    if spells_at(t, start, nan.as_slice()) {
        return Some(NumberScan::NotANumber);
    }
    proof {
        assert(numeral(t@) == finite_form(negative, r));
    }
    let res = scan_finite(t, start, negative);
    proof {
        if let Some(scan) = res {
            assert(finite_locates(t@, start as int, scan));
            if let NumberScan::Finite { negative: n0, .. } = scan {
                assert(n0 == negative);
            }
        }
    }
    res
}

/// Locates a finite number in `t[start..]`.
fn scan_finite(t: &[char], start: usize, negative: bool) -> (r: Option<NumberScan>)
    requires
        start <= t@.len(),
    ensures
        r is None <==> finite_form(negative, t@.skip(start as int)) is None,
        r matches Some(scan) ==> scan is Finite && finite_locates(t@, start as int, scan),
        r matches Some(NumberScan::Finite { negative: n, .. }) ==> n == negative,
{
    let ghost r = t@.skip(start as int);
    let int_end = digit_run_at(t, start);
    let ghost after = r.skip((int_end - start) as int);
    proof {
        assert(after =~= t@.skip(int_end as int));
        assert(r.take((int_end - start) as int) =~= t@.subrange(start as int, int_end as int));
    }
    let mut frac_start = int_end;
    let mut frac_end = int_end;
    if int_end < t.len() && t[int_end] == '.' {
        frac_start = int_end + 1;
        frac_end = digit_run_at(t, frac_start);
        proof {
            assert(after.drop_first() =~= t@.skip(frac_start as int));
            assert(frac_digits(after) =~= t@.subrange(frac_start as int, frac_end as int));
            assert(after_fraction(after) =~= t@.skip(frac_end as int));
        }
    } else {
        proof {
            assert(frac_digits(after) =~= t@.subrange(frac_start as int, frac_end as int));
            assert(after_fraction(after) =~= t@.skip(frac_end as int));
        }
    }
    if int_end == start && frac_end == frac_start {
        return None;
    }
    let (exp_negative, exp_capped) = match scan_exponent(t, frac_end) {
        Some(e) => e,
        None => {
            return None;
        },
    };
    Some(
        NumberScan::Finite {
            negative,
            int_start: start,
            int_end,
            frac_start,
            frac_end,
            exp_negative,
            exp_capped,
        },
    )
}

/// Whether `t` is a number.
pub fn is_number_chars(t: &[char]) -> (r: bool)
    ensures
        r == is_number(t@),
{
    scan_number(t).is_some()
}


proof fn lemma_leading_value_step(d: Seq<char>, j: int)
    requires
        0 <= j,
    ensures
        leading_value(d, j + 1) == leading_value(d, j) * 10 + (if j < d.len() {
            digit_val(d[j])
        } else {
            0
        }),
{
    if j < d.len() {
        let t1 = d.take(j + 1);
        assert(t1.drop_last() =~= d.take(j));
        assert(t1.last() == d[j]);
        assert(digits_value(t1) == digits_value(d.take(j)) * 10 + digit_val(d[j]));
        if j == 0 {
            assert(d.take(0) =~= Seq::<char>::empty());
            assert(digits_value(d.take(0)) == 0);
        }
        assert(leading_value(d, j + 1) == digits_value(t1));
    } else {
        let n = (j - d.len()) as nat;
        let p = pow10(n);
        assert(pow10(n + 1) == 10 * p);
        assert((j + 1 - d.len()) as nat == n + 1);
        assert(leading_value(d, j + 1) == digits_value(d) * pow10(n + 1));
        if j == d.len() {
            assert(p == 1);
            if j > 0 {
                assert(d.take(j) =~= d);
                assert(leading_value(d, j) == digits_value(d));
            } else {
                assert(d =~= Seq::<char>::empty());
                assert(digits_value(d) == 0);
            }
            assert(leading_value(d, j) == digits_value(d) * p);
        } else {
            assert(leading_value(d, j) == digits_value(d) * p);
        }
        assert(digits_value(d) * (10 * p) == (digits_value(d) * p) * 10) by (nonlinear_arith);
    }
}

proof fn lemma_leading_value_monotone(d: Seq<char>, j: int, k: int)
    requires
        0 <= j <= k,
    ensures
        leading_value(d, j) <= leading_value(d, k),
    decreases k - j,
{
    if j < k {
        lemma_leading_value_step(d, j);
        lemma_leading_value_monotone(d, j + 1, k);
    }
}

proof fn lemma_pow10_ge(n: nat)
    ensures
        pow10(n) >= 1,
        n >= 10 ==> pow10(n) >= 10_000_000_000,
    decreases n,
{
    if n > 0 {
        lemma_pow10_ge((n - 1) as nat);
        if n == 10 {
            reveal_with_fuel(pow10, 11);
        }
    }
}

/// Past the digits, the integer part is zero or at least ten to the number of padding zeros.
proof fn lemma_leading_value_past(d: Seq<char>, k: int)
    requires
        k >= d.len(),
    ensures
        leading_value(d, k) == 0 <==> digits_value(d) == 0,
        k >= d.len() + 10 ==> leading_value(d, k) == 0 || leading_value(d, k) >= 10_000_000_000,
{
    let p = pow10((k - d.len()) as nat);
    lemma_pow10_ge((k - d.len()) as nat);
    if k <= 0 {
        assert(d.len() == 0);
        assert(digits_value(d) == 0);
    } else if k == d.len() {
        assert(d.take(k) =~= d);
        assert(p == 1);
    } else {
        assert(digits_value(d) * p == 0 <==> digits_value(d) == 0) by (nonlinear_arith)
            requires
                p >= 1,
        ;
        if k >= d.len() + 10 && digits_value(d) > 0 {
            assert(digits_value(d) * p >= p) by (nonlinear_arith)
                requires
                    p >= 1,
                    digits_value(d) >= 1,
            ;
        }
    }
}

/// The integer part of the finite number with digits `t[int_start..int_end]` before the point,
/// `t[frac_start..frac_end]` after it and an exponent of sign `exp_negative` and capped size
/// `exp_capped`, itself capped at `INT_CAP`.
fn leading_value_capped(
    t: &[char],
    int_start: usize,
    int_end: usize,
    frac_start: usize,
    frac_end: usize,
    exp_negative: bool,
    exp_capped: u128,
) -> (v: u64)
    requires
        int_start <= int_end <= frac_start <= frac_end <= t@.len(),
        forall|i: int| int_start <= i < int_end ==> is_digit(#[trigger] t@[i]),
        forall|i: int| frac_start <= i < frac_end ==> is_digit(#[trigger] t@[i]),
        exp_capped <= EXP_CAP,
    ensures
        forall|exp: int|
            exp_matches(exp_negative, exp_capped, exp) ==> {
                let lv = leading_value(
                    t@.subrange(int_start as int, int_end as int) + t@.subrange(
                        frac_start as int,
                        frac_end as int,
                    ),
                    (int_end - int_start) + exp,
                );
                v == if lv < INT_CAP {
                    lv
                } else {
                    INT_CAP as nat
                }
            },
{
    let ghost d = t@.subrange(int_start as int, int_end as int) + t@.subrange(
        frac_start as int,
        frac_end as int,
    );
    let a_len = int_end - int_start;
    let dlen = a_len + (frac_end - frac_start);
    let k: i128 = if exp_negative {
        a_len as i128 - exp_capped as i128
    } else {
        a_len as i128 + exp_capped as i128
    };
    let mut mag: u64 = 0;
    let mut j: u128 = 0;
    while (j as i128) < k && mag < INT_CAP && !(j >= dlen as u128 && mag == 0)
        invariant
            int_start <= int_end <= frac_start <= frac_end <= t@.len(),
            forall|i: int| int_start <= i < int_end ==> is_digit(#[trigger] t@[i]),
            forall|i: int| frac_start <= i < frac_end ==> is_digit(#[trigger] t@[i]),
            a_len == int_end - int_start,
            dlen == d.len(),
            d == t@.subrange(int_start as int, int_end as int) + t@.subrange(
                frac_start as int,
                frac_end as int,
            ),
            0 <= j <= dlen + 10,
            j <= k || j == 0,
            mag == if leading_value(d, j as int) < INT_CAP {
                leading_value(d, j as int)
            } else {
                INT_CAP as nat
            },
        decreases dlen + 10 - j,
    {
        proof {
            if j >= dlen {
                lemma_leading_value_past(d, j as int);
            }
        }
        let digit: u64 = if j < a_len as u128 {
            let c = t[int_start + j as usize];
            proof {
                assert(d[j as int] == c);
                assert(is_digit(t@[int_start + j]));
            }
            (c as u32 - '0' as u32) as u64
        } else if j < dlen as u128 {
            let c = t[frac_start + (j as usize - a_len)];
            proof {
                assert(d[j as int] == c);
                assert(is_digit(t@[frac_start + (j - a_len)]));
            }
            (c as u32 - '0' as u32) as u64
        } else {
            0
        };
        proof {
            lemma_leading_value_step(d, j as int);
        }
        let w = mag * 10 + digit;
        mag = if w < INT_CAP {
            w
        } else {
            INT_CAP
        };
        j = j + 1;
    }
    proof {
        assert forall|exp: int| exp_matches(exp_negative, exp_capped, exp) implies {
            let lv = leading_value(d, a_len + exp);
            mag == if lv < INT_CAP {
                lv
            } else {
                INT_CAP as nat
            }
        } by {
            let kt = a_len + exp;
            if k <= 0 {
                assert(kt <= 0);
            } else if j as int == k {
                assert(kt == k || kt >= dlen + 10);
                if kt != k {
                    assert(false);
                }
            } else if mag == INT_CAP {
                assert(kt >= k);
                lemma_leading_value_monotone(d, j as int, kt);
            } else {
                assert(j >= dlen && mag == 0);
                assert(kt >= k);
                lemma_leading_value_past(d, j as int);
                lemma_leading_value_past(d, kt);
            }
        }
    }
    mag
}

/// The integer a field holds, read leniently.
pub fn lenient_int_chars(t: &[char]) -> (r: Option<i32>)
    ensures
        r == lenient_int(t@),
{
    match scan_number(t) {
        None => None,
        Some(NumberScan::NotANumber) => Some(0),
        Some(NumberScan::Infinite { negative }) => Some(
            if negative {
                i32::MIN
            } else {
                i32::MAX
            },
        ),
        Some(
            NumberScan::Finite {
                negative,
                int_start,
                int_end,
                frac_start,
                frac_end,
                exp_negative,
                exp_capped,
            },
        ) => {
            let mag = leading_value_capped(
                t,
                int_start,
                int_end,
                frac_start,
                frac_end,
                exp_negative,
                exp_capped,
            );
            if negative {
                Some((0 - mag as i64) as i32)
            } else if mag > i32::MAX as u64 {
                Some(i32::MAX)
            } else {
                Some(mag as i32)
            }
        },
    }
}

} // verus!
