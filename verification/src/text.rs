//! Character-level text handling shared by the reader and the labels.
//!
//! Lines of a raw file are handled as sequences of `char`. The specifications here say what
//! trimming, case folding and decimal rendering mean on such sequences; the executable helpers
//! are proved against them.

use vstd::prelude::*;

verus! {

/// Unicode `White_Space`, the set `char::is_whitespace` and `str::trim` go by.
pub open spec fn is_ws(c: char) -> bool {
    let u = c as u32;
    ||| 0x09 <= u <= 0x0D
    ||| u == 0x20
    ||| u == 0x85
    ||| u == 0xA0
    ||| u == 0x1680
    ||| 0x2000 <= u <= 0x200A
    ||| u == 0x2028
    ||| u == 0x2029
    ||| u == 0x202F
    ||| u == 0x205F
    ||| u == 0x3000
}

/// `s` without its leading whitespace.
pub open spec fn trim_start(s: Seq<char>) -> Seq<char>
    decreases s.len(),
{
    if s.len() > 0 && is_ws(s[0]) {
        trim_start(s.drop_first())
    } else {
        s
    }
}

/// `s` without its trailing whitespace.
pub open spec fn trim_end(s: Seq<char>) -> Seq<char>
    decreases s.len(),
{
    if s.len() > 0 && is_ws(s.last()) {
        trim_end(s.drop_last())
    } else {
        s
    }
}

/// `s` without leading or trailing whitespace, as `str::trim` gives it.
pub open spec fn trim(s: Seq<char>) -> Seq<char> {
    trim_end(trim_start(s))
}

proof fn lemma_trim_start_keeps(s: Seq<char>, k: int)
    requires
        0 <= k < s.len(),
        !is_ws(s[k]),
    ensures
        exists|j: int| 0 <= j < trim_start(s).len() && !is_ws(#[trigger] trim_start(s)[j]),
    decreases s.len(),
{
    if is_ws(s[0]) {
        assert(s.drop_first()[k - 1] == s[k]);
        lemma_trim_start_keeps(s.drop_first(), k - 1);
        assert(trim_start(s) == trim_start(s.drop_first()));
        let j = choose|j: int|
            0 <= j < trim_start(s.drop_first()).len() && !is_ws(#[trigger] trim_start(s.drop_first())[j]);
        assert(!is_ws(trim_start(s)[j]));
    } else {
        assert(trim_start(s) == s);
        assert(!is_ws(trim_start(s)[k]));
    }
}

proof fn lemma_trim_end_keeps(s: Seq<char>, k: int)
    requires
        0 <= k < s.len(),
        !is_ws(s[k]),
    ensures
        trim_end(s).len() > 0,
    decreases s.len(),
{
    if is_ws(s.last()) {
        assert(k < s.len() - 1);
        assert(s.drop_last()[k] == s[k]);
        lemma_trim_end_keeps(s.drop_last(), k);
    }
}

/// Trimming keeps any text that holds a character other than whitespace.
pub proof fn lemma_trim_nonempty(s: Seq<char>, k: int)
    requires
        0 <= k < s.len(),
        !is_ws(s[k]),
    ensures
        trim(s).len() > 0,
{
    lemma_trim_start_keeps(s, k);
    let t = trim_start(s);
    let j = choose|j: int| 0 <= j < t.len() && !is_ws(#[trigger] t[j]);
    lemma_trim_end_keeps(t, j);
}

proof fn lemma_trim_end_shape(s: Seq<char>)
    ensures
        trim_end(s).len() <= s.len(),
        forall|k: int| 0 <= k < trim_end(s).len() ==> #[trigger] trim_end(s)[k] == s[k],
        trim_end(s).len() > 0 ==> !is_ws(trim_end(s).last()),
    decreases s.len(),
{
    if s.len() > 0 && is_ws(s.last()) {
        lemma_trim_end_shape(s.drop_last());
        assert forall|k: int| 0 <= k < trim_end(s).len() implies #[trigger] trim_end(s)[k] == s[k] by {
            assert(s.drop_last()[k] == s[k]);
        }
    }
}

proof fn lemma_trim_start_shape(s: Seq<char>)
    ensures
        trim_start(s).len() > 0 ==> !is_ws(trim_start(s)[0]),
    decreases s.len(),
{
    if s.len() > 0 && is_ws(s[0]) {
        lemma_trim_start_shape(s.drop_first());
    }
}

/// Trimming the end of a string twice is trimming it once.
pub proof fn lemma_trim_end_idempotent(s: Seq<char>)
    ensures
        trim_end(trim_end(s)) == trim_end(s),
{
    lemma_trim_end_shape(s);
}

/// Trimming a string twice is trimming it once.
pub proof fn lemma_trim_idempotent(s: Seq<char>)
    ensures
        trim(trim(s)) == trim(s),
{
    let z = trim_start(s);
    let y = trim_end(z);
    lemma_trim_start_shape(s);
    lemma_trim_end_shape(z);
    if y.len() > 0 {
        assert(y[0] == z[0]);
        assert(trim_start(y) == y);
    } else {
        assert(trim_start(y) == y);
    }
    lemma_trim_end_idempotent(z);
}

/// Whether `c` is whitespace.
pub fn is_ws_char(c: char) -> (r: bool)
    ensures
        r == is_ws(c),
{
    let u = c as u32;
    (0x09 <= u && u <= 0x0D) || u == 0x20 || u == 0x85 || u == 0xA0 || u == 0x1680 || (0x2000 <= u
        && u <= 0x200A) || u == 0x2028 || u == 0x2029 || u == 0x202F || u == 0x205F || u == 0x3000
}

/// The characters of `s`, in order.
pub fn chars_of(s: &str) -> (v: Vec<char>)
    ensures
        v@ == s@,
{
    let mut v: Vec<char> = Vec::new();
    for c in it: s.chars()
        invariant
            v@ == it.seq().take(it.index() as int),
    {
        v.push(c);
    }
    v
}


proof fn lemma_trim_start_skip(s: Seq<char>, i: int)
    requires
        0 <= i <= s.len(),
        forall|k: int| 0 <= k < i ==> is_ws(#[trigger] s[k]),
    ensures
        trim_start(s) == trim_start(s.skip(i)),
    decreases i,
{
    if i > 0 {
        assert(s.drop_first().skip(i - 1) =~= s.skip(i));
        lemma_trim_start_skip(s.drop_first(), i - 1);
    } else {
        assert(s.skip(0) =~= s);
    }
}

proof fn lemma_trim_end_take(s: Seq<char>, j: int)
    requires
        0 <= j <= s.len(),
        forall|k: int| j <= k < s.len() ==> is_ws(#[trigger] s[k]),
    ensures
        trim_end(s) == trim_end(s.take(j)),
    decreases s.len() - j,
{
    if j < s.len() {
        assert(s.drop_last().take(j) =~= s.take(j));
        lemma_trim_end_take(s.drop_last(), j);
    } else {
        assert(s.take(j) =~= s);
    }
}

/// The index of the first non-whitespace character of `s`, or its length.
pub fn trim_start_index(s: &[char]) -> (i: usize)
    ensures
        i <= s@.len(),
        trim_start(s@) == s@.skip(i as int),
{
    let mut i: usize = 0;
    while i < s.len() && is_ws_char(s[i])
        invariant
            i <= s@.len(),
            forall|k: int| 0 <= k < i ==> is_ws(#[trigger] s@[k]),
        decreases s@.len() - i,
    {
        i = i + 1;
    }
    proof {
        lemma_trim_start_skip(s@, i as int);
    }
    i
}

/// The end of `s[..j]` once its trailing whitespace is dropped.
pub fn trim_end_index(s: &[char], j: usize) -> (e: usize)
    requires
        j <= s@.len(),
    ensures
        e <= j,
        trim_end(s@.take(j as int)) == s@.take(e as int),
{
    let mut e: usize = j;
    while e > 0 && is_ws_char(s[e - 1])
        invariant
            e <= j <= s@.len(),
            forall|k: int| e <= k < j ==> is_ws(#[trigger] s@[k]),
        decreases e,
    {
        e = e - 1;
    }
    proof {
        let t = s@.take(j as int);
        assert forall|k: int| e <= k < t.len() implies is_ws(#[trigger] t[k]) by {
            assert(t[k] == s@[k]);
        }
        lemma_trim_end_take(t, e as int);
        assert(t.take(e as int) =~= s@.take(e as int));
        if e > 0 {
            assert(s@.take(e as int).last() == s@[e - 1]);
        }
    }
    e
}

/// `s` with leading and trailing whitespace removed.
pub fn trimmed(s: &[char]) -> (r: Vec<char>)
    ensures
        r@ == trim(s@),
{
    let i = trim_start_index(s);
    let mut e: usize = s.len();
    while e > i && is_ws_char(s[e - 1])
        invariant
            i <= e <= s@.len(),
            forall|k: int| e <= k < s@.len() ==> is_ws(#[trigger] s@[k]),
        decreases e,
    {
        e = e - 1;
    }
    proof {
        let t = s@.skip(i as int);
        assert forall|k: int| (e - i) <= k < t.len() implies is_ws(#[trigger] t[k]) by {
            assert(t[k] == s@[k + i]);
        }
        lemma_trim_end_take(t, e - i);
        assert(t.take(e - i) =~= s@.subrange(i as int, e as int));
        if e > i {
            assert(t.take(e - i).last() == s@[e - 1]);
        }
    }
    slice_range(s, i, e)
}

/// `s` with trailing whitespace removed.
pub fn trimmed_end(s: &[char]) -> (r: Vec<char>)
    ensures
        r@ == trim_end(s@),
{
    let e = trim_end_index(s, s.len());
    proof {
        assert(s@.take(s@.len() as int) =~= s@);
        assert(s@.take(e as int) =~= s@.subrange(0, e as int));
    }
    slice_range(s, 0, e)
}

/// The characters `s[a..b]`.
pub fn slice_range(s: &[char], a: usize, b: usize) -> (r: Vec<char>)
    requires
        a <= b <= s@.len(),
    ensures
        r@ == s@.subrange(a as int, b as int),
{
    let mut r: Vec<char> = Vec::new();
    let mut k = a;
    while k < b
        invariant
            a <= k <= b <= s@.len(),
            r@ == s@.subrange(a as int, k as int),
        decreases b - k,
    {
        r.push(s[k]);
        k = k + 1;
        proof {
            assert(r@ =~= s@.subrange(a as int, k as int));
        }
    }
    r
}

/// `String::push`: appends one character.
#[verifier::external_body]
fn push_char(s: &mut String, c: char)
    ensures
        final(s)@ == old(s)@.push(c),
{
    s.push(c);
}

/// The string holding exactly the characters of `v`.
pub fn string_of(v: &[char]) -> (s: String)
    ensures
        s@ == v@,
{
    let mut s = String::new();
    let mut k: usize = 0;
    while k < v.len()
        invariant
            k <= v@.len(),
            s@ == v@.take(k as int),
        decreases v@.len() - k,
    {
        push_char(&mut s, v[k]);
        k = k + 1;
        proof {
            assert(s@ =~= v@.take(k as int));
        }
    }
    proof {
        assert(v@.take(v@.len() as int) =~= v@);
    }
    s
}


/// The character of the decimal digit `d`.
pub open spec fn digit_char(d: nat) -> char {
    (('0' as u32) + d) as char
}

/// `n` written in decimal, without leading zeros.
pub open spec fn decimal(n: nat) -> Seq<char>
    decreases n,
{
    if n < 10 {
        seq![digit_char(n)]
    } else {
        decimal(n / 10).push(digit_char(n % 10))
    }
}

/// `i` written in decimal, with a leading `-` when negative.
pub open spec fn int_decimal(i: int) -> Seq<char> {
    if i < 0 {
        seq!['-'] + decimal((-i) as nat)
    } else {
        decimal(i as nat)
    }
}

/// `n` in decimal.
pub fn decimal_chars(n: u128) -> (v: Vec<char>)
    ensures
        v@ == decimal(n as nat),
    decreases n,
{
    if n < 10 {
        let c = ((('0' as u32) + (n as u32)) as u8) as char;
        proof {
            assert(c == digit_char(n as nat));
        }
        let mut v: Vec<char> = Vec::new();
        v.push(c);
        proof {
            assert(v@ =~= seq![digit_char(n as nat)]);
        }
        v
    } else {
        let mut v = decimal_chars(n / 10);
        let c = ((('0' as u32) + ((n % 10) as u32)) as u8) as char;
        proof {
            assert(c == digit_char((n % 10) as nat));
        }
        v.push(c);
        v
    }
}

/// `i` in decimal, with a leading `-` when negative.
pub fn int_decimal_chars(i: i64) -> (v: Vec<char>)
    ensures
        v@ == int_decimal(i as int),
{
    if i < 0 {
        let mut v: Vec<char> = Vec::new();
        v.push('-');
        let mut d = decimal_chars((0 - (i as i128)) as u128);
        v.append(&mut d);
        proof {
            assert(v@ =~= seq!['-'] + decimal((-i) as nat));
        }
        v
    } else {
        decimal_chars(i as u128)
    }
}

/// Appends the characters of `b` to `a`.
pub fn extend_chars(a: &mut Vec<char>, b: &[char])
    ensures
        final(a)@ == old(a)@ + b@,
{
    let mut k: usize = 0;
    while k < b.len()
        invariant
            k <= b@.len(),
            a@ == old(a)@ + b@.take(k as int),
        decreases b@.len() - k,
    {
        a.push(b[k]);
        k = k + 1;
        proof {
            assert(a@ =~= old(a)@ + b@.take(k as int));
        }
    }
    proof {
        assert(b@.take(b@.len() as int) =~= b@);
    }
}


/// Whether `a` and `b` hold the same characters.
pub fn chars_eq(a: &[char], b: &[char]) -> (r: bool)
    ensures
        r == (a@ == b@),
{
    if a.len() != b.len() {
        return false;
    }
    let mut k: usize = 0;
    while k < a.len()
        invariant
            a@.len() == b@.len(),
            k <= a@.len(),
            forall|m: int| 0 <= m < k ==> a@[m] == b@[m],
        decreases a@.len() - k,
    {
        if a[k] != b[k] {
            return false;
        }
        k = k + 1;
    }
    proof {
        assert(a@ =~= b@);
    }
    true
}

/// Whether the string `a` holds the characters `b`.
pub fn str_eq_chars(a: &str, b: &[char]) -> (r: bool)
    ensures
        r == (a@ == b@),
{
    let ac = chars_of(a);
    chars_eq(ac.as_slice(), b)
}

pub open spec fn upper_ascii(c: char) -> char {
    if 'a' <= c && c <= 'z' {
        ((c as u32) - 32) as char
    } else {
        c
    }
}

/// `s` with ASCII letters in upper case, as `str::to_ascii_uppercase` gives it.
pub open spec fn to_upper_ascii(s: Seq<char>) -> Seq<char> {
    s.map_values(|c: char| upper_ascii(c))
}

pub fn upper_ascii_chars(s: &[char]) -> (r: Vec<char>)
    ensures
        r@ == to_upper_ascii(s@),
{
    let mut r: Vec<char> = Vec::new();
    let mut k: usize = 0;
    while k < s.len()
        invariant
            k <= s@.len(),
            r@ == to_upper_ascii(s@.take(k as int)),
        decreases s@.len() - k,
    {
        let c = s[k];
        let u = if 'a' <= c && c <= 'z' {
            ((c as u32) - 32) as u8 as char
        } else {
            c
        };
        proof {
            if 'a' <= c && c <= 'z' {
                assert(((c as u32) - 32) as u8 as char == ((c as u32) - 32) as char);
            }
        }
        r.push(u);
        k = k + 1;
        proof {
            assert(r@ =~= to_upper_ascii(s@.take(k as int)));
        }
    }
    proof {
        assert(s@.take(s@.len() as int) =~= s@);
    }
    r
}

pub open spec fn lower_ascii(c: char) -> char {
    if 'A' <= c && c <= 'Z' {
        ((c as u32) + 32) as char
    } else {
        c
    }
}

/// `s` with ASCII letters in lower case, as `str::to_ascii_lowercase` gives it.
pub open spec fn to_lower_ascii(s: Seq<char>) -> Seq<char> {
    s.map_values(|c: char| lower_ascii(c))
}

pub fn lower_ascii_chars(s: &[char]) -> (r: Vec<char>)
    ensures
        r@ == to_lower_ascii(s@),
{
    let mut r: Vec<char> = Vec::new();
    let mut k: usize = 0;
    while k < s.len()
        invariant
            k <= s@.len(),
            r@ == to_lower_ascii(s@.take(k as int)),
        decreases s@.len() - k,
    {
        let c = s[k];
        let u = if 'A' <= c && c <= 'Z' {
            ((c as u32) + 32) as u8 as char
        } else {
            c
        };
        proof {
            if 'A' <= c && c <= 'Z' {
                assert(((c as u32) + 32) as u8 as char == ((c as u32) + 32) as char);
            }
        }
        r.push(u);
        k = k + 1;
        proof {
            assert(r@ =~= to_lower_ascii(s@.take(k as int)));
        }
    }
    proof {
        assert(s@.take(s@.len() as int) =~= s@);
    }
    r
}

/// The first position at or after `i` where `pat` occurs in `s`.
pub open spec fn find_from(s: Seq<char>, pat: Seq<char>, i: int) -> Option<int>
    decreases s.len() + 1 - i,
{
    if i < 0 || i + pat.len() > s.len() {
        None
    } else if s.subrange(i, i + pat.len()) == pat {
        Some(i)
    } else {
        find_from(s, pat, i + 1)
    }
}

/// The first position where `pat` occurs in `s`, as `str::find` gives it.
pub open spec fn find(s: Seq<char>, pat: Seq<char>) -> Option<int> {
    find_from(s, pat, 0)
}

pub fn find_chars(s: &[char], pat: &[char]) -> (r: Option<usize>)
    ensures
        match r {
            Some(i) => find(s@, pat@) == Some(i as int) && i + pat@.len() <= s@.len(),
            None => find(s@, pat@) is None,
        },
{
    let n = s.len();
    if pat.len() > n {
        return None;
    }
    let mut i: usize = 0;
    while i <= n - pat.len()
        invariant
            n == s@.len(),
            pat@.len() <= s@.len(),
            i <= s@.len() - pat@.len() + 1,
            find(s@, pat@) == find_from(s@, pat@, i as int),
        decreases s@.len() - pat@.len() + 1 - i,
    {
        let mut k: usize = 0;
        let mut same = true;
        while k < pat.len()
            invariant
                n == s@.len(),
                pat@.len() <= s@.len(),
                i <= s@.len() - pat@.len(),
                k <= pat@.len(),
                same == (forall|m: int| 0 <= m < k ==> s@[i + m] == pat@[m]),
            decreases pat@.len() - k,
        {
            if s[i + k] != pat[k] {
                same = false;
            }
            k = k + 1;
        }
        proof {
            if same {
                assert(s@.subrange(i as int, i + pat@.len()) =~= pat@);
            } else {
                let m = choose|m: int| 0 <= m < pat@.len() && s@[i + m] != pat@[m];
                assert(s@.subrange(i as int, i + pat@.len())[m] != pat@[m]);
            }
        }
        if same {
            return Some(i);
        }
        i = i + 1;
    }
    None
}


/// `s` with leading and trailing whitespace removed, as a new string.
pub fn trim_string(s: &str) -> (r: String)
    ensures
        r@ == trim(s@),
{
    let c = chars_of(s);
    let t = trimmed(c.as_slice());
    string_of(t.as_slice())
}

/// A copy of `s`.
pub fn copy_string(s: &str) -> (r: String)
    ensures
        r@ == s@,
{
    let c = chars_of(s);
    string_of(c.as_slice())
}


/// Whether `a` comes before `b` in character-code order, the order `String` sorts in.
pub open spec fn chars_lt(a: Seq<char>, b: Seq<char>) -> bool
    decreases a.len(),
{
    if a.len() == 0 {
        b.len() > 0
    } else if b.len() == 0 {
        false
    } else if a[0] != b[0] {
        (a[0] as u32) < (b[0] as u32)
    } else {
        chars_lt(a.drop_first(), b.drop_first())
    }
}

pub fn chars_less(a: &[char], b: &[char]) -> (r: bool)
    ensures
        r == chars_lt(a@, b@),
{
    let mut k: usize = 0;
    proof {
        assert(a@.skip(0) =~= a@);
        assert(b@.skip(0) =~= b@);
    }
    while k < a.len() && k < b.len() && a[k] == b[k]
        invariant
            k <= a@.len(),
            k <= b@.len(),
            chars_lt(a@, b@) == chars_lt(a@.skip(k as int), b@.skip(k as int)),
        decreases a@.len() - k,
    {
        proof {
            assert(a@.skip(k as int).drop_first() =~= a@.skip(k + 1));
            assert(b@.skip(k as int).drop_first() =~= b@.skip(k + 1));
        }
        k = k + 1;
    }
    proof {
        if k < a@.len() {
            assert(a@.skip(k as int)[0] == a@[k as int]);
        }
        if k < b@.len() {
            assert(b@.skip(k as int)[0] == b@[k as int]);
        }
    }
    if k == a.len() {
        k < b.len()
    } else if k == b.len() {
        false
    } else {
        (a[k] as u32) < (b[k] as u32)
    }
}


/// Character-code order is a strict total order on strings: no string comes before itself,
/// it is transitive, and of two different strings one comes before the other.
pub proof fn lemma_chars_lt_order(a: Seq<char>, b: Seq<char>, c: Seq<char>)
    ensures
        !chars_lt(a, a),
        chars_lt(a, b) && chars_lt(b, c) ==> chars_lt(a, c),
        a != b ==> chars_lt(a, b) || chars_lt(b, a),
        chars_lt(a, b) ==> !chars_lt(b, a),
    decreases a.len(),
{
    if a.len() > 0 {
        lemma_chars_lt_order(a.drop_first(), b.drop_first(), c.drop_first());
        if b.len() > 0 && a[0] != b[0] {
            vstd::utf8::char_u32_cast(a[0], a[0] as u32);
            vstd::utf8::char_u32_cast(b[0], b[0] as u32);
        }
        if b.len() > 0 && a[0] == b[0] && a != b {
            if a.drop_first() == b.drop_first() {
                assert(a =~= seq![a[0]] + a.drop_first());
                assert(b =~= seq![b[0]] + b.drop_first());
            }
        }
        if chars_lt(a, b) && chars_lt(b, c) && b.len() > 0 && c.len() > 0 {
            if a[0] == b[0] && b[0] == c[0] {
                assert(chars_lt(a.drop_first(), c.drop_first()));
            }
        }
    } else {
        if b.len() > 0 && a != b {
            assert(chars_lt(a, b));
        }
        if b.len() == 0 && a != b {
            assert(a =~= b);
        }
    }
}

} // verus!
