//! The textual form of a lookup reference:
//! `lookup("<column>", <row>)`, with white space allowed after the opening
//! parenthesis, around the comma and before the closing parenthesis.
use vstd::prelude::*;

verus! {

/// The characters of the Unicode `White_Space` property.
pub open spec fn is_space(c: char) -> bool {
    let u = c as u32;
    (0x09 <= u <= 0x0D) || u == 0x20 || u == 0x85 || u == 0xA0 || u == 0x1680 || (0x2000 <= u
        <= 0x200A) || u == 0x2028 || u == 0x2029 || u == 0x202F || u == 0x205F || u == 0x3000
}

pub open spec fn is_digit(c: char) -> bool {
    0x30 <= (c as u32) <= 0x39
}

pub open spec fn digit_value(c: char) -> int {
    (c as u32) - 0x30
}

/// The first index at or after `i` that does not hold a white space character.
pub open spec fn skip_spaces(s: Seq<char>, i: int) -> int
    decreases s.len() - i,
{
    if 0 <= i < s.len() && is_space(s[i]) {
        skip_spaces(s, i + 1)
    } else {
        i
    }
}

/// The first index at or after `i` that does not hold an ASCII digit.
pub open spec fn skip_digits(s: Seq<char>, i: int) -> int
    decreases s.len() - i,
{
    if 0 <= i < s.len() && is_digit(s[i]) {
        skip_digits(s, i + 1)
    } else {
        i
    }
}

/// The first index at or after `i` that holds a double quote, or the length
/// of `s` if there is none.
pub open spec fn find_quote(s: Seq<char>, i: int) -> int
    decreases s.len() - i,
{
    if 0 <= i < s.len() && s[i] != '"' {
        find_quote(s, i + 1)
    } else {
        i
    }
}

/// The decimal number written by the digits `s[lo..hi]`.
pub open spec fn decimal_value(s: Seq<char>, lo: int, hi: int) -> int
    decreases hi - lo,
{
    if hi <= lo {
        0
    } else {
        10 * decimal_value(s, lo, hi - 1) + digit_value(s[hi - 1])
    }
}

pub open spec fn lookup_prefix() -> Seq<char> {
    seq!['l', 'o', 'o', 'k', 'u', 'p', '(']
}

/// The row written by the optional minus sign and the digits `s[lo..hi]`.
pub open spec fn signed_value(s: Seq<char>, negative: bool, lo: int, hi: int) -> int {
    if negative {
        -decimal_value(s, lo, hi)
    } else {
        decimal_value(s, lo, hi)
    }
}

/// The reading of `s` that `parse_lookup` performs, scan by scan: the
/// target column name and row, if `s` is a lookup reference whose row fits
/// in an `i64`. `lemma_lookup_target` shows it equal to `lookup_target`.
pub open spec fn lookup_reference(s: Seq<char>) -> Option<(Seq<char>, int)> {
    let n = s.len();
    let a = skip_spaces(s, 7);
    let b = find_quote(s, a + 1);
    let c = skip_spaces(s, b + 1);
    let d = skip_spaces(s, c + 1);
    let negative = 0 <= d < n && s[d] == '-';
    let ds = if negative {
        d + 1
    } else {
        d
    };
    let e = skip_digits(s, ds);
    let f = skip_spaces(s, e);
    let v = signed_value(s, negative, ds, e);
    if n >= 7 && s.subrange(0, 7) == lookup_prefix() && a < n && s[a] == '"' && a + 1 < b < n && c
        < n && s[c] == ',' && ds < e && f + 1 == n && s[f] == ')' && i64::MIN <= v <= i64::MAX {
        Some((s.subrange(a + 1, b), v))
    } else {
        None
    }
}

proof fn lemma_skip_spaces_bounds(s: Seq<char>, i: int)
    requires
        0 <= i,
    ensures
        i <= skip_spaces(s, i),
        i <= s.len() ==> skip_spaces(s, i) <= s.len(),
    decreases s.len() - i,
{
    if 0 <= i < s.len() && is_space(s[i]) {
        lemma_skip_spaces_bounds(s, i + 1);
    }
}

proof fn lemma_decimal_monotone(s: Seq<char>, lo: int, mid: int, hi: int)
    requires
        lo <= mid <= hi,
        forall|k: int| lo <= k < hi ==> is_digit(#[trigger] s[k]),
    ensures
        0 <= decimal_value(s, lo, mid) <= decimal_value(s, lo, hi),
    decreases hi - mid,
{
    if mid < hi {
        lemma_decimal_monotone(s, lo, mid, hi - 1);
        lemma_decimal_nonneg(s, lo, hi - 1);
    } else {
        lemma_decimal_nonneg(s, lo, hi);
    }
}

proof fn lemma_decimal_nonneg(s: Seq<char>, lo: int, hi: int)
    requires
        forall|k: int| lo <= k < hi ==> is_digit(#[trigger] s[k]),
    ensures
        0 <= decimal_value(s, lo, hi),
    decreases hi - lo,
{
    if lo < hi {
        lemma_decimal_nonneg(s, lo, hi - 1);
    }
}

fn space_at(c: char) -> (r: bool)
    ensures
        r == is_space(c),
{
    let u = c as u32;
    (0x09 <= u && u <= 0x0D) || u == 0x20 || u == 0x85 || u == 0xA0 || u == 0x1680 || (0x2000 <= u
        && u <= 0x200A) || u == 0x2028 || u == 0x2029 || u == 0x202F || u == 0x205F || u == 0x3000
}

fn digit_at(c: char) -> (r: bool)
    ensures
        r == is_digit(c),
{
    let u = c as u32;
    0x30 <= u && u <= 0x39
}

fn scan_spaces(s: &str, n: usize, start: usize) -> (r: usize)
    requires
        n == s@.len(),
        start <= n,
    ensures
        r == skip_spaces(s@, start as int),
        start <= r <= n,
{
    let mut i = start;
    while i < n && space_at(s.get_char(i))
        invariant
            n == s@.len(),
            start <= i <= n,
            skip_spaces(s@, i as int) == skip_spaces(s@, start as int),
        decreases n - i,
    {
        i = i + 1;
    }
    i
}

fn scan_digits(s: &str, n: usize, start: usize) -> (r: usize)
    requires
        n == s@.len(),
        start <= n,
    ensures
        r == skip_digits(s@, start as int),
        start <= r <= n,
        forall|k: int| start <= k < r ==> is_digit(#[trigger] s@[k]),
{
    let mut i = start;
    while i < n && digit_at(s.get_char(i))
        invariant
            n == s@.len(),
            start <= i <= n,
            skip_digits(s@, i as int) == skip_digits(s@, start as int),
            forall|k: int| start <= k < i ==> is_digit(#[trigger] s@[k]),
        decreases n - i,
    {
        i = i + 1;
    }
    i
}

fn scan_to_quote(s: &str, n: usize, start: usize) -> (r: usize)
    requires
        n == s@.len(),
        start <= n,
    ensures
        r == find_quote(s@, start as int),
        start <= r <= n,
{
    let mut i = start;
    while i < n && s.get_char(i) != '"'
        invariant
            n == s@.len(),
            start <= i <= n,
            find_quote(s@, i as int) == find_quote(s@, start as int),
        decreases n - i,
    {
        i = i + 1;
    }
    i
}

/// The row written by the sign and the digits `s[lo..hi]`, or `None` when
/// it does not fit in an `i64`.
fn decimal_in_range(s: &str, n: usize, negative: bool, lo: usize, hi: usize) -> (r: Option<i64>)
    requires
        n == s@.len(),
        lo <= hi <= n,
        forall|k: int| lo <= k < hi ==> is_digit(#[trigger] s@[k]),
    ensures
        match r {
            Some(v) => v as int == signed_value(s@, negative, lo as int, hi as int),
            None => !(i64::MIN <= signed_value(s@, negative, lo as int, hi as int) <= i64::MAX),
        },
{
    let mut v: i64 = 0;
    let mut i = lo;
    while i < hi
        invariant
            n == s@.len(),
            lo <= i <= hi <= n,
            forall|k: int| lo <= k < hi ==> is_digit(#[trigger] s@[k]),
            v == signed_value(s@, negative, lo as int, i as int),
        decreases hi - i,
    {
        let d = (s.get_char(i) as u32 - 0x30) as i64;
        assert(decimal_value(s@, lo as int, i + 1) == 10 * decimal_value(s@, lo as int, i as int)
            + digit_value(s@[i as int]));
        let next = match v.checked_mul(10) {
            None => None,
            Some(w) => if negative {
                w.checked_sub(d)
            } else {
                w.checked_add(d)
            },
        };
        match next {
            None => {
                proof {
                    lemma_decimal_monotone(s@, lo as int, i + 1, hi as int);
                }
                return None;
            },
            Some(x) => {
                v = x;
            },
        }
        i = i + 1;
    }
    Some(v)
}

fn starts_with_prefix(s: &str, n: usize) -> (r: bool)
    requires
        n == s@.len(),
    ensures
        r == (n >= 7 && s@.subrange(0, 7) == lookup_prefix()),
{
    if n < 7 {
        return false;
    }
    let r = s.get_char(0) == 'l' && s.get_char(1) == 'o' && s.get_char(2) == 'o' && s.get_char(3)
        == 'k' && s.get_char(4) == 'u' && s.get_char(5) == 'p' && s.get_char(6) == '(';
    proof {
        if r {
            assert(s@.subrange(0, 7) =~= lookup_prefix());
        }
        if s@.subrange(0, 7) == lookup_prefix() {
            assert(s@.subrange(0, 7)[6] == s@[6]);
            assert(s@.subrange(0, 7)[5] == s@[5]);
            assert(s@.subrange(0, 7)[4] == s@[4]);
            assert(s@.subrange(0, 7)[3] == s@[3]);
            assert(s@.subrange(0, 7)[2] == s@[2]);
            assert(s@.subrange(0, 7)[1] == s@[1]);
            assert(s@.subrange(0, 7)[0] == s@[0]);
        }
    }
    r
}

/// Reads `s` as a lookup reference: the target column name and row.
pub fn parse_lookup(s: &str) -> (r: Option<(String, i64)>)
    ensures
        match r {
            Some((name, row)) => lookup_target(s@) == Some((name@, row as int)),
            None => lookup_target(s@) is None,
        },
{
    proof {
        lemma_lookup_target(s@);
    }
    let n = s.unicode_len();
    if !starts_with_prefix(s, n) {
        return None;
    }
    let a = scan_spaces(s, n, 7);
    if a >= n || s.get_char(a) != '"' {
        return None;
    }
    let b = scan_to_quote(s, n, a + 1);
    if b == a + 1 || b >= n {
        return None;
    }
    let c = scan_spaces(s, n, b + 1);
    if c >= n || s.get_char(c) != ',' {
        return None;
    }
    let d = scan_spaces(s, n, c + 1);
    let negative = d < n && s.get_char(d) == '-';
    let ds = if negative {
        d + 1
    } else {
        d
    };
    let e = scan_digits(s, n, ds);
    if e == ds {
        return None;
    }
    let f = scan_spaces(s, n, e);
    if f >= n || f != n - 1 || s.get_char(f) != ')' {
        return None;
    }
    match decimal_in_range(s, n, negative, ds, e) {
        None => None,
        Some(row) => {
            let name = String::from_str(s.substring_char(a + 1, b));
            Some((name, row))
        },
    }
}

/// The text `lookup(` w1 `"` name `"` w2 `,` w3 [`-`] digits w4 `)`.
pub open spec fn lookup_text(
    name: Seq<char>,
    w1: Seq<char>,
    w2: Seq<char>,
    w3: Seq<char>,
    negative: bool,
    digits: Seq<char>,
    w4: Seq<char>,
) -> Seq<char> {
    lookup_prefix() + (w1 + (seq!['"'] + (name + (seq!['"'] + (w2 + (seq![','] + (w3 + (
    sign_text(negative) + (digits + (w4 + seq![')']))))))))))
}

pub open spec fn sign_text(negative: bool) -> Seq<char> {
    if negative {
        seq!['-']
    } else {
        seq![]
    }
}

pub open spec fn all_spaces(w: Seq<char>) -> bool {
    forall|i: int| 0 <= i < w.len() ==> is_space(#[trigger] w[i])
}

pub open spec fn all_digits(w: Seq<char>) -> bool {
    forall|i: int| 0 <= i < w.len() ==> is_digit(#[trigger] w[i])
}

/// `s` reads as a reference to row `row` of the column `name`: the text
/// `lookup(`, white space, a non-empty name free of double quotes between
/// double quotes, white space, a comma, white space, an optional minus sign
/// directly followed by decimal digits, white space, and `)`.
pub open spec fn is_lookup_text(s: Seq<char>, name: Seq<char>, row: int) -> bool {
    exists|
        w1: Seq<char>,
        w2: Seq<char>,
        w3: Seq<char>,
        negative: bool,
        digits: Seq<char>,
        w4: Seq<char>,
    |
        {
            &&& s == #[trigger] lookup_text(name, w1, w2, w3, negative, digits, w4)
            &&& all_spaces(w1) && all_spaces(w2) && all_spaces(w3) && all_spaces(w4)
            &&& name.len() > 0 && !name.contains('"')
            &&& digits.len() > 0 && all_digits(digits)
            &&& row == signed_value(digits, negative, 0, digits.len() as int)
        }
}

proof fn lemma_spaces_run(s: Seq<char>, i: int)
    requires
        0 <= i <= s.len(),
    ensures
        i <= skip_spaces(s, i) <= s.len(),
        forall|k: int| i <= k < skip_spaces(s, i) ==> is_space(#[trigger] s[k]),
        skip_spaces(s, i) < s.len() ==> !is_space(s[skip_spaces(s, i)]),
    decreases s.len() - i,
{
    if i < s.len() && is_space(s[i]) {
        lemma_spaces_run(s, i + 1);
    }
}

proof fn lemma_spaces_end(s: Seq<char>, i: int, j: int)
    requires
        0 <= i <= j <= s.len(),
        forall|k: int| i <= k < j ==> is_space(#[trigger] s[k]),
        j < s.len() ==> !is_space(s[j]),
    ensures
        skip_spaces(s, i) == j,
    decreases j - i,
{
    if i < j {
        lemma_spaces_end(s, i + 1, j);
    }
}

proof fn lemma_digits_run(s: Seq<char>, i: int)
    requires
        0 <= i <= s.len(),
    ensures
        i <= skip_digits(s, i) <= s.len(),
        forall|k: int| i <= k < skip_digits(s, i) ==> is_digit(#[trigger] s[k]),
        skip_digits(s, i) < s.len() ==> !is_digit(s[skip_digits(s, i)]),
    decreases s.len() - i,
{
    if i < s.len() && is_digit(s[i]) {
        lemma_digits_run(s, i + 1);
    }
}

proof fn lemma_digits_end(s: Seq<char>, i: int, j: int)
    requires
        0 <= i <= j <= s.len(),
        forall|k: int| i <= k < j ==> is_digit(#[trigger] s[k]),
        j < s.len() ==> !is_digit(s[j]),
    ensures
        skip_digits(s, i) == j,
    decreases j - i,
{
    if i < j {
        lemma_digits_end(s, i + 1, j);
    }
}

proof fn lemma_quote_run(s: Seq<char>, i: int)
    requires
        0 <= i <= s.len(),
    ensures
        i <= find_quote(s, i) <= s.len(),
        forall|k: int| i <= k < find_quote(s, i) ==> #[trigger] s[k] != '"',
        find_quote(s, i) < s.len() ==> s[find_quote(s, i)] == '"',
    decreases s.len() - i,
{
    if i < s.len() && s[i] != '"' {
        lemma_quote_run(s, i + 1);
    }
}

proof fn lemma_quote_end(s: Seq<char>, i: int, j: int)
    requires
        0 <= i <= j <= s.len(),
        forall|k: int| i <= k < j ==> #[trigger] s[k] != '"',
        j < s.len() ==> s[j] == '"',
    ensures
        find_quote(s, i) == j,
    decreases j - i,
{
    if i < j {
        lemma_quote_end(s, i + 1, j);
    }
}

proof fn lemma_decimal_shift(s: Seq<char>, lo: int, hi: int)
    requires
        0 <= lo <= hi <= s.len(),
    ensures
        decimal_value(s, lo, hi) == decimal_value(s.subrange(lo, hi), 0, hi - lo),
    decreases hi - lo,
{
    if lo < hi {
        lemma_decimal_shift(s, lo, hi - 1);
        let t = s.subrange(lo, hi);
        let u = s.subrange(lo, hi - 1);
        lemma_decimal_prefix(t, u, hi - lo - 1);
    }
}

proof fn lemma_decimal_prefix(t: Seq<char>, u: Seq<char>, m: int)
    requires
        0 <= m <= u.len(),
        m <= t.len(),
        forall|k: int| 0 <= k < m ==> t[k] == u[k],
    ensures
        decimal_value(t, 0, m) == decimal_value(u, 0, m),
    decreases m,
{
    if m > 0 {
        lemma_decimal_prefix(t, u, m - 1);
    }
}

/// Splitting the tail of `s` at `x` into `p` and `t`.
proof fn lemma_tail(s: Seq<char>, x: int, p: Seq<char>, t: Seq<char>)
    requires
        0 <= x <= s.len(),
        s.subrange(x, s.len() as int) == p + t,
    ensures
        x + p.len() <= s.len(),
        s.subrange(x + p.len(), s.len() as int) == t,
        forall|k: int| 0 <= k < p.len() ==> s[x + k] == #[trigger] p[k],
{
    let n = s.len() as int;
    let u = s.subrange(x, n);
    assert(u.len() == p.len() + t.len());
    assert forall|k: int| 0 <= k < p.len() implies s[x + k] == #[trigger] p[k] by {
        assert(u[k] == s[x + k]);
        assert((p + t)[k] == p[k]);
    }
    let v = s.subrange(x + p.len(), n);
    assert forall|k: int| 0 <= k < t.len() implies v[k] == t[k] by {
        assert(u[p.len() + k] == s[x + p.len() + k]);
        assert((p + t)[p.len() + k] == t[k]);
    }
    assert(v =~= t);
}

proof fn lemma_join(s: Seq<char>, x: int, y: int)
    requires
        0 <= x <= y <= s.len(),
    ensures
        s.subrange(x, s.len() as int) == s.subrange(x, y) + s.subrange(y, s.len() as int),
{
    assert(s.subrange(x, s.len() as int) =~= s.subrange(x, y) + s.subrange(y, s.len() as int));
}

/// Every text that `lookup_reference` reads has the shape that
/// `is_lookup_text` describes.
#[verifier::rlimit(100)]
pub proof fn lemma_lookup_reference_sound(s: Seq<char>)
    ensures
        lookup_reference(s) matches Some((name, row)) ==> is_lookup_text(s, name, row),
{
    if let Some((name, row)) = lookup_reference(s) {
        let n = s.len() as int;
        let a = skip_spaces(s, 7);
        lemma_spaces_run(s, 7);
        let b = find_quote(s, a + 1);
        lemma_quote_run(s, a + 1);
        let c = skip_spaces(s, b + 1);
        lemma_spaces_run(s, b + 1);
        let d = skip_spaces(s, c + 1);
        lemma_spaces_run(s, c + 1);
        let negative = 0 <= d < n && s[d] == '-';
        let ds = if negative {
            d + 1
        } else {
            d
        };
        let e = skip_digits(s, ds);
        lemma_digits_run(s, ds);
        let f = skip_spaces(s, e);
        lemma_spaces_run(s, e);
        let w1 = s.subrange(7, a);
        let w2 = s.subrange(b + 1, c);
        let w3 = s.subrange(c + 1, d);
        let digits = s.subrange(ds, e);
        let w4 = s.subrange(e, f);
        assert(s.subrange(f, n) =~= seq![')']);
        lemma_join(s, e, f);
        lemma_join(s, ds, e);
        if negative {
            lemma_join(s, d, ds);
            assert(s.subrange(d, ds) =~= sign_text(negative));
        } else {
            assert(s.subrange(ds, n) =~= sign_text(negative) + s.subrange(ds, n));
        }
        lemma_join(s, c + 1, d);
        lemma_join(s, c, c + 1);
        assert(s.subrange(c, c + 1) =~= seq![',']);
        lemma_join(s, b + 1, c);
        lemma_join(s, b, b + 1);
        assert(s.subrange(b, b + 1) =~= seq!['"']);
        lemma_join(s, a + 1, b);
        lemma_join(s, a, a + 1);
        assert(s.subrange(a, a + 1) =~= seq!['"']);
        lemma_join(s, 7, a);
        lemma_join(s, 0, 7);
        assert(s.subrange(0, n) =~= s);
        assert(s == lookup_text(name, w1, w2, w3, negative, digits, w4));
        assert(all_spaces(w1)) by {
            assert forall|k: int| 0 <= k < w1.len() implies is_space(#[trigger] w1[k]) by {
                assert(w1[k] == s[7 + k]);
            }
        }
        assert(all_spaces(w2)) by {
            assert forall|k: int| 0 <= k < w2.len() implies is_space(#[trigger] w2[k]) by {
                assert(w2[k] == s[b + 1 + k]);
            }
        }
        assert(all_spaces(w3)) by {
            assert forall|k: int| 0 <= k < w3.len() implies is_space(#[trigger] w3[k]) by {
                assert(w3[k] == s[c + 1 + k]);
            }
        }
        assert(all_spaces(w4)) by {
            assert forall|k: int| 0 <= k < w4.len() implies is_space(#[trigger] w4[k]) by {
                assert(w4[k] == s[e + k]);
            }
        }
        assert(all_digits(digits)) by {
            assert forall|k: int| 0 <= k < digits.len() implies is_digit(#[trigger] digits[k]) by {
                assert(digits[k] == s[ds + k]);
            }
        }
        assert(!name.contains('"')) by {
            assert forall|k: int| 0 <= k < name.len() implies #[trigger] name[k] != '"' by {
                assert(name[k] == s[a + 1 + k]);
            }
        }
        lemma_decimal_shift(s, ds, e);
        assert(row == signed_value(digits, negative, 0, digits.len() as int));
    }
}

/// Every text of the shape that `is_lookup_text` describes, with a row that
/// fits in an `i64`, is read by `lookup_reference` as that reference.
#[verifier::rlimit(100)]
pub proof fn lemma_lookup_reference_complete(s: Seq<char>, name: Seq<char>, row: int)
    requires
        is_lookup_text(s, name, row),
        i64::MIN <= row <= i64::MAX,
    ensures
        lookup_reference(s) == Some((name, row)),
{
    let (w1, w2, w3, negative, digits, w4) = choose|
        w1: Seq<char>,
        w2: Seq<char>,
        w3: Seq<char>,
        negative: bool,
        digits: Seq<char>,
        w4: Seq<char>,
    |
        {
            &&& s == #[trigger] lookup_text(name, w1, w2, w3, negative, digits, w4)
            &&& all_spaces(w1) && all_spaces(w2) && all_spaces(w3) && all_spaces(w4)
            &&& name.len() > 0 && !name.contains('"')
            &&& digits.len() > 0 && all_digits(digits)
            &&& row == signed_value(digits, negative, 0, digits.len() as int)
        };
    let n = s.len() as int;
    let r_end = w4 + seq![')'];
    let r_digits = digits + r_end;
    let r_sign = sign_text(negative) + r_digits;
    let r_w3 = w3 + r_sign;
    let r_comma = seq![','] + r_w3;
    let r_w2 = w2 + r_comma;
    let r_q2 = seq!['"'] + r_w2;
    let r_name = name + r_q2;
    let r_q1 = seq!['"'] + r_name;
    let r_w1 = w1 + r_q1;
    assert(s.subrange(0, n) =~= s);
    lemma_tail(s, 0, lookup_prefix(), r_w1);
    let a: int = 7 + w1.len() as int;
    lemma_tail(s, 7, w1, r_q1);
    lemma_tail(s, a, seq!['"'], r_name);
    let b: int = a + 1 + name.len();
    lemma_tail(s, a + 1, name, r_q2);
    lemma_tail(s, b, seq!['"'], r_w2);
    let c: int = b + 1 + w2.len();
    lemma_tail(s, b + 1, w2, r_comma);
    lemma_tail(s, c, seq![','], r_w3);
    let d: int = c + 1 + w3.len();
    lemma_tail(s, c + 1, w3, r_sign);
    let ds: int = d + sign_text(negative).len();
    lemma_tail(s, d, sign_text(negative), r_digits);
    let e: int = ds + digits.len();
    lemma_tail(s, ds, digits, r_end);
    let f: int = e + w4.len();
    lemma_tail(s, e, w4, seq![')']);
    assert(s.subrange(f, n) == seq![')']);
    assert(n == f + 1);
    assert(s[f] == s.subrange(f, n)[0]);
    assert(s.subrange(0, 7) =~= lookup_prefix()) by {
        assert forall|k: int| 0 <= k < 7 implies s.subrange(0, 7)[k] == lookup_prefix()[k] by {
            assert(s[0 + k] == lookup_prefix()[k]);
        }
    }
    assert(s[a] == '"') by {
        assert(s[a + 0] == seq!['"'][0]);
    }
    assert(s[b] == '"') by {
        assert(s[b + 0] == seq!['"'][0]);
    }
    assert(s[c] == ',') by {
        assert(s[c + 0] == seq![','][0]);
    }
    assert forall|k: int| 7 <= k < a implies is_space(#[trigger] s[k]) by {
        assert(s[7 + (k - 7)] == w1[k - 7]);
    }
    lemma_spaces_end(s, 7, a);
    assert forall|k: int| a + 1 <= k < b implies #[trigger] s[k] != '"' by {
        assert(s[a + 1 + (k - a - 1)] == name[k - a - 1]);
    }
    lemma_quote_end(s, a + 1, b);
    assert forall|k: int| b + 1 <= k < c implies is_space(#[trigger] s[k]) by {
        assert(s[b + 1 + (k - b - 1)] == w2[k - b - 1]);
    }
    lemma_spaces_end(s, b + 1, c);
    assert forall|k: int| c + 1 <= k < d implies is_space(#[trigger] s[k]) by {
        assert(s[c + 1 + (k - c - 1)] == w3[k - c - 1]);
    }
    assert(s[ds] == digits[0]) by {
        assert(s[ds + 0] == digits[0]);
    }
    if negative {
        assert(s[d] == '-') by {
            assert(s[d + 0] == sign_text(negative)[0]);
        }
    }
    assert(is_digit(digits[0]));
    lemma_spaces_end(s, c + 1, d);
    assert forall|k: int| ds <= k < e implies is_digit(#[trigger] s[k]) by {
        assert(s[ds + (k - ds)] == digits[k - ds]);
    }
    if w4.len() > 0 {
        assert(s[e] == w4[0]) by {
            assert(s[e + 0] == w4[0]);
        }
    }
    lemma_digits_end(s, ds, e);
    assert forall|k: int| e <= k < f implies is_space(#[trigger] s[k]) by {
        assert(s[e + (k - e)] == w4[k - e]);
    }
    lemma_spaces_end(s, e, f);
    assert(s.subrange(a + 1, b) =~= name) by {
        assert forall|k: int| 0 <= k < name.len() implies s.subrange(a + 1, b)[k] == name[k] by {
            assert(s[a + 1 + k] == name[k]);
        }
    }
    assert(s.subrange(ds, e) =~= digits) by {
        assert forall|k: int| 0 <= k < digits.len() implies s.subrange(ds, e)[k] == digits[k] by {
            assert(s[ds + k] == digits[k]);
        }
    }
    lemma_decimal_shift(s, ds, e);
}

/// The reference that `s` spells, read directly off `is_lookup_text`: the
/// target column name and row, if `s` has that shape with a row that fits
/// in an `i64`.
pub open spec fn lookup_target(s: Seq<char>) -> Option<(Seq<char>, int)> {
    if exists|name: Seq<char>, row: int|
        i64::MIN <= row <= i64::MAX && #[trigger] is_lookup_text(s, name, row) {
        Some(
            choose|name: Seq<char>, row: int|
                i64::MIN <= row <= i64::MAX && #[trigger] is_lookup_text(s, name, row),
        )
    } else {
        None
    }
}

/// The scanner's reading is exactly the direct one.
pub proof fn lemma_lookup_target(s: Seq<char>)
    ensures
        lookup_reference(s) == lookup_target(s),
{
    lemma_lookup_reference_sound(s);
    if let Some((name, row)) = lookup_reference(s) {
        assert(i64::MIN <= row <= i64::MAX && is_lookup_text(s, name, row));
    }
    if exists|name: Seq<char>, row: int|
        i64::MIN <= row <= i64::MAX && #[trigger] is_lookup_text(s, name, row) {
        let (name, row) = choose|name: Seq<char>, row: int|
            i64::MIN <= row <= i64::MAX && #[trigger] is_lookup_text(s, name, row);
        lemma_lookup_reference_complete(s, name, row);
    }
}

} // verus!
