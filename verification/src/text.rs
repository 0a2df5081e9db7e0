//! Character-level helpers shared by the format compiler, the line parser
//! and the extractors: conversions between `&str` and `Vec<char>`, string
//! equality, a decimal `u64` reader and a syntactic check for floating-point
//! literals (the numeric value itself is never computed here; callers keep
//! the raw text and hand it to the metrics sink unparsed).

use vstd::prelude::*;

verus! {

/// Relies on str::chars (with Iterator::collect): yields exactly the
/// characters of the string, in order.
#[verifier::external_body]
pub(crate) fn str_chars(s: &str) -> (r: Vec<char>)
    ensures
        r@ == s@,
{
    s.chars().collect()
}

/// Relies on String: FromIterator<char> (through Iterator::collect): builds
/// the string whose characters are exactly those of the vector, in order.
#[verifier::external_body]
pub(crate) fn chars_string(v: &Vec<char>) -> (r: String)
    ensures
        r@ == v@,
{
    v.iter().collect()
}

/// What char::is_whitespace returns; it depends on the character alone.
pub uninterp spec fn char_whitespace(c: char) -> bool;

/// Relies on char::is_whitespace: true exactly on the characters with the
/// Unicode `White_Space` property.  The blank, tab and line-break
/// characters have it; no other printable ASCII character does.
#[verifier::external_body]
pub(crate) fn is_whitespace_char(c: char) -> (r: bool)
    ensures
        r == char_whitespace(c),
        c == ' ' || c == '\t' || c == '\n' || c == '\r' ==> r,
        '!' <= c && c <= '~' ==> !r,
{
    c.is_whitespace()
}

/// Character-for-character equality of two string slices.
pub fn str_eq(a: &str, b: &str) -> (r: bool)
    ensures
        r == (a@ == b@),
{
    let av = str_chars(a);
    let bv = str_chars(b);
    if av.len() != bv.len() {
        return false;
    }
    let mut i: usize = 0;
    while i < av.len()
        invariant
            av@ == a@,
            bv@ == b@,
            av@.len() == bv@.len(),
            i <= av@.len(),
            forall|k: int| 0 <= k < i ==> av@[k] == bv@[k],
        decreases av@.len() - i,
    {
        if av[i] != bv[i] {
            return false;
        }
        i += 1;
    }
    proof {
        assert(a@ =~= b@);
    }
    true
}

pub open spec fn dec_digit(c: char) -> bool {
    '0' <= c && c <= '9'
}

/// Numeric value of a digit string, most significant first.
pub open spec fn dec_value(s: Seq<char>) -> int
    decreases s.len(),
{
    if s.len() == 0 {
        0
    } else {
        dec_value(s.drop_last()) * 10 + (s.last() as u32 - '0' as u32)
    }
}

pub open spec fn all_dec_digits(s: Seq<char>) -> bool {
    forall|i: int| 0 <= i < s.len() ==> dec_digit(#[trigger] s[i])
}

/// The digit part of decimal text: everything after an optional leading `+`.
pub open spec fn u64_digits(s: Seq<char>) -> Seq<char> {
    if s.len() > 0 && s[0] == '+' {
        s.drop_first()
    } else {
        s
    }
}

/// What `u64` reads from decimal text: an optional `+`, then at least one
/// digit, with the value within range.
pub open spec fn u64_dec_spec(s: Seq<char>) -> Option<u64> {
    let digits = u64_digits(s);
    if digits.len() > 0 && all_dec_digits(digits) && dec_value(digits) <= u64::MAX {
        Some(dec_value(digits) as u64)
    } else {
        None
    }
}

pub proof fn lemma_dec_value_nonneg(s: Seq<char>)
    requires
        all_dec_digits(s),
    ensures
        dec_value(s) >= 0,
    decreases s.len(),
{
    if s.len() > 0 {
        assert forall|i: int| 0 <= i < s.drop_last().len() implies dec_digit(
            #[trigger] s.drop_last()[i],
        ) by {
            assert(s.drop_last()[i] == s[i]);
        }
        lemma_dec_value_nonneg(s.drop_last());
        assert(dec_digit(s[s.len() - 1]));
    }
}

/// A digit string is worth at least any of its prefixes.
pub proof fn lemma_dec_value_extend(s: Seq<char>, t: Seq<char>)
    requires
        all_dec_digits(s),
        all_dec_digits(t),
    ensures
        dec_value(s + t) >= dec_value(s),
    decreases t.len(),
{
    if t.len() == 0 {
        assert(s + t =~= s);
    } else {
        let t1 = t.drop_last();
        assert forall|i: int| 0 <= i < t1.len() implies dec_digit(#[trigger] t1[i]) by {
            assert(t1[i] == t[i]);
        }
        assert((s + t).drop_last() =~= s + t1);
        assert((s + t).last() == t.last());
        lemma_dec_value_extend(s, t1);
        assert forall|i: int| 0 <= i < (s + t1).len() implies dec_digit(#[trigger] (s + t1)[i]) by {
            if i < s.len() {
                assert((s + t1)[i] == s[i]);
            } else {
                assert((s + t1)[i] == t1[i - s.len()]);
            }
        }
        lemma_dec_value_nonneg(s + t1);
        assert(dec_digit(t[t.len() - 1]));
    }
}

/// Reads a decimal `u64`, with exactly the inputs `u64_dec_spec` admits.
pub fn parse_u64_dec(s: &str) -> (r: Option<u64>)
    ensures
        r == u64_dec_spec(s@),
{
    let v = str_chars(s);
    let start: usize = if v.len() > 0 && v[0] == '+' {
        1
    } else {
        0
    };
    let ghost digits: Seq<char> = u64_digits(s@);
    proof {
        assert(digits =~= v@.subrange(start as int, v@.len() as int));
    }
    if start == v.len() {
        return None;
    }
    let mut acc: u64 = 0;
    let mut j: usize = start;
    while j < v.len()
        invariant
            v@ == s@,
            start <= j <= v@.len(),
            digits == u64_digits(s@),
            digits == v@.subrange(start as int, v@.len() as int),
            all_dec_digits(v@.subrange(start as int, j as int)),
            acc == dec_value(v@.subrange(start as int, j as int)),
        decreases v@.len() - j,
    {
        let c = v[j];
        if !('0' <= c && c <= '9') {
            assert(digits[j - start] == v@[j as int]);
            assert(!dec_digit(digits[j - start]));
            assert(!all_dec_digits(digits));
            return None;
        }
        let d: u64 = (c as u32 - '0' as u32) as u64;
        proof {
            let pref = v@.subrange(start as int, j as int);
            let pref1 = v@.subrange(start as int, j + 1 as int);
            assert(pref1.drop_last() =~= pref);
            assert(pref1.last() == c);
            assert forall|i: int| 0 <= i < pref1.len() implies dec_digit(#[trigger] pref1[i]) by {
                if i < pref.len() {
                    assert(pref1[i] == pref[i]);
                } else {
                    assert(pref1[i] == c);
                }
            }
        }
        if acc > (u64::MAX - d) / 10 {
            proof {
                let pref1 = v@.subrange(start as int, j + 1 as int);
                assert(dec_value(pref1) == acc * 10 + d);
                assert(acc * 10 + d > u64::MAX) by (nonlinear_arith)
                    requires
                        acc > (u64::MAX - d) / 10,
                        d <= 9,
                ;
                if all_dec_digits(digits) {
                    let rest = v@.subrange(j + 1 as int, v@.len() as int);
                    assert(digits =~= pref1 + rest);
                    assert forall|i: int| 0 <= i < rest.len() implies dec_digit(
                        #[trigger] rest[i],
                    ) by {
                        assert(rest[i] == digits[j + 1 - start + i]);
                    }
                    lemma_dec_value_extend(pref1, rest);
                    assert(dec_value(digits) > u64::MAX);
                }
            }
            return None;
        }
        acc = acc * 10 + d;
        j += 1;
    }
    proof {
        assert(v@.subrange(start as int, v@.len() as int) =~= digits);
        lemma_dec_value_nonneg(digits);
    }
    Some(acc)
}

pub open spec fn digits_end(s: Seq<char>, i: int) -> int
    decreases s.len() - i when 0 <= i <= s.len()
{
    if i < s.len() && dec_digit(s[i]) {
        digits_end(s, i + 1)
    } else {
        i
    }
}

/// An exponent part filling the rest of the string: nothing at all, or
/// `e`/`E`, an optional sign, and at least one digit.
pub open spec fn exp_ok(s: Seq<char>, i: int) -> bool {
    if i == s.len() {
        true
    } else if 0 <= i < s.len() && (s[i] == 'e' || s[i] == 'E') {
        let j = if i + 1 < s.len() && (s[i + 1] == '+' || s[i + 1] == '-') {
            i + 2
        } else {
            i + 1
        };
        j < s.len() && digits_end(s, j) == s.len()
    } else {
        false
    }
}

/// The mantissa-and-exponent shape of a decimal floating-point literal:
/// digits with an optional fraction, or a fraction alone.
pub open spec fn number_syntax(b: Seq<char>) -> bool {
    let d1 = digits_end(b, 0);
    if d1 > 0 {
        let d2 = if d1 < b.len() && b[d1] == '.' {
            digits_end(b, d1 + 1)
        } else {
            d1
        };
        exp_ok(b, d2)
    } else {
        b.len() >= 2 && b[0] == '.' && digits_end(b, 1) > 1 && exp_ok(b, digits_end(b, 1))
    }
}

/// `c` is `lower` itself or its ASCII upper-case form.
pub open spec fn ci_char_eq(c: char, lower: char) -> bool {
    c == lower || c as u32 + 32 == lower as u32
}

/// Case-insensitive match against a lower-case word.
pub open spec fn ci_word(b: Seq<char>, w: Seq<char>) -> bool {
    b.len() == w.len() && forall|i: int| 0 <= i < b.len() ==> ci_char_eq(#[trigger] b[i], w[i])
}

/// The shape of text that reads as a floating-point number: an optional
/// sign, then `inf`, `infinity` or `nan` in any case, or a decimal number
/// with optional fraction and exponent.  Values of any magnitude keep this
/// shape (overflow rounds to infinity rather than failing), so this is
/// exactly the success condition of a float read.
pub open spec fn float_syntax(s: Seq<char>) -> bool {
    let b = if s.len() > 0 && (s[0] == '+' || s[0] == '-') {
        s.drop_first()
    } else {
        s
    };
    ci_word(b, "inf"@) || ci_word(b, "infinity"@) || ci_word(b, "nan"@) || number_syntax(b)
}

fn ci_eq(c: char, lower: char) -> (r: bool)
    ensures
        r == ci_char_eq(c, lower),
{
    c == lower || (c as u32) + 32 == (lower as u32)
}

/// Case-insensitive comparison of `v` from `start` on against a lower-case
/// word.
fn ci_word_at(v: &Vec<char>, start: usize, w: &Vec<char>) -> (r: bool)
    requires
        start <= v@.len(),
    ensures
        r == ci_word(v@.subrange(start as int, v@.len() as int), w@),
{
    let ghost b = v@.subrange(start as int, v@.len() as int);
    if v.len() - start != w.len() {
        return false;
    }
    let mut i: usize = 0;
    while i < w.len()
        invariant
            start + w@.len() == v@.len(),
            v@.len() <= usize::MAX,
            b == v@.subrange(start as int, v@.len() as int),
            i <= w@.len(),
            forall|k: int| 0 <= k < i ==> ci_char_eq(#[trigger] b[k], w@[k]),
        decreases w@.len() - i,
    {
        if !ci_eq(v[start + i], w[i]) {
            assert(!ci_char_eq(b[i as int], w@[i as int]));
            return false;
        }
        i += 1;
    }
    true
}

fn digits_end_exec(v: &Vec<char>, i: usize) -> (r: usize)
    requires
        i <= v@.len(),
    ensures
        r == digits_end(v@, i as int),
        i <= r <= v@.len(),
{
    let mut j: usize = i;
    while j < v.len() && '0' <= v[j] && v[j] <= '9'
        invariant
            i <= j <= v@.len(),
            digits_end(v@, i as int) == digits_end(v@, j as int),
        decreases v@.len() - j,
    {
        j += 1;
    }
    j
}

/// Whether the text has the shape of a floating-point literal; the check is
/// purely syntactic, `float_syntax` gives it exactly.
pub fn float_ok(s: &str) -> (r: bool)
    ensures
        r == float_syntax(s@),
{
    let v = str_chars(s);
    let start: usize = if v.len() > 0 && (v[0] == '+' || v[0] == '-') {
        1
    } else {
        0
    };
    let ghost b = if s@.len() > 0 && (s@[0] == '+' || s@[0] == '-') {
        s@.drop_first()
    } else {
        s@
    };
    proof {
        assert(b =~= v@.subrange(start as int, v@.len() as int));
    }
    let w_inf = str_chars("inf");
    let w_infinity = str_chars("infinity");
    let w_nan = str_chars("nan");
    if ci_word_at(&v, start, &w_inf) || ci_word_at(&v, start, &w_infinity)
        || ci_word_at(&v, start, &w_nan) {
        return true;
    }
    // The number alternative, on the suffix starting at `start`.  Work on a
    // copy of that suffix so the spec indices line up with the vector's.
    let mut body: Vec<char> = Vec::new();
    let mut k: usize = start;
    while k < v.len()
        invariant
            start <= k <= v@.len(),
            body@ =~= v@.subrange(start as int, k as int),
        decreases v@.len() - k,
    {
        body.push(v[k]);
        k += 1;
    }
    proof {
        assert(body@ =~= b);
    }
    number_ok(&body)
}

fn exp_ok_exec(v: &Vec<char>, i: usize) -> (r: bool)
    requires
        i <= v@.len(),
    ensures
        r == exp_ok(v@, i as int),
{
    if i == v.len() {
        return true;
    }
    if !(v[i] == 'e' || v[i] == 'E') {
        return false;
    }
    let j: usize = if i + 1 < v.len() && (v[i + 1] == '+' || v[i + 1] == '-') {
        i + 2
    } else {
        i + 1
    };
    if j >= v.len() {
        return false;
    }
    let e = digits_end_exec(v, j);
    e == v.len()
}

fn number_ok(b: &Vec<char>) -> (r: bool)
    ensures
        r == number_syntax(b@),
{
    let d1 = digits_end_exec(b, 0);
    if d1 > 0 {
        let d2: usize = if d1 < b.len() && b[d1] == '.' {
            digits_end_exec(b, d1 + 1)
        } else {
            d1
        };
        exp_ok_exec(b, d2)
    } else {
        if b.len() >= 2 && b[0] == '.' {
            let d = digits_end_exec(b, 1);
            d > 1 && exp_ok_exec(b, d)
        } else {
            false
        }
    }
}

/// `p` occurs in `s` at position `i`.
pub open spec fn starts_with(s: Seq<char>, i: int, p: Seq<char>) -> bool {
    0 <= i && i + p.len() <= s.len() && s.subrange(i, i + p.len() as int) == p
}

/// Whether `p@` occurs in `v@` at position `i`.
pub fn prefix_at(v: &Vec<char>, i: usize, p: &Vec<char>) -> (r: bool)
    requires
        i <= v@.len(),
    ensures
        r == starts_with(v@, i as int, p@),
{
    if v.len() - i < p.len() {
        return false;
    }
    let mut k: usize = 0;
    while k < p.len()
        invariant
            i + p@.len() <= v@.len(),
            v@.len() <= usize::MAX,
            k <= p@.len(),
            forall|t: int| 0 <= t < k ==> v@[i + t] == p@[t],
        decreases p@.len() - k,
    {
        if v[i + k] != p[k] {
            proof {
                if starts_with(v@, i as int, p@) {
                    assert(v@.subrange(i as int, i + p@.len() as int)[k as int] == v@[i + k]);
                }
            }
            return false;
        }
        k += 1;
    }
    proof {
        assert(v@.subrange(i as int, i + p@.len() as int) =~= p@);
    }
    true
}

/// Index of the first occurrence of `c` in `s` at or after `i`.
pub open spec fn find_char(s: Seq<char>, c: char, i: int) -> Option<int>
    decreases s.len() - i when 0 <= i <= s.len()
{
    if i >= s.len() {
        None
    } else if s[i] == c {
        Some(i)
    } else {
        find_char(s, c, i + 1)
    }
}

pub proof fn lemma_find_char_bounds(s: Seq<char>, c: char, i: int)
    requires
        0 <= i <= s.len(),
    ensures
        match find_char(s, c, i) {
            None => true,
            Some(k) => i <= k < s.len() && s[k] == c,
        },
    decreases s.len() - i,
{
    if i < s.len() && s[i] != c {
        lemma_find_char_bounds(s, c, i + 1);
    }
}

pub fn find_char_from(v: &Vec<char>, c: char, i: usize) -> (r: Option<usize>)
    requires
        i <= v@.len(),
    ensures
        match r {
            None => find_char(v@, c, i as int) is None,
            Some(k) => find_char(v@, c, i as int) == Some(k as int),
        },
{
    let mut j: usize = i;
    while j < v.len()
        invariant
            i <= j <= v@.len(),
            find_char(v@, c, i as int) == find_char(v@, c, j as int),
        decreases v@.len() - j,
    {
        if v[j] == c {
            return Some(j);
        }
        j += 1;
    }
    None
}

/// A copy of `v@[a .. b]`.
pub fn sub_chars(v: &Vec<char>, a: usize, b: usize) -> (r: Vec<char>)
    requires
        a <= b <= v@.len(),
    ensures
        r@ == v@.subrange(a as int, b as int),
{
    let mut r: Vec<char> = Vec::new();
    let mut k: usize = a;
    while k < b
        invariant
            a <= k <= b <= v@.len(),
            r@ =~= v@.subrange(a as int, k as int),
        decreases b - k,
    {
        r.push(v[k]);
        k += 1;
    }
    proof {
        assert(r@ =~= v@.subrange(a as int, b as int));
    }
    r
}

/// The text of `v@[a .. b]`.
pub fn sub_string(v: &Vec<char>, a: usize, b: usize) -> (r: String)
    requires
        a <= b <= v@.len(),
    ensures
        r@ == v@.subrange(a as int, b as int),
{
    let piece = sub_chars(v, a, b);
    chars_string(&piece)
}


/// Shifting a search window: searching the suffix `s.skip(i)` from `j`
/// finds what searching `s` from `i + j` finds, `i` earlier.
pub proof fn lemma_find_char_shift(s: Seq<char>, c: char, i: int, j: int)
    requires
        0 <= i,
        0 <= j,
        i + j <= s.len(),
    ensures
        match find_char(s, c, i + j) {
            None => find_char(s.skip(i), c, j) is None,
            Some(k) => find_char(s.skip(i), c, j) == Some(k - i),
        },
    decreases s.len() - i - j,
{
    if i + j < s.len() {
        assert(s.skip(i)[j] == s[i + j]);
        if s[i + j] != c {
            lemma_find_char_shift(s, c, i, j + 1);
        }
    }
}

pub proof fn lemma_find_char_none(s: Seq<char>, c: char, i: int)
    requires
        0 <= i <= s.len(),
        find_char(s, c, i) is None,
    ensures
        forall|k: int| i <= k < s.len() ==> s[k] != c,
    decreases s.len() - i,
{
    if i < s.len() {
        lemma_find_char_none(s, c, i + 1);
    }
}

} // verus!
