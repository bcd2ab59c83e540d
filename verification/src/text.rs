//! Character and string groundwork: whitespace trimming, decimal numbers,
//! substring containment and case folding, with exact specifications.

use vstd::prelude::*;

verus! {

/// Whether a character counts as whitespace, as Unicode defines it.
pub uninterp spec fn is_whitespace_char(c: char) -> bool;

/// The lowercase folding of a sequence of characters, as Unicode defines it.
pub uninterp spec fn lower_of(s: Seq<char>) -> Seq<char>;

/// Relies on char::is_whitespace: whether the character has the Unicode
/// White_Space property.
#[verifier::external_body]
pub fn char_is_whitespace(c: char) -> (r: bool)
    ensures
        r == is_whitespace_char(c),
{
    c.is_whitespace()
}

/// Relies on str::to_lowercase: the lowercase equivalent of the text, a
/// function of the characters alone; an empty text stays empty.
#[verifier::external_body]
pub fn lowercase(s: &str) -> (r: String)
    ensures
        r@ == lower_of(s@),
        s@.len() == 0 ==> r@.len() == 0,
{
    s.to_lowercase()
}

/// Whether two string slices hold the same characters.
pub fn str_eq(a: &str, b: &str) -> (r: bool)
    ensures
        r == (a@ == b@),
{
    let na: usize = a.unicode_len();
    let nb: usize = b.unicode_len();
    if na != nb {
        return false;
    }
    let mut i: usize = 0;
    while i < na
        invariant
            na == a@.len(),
            na == b@.len(),
            0 <= i <= na,
            forall|j: int| 0 <= j < i ==> a@[j] == b@[j],
        decreases na - i,
    {
        if a.get_char(i) != b.get_char(i) {
            return false;
        }
        i = i + 1;
    }
    proof {
        assert(a@ =~= b@);
    }
    true
}

/// Index of the first character at or after `from` that is not whitespace,
/// or the length of the sequence if there is none.
pub open spec fn first_non_ws(s: Seq<char>, from: int) -> int
    decreases s.len() - from,
{
    if from >= s.len() {
        s.len() as int
    } else if is_whitespace_char(s[from]) {
        first_non_ws(s, from + 1)
    } else {
        from
    }
}

/// Index of the last character at or before `from` that is not whitespace,
/// or -1 if there is none.
pub open spec fn last_non_ws(s: Seq<char>, from: int) -> int
    decreases from + 1,
{
    if from < 0 {
        -1
    } else if is_whitespace_char(s[from]) {
        last_non_ws(s, from - 1)
    } else {
        from
    }
}

/// The sequence with leading and trailing whitespace removed.
pub open spec fn trimmed(s: Seq<char>) -> Seq<char> {
    let a = first_non_ws(s, 0);
    let b = last_non_ws(s, s.len() - 1);
    if a > b {
        Seq::empty()
    } else {
        s.subrange(a, b + 1)
    }
}

proof fn lemma_first_non_ws_ge(s: Seq<char>, from: int)
    requires
        from <= s.len(),
    ensures
        first_non_ws(s, from) >= from,
    decreases s.len() - from,
{
    if from < s.len() && is_whitespace_char(s[from]) {
        lemma_first_non_ws_ge(s, from + 1);
    }
}

proof fn lemma_last_non_ws_le(s: Seq<char>, from: int)
    requires
        from >= -1,
    ensures
        last_non_ws(s, from) <= from,
    decreases from + 1,
{
    if from >= 0 && is_whitespace_char(s[from]) {
        lemma_last_non_ws_le(s, from - 1);
    }
}

proof fn lemma_last_non_ws_at_least(s: Seq<char>, from: int, k: int)
    requires
        0 <= k <= from < s.len(),
        !is_whitespace_char(s[k]),
    ensures
        last_non_ws(s, from) >= k,
    decreases from + 1,
{
    if is_whitespace_char(s[from]) {
        lemma_last_non_ws_at_least(s, from - 1, k);
    }
}

/// Removes leading and trailing whitespace.
pub fn trim(s: &str) -> (r: String)
    ensures
        r@ == trimmed(s@),
{
    let n: usize = s.unicode_len();
    let mut a: usize = 0;
    while a < n && char_is_whitespace(s.get_char(a))
        invariant
            n == s@.len(),
            0 <= a <= n,
            first_non_ws(s@, 0) == first_non_ws(s@, a as int),
        decreases n - a,
    {
        a = a + 1;
    }
    let mut end: usize = n;
    while end > 0 && char_is_whitespace(s.get_char(end - 1))
        invariant
            n == s@.len(),
            0 <= end <= n,
            last_non_ws(s@, n as int - 1) == last_non_ws(s@, end as int - 1),
        decreases end,
    {
        end = end - 1;
    }
    proof {
        lemma_first_non_ws_ge(s@, a as int);
        lemma_last_non_ws_le(s@, end as int - 1);
    }
    if a >= end {
        proof {
            // No character that is not whitespace can exist: the forward scan
            // stopped at `a` and the backward scan at `end <= a`.
            if a < n {
                assert(!is_whitespace_char(s@[a as int]));
                lemma_last_non_ws_at_least(s@, n as int - 1, a as int);
                assert(last_non_ws(s@, n as int - 1) >= a);
                assert(last_non_ws(s@, end as int - 1) <= end - 1 < a);
                assert(false);
            }
            assert(a == n);
            assert(first_non_ws(s@, 0) == n);
            assert(last_non_ws(s@, s@.len() - 1) <= n - 1);
            assert(trimmed(s@) =~= Seq::empty());
        }
        String::new()
    } else {
        proof {
            assert(a < n);
            assert(!is_whitespace_char(s@[a as int]));
            assert(first_non_ws(s@, 0) == a);
            assert(end > 0);
            assert(!is_whitespace_char(s@[end as int - 1]));
            assert(last_non_ws(s@, s@.len() - 1) == end - 1);
        }
        String::from_str(s.substring_char(a, end))
    }
}

/// Whether the character is a decimal digit.
pub open spec fn is_digit(c: char) -> bool {
    '0' <= c && c <= '9'
}

/// The numeric value of a decimal digit character.
pub open spec fn digit_val(c: char) -> int {
    c as int - '0' as int
}

/// Whether every character of the sequence is a decimal digit.
pub open spec fn all_digits(s: Seq<char>) -> bool {
    forall|i: int| 0 <= i < s.len() ==> is_digit(s[i])
}

/// The value of a sequence of decimal digit characters.
pub open spec fn dec_val(s: Seq<char>) -> int
    decreases s.len(),
{
    if s.len() == 0 {
        0
    } else {
        dec_val(s.drop_last()) * 10 + digit_val(s.last())
    }
}

proof fn lemma_dec_val_nonneg(s: Seq<char>)
    requires
        all_digits(s),
    ensures
        dec_val(s) >= 0,
    decreases s.len(),
{
    if s.len() > 0 {
        assert(all_digits(s.drop_last()));
        lemma_dec_val_nonneg(s.drop_last());
        assert(dec_val(s.drop_last()) * 10 >= 0) by (nonlinear_arith)
            requires
                dec_val(s.drop_last()) >= 0,
        ;
        assert(digit_val(s.last()) >= 0);
    }
}

/// The parse of a numeric attribute value: defined exactly when the text is
/// one or more decimal digits whose value fits the machine word.
pub open spec fn parse_usize_v(s: Seq<char>) -> Option<int> {
    if s.len() > 0 && all_digits(s) && 0 <= dec_val(s) <= usize::MAX {
        Some(dec_val(s))
    } else {
        None
    }
}

proof fn lemma_dec_val_grows(s: Seq<char>, i: int)
    requires
        all_digits(s),
        0 <= i <= s.len(),
    ensures
        dec_val(s) >= dec_val(s.take(i)),
    decreases s.len() - i,
{
    if i < s.len() {
        lemma_dec_val_grows(s, i + 1);
        let t = s.take(i + 1);
        assert(t.drop_last() =~= s.take(i));
        assert(t.last() == s[i]);
        assert(all_digits(s.take(i)));
        lemma_dec_val_nonneg(s.take(i));
        assert(dec_val(t) == dec_val(s.take(i)) * 10 + digit_val(s[i]));
        assert(dec_val(s.take(i)) * 10 >= dec_val(s.take(i))) by (nonlinear_arith)
            requires
                dec_val(s.take(i)) >= 0,
        ;
        assert(digit_val(s[i]) >= 0);
    } else {
        assert(s.take(i) =~= s);
    }
}

/// Parses a string of decimal digits; absent exactly when the string is
/// empty, holds a non-digit, or overflows the machine word.
pub fn parse_usize(s: &str) -> (r: Option<usize>)
    ensures
        match parse_usize_v(s@) {
            Some(v) => r == Some(v as usize),
            None => r is None,
        },
{
    let n: usize = s.unicode_len();
    if n == 0 {
        return None;
    }
    let mut val: usize = 0;
    let mut i: usize = 0;
    while i < n
        invariant
            n == s@.len(),
            n > 0,
            0 <= i <= n,
            all_digits(s@.take(i as int)),
            val == dec_val(s@.take(i as int)),
        decreases n - i,
    {
        let c = s.get_char(i);
        if c < '0' || c > '9' {
            proof {
                assert(!is_digit(s@[i as int]));
                assert(!all_digits(s@));
            }
            return None;
        }
        let d: usize = (c as u32 - '0' as u32) as usize;
        proof {
            assert(is_digit(s@[i as int]));
            assert(d == digit_val(s@[i as int]));
            let t = s@.take(i as int + 1);
            assert(t.drop_last() =~= s@.take(i as int));
            assert(t.last() == s@[i as int]);
            assert(all_digits(t));
            assert(dec_val(t) == val * 10 + d);
        }
        let stepped: Option<usize> = match val.checked_mul(10) {
            Some(v10) => v10.checked_add(d),
            None => None,
        };
        match stepped {
            Some(v) => {
                val = v;
            },
            None => {
                proof {
                    let t = s@.take(i as int + 1);
                    assert(dec_val(t) > usize::MAX);
                    if all_digits(s@) {
                        lemma_dec_val_grows(s@, i as int + 1);
                        assert(dec_val(s@) >= dec_val(t));
                    }
                    assert(parse_usize_v(s@) is None);
                }
                return None;
            },
        }
        i = i + 1;
    }
    proof {
        assert(s@.take(n as int) =~= s@);
    }
    Some(val)
}

/// Index of the first decimal digit at or after `from`, or the length of the
/// sequence if there is none.
pub open spec fn first_digit(s: Seq<char>, from: int) -> int
    decreases s.len() - from,
{
    if from >= s.len() {
        s.len() as int
    } else if is_digit(s[from]) {
        from
    } else {
        first_digit(s, from + 1)
    }
}

/// End of the run of decimal digits that starts at `from`.
pub open spec fn digit_run_end(s: Seq<char>, from: int) -> int
    decreases s.len() - from,
{
    if from >= s.len() || !is_digit(s[from]) {
        from
    } else {
        digit_run_end(s, from + 1)
    }
}

proof fn lemma_digit_run_end_ge(s: Seq<char>, from: int)
    ensures
        digit_run_end(s, from) >= from,
    decreases s.len() - from,
{
    if from < s.len() && is_digit(s[from]) {
        lemma_digit_run_end_ge(s, from + 1);
    }
}

/// The lexicon number carried by an attribute value: the value of the first
/// run of one to four decimal digits, or absent if the value holds no digit.
pub open spec fn lex_num_v(s: Seq<char>) -> Option<int> {
    let a = first_digit(s, 0);
    if a == s.len() {
        None
    } else {
        let e = digit_run_end(s, a);
        let b = if e > a + 4 { a + 4 } else { e };
        Some(dec_val(s.subrange(a, b)))
    }
}

proof fn lemma_dec_val_bounded(s: Seq<char>, k: int)
    requires
        all_digits(s),
        s.len() <= k,
        0 <= k <= 4,
    ensures
        dec_val(s) < pow_ten(k),
    decreases s.len(),
{
    if s.len() == 0 {
        assert(pow_ten(k) >= 1) by {
            assert(pow_ten(0) == 1);
            assert(pow_ten(1) == 10);
            assert(pow_ten(2) == 100);
            assert(pow_ten(3) == 1000);
            assert(pow_ten(4) == 10000);
        }
    } else {
        assert(all_digits(s.drop_last()));
        lemma_dec_val_bounded(s.drop_last(), k - 1);
        lemma_dec_val_nonneg(s.drop_last());
        assert(dec_val(s.drop_last()) * 10 <= (pow_ten(k - 1) - 1) * 10) by (nonlinear_arith)
            requires
                dec_val(s.drop_last()) <= pow_ten(k - 1) - 1,
        ;
        assert(digit_val(s.last()) <= 9);
        assert(pow_ten(k) == 10 * pow_ten(k - 1));
    }
}

/// Ten to a small power.
pub open spec fn pow_ten(k: int) -> int
    decreases k,
{
    if k <= 0 {
        1
    } else {
        10 * pow_ten(k - 1)
    }
}

/// Extracts the first run of one to four decimal digits, ignoring
/// surrounding non-digit characters; absent if the text holds no digit.
pub fn extract_lex_num(s: &str) -> (r: Option<i32>)
    ensures
        match lex_num_v(s@) {
            Some(v) => r == Some(v as i32) && 0 <= v < 10000,
            None => r is None,
        },
{
    let n: usize = s.unicode_len();
    let mut a: usize = 0;
    while a < n && (s.get_char(a) < '0' || s.get_char(a) > '9')
        invariant
            n == s@.len(),
            0 <= a <= n,
            first_digit(s@, 0) == first_digit(s@, a as int),
        decreases n - a,
    {
        a = a + 1;
    }
    if a == n {
        proof {
            assert(first_digit(s@, 0) == n);
        }
        return None;
    }
    proof {
        assert(is_digit(s@[a as int]));
        assert(first_digit(s@, 0) == a);
    }
    let mut b: usize = a;
    let mut val: i32 = 0;
    while b < n && b - a < 4 && s.get_char(b) >= '0' && s.get_char(b) <= '9'
        invariant
            n == s@.len(),
            0 <= a <= b <= n,
            a <= b <= a + 4,
            is_digit(s@[a as int]),
            first_digit(s@, 0) == a,
            all_digits(s@.subrange(a as int, b as int)),
            val == dec_val(s@.subrange(a as int, b as int)),
            0 <= val < 10000,
            digit_run_end(s@, a as int) == digit_run_end(s@, b as int),
        decreases n - b,
    {
        let c = s.get_char(b);
        let d: i32 = (c as u32 - '0' as u32) as i32;
        proof {
            assert(is_digit(s@[b as int]));
            assert(d == digit_val(s@[b as int]));
            let t = s@.subrange(a as int, b as int + 1);
            assert(t.drop_last() =~= s@.subrange(a as int, b as int));
            assert(t.last() == s@[b as int]);
            assert(all_digits(t));
            lemma_dec_val_bounded(s@.subrange(a as int, b as int), 3);
            assert(pow_ten(0) == 1);
            assert(pow_ten(1) == 10);
            assert(pow_ten(2) == 100);
            assert(pow_ten(3) == 1000);
            assert(val < 1000);
        }
        val = val * 10 + d;
        b = b + 1;
    }
    proof {
        let e = digit_run_end(s@, a as int);
        lemma_digit_run_end_ge(s@, b as int);
        let cut = if e > a as int + 4 { a as int + 4 } else { e };
        if b < n && b < a + 4 {
            // the scan stopped on a non-digit
            assert(!is_digit(s@[b as int]));
            assert(digit_run_end(s@, b as int) == b);
            assert(cut == b);
        } else if b == a + 4 {
            assert(e >= b);
            assert(cut == b);
        } else {
            assert(b == n);
            assert(digit_run_end(s@, b as int) == b);
            assert(cut == b);
        }
        assert(lex_num_v(s@) == Some(dec_val(s@.subrange(a as int, b as int))));
        lemma_dec_val_bounded(s@.subrange(a as int, b as int), 4);
        assert(pow_ten(0) == 1);
        assert(pow_ten(1) == 10);
        assert(pow_ten(2) == 100);
        assert(pow_ten(3) == 1000);
        assert(pow_ten(4) == 10000);
        lemma_dec_val_nonneg(s@.subrange(a as int, b as int));
    }
    Some(val)
}

/// Whether `needle` occurs at position `i` of `hay`.
pub open spec fn match_at(hay: Seq<char>, needle: Seq<char>, i: int) -> bool {
    0 <= i && i + needle.len() <= hay.len() && hay.subrange(i, i + needle.len()) == needle
}

/// Whether `needle` occurs somewhere in `hay` as a contiguous substring.
pub open spec fn contains_seq(hay: Seq<char>, needle: Seq<char>) -> bool {
    exists|i: int| match_at(hay, needle, i)
}

/// Whether `needle` occurs in `hay` as a contiguous substring.
pub fn contains_sub(hay: &str, needle: &str) -> (r: bool)
    ensures
        r == contains_seq(hay@, needle@),
{
    let nh: usize = hay.unicode_len();
    let nn: usize = needle.unicode_len();
    if nn > nh {
        proof {
            assert(forall|i: int| !match_at(hay@, needle@, i));
        }
        return false;
    }
    if nn == 0 {
        proof {
            assert(hay@.subrange(0, 0) =~= needle@);
            assert(match_at(hay@, needle@, 0));
        }
        return true;
    }
    let mut i: usize = 0;
    while i <= nh - nn
        invariant
            nh == hay@.len(),
            nn == needle@.len(),
            0 < nn <= nh,
            0 <= i <= nh - nn + 1,
            forall|k: int| 0 <= k < i ==> !match_at(hay@, needle@, k),
        decreases nh - nn + 1 - i,
    {
        let mut j: usize = 0;
        let mut hit: bool = true;
        while j < nn
            invariant
                nh == hay@.len(),
                nn == needle@.len(),
                nn <= nh,
                0 <= i <= nh - nn,
                0 <= j <= nn,
                hit ==> forall|k: int| 0 <= k < j ==> hay@[i + k] == needle@[k],
                !hit ==> !match_at(hay@, needle@, i as int),
            decreases nn - j,
        {
            if hay.get_char(i + j) != needle.get_char(j) {
                proof {
                    if match_at(hay@, needle@, i as int) {
                        assert(hay@.subrange(i as int, i + nn as int)[j as int]
                            == needle@[j as int]);
                    }
                }
                hit = false;
                j = nn;
            } else {
                j = j + 1;
            }
        }
        if hit {
            proof {
                assert(hay@.subrange(i as int, i + nn as int) =~= needle@);
                assert(match_at(hay@, needle@, i as int));
            }
            return true;
        }
        i = i + 1;
    }
    proof {
        assert(forall|k: int| match_at(hay@, needle@, k) ==> 0 <= k <= nh - nn);
    }
    false
}

/// The character for a decimal digit value.
pub open spec fn digit_char(d: int) -> char {
    if d == 0 {
        '0'
    } else if d == 1 {
        '1'
    } else if d == 2 {
        '2'
    } else if d == 3 {
        '3'
    } else if d == 4 {
        '4'
    } else if d == 5 {
        '5'
    } else if d == 6 {
        '6'
    } else if d == 7 {
        '7'
    } else if d == 8 {
        '8'
    } else {
        '9'
    }
}

/// The decimal representation of a non-negative number.
pub open spec fn dec_rep(n: int) -> Seq<char>
    decreases n,
{
    if n < 10 {
        seq![digit_char(n)]
    } else {
        dec_rep(n / 10).push(digit_char(n % 10))
    }
}

fn digit_str(d: usize) -> (r: &'static str)
    requires
        d < 10,
    ensures
        r@ == seq![digit_char(d as int)],
{
    proof {
        reveal_strlit("0");
        reveal_strlit("1");
        reveal_strlit("2");
        reveal_strlit("3");
        reveal_strlit("4");
        reveal_strlit("5");
        reveal_strlit("6");
        reveal_strlit("7");
        reveal_strlit("8");
        reveal_strlit("9");
    }
    let r = match d {
        0 => "0",
        1 => "1",
        2 => "2",
        3 => "3",
        4 => "4",
        5 => "5",
        6 => "6",
        7 => "7",
        8 => "8",
        _ => "9",
    };
    proof {
        assert(r@ =~= seq![digit_char(d as int)]);
    }
    r
}

/// Writes a number in decimal.
pub fn usize_to_string(n: usize) -> (r: String)
    ensures
        r@ == dec_rep(n as int),
    decreases n,
{
    if n < 10 {
        String::from_str(digit_str(n))
    } else {
        let mut s = usize_to_string(n / 10);
        s.append(digit_str(n % 10));
        proof {
            assert(dec_rep(n as int / 10) + seq![digit_char(n as int % 10)] =~= dec_rep(
                n as int / 10,
            ).push(digit_char(n as int % 10)));
        }
        s
    }
}

} // verus!
