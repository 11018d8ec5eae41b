//! Numbers in text.

use vstd::prelude::*;

use crate::fixed::{law_rounding_to_even_is_closest, magnitude, nearest_even, within};
use crate::text::{
    chars_of, decimal, digit, is_digit, lower, padded, part_of, rounded, signed_decimal, small,
    ten_to, zeros,
};

verus! {

/// The value of a digit.
pub open spec fn digit_value(c: char) -> int {
    c as int - '0' as int
}

/// Whether every character is a digit.
pub open spec fn all_digits(s: Seq<char>) -> bool {
    forall|i: int| 0 <= i < s.len() ==> is_digit(#[trigger] s[i])
}

/// The number that some digits write.
pub open spec fn value_of(s: Seq<char>) -> int
    decreases s.len(),
{
    if s.len() == 0 {
        0
    } else {
        10 * value_of(s.drop_last()) + digit_value(s.last())
    }
}

/// The whole number that a text writes: an optional sign and at least one digit.
pub open spec fn whole_number(s: Seq<char>) -> Option<int> {
    let signed = s.len() > 0 && (s[0] == '+' || s[0] == '-');
    let digits = if signed {
        s.skip(1)
    } else {
        s
    };
    if digits.len() == 0 || !all_digits(digits) {
        None
    } else if s[0] == '-' {
        Some(-value_of(digits))
    } else {
        Some(value_of(digits))
    }
}

pub proof fn lemma_value_grows(s: Seq<char>, n: int)
    requires
        all_digits(s),
        0 <= n <= s.len(),
    ensures
        0 <= value_of(s.take(n)) <= value_of(s),
    decreases s.len(),
{
    if n == s.len() {
        assert(s.take(n) =~= s);
        lemma_value_positive(s);
    } else {
        let t = s.drop_last();
        assert(all_digits(t)) by {
            assert forall|i: int| 0 <= i < t.len() implies is_digit(#[trigger] t[i]) by {
                assert(t[i] == s[i]);
            }
        }
        lemma_value_grows(t, n);
        assert(t.take(n) =~= s.take(n));
        assert(is_digit(s[s.len() - 1]));
    }
}

pub proof fn lemma_value_positive(s: Seq<char>)
    requires
        all_digits(s),
    ensures
        0 <= value_of(s),
    decreases s.len(),
{
    if s.len() > 0 {
        let t = s.drop_last();
        assert(all_digits(t)) by {
            assert forall|i: int| 0 <= i < t.len() implies is_digit(#[trigger] t[i]) by {
                assert(t[i] == s[i]);
            }
        }
        lemma_value_positive(t);
        assert(is_digit(s[s.len() - 1]));
    }
}

/// Reads a whole number, as `str::parse` does for `i64`: an optional sign and at least one
/// digit, within the range.
pub fn parse_i64(s: &[char]) -> (n: Option<i64>)
    ensures
        match n {
            Some(v) => whole_number(s@) == Some(v as int),
            None => match whole_number(s@) {
                Some(v) => v < i64::MIN || v > i64::MAX,
                None => true,
            },
        },
{
    let len: usize = s.len();
    if len == 0 {
        return None;
    }
    let negative: bool = s[0] == '-';
    let from: usize = if negative || s[0] == '+' {
        1
    } else {
        0
    };
    if from == len {
        assert(s@.skip(1).len() == 0);
        return None;
    }
    let ghost digits = if from == 1 {
        s@.skip(1)
    } else {
        s@
    };
    let mut v: i128 = 0;
    let mut over: bool = false;
    let mut i: usize = from;
    assert(digits.take(0) =~= Seq::empty());
    while i < len
        invariant
            len == s@.len(),
            from <= i <= len,
            len > 0,
            from == if s@[0] == '-' || s@[0] == '+' {
                1int
            } else {
                0int
            },
            digits == if from == 1 {
                s@.skip(1)
            } else {
                s@
            },
            digits.len() == len - from,
            forall|j: int| 0 <= j < i - from ==> is_digit(#[trigger] digits[j]),
            !over ==> v == value_of(digits.take(i - from)) && 0 <= v <= 0x8000_0000_0000_0000,
            over ==> value_of(digits.take(i - from)) > 0x8000_0000_0000_0000,
        decreases len - i,
    {
        let c: char = s[i];
        assert(digits[i - from] == c);
        if c < '0' || c > '9' {
            assert(!is_digit(digits[i - from]));
            return None;
        }
        let d: i128 = (c as u32 - '0' as u32) as i128;
        proof {
            let longer = digits.take(i - from + 1);
            assert(longer.drop_last() =~= digits.take(i - from));
            assert(longer.last() == c);
        }
        if !over {
            v = 10 * v + d;
            if v > 0x8000_0000_0000_0000 {
                over = true;
            }
        }
        i = i + 1;
    }
    assert(digits.take(i - from) =~= digits);
    assert(all_digits(digits));
    if over {
        return None;
    }
    if negative {
        Some((-v) as i64)
    } else if v <= 0x7fff_ffff_ffff_ffff {
        Some(v as i64)
    } else {
        None
    }
}

/// Whether a text is a word, in letters of any case.
pub open spec fn is_word(s: Seq<char>, word: Seq<char>) -> bool {
    s.len() == word.len() && forall|i: int| 0 <= i < s.len() ==> small(#[trigger] s[i]) == word[i]
}

/// The first position at or after `from` without a digit.
pub open spec fn digits_end(s: Seq<char>, from: int) -> int
    decreases s.len() - from,
{
    if from < 0 || from >= s.len() || !is_digit(s[from]) {
        from
    } else {
        digits_end(s, from + 1)
    }
}

/// Whether what stands from `i` on is empty or an exponent: a letter e, an optional sign and
/// digits.
pub open spec fn exponent_from(s: Seq<char>, i: int) -> bool {
    let j = if i + 1 < s.len() && (s[i + 1] == '+' || s[i + 1] == '-') {
        i + 2
    } else {
        i + 1
    };
    i == s.len() || (i < s.len() && small(s[i]) == 'e' && j < s.len() && digits_end(s, j)
        == s.len())
}

/// Whether a text without a sign writes a decimal number: digits with at most one point among
/// them, at least one digit, and an optional exponent.
pub open spec fn decimal_number(s: Seq<char>) -> bool {
    let a = digits_end(s, 0);
    if a < s.len() && s[a] == '.' {
        let b = digits_end(s, a + 1);
        (a > 0 || b > a + 1) && exponent_from(s, b)
    } else {
        a > 0 && exponent_from(s, a)
    }
}

/// Whether a text writes a number with decimals, as `str::parse` accepts it: an optional sign,
/// and a decimal number or one of the words for infinity and for no number.
pub open spec fn is_number(s: Seq<char>) -> bool {
    let t = if s.len() > 0 && (s[0] == '+' || s[0] == '-') {
        s.skip(1)
    } else {
        s
    };
    is_word(t, "inf"@) || is_word(t, "infinity"@) || is_word(t, "nan"@) || decimal_number(t)
}

fn same_word(s: &[char], word: &str) -> (r: bool)
    ensures
        r == is_word(s@, word@),
{
    let w: Vec<char> = chars_of(word);
    if s.len() != w.len() {
        return false;
    }
    let mut i: usize = 0;
    while i < s.len()
        invariant
            i <= s@.len() == w@.len(),
            w@ == word@,
            forall|j: int| 0 <= j < i ==> small(#[trigger] s@[j]) == word@[j],
        decreases s@.len() - i,
    {
        if lower(s[i]) != w[i] {
            assert(small(s@[i as int]) != word@[i as int]);
            return false;
        }
        i = i + 1;
    }
    true
}

fn skip_digits(s: &[char], from: usize) -> (end: usize)
    requires
        from <= s@.len(),
    ensures
        end == digits_end(s@, from as int),
        from <= end <= s@.len(),
{
    let mut i: usize = from;
    while i < s.len() && '0' <= s[i] && s[i] <= '9'
        invariant
            from <= i <= s@.len(),
            digits_end(s@, from as int) == digits_end(s@, i as int),
        decreases s@.len() - i,
    {
        i = i + 1;
    }
    i
}

fn is_exponent(s: &[char], i: usize) -> (r: bool)
    requires
        i <= s@.len(),
    ensures
        r == exponent_from(s@, i as int),
{
    let len: usize = s.len();
    if i == len {
        return true;
    }
    if lower(s[i]) != 'e' {
        return false;
    }
    let mut j: usize = i + 1;
    if j < len && (s[j] == '+' || s[j] == '-') {
        j = j + 1;
    }
    j < len && skip_digits(s, j) == len
}

/// Whether a text writes a number with decimals.
pub fn is_number_text(s: &[char]) -> (r: bool)
    ensures
        r == is_number(s@),
{
    let len: usize = s.len();
    let from: usize = if len > 0 && (s[0] == '+' || s[0] == '-') {
        1
    } else {
        0
    };
    let t: Vec<char> = part_of(s, from, len);
    assert(s@.skip(0) =~= s@);
    assert(t@ =~= s@.skip(from as int));
    if same_word(t.as_slice(), "inf") || same_word(t.as_slice(), "infinity") || same_word(
        t.as_slice(),
        "nan",
    ) {
        return true;
    }
    let a: usize = skip_digits(t.as_slice(), 0);
    if a < t.len() && t[a] == '.' {
        let b: usize = skip_digits(t.as_slice(), a + 1);
        (a > 0 || b > a + 1) && is_exponent(t.as_slice(), b)
    } else {
        a > 0 && is_exponent(t.as_slice(), a)
    }
}

/// The digits of a decimal number without its point: those before `a`, and those between the
/// point at `a` and `b`.
pub open spec fn digits_around(s: Seq<char>, a: int, b: int) -> Seq<char> {
    if a < b {
        s.take(a) + s.subrange(a + 1, b)
    } else {
        s.take(a)
    }
}

/// The number that some digits write with a point behind the first `k` of them, to the nearest
/// whole number, halves away from zero: rounded at the first digit behind the point.
pub open spec fn rounded_at(digits: Seq<char>, k: int) -> int {
    if k < 0 {
        0
    } else if k < digits.len() {
        value_of(digits.take(k)) + if digit_value(digits[k]) >= 5 {
            1int
        } else {
            0int
        }
    } else {
        value_of(digits) * ten_to((k - digits.len()) as nat)
    }
}

/// A decimal number without a sign in millionths; none where the text writes none, or has an
/// exponent out of range.
pub open spec fn unsigned_fixed(s: Seq<char>) -> Option<int> {
    let a = digits_end(s, 0);
    let b = if a < s.len() && s[a] == '.' {
        digits_end(s, a + 1)
    } else {
        a
    };
    let exponent = if b < s.len() {
        whole_number(s.skip(b + 1))
    } else {
        Some(0)
    };
    if !decimal_number(s) {
        None
    } else {
        match exponent {
            Some(e) if i64::MIN <= e <= i64::MAX => Some(
                rounded_at(digits_around(s, a, b), a + e + 6),
            ),
            _ => None,
        }
    }
}

/// A decimal number in millionths, limited to the range; none where the text writes none.
pub open spec fn fixed_of(s: Seq<char>) -> Option<int> {
    let negative = s.len() > 0 && s[0] == '-';
    let t = if negative || (s.len() > 0 && s[0] == '+') {
        s.skip(1)
    } else {
        s
    };
    match unsigned_fixed(t) {
        Some(v) => Some(
            within(
                if negative {
                    -v
                } else {
                    v
                },
                -i64::MAX as int,
                i64::MAX as int,
            ),
        ),
        None => None,
    }
}

proof fn lemma_digits_run(s: Seq<char>, from: int)
    requires
        0 <= from <= s.len(),
    ensures
        from <= digits_end(s, from) <= s.len(),
        forall|i: int| from <= i < digits_end(s, from) ==> is_digit(#[trigger] s[i]),
    decreases s.len() - from,
{
    if from < s.len() && is_digit(s[from]) {
        lemma_digits_run(s, from + 1);
    }
}

/// The limit at which numbers are cut off while they are read.
const CUT: u128 = 0x8000_0000_0000_0000;

fn round_digits(digits: &[char], k: i128) -> (v: u128)
    requires
        all_digits(digits@),
    ensures
        v <= CUT,
        v == rounded_at(digits@, k as int) || (v == CUT && rounded_at(digits@, k as int) >= CUT),
{
    let len: usize = digits.len();
    if k < 0 {
        return 0;
    }
    let mut v: u128 = 0;
    let mut i: usize = 0;
    let ghost mut whole: int = 0;
    let to: usize = if k < len as i128 {
        k as usize
    } else {
        len
    };
    assert(digits@.take(0) =~= Seq::empty());
    while i < to
        invariant
            i <= to <= len == digits@.len(),
            all_digits(digits@),
            whole == value_of(digits@.take(i as int)),
            0 <= whole,
            v <= CUT,
            v == whole || (v == CUT && whole >= CUT),
        decreases to - i,
    {
        let c: char = digits[i];
        assert(is_digit(digits@[i as int]));
        let d: u128 = (c as u32 - '0' as u32) as u128;
        v = 10 * v + d;
        if v > CUT {
            v = CUT;
        }
        proof {
            let more = digits@.take(i + 1);
            assert(more.drop_last() =~= digits@.take(i as int));
            whole = value_of(more);
        }
        i = i + 1;
    }
    if to < len {
        let c: char = digits[to];
        assert(is_digit(digits@[to as int]));
        if c as u32 - '0' as u32 >= 5 && v < CUT {
            return v + 1;
        }
        return v;
    }
    assert(digits@.take(len as int) =~= digits@);
    if v == 0 {
        proof {
            assert(0 * ten_to((k - len) as nat) == 0) by (nonlinear_arith);
        }
        return 0;
    }
    let mut left: i128 = k - len as i128;
    let ghost start = whole;
    assert(start * ten_to(0) == start) by (nonlinear_arith)
        requires
            ten_to(0) == 1,
    ;
    while left > 0 && v < CUT
        invariant
            0 <= left <= k - len,
            v <= CUT,
            0 < whole,
            v == whole || (v == CUT && whole >= CUT),
            whole == start * ten_to((k - len - left) as nat),
        decreases left,
    {
        proof {
            let n = (k - len - left) as nat;
            assert(start * ten_to(n + 1) == 10 * (start * ten_to(n)))
                by (nonlinear_arith)
                requires
                    ten_to(n + 1) == 10 * ten_to(n),
            ;
            whole = 10 * whole;
        }
        v = 10 * v;
        if v > CUT {
            v = CUT;
        }
        left = left - 1;
    }
    proof {
        lemma_scaling_grows(start, (k - len - left) as nat, (k - len) as nat);
    }
    v
}

proof fn lemma_scaling_grows(v: int, m: nat, n: nat)
    requires
        0 < v,
        m <= n,
    ensures
        v * ten_to(m) <= v * ten_to(n),
    decreases n,
{
    if m < n {
        lemma_scaling_grows(v, m, (n - 1) as nat);
        let a = ten_to((n - 1) as nat);
        assert(v * (10 * a) >= v * a) by (nonlinear_arith)
            requires
                v > 0,
                a >= 0,
        ;
    }
}

/// Reads a decimal number in millionths, to the nearest, limited to the range. None where the
/// text writes none.
pub fn parse_fixed(s: &[char]) -> (v: Option<i64>)
    ensures
        match v {
            Some(n) => fixed_of(s@) == Some(n as int),
            None => fixed_of(s@) is None,
        },
{
    let len: usize = s.len();
    let negative: bool = len > 0 && s[0] == '-';
    let from: usize = if negative || (len > 0 && s[0] == '+') {
        1
    } else {
        0
    };
    let t: Vec<char> = part_of(s, from, len);
    assert(s@.skip(0) =~= s@);
    assert(t@ =~= s@.skip(from as int));
    let n: usize = t.len();
    let a: usize = skip_digits(t.as_slice(), 0);
    let pointed: bool = a < n && t[a] == '.';
    let b: usize = if pointed {
        skip_digits(t.as_slice(), a + 1)
    } else {
        a
    };
    let enough: bool = if pointed {
        a > 0 || b > a + 1
    } else {
        a > 0
    };
    if !enough || !is_exponent(t.as_slice(), b) {
        return None;
    }
    let mut exponent: i64 = 0;
    if b < n {
        let tail: Vec<char> = part_of(t.as_slice(), b + 1, n);
        assert(tail@ =~= t@.skip(b + 1));
        match parse_i64(tail.as_slice()) {
            Some(e) => {
                exponent = e;
            },
            None => {
                return None;
            },
        }
    }
    let mut digits: Vec<char> = part_of(t.as_slice(), 0, a);
    assert(digits@ =~= t@.take(a as int));
    if a < b {
        let mut more: Vec<char> = part_of(t.as_slice(), a + 1, b);
        digits.append(&mut more);
    }
    proof {
        lemma_digits_run(t@, 0);
        if pointed {
            lemma_digits_run(t@, a + 1);
        }
        assert(digits@ =~= digits_around(t@, a as int, b as int));
        assert forall|i: int| 0 <= i < digits@.len() implies is_digit(#[trigger] digits@[i]) by {
            if i < a {
                assert(digits@[i] == t@[i]);
            } else {
                assert(digits@[i] == t@[i + 1]);
            }
        }
    }
    let v: u128 = round_digits(digits.as_slice(), a as i128 + exponent as i128 + 6);
    let r: i64 = if v >= CUT {
        i64::MAX
    } else {
        v as i64
    };
    if negative {
        Some(-r)
    } else {
        Some(r)
    }
}

/// A number written out reads back as itself, with its sign; leading zeros do not change it.
pub proof fn law_written_numbers_read_back(n: nat, m: int, width: nat)
    ensures
        all_digits(decimal(n)),
        value_of(decimal(n)) == n,
        whole_number(decimal(n)) == Some(n as int),
        whole_number(signed_decimal(m)) == Some(m),
        value_of(padded(n, width)) == n,
        all_digits(padded(n, width)),
        padded(n, width).len() >= width,
        n < ten_to(width) && width > 0 ==> padded(n, width).len() == width,
{
    lemma_reads_back(n);
    assert(decimal(n)[0] != '-' && decimal(n)[0] != '+') by {
        assert(is_digit(decimal(n)[0]));
    }
    if m < 0 {
        let d = decimal((-m) as nat);
        lemma_reads_back((-m) as nat);
        assert(signed_decimal(m)[0] == '-');
        assert(signed_decimal(m).skip(1) =~= d);
    } else {
        lemma_reads_back(m as nat);
        let d = decimal(m as nat);
        assert(is_digit(d[0]));
    }
    let d = decimal(n);
    if d.len() < width {
        lemma_leading_zeros((width - d.len()) as nat, d);
    }
    if n < ten_to(width) && width > 0 {
        lemma_short(n, width);
    }
}

proof fn lemma_short(n: nat, width: nat)
    requires
        n < ten_to(width),
        width > 0,
    ensures
        decimal(n).len() <= width,
    decreases width,
{
    if n >= 10 {
        if width == 1 {
            assert(ten_to(1) == 10 * ten_to(0));
            assert(ten_to(0) == 1);
        } else {
            assert(ten_to(width) == 10 * ten_to((width - 1) as nat));
            lemma_short(n / 10, (width - 1) as nat);
        }
    }
}

proof fn lemma_reads_back(n: nat)
    ensures
        decimal(n).len() > 0,
        all_digits(decimal(n)),
        value_of(decimal(n)) == n,
    decreases n,
{
    let d = decimal(n);
    let last = digit((n % 10) as int);
    assert(is_digit(last) && digit_value(last) == n % 10);
    if n < 10 {
        assert(d.drop_last() =~= Seq::<char>::empty());
        assert(d.last() == last);
        assert(value_of(d.drop_last()) == 0);
    } else {
        lemma_reads_back(n / 10);
        assert(d.drop_last() =~= decimal(n / 10));
        assert(d.last() == last);
        assert forall|i: int| 0 <= i < d.len() implies is_digit(#[trigger] d[i]) by {
            if i < d.len() - 1 {
                assert(d[i] == decimal(n / 10)[i]);
            }
        }
    }
}

proof fn lemma_leading_zeros(k: nat, d: Seq<char>)
    requires
        all_digits(d),
    ensures
        value_of(zeros(k) + d) == value_of(d),
        all_digits(zeros(k) + d),
    decreases d.len(),
{
    let s = zeros(k) + d;
    if d.len() > 0 {
        lemma_leading_zeros(k, d.drop_last());
        assert(s.drop_last() =~= zeros(k) + d.drop_last());
        assert(s.last() == d.last());
    } else {
        assert(s =~= zeros(k));
        lemma_zeros_are_nothing(k);
    }
    assert forall|i: int| 0 <= i < s.len() implies is_digit(#[trigger] s[i]) by {
        if i >= k {
            assert(s[i] == d[i - k]);
        }
    }
}

proof fn lemma_zeros_are_nothing(k: nat)
    ensures
        value_of(zeros(k)) == 0,
    decreases k,
{
    if k > 0 {
        lemma_zeros_are_nothing((k - 1) as nat);
        assert(zeros(k).drop_last() =~= zeros((k - 1) as nat));
    }
}

/// A number written with so many places has that many digits behind the stop, and reads, without
/// it, as the number of such parts that comes closest.
pub proof fn law_rounded_text_is_closest(n: int, d: int, places: nat)
    requires
        d > 0,
        n >= 0,
        places > 0,
    ensures
        ({
            let s = rounded(n, d, places);
            let at = s.len() - places - 1;
            &&& at > 0
            &&& s[at] == '.'
            &&& all_digits(s.take(at))
            &&& all_digits(s.skip(at + 1))
            &&& 2 * magnitude(
                d * (value_of(s.take(at)) * ten_to(places) + value_of(s.skip(at + 1))) - n * ten_to(
                    places,
                ),
            ) <= d
        }),
        rounded(n, d, 0) == decimal(nearest_even(n, d) as nat),
        n > 0 ==> rounded(-n, d, places) == seq!['-'] + rounded(n, d, places),
{
    let t = ten_to(places) as int;
    lemma_tens(places);
    assert(n * t >= 0) by (nonlinear_arith)
        requires
            n >= 0,
            t > 0,
    ;
    let m = nearest_even(n * t, d);
    law_rounding_to_even_is_closest(n * t, d);
    let (q, r) = (m / t, m % t);
    vstd::arithmetic::div_mod::lemma_fundamental_div_mod(m, t);
    vstd::arithmetic::div_mod::lemma_mod_bound(m, t);
    vstd::arithmetic::div_mod::lemma_div_pos_is_pos(m, t);
    let (w, f) = (decimal(q as nat), padded(r as nat, places));
    law_written_numbers_read_back(q as nat, 0, 0);
    law_written_numbers_read_back(r as nat, 0, places);
    let s = rounded(n, d, places);
    assert(s =~= w + seq!['.'] + f);
    let at = s.len() - places - 1;
    assert(at == w.len());
    assert(w.len() > 0) by {
        lemma_reads_back(q as nat);
    }
    assert(s.take(at) =~= w);
    assert(s.skip(at + 1) =~= f);
    assert(t * q == q * t) by (nonlinear_arith);
    assert(ten_to(0) == 1);
    assert(rounded(n, d, 0) =~= decimal(nearest_even(n, d) as nat)) by {
        assert(n * 1 == n);
        law_rounding_to_even_is_closest(n, d);
        assert(nearest_even(n, d) / 1 == nearest_even(n, d));
    }
    if n > 0 {
        assert(rounded(-n, d, places) =~= seq!['-'] + rounded(n, d, places));
    }
}

proof fn lemma_tens(k: nat)
    ensures
        ten_to(k) > 0,
    decreases k,
{
    if k > 0 {
        lemma_tens((k - 1) as nat);
    }
}

/// A number written with six places reads back as exactly that number of millionths, with its sign.
#[verifier::spinoff_prover]
pub proof fn law_fixed_numbers_read_back(n: int)
    requires
        0 <= n <= i64::MAX,
    ensures
        fixed_of(rounded(n, 1_000_000, 6)) == Some(n),
        n > 0 ==> fixed_of(rounded(-n, 1_000_000, 6)) == Some(-n),
{
    let (q, r) = (n / 1_000_000, n % 1_000_000);
    assert(ten_to(6) == 1_000_000) by {
        reveal_with_fuel(ten_to, 7);
    }
    let (w, f) = (decimal(q as nat), padded(r as nat, 6));
    law_written_numbers_read_back(q as nat, 0, 0);
    law_written_numbers_read_back(r as nat, 0, 6);
    lemma_reads_back(q as nat);
    let s = w + seq!['.'] + f;
    assert(nearest_even(n * 1_000_000, 1_000_000) == n);
    assert(rounded(n, 1_000_000, 6) =~= s);
    lemma_reads_fixed(w, f, n);
    assert(is_digit(s[0])) by {
        assert(s[0] == w[0]);
    }
    if n > 0 {
        let t = rounded(-n, 1_000_000, 6);
        assert(t =~= seq!['-'] + s);
        assert(t.skip(1) =~= s);
    }
}

proof fn lemma_reads_fixed(w: Seq<char>, f: Seq<char>, n: int)
    requires
        w.len() > 0,
        f.len() == 6,
        all_digits(w),
        all_digits(f),
        1_000_000 * value_of(w) + value_of(f) == n,
    ensures
        unsigned_fixed(w + seq!['.'] + f) == Some(n),
{
    let s = w + seq!['.'] + f;
    let a = w.len() as int;
    assert forall|i: int| 0 <= i < a implies is_digit(#[trigger] s[i]) by {
        assert(s[i] == w[i]);
    }
    assert(s[a] == '.');
    lemma_digits_stop(s, 0, a);
    assert forall|i: int| a + 1 <= i < s.len() implies is_digit(#[trigger] s[i]) by {
        assert(s[i] == f[i - a - 1]);
    }
    lemma_digits_stop(s, a + 1, s.len() as int);
    let d = digits_around(s, a, s.len() as int);
    assert(d =~= w + f);
    lemma_value_of_both(w, f);
    assert(ten_to(6) == 1_000_000) by {
        reveal_with_fuel(ten_to, 7);
    }
    assert(ten_to(0) == 1);
    assert(rounded_at(d, a + 6) == value_of(d) * ten_to(0));
}

proof fn lemma_digits_stop(s: Seq<char>, from: int, to: int)
    requires
        0 <= from <= to <= s.len(),
        forall|i: int| from <= i < to ==> is_digit(#[trigger] s[i]),
        to == s.len() || !is_digit(s[to]),
    ensures
        digits_end(s, from) == to,
    decreases to - from,
{
    if from < to {
        assert(is_digit(s[from]));
        lemma_digits_stop(s, from + 1, to);
    }
}

proof fn lemma_value_of_both(w: Seq<char>, f: Seq<char>)
    ensures
        value_of(w + f) == value_of(w) * ten_to(f.len()) + value_of(f),
    decreases f.len(),
{
    let s = w + f;
    if f.len() == 0 {
        assert(s =~= w);
        assert(ten_to(0) == 1);
    } else {
        lemma_value_of_both(w, f.drop_last());
        assert(s.drop_last() =~= w + f.drop_last());
        assert(s.last() == f.last());
        let t = ten_to((f.len() - 1) as nat) as int;
        assert(ten_to(f.len()) == 10 * t);
        let v = value_of(w);
        assert(v * (10 * t) == 10 * (v * t)) by (nonlinear_arith);
    }
}

} // verus!
