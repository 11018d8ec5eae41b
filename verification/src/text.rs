//! Text: numbers written out, and the searches that the formats need.

use vstd::prelude::*;

use crate::fixed::{div_nearest_even, magnitude, nearest_even};

verus! {

/// `String::push` of std appends one character.
pub assume_specification[ String::push ](s: &mut String, c: char)
    ensures
        final(s)@ == old(s)@.push(c),
;

/// The decimal digit `d`, for `d` below ten.
pub open spec fn digit(d: int) -> char {
    (48 + d) as char
}

/// Whether a character is one of the ten decimal digits.
pub open spec fn is_digit(c: char) -> bool {
    '0' <= c && c <= '9'
}

/// A number in decimal digits, without leading zeros.
pub open spec fn decimal(n: nat) -> Seq<char>
    decreases n,
{
    if n < 10 {
        seq![digit(n as int)]
    } else {
        decimal(n / 10).push(digit((n % 10) as int))
    }
}

/// Two numbers that are written alike are one.
pub proof fn lemma_decimal_is_unique(n: nat, m: nat)
    requires
        decimal(n) == decimal(m),
    ensures
        n == m,
    decreases n,
{
    lemma_decimal_has_digits(n / 10);
    lemma_decimal_has_digits(m / 10);
    assert(n < 10 ==> n % 10 == n);
    assert(m < 10 ==> m % 10 == m);
    assert(decimal(n).last() == digit((n % 10) as int));
    assert(decimal(m).last() == digit((m % 10) as int));
    if n >= 10 && m >= 10 {
        assert(decimal(n).drop_last() =~= decimal(n / 10));
        assert(decimal(m).drop_last() =~= decimal(m / 10));
        lemma_decimal_is_unique(n / 10, m / 10);
    }
}

proof fn lemma_decimal_has_digits(n: nat)
    ensures
        decimal(n).len() >= 1,
    decreases n,
{
    if n >= 10 {
        lemma_decimal_has_digits(n / 10);
    }
}

/// A whole number with its sign.
pub open spec fn signed_decimal(n: int) -> Seq<char> {
    if n < 0 {
        seq!['-'] + decimal((-n) as nat)
    } else {
        decimal(n as nat)
    }
}

/// `k` zeros.
pub open spec fn zeros(k: nat) -> Seq<char> {
    Seq::new(k, |i: int| '0')
}

/// A number in decimal digits, with zeros before it up to `width` characters.
pub open spec fn padded(n: nat, width: nat) -> Seq<char> {
    let d = decimal(n);
    if d.len() >= width {
        d
    } else {
        zeros((width - d.len()) as nat) + d
    }
}

/// Ten to the power `k`.
pub open spec fn ten_to(k: nat) -> nat
    decreases k,
{
    if k == 0 {
        1
    } else {
        10 * ten_to((k - 1) as nat)
    }
}

/// The quotient `n / d` with `places` decimals, rounded to the nearest, halves to
/// the even digit. A negative quotient keeps its sign even where it rounds to
/// zero.
pub open spec fn rounded(n: int, d: int, places: nat) -> Seq<char> {
    let m = nearest_even(magnitude(n) * ten_to(places), d);
    let sign = if n < 0 {
        seq!['-']
    } else {
        Seq::empty()
    };
    let whole = decimal((m / (ten_to(places) as int)) as nat);
    if places == 0 {
        sign + whole
    } else {
        sign + whole + seq!['.'] + padded((m % (ten_to(places) as int)) as nat, places)
    }
}

/// The character of a digit.
pub fn digit_char(d: u8) -> (c: char)
    requires
        d < 10,
    ensures
        c == digit(d as int),
        is_digit(c),
{
    (48 + d) as char
}

/// Appends a number in decimal digits.
pub fn push_decimal(out: &mut String, n: u128)
    ensures
        final(out)@ == old(out)@ + decimal(n as nat),
    decreases n,
{
    let ghost start = out@;
    if n >= 10 {
        push_decimal(out, n / 10);
    }
    out.push(digit_char((n % 10) as u8));
    proof {
        assert(out@ =~= start + decimal(n as nat));
    }
}

/// Appends a whole number with its sign.
pub fn push_signed(out: &mut String, n: i128)
    requires
        n > i128::MIN,
    ensures
        final(out)@ == old(out)@ + signed_decimal(n as int),
{
    let ghost start = out@;
    if n < 0 {
        out.push('-');
        push_decimal(out, (-n) as u128);
        proof {
            assert(out@ =~= start + signed_decimal(n as int));
        }
    } else {
        push_decimal(out, n as u128);
    }
}

/// A number in decimal digits.
pub fn decimal_text(n: u64) -> (s: String)
    ensures
        s@ == decimal(n as nat),
{
    let mut s: String = String::new();
    push_decimal(&mut s, n as u128);
    assert(s@ =~= decimal(n as nat));
    s
}

/// A whole number with its sign.
pub fn signed_text(n: i64) -> (s: String)
    ensures
        s@ == signed_decimal(n as int),
{
    let mut s: String = String::new();
    push_signed(&mut s, n as i128);
    assert(s@ =~= signed_decimal(n as int));
    s
}

/// How many decimal digits a number has.
pub fn decimal_len(n: u128) -> (len: usize)
    ensures
        len == decimal(n as nat).len(),
        1 <= len <= 39,
{
    proof {
        lemma_decimal_len(n as nat, 39);
    }
    let mut rest: u128 = n;
    let mut len: usize = 1;
    while rest >= 10
        invariant
            len >= 1,
            len + decimal(rest as nat).len() == 1 + decimal(n as nat).len(),
            decimal(n as nat).len() <= 39,
        decreases rest,
    {
        proof {
            lemma_decimal_len((rest / 10) as nat, 39);
        }
        rest = rest / 10;
        len = len + 1;
    }
    len
}

proof fn lemma_decimal_len(n: nat, k: nat)
    requires
        k >= 1,
        n < ten_to(k) || (k == 39 && n <= u128::MAX),
    ensures
        1 <= decimal(n).len() <= k,
    decreases n,
{
    if k == 39 {
        assert(ten_to(39) > u128::MAX) by {
            reveal_with_fuel(ten_to, 40);
        }
    }
    if n >= 10 {
        if k == 1 {
            reveal_with_fuel(ten_to, 2);
        } else {
            lemma_decimal_len(n / 10, (k - 1) as nat);
        }
    }
}

/// Appends a number in decimal digits, with zeros before it up to `width`
/// characters.
pub fn push_padded(out: &mut String, n: u128, width: usize)
    ensures
        final(out)@ == old(out)@ + padded(n as nat, width as nat),
{
    let ghost start = out@;
    let len: usize = decimal_len(n);
    let mut have: usize = len;
    while have < width
        invariant
            len <= have,
            len <= width ==> have <= width,
            have > len ==> have <= width,
            out@ == start + zeros((have - len) as nat),
        decreases width - have,
    {
        out.push('0');
        have = have + 1;
        proof {
            assert(zeros((have - len) as nat) =~= zeros((have - len - 1) as nat).push('0'));
            assert(out@ =~= start + zeros((have - len) as nat));
        }
    }
    push_decimal(out, n);
    proof {
        assert(out@ =~= start + padded(n as nat, width as nat));
    }
}

/// Ten to the power `k`, for the few decimals that numbers are shown with.
pub fn power_of_ten(k: u32) -> (p: u128)
    requires
        k <= 9,
    ensures
        p == ten_to(k as nat),
        1 <= p <= 1_000_000_000,
{
    let mut p: u128 = 1;
    let mut i: u32 = 0;
    while i < k
        invariant
            i <= k <= 9,
            p == ten_to(i as nat),
        decreases k - i,
    {
        proof {
            lemma_ten_to_small(i as nat);
        }
        p = p * 10;
        i = i + 1;
    }
    proof {
        lemma_ten_to_small(k as nat);
    }
    p
}

proof fn lemma_ten_to_small(k: nat)
    requires
        k <= 9,
    ensures
        1 <= ten_to(k) <= 1_000_000_000,
{
    reveal_with_fuel(ten_to, 10);
}

/// Appends the quotient `n / d` with `places` decimals.
pub fn push_rounded(out: &mut String, n: i128, d: u128, places: u32)
    requires
        places <= 9,
        0 < d <= 0xffff_ffff_ffff_ffff_ffff,
        -0xffff_ffff_ffff_ffff_ffff <= n <= 0xffff_ffff_ffff_ffff_ffff,
    ensures
        final(out)@ == old(out)@ + rounded(n as int, d as int, places as nat),
{
    let ghost start = out@;
    let p: u128 = power_of_ten(places);
    let m: u128 = if n < 0 {
        (-n) as u128
    } else {
        n as u128
    };
    assert(m * p <= 0xffff_ffff_ffff_ffff_ffff * 1_000_000_000) by (nonlinear_arith)
        requires
            0 <= m <= 0xffff_ffff_ffff_ffff_ffff,
            1 <= p <= 1_000_000_000,
    ;
    let q: u128 = div_nearest_even(m * p, d);
    if n < 0 {
        out.push('-');
    }
    push_decimal(out, q / p);
    if places > 0 {
        out.push('.');
        push_padded(out, q % p, places as usize);
    }
    proof {
        assert(out@ =~= start + rounded(n as int, d as int, places as nat));
    }
}

/// The characters of a text.
pub fn chars_of(s: &str) -> (v: Vec<char>)
    ensures
        v@ == s@,
{
    let mut v: Vec<char> = Vec::new();
    for c in it: s.chars()
        invariant
            it.seq() == s@,
            v@ == s@.take(it.index()),
    {
        v.push(c);
        proof {
            assert(s@.take(it.index() + 1) =~= s@.take(it.index()).push(c));
        }
    }
    proof {
        assert(s@.take(s@.len() as int) =~= s@);
    }
    v
}

/// The text of some characters.
pub fn text_of(chars: &[char]) -> (s: String)
    ensures
        s@ == chars@,
{
    let mut s: String = String::new();
    let mut i: usize = 0;
    while i < chars.len()
        invariant
            i <= chars@.len(),
            s@ == chars@.take(i as int),
        decreases chars@.len() - i,
    {
        s.push(chars[i]);
        proof {
            assert(chars@.take(i + 1) =~= chars@.take(i as int).push(chars@[i as int]));
        }
        i = i + 1;
    }
    assert(chars@.take(i as int) =~= chars@);
    s
}

/// Whether two texts are the same.
pub fn same_text(a: &str, b: &str) -> (r: bool)
    ensures
        r == (a@ == b@),
{
    let x: Vec<char> = chars_of(a);
    let y: Vec<char> = chars_of(b);
    same_chars(x.as_slice(), y.as_slice())
}

/// Whether two runs of characters are the same.
pub fn same_chars(a: &[char], b: &[char]) -> (r: bool)
    ensures
        r == (a@ == b@),
{
    if a.len() != b.len() {
        return false;
    }
    let mut i: usize = 0;
    while i < a.len()
        invariant
            i <= a@.len() == b@.len(),
            a@.take(i as int) == b@.take(i as int),
        decreases a@.len() - i,
    {
        if a[i] != b[i] {
            return false;
        }
        i = i + 1;
        proof {
            assert(a@.take(i as int) =~= a@.take(i - 1).push(a@[i - 1]));
            assert(b@.take(i as int) =~= b@.take(i - 1).push(b@[i - 1]));
        }
    }
    assert(a@.take(i as int) =~= a@);
    assert(b@.take(i as int) =~= b@);
    true
}

/// Whether `part` stands in `s` at position `i`.
pub open spec fn occurs<T>(s: Seq<T>, part: Seq<T>, i: int) -> bool {
    0 <= i && i + part.len() <= s.len() && s.subrange(i, i + part.len()) == part
}

/// Whether `part` stands anywhere in `s`.
pub open spec fn holds<T>(s: Seq<T>, part: Seq<T>) -> bool {
    exists|i: int| occurs(s, part, i)
}

/// Whether `s` begins with `part`.
pub open spec fn begins<T>(s: Seq<T>, part: Seq<T>) -> bool {
    occurs(s, part, 0)
}

/// Whether `s` ends with `part`.
pub open spec fn ends<T>(s: Seq<T>, part: Seq<T>) -> bool {
    occurs(s, part, s.len() - part.len())
}

/// The first position at or after `from` that holds `c`; the length where none does.
pub open spec fn index_from(s: Seq<char>, c: char, from: int) -> int
    decreases s.len() - from,
{
    if from < 0 || from >= s.len() {
        s.len() as int
    } else if s[from] == c {
        from
    } else {
        index_from(s, c, from + 1)
    }
}

pub proof fn lemma_index_from(s: Seq<char>, c: char, from: int)
    requires
        0 <= from <= s.len(),
    ensures
        from <= index_from(s, c, from) <= s.len(),
        index_from(s, c, from) < s.len() ==> s[index_from(s, c, from)] == c,
        forall|i: int| from <= i < index_from(s, c, from) ==> s[i] != c,
    decreases s.len() - from,
{
    if from < s.len() && s[from] != c {
        lemma_index_from(s, c, from + 1);
    }
}

/// Whether `part` stands in `s` at position `i`.
pub fn occurs_at(s: &[char], part: &[char], i: usize) -> (r: bool)
    ensures
        r == occurs(s@, part@, i as int),
{
    if i > s.len() || part.len() > s.len() - i {
        return false;
    }
    let len: usize = s.len();
    let mut k: usize = 0;
    while k < part.len()
        invariant
            k <= part@.len(),
            i + part@.len() <= s@.len() == len,
            forall|j: int| 0 <= j < k ==> s@[i + j] == #[trigger] part@[j],
        decreases part@.len() - k,
    {
        if s[i + k] != part[k] {
            proof {
                if s@.subrange(i as int, i + part@.len()) == part@ {
                    assert(s@.subrange(i as int, i + part@.len())[k as int] == part@[k as int]);
                }
            }
            return false;
        }
        k = k + 1;
    }
    assert(s@.subrange(i as int, i + part@.len()) =~= part@);
    true
}

/// Whether `s` begins with `part`.
pub fn starts_with(s: &[char], part: &str) -> (r: bool)
    ensures
        r == begins(s@, part@),
{
    let p: Vec<char> = chars_of(part);
    occurs_at(s, p.as_slice(), 0)
}

/// Whether `s` ends with `part`.
pub fn ends_with(s: &[char], part: &str) -> (r: bool)
    ensures
        r == ends(s@, part@),
{
    let p: Vec<char> = chars_of(part);
    if p.len() > s.len() {
        return false;
    }
    occurs_at(s, p.as_slice(), s.len() - p.len())
}

/// The first position of `part` in `s` at or after `from`.
pub fn find_chars(s: &[char], part: &[char], from: usize) -> (at: Option<usize>)
    ensures
        match at {
            Some(i) => from <= i && occurs(s@, part@, i as int) && forall|j: int|
                from <= j < i ==> !#[trigger] occurs(s@, part@, j),
            None => forall|j: int| from <= j ==> !#[trigger] occurs(s@, part@, j),
        },
{
    let mut i: usize = from;
    while i <= s.len() && part.len() <= s.len() - i
        invariant
            from <= i,
            forall|j: int| from <= j < i ==> !#[trigger] occurs(s@, part@, j),
        decreases s@.len() + 1 - i,
    {
        if occurs_at(s, part, i) {
            return Some(i);
        }
        if i == s.len() {
            assert(forall|j: int| from <= j ==> !#[trigger] occurs(s@, part@, j));
            return None;
        }
        i = i + 1;
    }
    None
}

/// Whether `part` stands anywhere in `s`.
pub fn contains(s: &[char], part: &str) -> (r: bool)
    ensures
        r == holds(s@, part@),
{
    let p: Vec<char> = chars_of(part);
    match find_chars(s, p.as_slice(), 0) {
        Some(i) => {
            assert(occurs(s@, part@, i as int));
            true
        },
        None => {
            assert forall|j: int| !#[trigger] occurs(s@, part@, j) by {}
            false
        },
    }
}

/// The first position at or after `from` that holds `c`; the length where none does.
pub fn find_char(s: &[char], c: char, from: usize) -> (at: usize)
    requires
        from <= s@.len(),
    ensures
        at == index_from(s@, c, from as int),
        from <= at <= s@.len(),
        at < s@.len() ==> s@[at as int] == c,
        forall|i: int| from <= i < at ==> s@[i] != c,
{
    let mut i: usize = from;
    while i < s.len() && s[i] != c
        invariant
            from <= i <= s@.len(),
            index_from(s@, c, from as int) == index_from(s@, c, i as int),
            forall|j: int| from <= j < i ==> s@[j] != c,
        decreases s@.len() - i,
    {
        i = i + 1;
    }
    i
}

/// A part of some characters.
pub fn part_of(s: &[char], from: usize, to: usize) -> (p: Vec<char>)
    requires
        from <= to <= s@.len(),
    ensures
        p@ == s@.subrange(from as int, to as int),
{
    let mut p: Vec<char> = Vec::new();
    let mut i: usize = from;
    while i < to
        invariant
            from <= i <= to <= s@.len(),
            p@ == s@.subrange(from as int, i as int),
        decreases to - i,
    {
        p.push(s[i]);
        i = i + 1;
        proof {
            assert(s@.subrange(from as int, i as int) =~= s@.subrange(from as int, i - 1).push(
                s@[i - 1],
            ));
        }
    }
    p
}

/// Whether a character is white space: one with the Unicode property of that name.
pub open spec fn is_white(c: char) -> bool {
    let u = c as u32;
    ||| 0x09 <= u <= 0x0d
    ||| u == 0x20
    ||| u == 0x85
    ||| u == 0xa0
    ||| u == 0x1680
    ||| 0x2000 <= u <= 0x200a
    ||| u == 0x2028
    ||| u == 0x2029
    ||| u == 0x202f
    ||| u == 0x205f
    ||| u == 0x3000
}

/// Whether a character is white space.
pub fn is_whitespace(c: char) -> (r: bool)
    ensures
        r == is_white(c),
{
    let u: u32 = c as u32;
    (0x09 <= u && u <= 0x0d) || u == 0x20 || u == 0x85 || u == 0xa0 || u == 0x1680 || (0x2000 <= u
        && u <= 0x200a) || u == 0x2028 || u == 0x2029 || u == 0x202f || u == 0x205f || u == 0x3000
}

/// Text without the white space at its end.
pub open spec fn trimmed_end(s: Seq<char>) -> Seq<char>
    decreases s.len(),
{
    if s.len() > 0 && is_white(s.last()) {
        trimmed_end(s.drop_last())
    } else {
        s
    }
}

/// Text without the white space at its start.
pub open spec fn trimmed_start(s: Seq<char>) -> Seq<char>
    decreases s.len(),
{
    if s.len() > 0 && is_white(s[0]) {
        trimmed_start(s.drop_first())
    } else {
        s
    }
}

/// Text without the white space around it.
pub open spec fn trimmed(s: Seq<char>) -> Seq<char> {
    trimmed_end(trimmed_start(s))
}

/// Takes off the white space around some characters.
pub fn trim(s: &[char]) -> (t: Vec<char>)
    ensures
        t@ == trimmed(s@),
{
    let mut from: usize = 0;
    assert(s@.skip(0) =~= s@);
    while from < s.len() && is_whitespace(s[from])
        invariant
            from <= s@.len(),
            trimmed_start(s@) == trimmed_start(s@.skip(from as int)),
        decreases s@.len() - from,
    {
        assert(s@.skip(from as int).drop_first() =~= s@.skip(from + 1));
        from = from + 1;
    }
    let mut to: usize = s.len();
    assert(s@.subrange(from as int, to as int) =~= s@.skip(from as int));
    while to > from && is_whitespace(s[to - 1])
        invariant
            from <= to <= s@.len(),
            trimmed(s@) == trimmed_end(s@.subrange(from as int, to as int)),
        decreases to,
    {
        assert(s@.subrange(from as int, to as int).drop_last() =~= s@.subrange(
            from as int,
            to - 1,
        ));
        to = to - 1;
    }
    part_of(s, from, to)
}

/// How many bytes a character takes in UTF-8.
pub open spec fn utf8_width(c: char) -> nat {
    let u = c as u32;
    if u < 0x80 {
        1
    } else if u < 0x800 {
        2
    } else if u < 0x10000 {
        3
    } else {
        4
    }
}

/// How many bytes a text takes in UTF-8.
pub open spec fn utf8_len(s: Seq<char>) -> nat
    decreases s.len(),
{
    if s.len() == 0 {
        0
    } else {
        utf8_len(s.drop_last()) + utf8_width(s.last())
    }
}

/// How many bytes a text takes in UTF-8, counted up to a limit that no allocation reaches.
pub fn byte_len(s: &[char]) -> (n: u128)
    ensures
        n == utf8_len(s@),
{
    let mut n: u128 = 0;
    let mut i: usize = 0;
    while i < s.len()
        invariant
            i <= s@.len(),
            n == utf8_len(s@.take(i as int)),
            n <= 4 * i,
        decreases s@.len() - i,
    {
        assert(s@.take(i + 1).drop_last() =~= s@.take(i as int));
        let u: u32 = s[i] as u32;
        n = n + if u < 0x80 {
            1
        } else if u < 0x800 {
            2
        } else if u < 0x10000 {
            3
        } else {
            4
        };
        i = i + 1;
    }
    assert(s@.take(i as int) =~= s@);
    n
}

/// The lines of a text: the pieces between line feeds. A line feed at the end starts no
/// further line.
pub open spec fn lines_of(s: Seq<char>) -> Seq<Seq<char>>
    decreases s.len(),
{
    if s.len() == 0 {
        Seq::empty()
    } else {
        let at = index_from(s, '\n', 0);
        if 0 <= at < s.len() {
            seq![s.take(at)] + lines_of(s.skip(at + 1))
        } else {
            seq![s]
        }
    }
}

/// The characters of some texts.
pub open spec fn char_views(list: Seq<Vec<char>>) -> Seq<Seq<char>> {
    Seq::new(list.len(), |i: int| list[i]@)
}

/// Splits a text into its lines.
pub fn split_lines(s: &[char]) -> (lines: Vec<Vec<char>>)
    ensures
        char_views(lines@) == lines_of(s@),
{
    let mut lines: Vec<Vec<char>> = Vec::new();
    let mut from: usize = 0;
    let len: usize = s.len();
    assert(s@.skip(0) =~= s@);
    assert(char_views(lines@) + lines_of(s@) =~= lines_of(s@));
    while from < len
        invariant
            from <= len == s@.len(),
            char_views(lines@) + lines_of(s@.skip(from as int)) == lines_of(s@),
        decreases len - from,
    {
        let at: usize = find_char(s, '\n', from);
        let ghost tail = s@.skip(from as int);
        let ghost before = char_views(lines@);
        proof {
            lemma_index_shift(s@, '\n', from as int, from as int);
        }
        lines.push(part_of(s, from, at));
        proof {
            assert(char_views(lines@) =~= before.push(s@.subrange(from as int, at as int)));
        }
        if at < len {
            proof {
                assert(tail.take(at - from) =~= s@.subrange(from as int, at as int));
                assert(tail.skip(at - from + 1) =~= s@.skip(at + 1));
                assert(char_views(lines@) + lines_of(s@.skip(at + 1)) =~= lines_of(s@));
            }
            from = at + 1;
        } else {
            proof {
                assert(tail =~= s@.subrange(from as int, at as int));
                assert(lines_of(s@.skip(len as int)) =~= Seq::empty());
                assert(char_views(lines@) + lines_of(s@.skip(len as int)) =~= lines_of(s@));
            }
            from = len;
        }
    }
    proof {
        assert(lines_of(s@.skip(from as int)) =~= Seq::empty());
        assert(char_views(lines@) =~= lines_of(s@));
    }
    lines
}

/// Searching a tail finds the same position, counted from its start.
pub proof fn lemma_index_shift(s: Seq<char>, c: char, from: int, by: int)
    requires
        0 <= by <= from <= s.len(),
    ensures
        index_from(s.skip(by), c, from - by) == index_from(s, c, from) - by,
    decreases s.len() - from,
{
    if from < s.len() {
        assert(s.skip(by)[from - by] == s[from]);
        if s[from] != c {
            lemma_index_shift(s, c, from + 1, by);
        }
    }
}

/// The first position at or after `from` with white space; the length where there is none.
pub open spec fn white_from(s: Seq<char>, from: int) -> int
    decreases s.len() - from,
{
    if from < 0 || from >= s.len() {
        s.len() as int
    } else if is_white(s[from]) {
        from
    } else {
        white_from(s, from + 1)
    }
}

/// The words of a text: the pieces between white space.
pub open spec fn words_of(s: Seq<char>) -> Seq<Seq<char>>
    decreases s.len(),
{
    let t = trimmed_start(s);
    let end = white_from(t, 0);
    if t.len() == 0 || t.len() > s.len() || end <= 0 || end > t.len() {
        Seq::empty()
    } else {
        seq![t.take(end)] + words_of(t.skip(end))
    }
}

proof fn lemma_trimmed_start_len(s: Seq<char>)
    ensures
        trimmed_start(s).len() <= s.len(),
        trimmed_start(s).len() > 0 ==> !is_white(trimmed_start(s)[0]),
    decreases s.len(),
{
    if s.len() > 0 && is_white(s[0]) {
        lemma_trimmed_start_len(s.drop_first());
    }
}

/// Splits a text into its words.
pub fn split_words(s: &[char]) -> (words: Vec<Vec<char>>)
    ensures
        char_views(words@) == words_of(s@),
{
    let len: usize = s.len();
    let mut words: Vec<Vec<char>> = Vec::new();
    let mut from: usize = 0;
    assert(s@.skip(0) =~= s@);
    assert(char_views(words@) + words_of(s@) =~= words_of(s@));
    while from < len
        invariant
            from <= len == s@.len(),
            char_views(words@) + words_of(s@.skip(from as int)) == words_of(s@),
        decreases len - from,
    {
        let ghost tail = s@.skip(from as int);
        let mut start: usize = from;
        while start < len && is_whitespace(s[start])
            invariant
                from <= start <= len == s@.len(),
                tail == s@.skip(from as int),
                trimmed_start(tail) == trimmed_start(s@.skip(start as int)),
            decreases len - start,
        {
            assert(s@.skip(start as int).drop_first() =~= s@.skip(start + 1));
            start = start + 1;
        }
        let ghost t = s@.skip(start as int);
        let mut end: usize = start;
        while end < len && !is_whitespace(s[end])
            invariant
                start <= end <= len == s@.len(),
                t == s@.skip(start as int),
                white_from(t, 0) == white_from(t, end - start),
            decreases len - end,
        {
            assert(t[end - start] == s@[end as int]);
            end = end + 1;
        }
        proof {
            lemma_trimmed_start_len(tail);
            assert(trimmed_start(tail) == t);
            if end < len {
                assert(t[end - start] == s@[end as int]);
            }
            assert(white_from(t, 0) == end - start);
        }
        if start < len {
            let ghost before = char_views(words@);
            words.push(part_of(s, start, end));
            proof {
                assert(char_views(words@) =~= before.push(s@.subrange(start as int, end as int)));
                assert(t.take(end - start) =~= s@.subrange(start as int, end as int));
                assert(t.skip(end - start) =~= s@.skip(end as int));
                assert(char_views(words@) + words_of(s@.skip(end as int)) =~= words_of(s@));
            }
            from = end;
        } else {
            proof {
                assert(words_of(tail) =~= Seq::empty());
                assert(s@.skip(len as int).len() == 0);
                assert(trimmed_start(s@.skip(len as int)).len() == 0);
                assert(words_of(s@.skip(len as int)) =~= Seq::empty());
            }
            from = len;
        }
    }
    proof {
        let rest = s@.skip(from as int);
        assert(rest.len() == 0);
        assert(trimmed_start(rest).len() == 0);
        assert(words_of(rest) =~= Seq::empty());
        assert(char_views(words@) =~= words_of(s@));
    }
    words
}

/// A text has no more lines than characters.
pub proof fn lemma_lines_bound(s: Seq<char>)
    ensures
        lines_of(s).len() <= s.len(),
    decreases s.len(),
{
    if s.len() > 0 {
        lemma_index_from(s, '\n', 0);
        let at = index_from(s, '\n', 0);
        if at < s.len() {
            lemma_lines_bound(s.skip(at + 1));
        }
    }
}

/// A letter of the alphabet as its small form; any other character as it is.
pub open spec fn small(c: char) -> char {
    if 'A' <= c && c <= 'Z' {
        (c as u8 + 32) as char
    } else {
        c
    }
}

/// A letter of the alphabet as its small form; any other character as it is.
pub fn lower(c: char) -> (r: char)
    ensures
        r == small(c),
{
    if 'A' <= c && c <= 'Z' {
        (c as u8 + 32) as char
    } else {
        c
    }
}

/// Text with the letters of the alphabet in their small form.
pub open spec fn lowered(s: Seq<char>) -> Seq<char> {
    Seq::new(s.len(), |i: int| small(s[i]))
}

/// Text with the letters of the alphabet in their small form.
pub fn lowercase(s: &[char]) -> (t: Vec<char>)
    ensures
        t@ == lowered(s@),
{
    let mut t: Vec<char> = Vec::new();
    let mut i: usize = 0;
    while i < s.len()
        invariant
            i <= s@.len(),
            t@ == lowered(s@.take(i as int)),
        decreases s@.len() - i,
    {
        t.push(lower(s[i]));
        i = i + 1;
        proof {
            assert(t@ =~= lowered(s@.take(i as int)));
        }
    }
    assert(s@.take(i as int) =~= s@);
    t
}

/// Trimming leaves nothing white at either end and takes nothing else away.
pub proof fn law_trimming_takes_the_white_off(s: Seq<char>)
    ensures
        trimmed(s).len() > 0 ==> !is_white(trimmed(s)[0]) && !is_white(
            trimmed(s)[trimmed(s).len() - 1],
        ),
        holds(s, trimmed(s)),
        s.len() > 0 && !is_white(s[0]) && !is_white(s[s.len() - 1]) ==> trimmed(s) == s,
        trimmed(trimmed(s)) == trimmed(s),
{
    lemma_start_off(s);
    let t = trimmed_start(s);
    lemma_end_off(t);
    let u = trimmed_end(t);
    assert(u =~= t.take(u.len() as int));
    let from = s.len() - t.len();
    assert(s.subrange(from, from + u.len()) =~= u);
    assert(occurs(s, u, from));
    if u.len() > 0 {
        assert(u[0] == t[0]);
        assert(u.last() == u[u.len() - 1]);
        assert(trimmed_start(u) == u);
        assert(trimmed_end(u) == u);
    } else {
        assert(trimmed_start(u) == u);
        assert(trimmed_end(u) == u);
    }
}

proof fn lemma_start_off(s: Seq<char>)
    ensures
        trimmed_start(s).len() <= s.len(),
        trimmed_start(s) =~= s.skip(s.len() - trimmed_start(s).len()),
        trimmed_start(s).len() > 0 ==> !is_white(trimmed_start(s)[0]),
    decreases s.len(),
{
    if s.len() > 0 && is_white(s[0]) {
        lemma_start_off(s.drop_first());
        let r = s.drop_first();
        assert(r.skip(r.len() - trimmed_start(r).len()) =~= s.skip(
            s.len() - trimmed_start(r).len(),
        ));
    }
}

proof fn lemma_end_off(s: Seq<char>)
    ensures
        trimmed_end(s).len() <= s.len(),
        trimmed_end(s) =~= s.take(trimmed_end(s).len() as int),
        trimmed_end(s).len() > 0 ==> !is_white(trimmed_end(s).last()),
    decreases s.len(),
{
    if s.len() > 0 && is_white(s.last()) {
        lemma_end_off(s.drop_last());
        let r = s.drop_last();
        assert(r.take(trimmed_end(r).len() as int) =~= s.take(trimmed_end(r).len() as int));
    }
}

/// Lines put together again, each with its line break, make up the text, to the break at its end.
pub proof fn law_lines_make_the_text(s: Seq<char>)
    ensures
        s.len() > 0 && s.last() == '\n' ==> joined(lines_of(s)) == s,
        s.len() > 0 && s.last() != '\n' ==> joined(lines_of(s)) == s.push('\n'),
        s.len() == 0 ==> lines_of(s).len() == 0,
    decreases s.len(),
{
    if s.len() > 0 {
        let at = index_from(s, '\n', 0);
        lemma_index_from(s, '\n', 0);
        let lines = lines_of(s);
        if at < s.len() {
            let (a, b) = (s.take(at), s.skip(at + 1));
            law_lines_make_the_text(b);
            assert(lines.drop_first() =~= lines_of(b));
            assert(lines[0] == a);
            assert(a.push('\n') + b =~= s);
            if b.len() == 0 {
                assert(joined(lines_of(b)) =~= Seq::<char>::empty());
                assert(a.push('\n') + Seq::<char>::empty() =~= s);
            } else {
                assert(b.last() == s.last());
                assert(a.push('\n') + b.push('\n') =~= s.push('\n'));
            }
        } else {
            assert(lines.drop_first() =~= Seq::<Seq<char>>::empty());
            assert(joined(lines.drop_first()) =~= Seq::<char>::empty());
            assert(s.push('\n') + Seq::<char>::empty() =~= s.push('\n'));
            assert(s.last() != '\n');
        }
    }
}

/// Lines, each followed by a line break.
pub open spec fn joined(lines: Seq<Seq<char>>) -> Seq<char>
    decreases lines.len(),
{
    if lines.len() == 0 {
        Seq::empty()
    } else {
        lines[0].push('\n') + joined(lines.drop_first())
    }
}

/// Words are never empty and have nothing white in them.
pub proof fn law_words_are_solid(s: Seq<char>)
    ensures
        forall|i: int| 0 <= i < words_of(s).len() ==> is_solid(#[trigger] words_of(s)[i]),
    decreases s.len(),
{
    let t = trimmed_start(s);
    lemma_start_off(s);
    let end = white_from(t, 0);
    lemma_white_from(t, 0);
    if !(t.len() == 0 || t.len() > s.len() || end <= 0 || end > t.len()) {
        let rest = t.skip(end);
        law_words_are_solid(rest);
        let list = words_of(s);
        assert(list == seq![t.take(end)] + words_of(rest));
        assert forall|i: int| 0 <= i < list.len() implies is_solid(#[trigger] list[i]) by {
            if i > 0 {
                assert(list[i] == words_of(rest)[i - 1]);
            } else {
                assert(list[0] == t.take(end));
            }
        }
    }
}

/// Whether a word has characters, none of them white.
pub open spec fn is_solid(word: Seq<char>) -> bool {
    word.len() > 0 && forall|i: int| 0 <= i < word.len() ==> !is_white(#[trigger] word[i])
}

proof fn lemma_white_from(s: Seq<char>, from: int)
    requires
        0 <= from <= s.len(),
    ensures
        from <= white_from(s, from) <= s.len(),
        forall|i: int| from <= i < white_from(s, from) ==> !is_white(#[trigger] s[i]),
    decreases s.len() - from,
{
    if from < s.len() && !is_white(s[from]) {
        lemma_white_from(s, from + 1);
    }
}

} // verus!
