//! Characters and decimal numbers: the classes of characters that the line
//! grammar is made of, and the value of a run of digits.

use vstd::prelude::*;

verus! {

/// A class of characters.
#[derive(Clone, Copy, Debug, PartialEq, Eq, Structural)]
pub enum CharClass {
    /// The ten digits `0` to `9`.
    Digit,
    /// White space.
    Space,
    /// What a benchmark name is made of: anything but white space and `-`.
    Name,
}

/// `c` is one of the ten digits `0` to `9`.
pub open spec fn is_digit(c: char) -> bool {
    '0' <= c <= '9'
}

/// `c` is white space: a character with the Unicode property `White_Space`.
pub open spec fn is_space(c: char) -> bool {
    let u = c as u32;
    ||| 0x09 <= u <= 0x0d
    ||| u == 0x20
    ||| u == 0x85
    ||| u == 0xa0
    ||| u == 0x1680
    ||| 0x2000 <= u <= 0x200a
    ||| u == 0x2028
    ||| u == 0x2029
    ||| u == 0x202f
    ||| u == 0x205f
    ||| u == 0x3000
}

impl CharClass {
    /// `c` belongs to the class.
    pub open spec fn has(self, c: char) -> bool {
        match self {
            CharClass::Digit => is_digit(c),
            CharClass::Space => is_space(c),
            CharClass::Name => !is_space(c) && c != '-',
        }
    }

    /// Whether `c` belongs to the class.
    pub fn contains(self, c: char) -> (b: bool)
        ensures
            b == self.has(c),
    {
        let u: u32 = c as u32;
        let space: bool = (0x09 <= u && u <= 0x0d) || u == 0x20 || u == 0x85 || u == 0xa0 || u
            == 0x1680 || (0x2000 <= u && u <= 0x200a) || u == 0x2028 || u == 0x2029 || u == 0x202f
            || u == 0x205f || u == 0x3000;
        match self {
            CharClass::Digit => 0x30 <= u && u <= 0x39,
            CharClass::Space => space,
            CharClass::Name => !space && u != 0x2d,
        }
    }
}

/// The characters of `s`, one by one.
pub fn chars_of(s: &str) -> (v: Vec<char>)
    ensures
        v@ == s@,
{
    let mut v: Vec<char> = Vec::new();
    for c in it: s.chars()
        invariant
            it.seq() == s@,
            v@ == it.seq().take(it.index()),
    {
        v.push(c);
    }
    v
}

/// Every character of `s` from position `from` up to `to` belongs to `class`.
pub open spec fn all_of(s: Seq<char>, from: int, to: int, class: CharClass) -> bool {
    forall|i: int| from <= i < to ==> class.has(#[trigger] s[i])
}

/// The characters of `s` from `from` up to `to` are a run of `class`: at
/// least one character, each of the class.
pub open spec fn is_run(s: Seq<char>, from: int, to: int, class: CharClass) -> bool {
    &&& 0 <= from < to <= s.len()
    &&& all_of(s, from, to, class)
}

/// A run of `class` cannot go on at `to`: `s` ends there, or the character
/// there is outside the class.
pub open spec fn stops_at(s: Seq<char>, to: int, class: CharClass) -> bool {
    to == s.len() || (0 <= to < s.len() && !class.has(s[to]))
}

/// The text `lit` stands in `s` at position `at`.
pub open spec fn has_literal(s: Seq<char>, at: int, lit: Seq<char>) -> bool {
    &&& 0 <= at
    &&& at + lit.len() <= s.len()
    &&& forall|i: int| 0 <= i < lit.len() ==> s[at + i] == #[trigger] lit[i]
}

/// Two runs of one class that start at the same place and can both go no
/// further end at the same place.
pub proof fn lemma_run_end_unique(s: Seq<char>, from: int, a: int, b: int, class: CharClass)
    requires
        from <= a <= s.len(),
        from <= b <= s.len(),
        all_of(s, from, a, class),
        all_of(s, from, b, class),
        stops_at(s, a, class),
        stops_at(s, b, class),
    ensures
        a == b,
{
    if a < b {
        assert(class.has(s[a]));
    }
    if b < a {
        assert(class.has(s[b]));
    }
}

/// The end of the longest stretch of characters of `class` that starts at
/// `from`; it is `from` itself where there is none.
pub fn scan(s: &Vec<char>, from: usize, class: CharClass) -> (to: usize)
    requires
        from <= s@.len(),
    ensures
        from <= to <= s@.len(),
        all_of(s@, from as int, to as int, class),
        stops_at(s@, to as int, class),
{
    let n: usize = s.len();
    let mut to: usize = from;
    while to < n && class.contains(s[to])
        invariant
            n == s@.len(),
            from <= to <= n,
            all_of(s@, from as int, to as int, class),
        decreases n - to,
    {
        to += 1;
    }
    to
}

/// Where the text `lit` ends if it stands in `s` at position `at`.
pub fn literal_end(s: &Vec<char>, at: usize, lit: &str) -> (r: Option<usize>)
    ensures
        r is Some <==> has_literal(s@, at as int, lit@),
        r matches Some(end) ==> end == at + lit@.len(),
{
    let n: usize = s.len();
    let m: usize = lit.unicode_len();
    if at > n || m > n - at {
        return None;
    }
    let mut j: usize = 0;
    while j < m
        invariant
            n == s@.len(),
            m == lit@.len(),
            at + m <= n,
            0 <= j <= m,
            forall|i: int| 0 <= i < j ==> s@[at + i] == #[trigger] lit@[i],
        decreases m - j,
    {
        if s[at + j] != lit.get_char(j) {
            return None;
        }
        j += 1;
    }
    Some(at + m)
}

/// The number that one digit stands for.
pub open spec fn digit_value(c: char) -> nat {
    if is_digit(c) {
        (c as u32 - 0x30) as nat
    } else {
        0
    }
}

/// The number that a run of digits stands for in base ten.
pub open spec fn decimal_value(digits: Seq<char>) -> nat
    decreases digits.len(),
{
    if digits.len() == 0 {
        0
    } else {
        decimal_value(digits.drop_last()) * 10 + digit_value(digits.last())
    }
}

/// A number is at least as large as the number that any of its leading
/// digits stand for.
pub proof fn lemma_decimal_value_prefix(digits: Seq<char>, k: int)
    requires
        0 <= k <= digits.len(),
    ensures
        decimal_value(digits.take(k)) <= decimal_value(digits),
    decreases digits.len() - k,
{
    if k == digits.len() {
        assert(digits.take(k) =~= digits);
    } else {
        lemma_decimal_value_prefix(digits, k + 1);
        assert(digits.take(k + 1).drop_last() =~= digits.take(k));
    }
}

/// The number written by the digits of `s` from `from` up to `to`, or `None`
/// where it does not fit in a `usize`.
pub fn parse_decimal(s: &Vec<char>, from: usize, to: usize) -> (r: Option<usize>)
    requires
        from <= to <= s@.len(),
        all_of(s@, from as int, to as int, CharClass::Digit),
    ensures
        match r {
            Some(v) => v == decimal_value(s@.subrange(from as int, to as int)),
            None => decimal_value(s@.subrange(from as int, to as int)) > usize::MAX,
        },
{
    let ghost digits: Seq<char> = s@.subrange(from as int, to as int);
    let mut acc: usize = 0;
    let mut i: usize = from;
    while i < to
        invariant
            from <= i <= to <= s@.len(),
            digits == s@.subrange(from as int, to as int),
            all_of(s@, from as int, to as int, CharClass::Digit),
            acc == decimal_value(digits.take(i - from)),
        decreases to - i,
    {
        let c: char = s[i];
        assert(CharClass::Digit.has(s@[i as int]));
        let d: usize = (c as u32 - 0x30) as usize;
        proof {
            assert(digits.take(i + 1 - from).drop_last() =~= digits.take(i - from));
            assert(digits.take(i + 1 - from).last() == c);
            lemma_decimal_value_prefix(digits, i + 1 - from);
        }
        let shifted: usize = match acc.checked_mul(10) {
            Some(v) => v,
            None => {
                return None;
            },
        };
        acc = match shifted.checked_add(d) {
            Some(v) => v,
            None => {
                return None;
            },
        };
        i += 1;
    }
    assert(digits.take(to - from) =~= digits);
    Some(acc)
}

/// Ten to the power `k`.
pub open spec fn pow10(k: nat) -> nat
    decreases k,
{
    if k == 0 {
        1
    } else {
        10 * pow10((k - 1) as nat)
    }
}

/// A decimal number, given by the digits before and after the point,
/// rounded to the nearest whole number, a half and more rounded up: the
/// fraction is at least one half exactly when its first digit is 5 or more.
pub open spec fn rounded_value(whole: Seq<char>, fraction: Seq<char>) -> nat {
    if fraction.len() > 0 && digit_value(fraction[0]) >= 5 {
        decimal_value(whole) + 1
    } else {
        decimal_value(whole)
    }
}

/// A number of `k` digits is below ten to the power `k`.
pub proof fn lemma_decimal_value_bound(digits: Seq<char>)
    ensures
        decimal_value(digits) < pow10(digits.len()),
    decreases digits.len(),
{
    if digits.len() > 0 {
        lemma_decimal_value_bound(digits.drop_last());
        assert(digit_value(digits.last()) <= 9);
    }
}

/// Writing the digits `b` behind the digits `a` shifts the number of `a` by
/// the length of `b` and adds the number of `b`.
pub proof fn lemma_decimal_value_concat(a: Seq<char>, b: Seq<char>)
    ensures
        decimal_value(a + b) == decimal_value(a) * pow10(b.len()) + decimal_value(b),
    decreases b.len(),
{
    if b.len() == 0 {
        assert(a + b =~= a);
        assert(decimal_value(a) * 1 == decimal_value(a)) by (nonlinear_arith);
    } else {
        let front = b.drop_last();
        lemma_decimal_value_concat(a, front);
        assert((a + b).drop_last() =~= a + front);
        assert((a + b).last() == b.last());
        let x: int = decimal_value(a) as int;
        let p: int = pow10(front.len()) as int;
        assert(pow10(b.len()) == 10 * p);
        assert((x * p + decimal_value(front)) * 10 == x * (10 * p) + decimal_value(front) * 10)
            by (nonlinear_arith);
    }
}

/// The rounded value `r` of a decimal number is the whole number nearest to
/// it, a tie going up. With `n` the number that all its digits stand for and
/// `p` ten to the power of the number of digits behind the point, the
/// decimal number is `n / p`, and `n / p - 1/2 < r <= n / p + 1/2`.
pub proof fn lemma_rounded_value_is_nearest(whole: Seq<char>, fraction: Seq<char>)
    ensures
        ({
            let n = decimal_value(whole + fraction) as int;
            let p = pow10(fraction.len()) as int;
            let r = rounded_value(whole, fraction) as int;
            2 * n - p < 2 * (p * r) <= 2 * n + p
        }),
{
    let w: int = decimal_value(whole) as int;
    let f: int = decimal_value(fraction) as int;
    let p: int = pow10(fraction.len()) as int;
    lemma_decimal_value_concat(whole, fraction);
    lemma_decimal_value_bound(fraction);
    if fraction.len() == 0 {
        assert(p * w == w) by (nonlinear_arith)
            requires
                p == 1,
        ;
    } else {
        let head: Seq<char> = seq![fraction[0]];
        let rest: Seq<char> = fraction.drop_first();
        let q: int = pow10(rest.len()) as int;
        let d: int = digit_value(fraction[0]) as int;
        assert(head + rest =~= fraction);
        lemma_decimal_value_concat(head, rest);
        lemma_decimal_value_bound(rest);
        assert(head.drop_last() =~= Seq::<char>::empty());
        assert(decimal_value(Seq::<char>::empty()) == 0);
        assert(decimal_value(head) == d);
        assert(p == 10 * q);
        assert(f == d * q + decimal_value(rest));
        assert(w * p == p * w) by (nonlinear_arith);
        if d >= 5 {
            assert(5 * q <= d * q) by (nonlinear_arith)
                requires
                    d >= 5,
                    q >= 0,
            ;
            assert(p * (w + 1) == p * w + p) by (nonlinear_arith);
        } else {
            assert(d * q <= 4 * q) by (nonlinear_arith)
                requires
                    0 <= d <= 4,
                    q >= 0,
            ;
        }
    }
}

} // verus!
