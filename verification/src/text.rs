//! Decimal numbers and white space in text.

use vstd::prelude::*;
use vstd::string::*;

verus! {

/// The character of a decimal digit.
pub open spec fn digit_char(d: nat) -> char {
    ('0' as int + d) as char
}

/// A number in decimal, without leading zeros.
pub open spec fn decimal(n: nat) -> Seq<char>
    decreases n,
{
    if n < 10 {
        seq![digit_char(n)]
    } else {
        decimal(n / 10).push(digit_char(n % 10))
    }
}

/// An integer in decimal, under a minus sign if it is negative.
pub open spec fn signed_decimal(v: int) -> Seq<char> {
    if v < 0 {
        seq!['-'] + decimal((-v) as nat)
    } else {
        decimal(v as nat)
    }
}

/// Whether a character is a decimal digit.
pub open spec fn is_digit(c: char) -> bool {
    '0' <= c <= '9'
}

/// The value of a string of digits, or nothing where another character occurs.
pub open spec fn digits_value(s: Seq<char>) -> Option<nat>
    decreases s.len(),
{
    if s.len() == 0 {
        Some(0)
    } else {
        match digits_value(s.drop_last()) {
            None => None,
            Some(n) => if is_digit(s.last()) {
                Some(n * 10 + (s.last() as int - '0' as int) as nat)
            } else {
                None
            },
        }
    }
}

/// What follows a plus sign, if the text starts with one.
pub open spec fn without_plus(s: Seq<char>) -> Seq<char> {
    if s.len() > 0 && s[0] == '+' {
        s.drop_first()
    } else {
        s
    }
}

/// The number that a text denotes: digits, at least one, behind an optional plus
/// sign, with a value that 64 bits hold.
pub open spec fn parsed(s: Seq<char>) -> Option<u64> {
    let digits = without_plus(s);
    match digits_value(digits) {
        Some(n) => if digits.len() > 0 && n <= u64::MAX {
            Some(n as u64)
        } else {
            None
        },
        None => None,
    }
}

/// The characters with the Unicode property White_Space.
pub open spec fn is_space(c: char) -> bool {
    ||| '\u{9}' <= c <= '\u{d}'
    ||| c == '\u{20}'
    ||| c == '\u{85}'
    ||| c == '\u{a0}'
    ||| c == '\u{1680}'
    ||| '\u{2000}' <= c <= '\u{200a}'
    ||| c == '\u{2028}'
    ||| c == '\u{2029}'
    ||| c == '\u{202f}'
    ||| c == '\u{205f}'
    ||| c == '\u{3000}'
}

/// A text without the white space at its end.
pub open spec fn trimmed_end(s: Seq<char>) -> Seq<char>
    decreases s.len(),
{
    if s.len() > 0 && is_space(s.last()) {
        trimmed_end(s.drop_last())
    } else {
        s
    }
}

/// A text without the white space at its start.
pub open spec fn trimmed_start(s: Seq<char>) -> Seq<char>
    decreases s.len(),
{
    if s.len() > 0 && is_space(s[0]) {
        trimmed_start(s.drop_first())
    } else {
        s
    }
}

/// A text without the white space at both of its ends.
pub open spec fn trimmed(s: Seq<char>) -> Seq<char> {
    trimmed_end(trimmed_start(s))
}

fn digit_text(d: u64) -> (res: &'static str)
    requires
        d < 10,
    ensures
        res@ == seq![digit_char(d as nat)],
{
    proof {
        reveal_strlit("0");
        reveal_strlit("1");
        reveal_strlit("2");
        reveal_strlit("3");
        reveal_strlit("4");
        reveal_strlit("5");
        reveal_strlit("6");
        reveal_strlit("7");
        reveal_strlit("8");
        reveal_strlit("9");
    }
    match d {
        0 => "0",
        1 => "1",
        2 => "2",
        3 => "3",
        4 => "4",
        5 => "5",
        6 => "6",
        7 => "7",
        8 => "8",
        _ => "9",
    }
}

/// Appends a number in decimal.
pub fn push_decimal(n: u64, out: &mut String)
    ensures
        final(out)@ == old(out)@ + decimal(n as nat),
    decreases n,
{
    let ghost before = out@;
    if n >= 10 {
        push_decimal(n / 10, out);
    }
    out.append(digit_text(n % 10));
    assert(out@ =~= before + decimal(n as nat));
}

/// Writes an integer in decimal.
pub fn decimal_text(v: i64) -> (res: String)
    ensures
        res@ == signed_decimal(v as int),
{
    let mut out = String::new();
    if v < 0 {
        proof {
            reveal_strlit("-");
        }
        out.append("-");
        let magnitude: u64 = if v == i64::MIN {
            0x8000_0000_0000_0000
        } else {
            (-v) as u64
        };
        push_decimal(magnitude, &mut out);
        assert(out@ =~= signed_decimal(v as int));
    } else {
        push_decimal(v as u64, &mut out);
        assert(out@ =~= signed_decimal(v as int));
    }
    out
}

fn is_white(c: char) -> (res: bool)
    ensures
        res == is_space(c),
{
    ('\u{9}' <= c && c <= '\u{d}') || c == '\u{20}' || c == '\u{85}' || c == '\u{a0}' || c
        == '\u{1680}' || ('\u{2000}' <= c && c <= '\u{200a}') || c == '\u{2028}' || c == '\u{2029}'
        || c == '\u{202f}' || c == '\u{205f}' || c == '\u{3000}'
}

/// A text without the white space at both of its ends.
pub fn trim(s: &str) -> (res: String)
    ensures
        res@ == trimmed(s@),
{
    let n: usize = s.unicode_len();
    let mut from: usize = 0;
    assert(s@.skip(0) =~= s@);
    while from < n && is_white(s.get_char(from))
        invariant
            from <= n == s@.len(),
            trimmed_start(s@.skip(from as int)) == trimmed_start(s@),
        decreases n - from,
    {
        assert(s@.skip(from as int).drop_first() =~= s@.skip(from + 1));
        from += 1;
    }
    assert(trimmed_start(s@) == s@.skip(from as int));
    let mut to: usize = n;
    assert(s@.subrange(from as int, n as int) =~= s@.skip(from as int));
    while to > from && is_white(s.get_char(to - 1))
        invariant
            from <= to <= n == s@.len(),
            trimmed_end(s@.subrange(from as int, to as int)) == trimmed(s@),
        decreases to,
    {
        assert(s@.subrange(from as int, to as int).drop_last() =~= s@.subrange(
            from as int,
            to - 1,
        ));
        to -= 1;
    }
    s.substring_char(from, to).to_owned()
}

proof fn lemma_digits_prefix(s: Seq<char>, n: int)
    requires
        0 <= n <= s.len(),
    ensures
        digits_value(s.take(n)) is None ==> digits_value(s) is None,
        digits_value(s) matches Some(v) ==> (digits_value(s.take(n)) matches Some(w) && w <= v),
    decreases s.len() - n,
{
    if n == s.len() {
        assert(s.take(n) =~= s);
    } else {
        assert(s.take(n + 1).drop_last() =~= s.take(n));
        lemma_digits_prefix(s, n + 1);
    }
}

/// Reads a number in decimal.
pub fn parse_u64(s: &str) -> (res: Option<u64>)
    ensures
        res == parsed(s@),
{
    let n: usize = s.unicode_len();
    if n == 0 {
        return None;
    }
    let start: usize = if s.get_char(0) == '+' {
        1
    } else {
        0
    };
    let ghost digits = without_plus(s@);
    assert(digits =~= s@.skip(start as int));
    if start == n {
        return None;
    }
    let mut value: u64 = 0;
    let mut i: usize = start;
    assert(digits.take(0) =~= Seq::empty());
    while i < n
        invariant
            start <= i <= n == s@.len(),
            start < n,
            digits == without_plus(s@),
            digits == s@.skip(start as int),
            digits_value(digits.take(i - start)) == Some(value as nat),
        decreases n - i,
    {
        let c = s.get_char(i);
        let ghost k = i - start;
        proof {
            assert(digits.take(k + 1).drop_last() =~= digits.take(k));
            assert(digits.take(k + 1).last() == c);
            lemma_digits_prefix(digits, k + 1);
        }
        if !('0' <= c && c <= '9') {
            return None;
        }
        let d: u64 = (c as u32 - '0' as u32) as u64;
        if value > 1844674407370955161 || (value == 1844674407370955161 && d > 5) {
            return None;
        }
        value = value * 10 + d;
        i += 1;
    }
    assert(digits.take(n - start) =~= digits);
    Some(value)
}

proof fn lemma_decimal_digits(n: nat)
    ensures
        digits_value(decimal(n)) == Some(n),
        decimal(n).len() > 0,
        is_digit(decimal(n)[0]),
    decreases n,
{
    if n < 10 {
        assert(decimal(n).drop_last() =~= Seq::empty());
        assert(digits_value(Seq::<char>::empty()) == Some(0nat));
    } else {
        lemma_decimal_digits(n / 10);
        assert(decimal(n).drop_last() =~= decimal(n / 10));
        assert(decimal(n)[0] == decimal(n / 10)[0]);
    }
}

/// A number that is written in decimal is read back.
pub proof fn decimal_is_parsed(n: u64)
    ensures
        parsed(decimal(n as nat)) == Some(n),
{
    lemma_decimal_digits(n as nat);
    assert(without_plus(decimal(n as nat)) == decimal(n as nat));
}

// ---- what the texts of numbers are ----

/// The text of a number is its digits from the highest to the lowest: a number below ten is
/// one character, counted from `0`, and a further digit behind a number other than zero
/// makes it ten times as great.
pub proof fn a_decimal_grows_by_its_last_digit(n: nat, d: nat)
    requires
        d < 10,
    ensures
        decimal(d).len() == 1,
        decimal(d)[0] as int == '0' as int + d,
        n > 0 ==> decimal(10 * n + d) == decimal(n) + decimal(d),
{
    assert(('0' as int + d) as char as int == '0' as int + d);
    if n > 0 {
        let m = 10 * n + d;
        assert(m / 10 == n && m % 10 == d);
        assert(decimal(m) =~= decimal(n) + decimal(d));
    }
}

/// The value of digits: one more digit makes ten times the value and the digit of it. The
/// digits are the ten characters from `0` on, and no other character may occur.
pub proof fn a_further_digit_counts_behind_tenfold(s: Seq<char>, c: char)
    ensures
        digits_value(Seq::empty()) == Some(0nat),
        digits_value(s.push(c)) is Some <==> digits_value(s) is Some && '0' as int <= c as int <= '0' as int + 9,
        digits_value(s.push(c)) matches Some(v) ==> v == 10 * digits_value(s)->Some_0 + (c as int
            - '0' as int),
{
    assert(s.push(c).drop_last() =~= s);
    assert('9' as int == '0' as int + 9);
}

/// The text of an integer is read back: behind a minus sign, which negative integers alone
/// have, stand the digits of what is without the sign.
pub proof fn a_signed_decimal_is_read_back(v: int)
    ensures
        signed_decimal(v).len() > 0,
        signed_decimal(v)[0] == '-' <==> v < 0,
        v < 0 ==> digits_value(signed_decimal(v).drop_first()) == Some((-v) as nat),
        v >= 0 ==> digits_value(signed_decimal(v)) == Some(v as nat),
{
    lemma_decimal_digits(if v < 0 { (-v) as nat } else { v as nat });
    if v < 0 {
        assert(signed_decimal(v).drop_first() =~= decimal((-v) as nat));
    }
}

/// Different integers have different texts.
pub proof fn different_integers_have_different_texts(v: int, w: int)
    ensures
        signed_decimal(v) == signed_decimal(w) <==> v == w,
{
    a_signed_decimal_is_read_back(v);
    a_signed_decimal_is_read_back(w);
}

/// The text of a number starts with a zero only where the number is zero.
pub proof fn a_decimal_has_no_leading_zero(n: nat)
    ensures
        decimal(n)[0] == '0' <==> n == 0,
        n == 0 ==> decimal(n).len() == 1,
    decreases n,
{
    lemma_decimal_digits(n);
    if n < 10 {
        assert(('0' as int + n) as char as int == '0' as int + n);
    } else {
        a_decimal_has_no_leading_zero(n / 10);
        lemma_decimal_digits(n / 10);
        assert(decimal(n)[0] == decimal(n / 10)[0]);
    }
}

/// A number is read from each text of digits, and from it behind a plus sign, where 64 bits
/// hold its value. Nothing is read from any other text.
pub proof fn a_number_is_read_from_its_digits(s: Seq<char>)
    ensures
        s.len() == 0 ==> parsed(s) is None,
        s.len() > 0 && s[0] != '+' ==> match parsed(s) {
            Some(n) => digits_value(s) == Some(n as nat),
            None => digits_value(s) matches Some(v) ==> v > u64::MAX,
        },
        s.len() > 0 && s[0] != '+' ==> parsed(seq!['+'] + s) == parsed(s),
        parsed(seq!['+'] + (seq!['+'] + s)) is None,
        parsed(seq!['+']) is None,
{
    let t = seq!['+'] + s;
    assert(t.drop_first() =~= s);
    let u = seq!['+'] + t;
    assert(u.drop_first() =~= t);
    lemma_digits_prefix(t, 1);
    assert(t.take(1) =~= seq!['+']);
    assert(seq!['+'].drop_last() =~= Seq::<char>::empty());
    assert(!is_digit('+'));
    assert(digits_value(seq!['+']) is None);
    assert(seq!['+'].drop_first() =~= Seq::<char>::empty());
}

proof fn lemma_trimmed_end(s: Seq<char>) -> (n: int)
    ensures
        0 <= n <= s.len(),
        trimmed_end(s) == s.take(n),
        forall|i: int| n <= i < s.len() ==> is_space(#[trigger] s[i]),
        n > 0 ==> !is_space(s[n - 1]),
    decreases s.len(),
{
    if s.len() > 0 && is_space(s.last()) {
        let t = s.drop_last();
        let n = lemma_trimmed_end(t);
        assert(t.take(n) =~= s.take(n));
        assert forall|i: int| n <= i < s.len() implies is_space(#[trigger] s[i]) by {
            if i < t.len() {
                assert(is_space(t[i]));
            }
        }
        assert(n > 0 ==> s[n - 1] == t[n - 1]);
        n
    } else {
        assert(s.take(s.len() as int) =~= s);
        s.len() as int
    }
}

proof fn lemma_trimmed_start(s: Seq<char>) -> (n: int)
    ensures
        0 <= n <= s.len(),
        trimmed_start(s) == s.skip(n),
        forall|i: int| 0 <= i < n ==> is_space(#[trigger] s[i]),
        n < s.len() ==> !is_space(s[n]),
    decreases s.len(),
{
    if s.len() > 0 && is_space(s[0]) {
        let t = s.drop_first();
        let n = lemma_trimmed_start(t);
        assert(t.skip(n) =~= s.skip(n + 1));
        assert forall|i: int| 0 <= i < n + 1 implies is_space(#[trigger] s[i]) by {
            if i > 0 {
                assert(s[i] == t[i - 1]);
            }
        }
        assert(n < t.len() ==> s[n + 1] == t[n]);
        n + 1
    } else {
        assert(s.skip(0) =~= s);
        0
    }
}

/// A text is what stands in it without the white space around: nothing but white space is
/// taken away, from the ends alone, and none is left at an end.
pub proof fn trimming_takes_white_space_from_the_ends(s: Seq<char>) -> (res: (int, int))
    ensures
        0 <= res.0 <= res.1 <= s.len(),
        trimmed(s) == s.subrange(res.0, res.1),
        forall|i: int| 0 <= i < res.0 || res.1 <= i < s.len() ==> is_space(#[trigger] s[i]),
        res.0 < res.1 ==> !is_space(s[res.0]) && !is_space(s[res.1 - 1]),
{
    let a = lemma_trimmed_start(s);
    let t = trimmed_start(s);
    let n = lemma_trimmed_end(t);
    assert(t.take(n) =~= s.subrange(a, a + n));
    assert forall|i: int| 0 <= i < a || a + n <= i < s.len() implies is_space(#[trigger] s[i]) by {
        if i >= a {
            assert(s[i] == t[i - a]);
        }
    }
    if n > 0 {
        assert(s[a + n - 1] == t[n - 1]);
        assert(s[a] == t[0]);
    }
    (a, a + n)
}

/// White space is what the Unicode table of it lists: of the characters below U+0100 six
/// controls, the space and the unbroken space, and above them the marks for spaces and line
/// ends. Letters, digits and signs are none.
pub proof fn white_space_is_that_of_the_table(c: char)
    ensures
        c as int <= 0x7f ==> (is_space(c) <==> (9 <= c as int <= 13 || c as int == 32)),
        0x80 <= c as int <= 0xff ==> (is_space(c) <==> (c as int == 0x85 || c as int == 0xa0)),
        0x100 <= c as int <= 0x1fff ==> (is_space(c) <==> c as int == 0x1680),
        0x2000 <= c as int <= 0x20ff ==> (is_space(c) <==> (c as int <= 0x200a || c as int == 0x2028
            || c as int == 0x2029 || c as int == 0x202f || c as int == 0x205f)),
        c as int >= 0x2100 ==> (is_space(c) <==> c as int == 0x3000),
{
}

} // verus!
