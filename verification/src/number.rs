//! Decimal literals: signed integers, and the literals of binary
//! floating-point numbers.

use crate::text::find;
use crate::text::find_char;
use crate::text::lemma_find;
use vstd::prelude::*;

verus! {

/// Whether `c` is one of the ten decimal digits.
pub open spec fn is_digit(c: char) -> bool {
    '0' <= c <= '9'
}

/// The number that the digit `c` stands for.
pub open spec fn digit_value(c: char) -> int {
    c as int - 0x30
}

/// The digit that stands for `d`, for `0 <= d <= 9`.
pub open spec fn digit_char(d: int) -> char {
    (d + 0x30) as char
}

/// Whether `s` holds decimal digits only.
pub open spec fn all_digits(s: Seq<char>) -> bool {
    forall|i: int| 0 <= i < s.len() ==> is_digit(#[trigger] s[i])
}

/// The number that a sequence of decimal digits stands for.
pub open spec fn digits_value(s: Seq<char>) -> int
    decreases s.len(),
{
    if s.len() == 0 {
        0
    } else {
        digits_value(s.drop_last()) * 10 + digit_value(s.last())
    }
}

/// Whether `s` starts with `+` or `-`.
pub open spec fn has_sign(s: Seq<char>) -> bool {
    s.len() > 0 && (s[0] == '+' || s[0] == '-')
}

/// `s` without its sign, if it has one.
pub open spec fn unsigned_part(s: Seq<char>) -> Seq<char> {
    if has_sign(s) {
        s.drop_first()
    } else {
        s
    }
}

/// Whether `s` is an integer literal: an optional sign, then one or more
/// decimal digits and nothing else.
pub open spec fn is_integer_literal(s: Seq<char>) -> bool {
    unsigned_part(s).len() > 0 && all_digits(unsigned_part(s))
}

/// The number that an integer literal stands for.
pub open spec fn integer_literal_value(s: Seq<char>) -> int {
    if s.len() > 0 && s[0] == '-' {
        -digits_value(unsigned_part(s))
    } else {
        digits_value(unsigned_part(s))
    }
}

/// The 128-bit signed integer that `s` stands for: `s` is an integer literal
/// and its value fits.
pub open spec fn parse_integer(s: Seq<char>) -> Option<i128> {
    if is_integer_literal(s) && i128::MIN <= integer_literal_value(s) <= i128::MAX {
        Some(integer_literal_value(s) as i128)
    } else {
        None
    }
}

/// The decimal digits of `n`, without leading zeros.
pub open spec fn decimal_digits(n: nat) -> Seq<char>
    decreases n,
{
    if n < 10 {
        seq![digit_char(n as int)]
    } else {
        decimal_digits(n / 10).push(digit_char((n % 10) as int))
    }
}

/// The decimal form of `n`: a minus sign if it is negative, then its digits.
pub open spec fn decimal(n: int) -> Seq<char> {
    if n < 0 {
        seq!['-'] + decimal_digits((-n) as nat)
    } else {
        decimal_digits(n as nat)
    }
}

/// The lower-case form of an ASCII capital letter; any other character is
/// left as it is.
pub open spec fn ascii_lower(c: char) -> char {
    if 'A' <= c <= 'Z' {
        (c as int + 0x20) as char
    } else {
        c
    }
}

/// `s` with its ASCII capital letters in lower case.
pub open spec fn lowercase(s: Seq<char>) -> Seq<char> {
    Seq::new(s.len(), |i: int| ascii_lower(s[i]))
}

/// Whether `s` is a mantissa: decimal digits with at most one point among
/// them, before them or after them, and at least one digit.
pub open spec fn is_mantissa(s: Seq<char>) -> bool {
    match find(s, '.') {
        None => s.len() > 0 && all_digits(s),
        Some(i) => s.len() > 1 && all_digits(s.take(i)) && all_digits(s.skip(i + 1)),
    }
}

/// Whether `s` is an unsigned number in lower case: a mantissa, and
/// optionally `e` and an integer literal as the exponent.
pub open spec fn is_number(s: Seq<char>) -> bool {
    match find(s, 'e') {
        None => is_mantissa(s),
        Some(i) => is_mantissa(s.take(i)) && is_integer_literal(s.skip(i + 1)),
    }
}

/// Whether `s` is one of the words for a value that is no number.
pub open spec fn is_special(s: Seq<char>) -> bool {
    ||| s == seq!['i', 'n', 'f']
    ||| s == seq!['i', 'n', 'f', 'i', 'n', 'i', 't', 'y']
    ||| s == seq!['n', 'a', 'n']
}

/// Whether `s` is the literal of a binary floating-point number: an optional
/// sign, then a number or, in any mix of upper and lower case, one of `inf`,
/// `infinity` and `nan`.
pub open spec fn is_double_literal(s: Seq<char>) -> bool {
    let body = unsigned_part(lowercase(s));
    is_special(body) || is_number(body)
}

/// The value of digits does not shrink when more digits follow.
pub proof fn lemma_digits_value_grows(s: Seq<char>, k: int)
    requires
        all_digits(s),
        0 <= k <= s.len(),
    ensures
        0 <= digits_value(s.take(k)) <= digits_value(s),
    decreases s.len(),
{
    if k == s.len() {
        assert(s.take(k) =~= s);
        if s.len() > 0 {
            assert(all_digits(s.drop_last()));
            lemma_digits_value_grows(s.drop_last(), k - 1);
            assert(is_digit(s[s.len() - 1]));
        }
    } else {
        assert(all_digits(s.drop_last()));
        lemma_digits_value_grows(s.drop_last(), k);
        assert(s.drop_last().take(k) =~= s.take(k));
        lemma_digits_value_grows(s.drop_last(), s.len() - 1);
        assert(is_digit(s[s.len() - 1]));
    }
}

/// Every integer literal is also the literal of a binary floating-point
/// number.
pub proof fn lemma_integer_literal_is_double_literal(s: Seq<char>)
    requires
        is_integer_literal(s),
    ensures
        is_double_literal(s),
{
    let digits = unsigned_part(s);
    assert forall|i: int| 0 <= i < s.len() implies ascii_lower(#[trigger] s[i]) == s[i] by {
        if has_sign(s) {
            if i > 0 {
                assert(is_digit(digits[i - 1]));
            }
        } else {
            assert(is_digit(digits[i]));
        }
    }
    assert(lowercase(s) =~= s);
    lemma_find(digits, 'e');
    lemma_find(digits, '.');
    if find(digits, 'e') is Some {
        assert(is_digit(digits[find(digits, 'e').unwrap()]));
    }
    if find(digits, '.') is Some {
        assert(is_digit(digits[find(digits, '.').unwrap()]));
    }
}

/// The decimal digits of a number are digits, and stand for the number.
pub proof fn lemma_decimal_digits(n: nat)
    ensures
        decimal_digits(n).len() > 0,
        all_digits(decimal_digits(n)),
        digits_value(decimal_digits(n)) == n,
    decreases n,
{
    if n < 10 {
        let s = decimal_digits(n);
        assert(s.len() == 1 && s[0] == digit_char(n as int));
        assert(s.drop_last() =~= Seq::<char>::empty());
        assert(digits_value(s.drop_last()) == 0);
    } else {
        lemma_decimal_digits(n / 10);
        let init = decimal_digits(n / 10);
        let s = decimal_digits(n);
        assert(s.drop_last() =~= init);
        assert(s.last() == digit_char((n % 10) as int));
        assert forall|i: int| 0 <= i < s.len() implies is_digit(#[trigger] s[i]) by {
            if i < init.len() {
                assert(s[i] == init[i]);
            }
        }
    }
}

/// The decimal form of a number is an integer literal that stands for the
/// number.
pub proof fn lemma_decimal_is_integer_literal(n: int)
    ensures
        is_integer_literal(decimal(n)),
        integer_literal_value(decimal(n)) == n,
{
    if n < 0 {
        let digits = decimal_digits((-n) as nat);
        lemma_decimal_digits((-n) as nat);
        let s = decimal(n);
        assert(s[0] == '-');
        assert(s.drop_first() =~= digits);
    } else {
        let digits = decimal_digits(n as nat);
        lemma_decimal_digits(n as nat);
        assert(is_digit(digits[0]));
    }
}

/// The decimal form of a 128-bit integer reads as that integer.
pub proof fn lemma_decimal_parses(n: i128)
    ensures
        parse_integer(decimal(n as int)) == Some(n),
{
    lemma_decimal_is_integer_literal(n as int);
}

/// Whether `c` may occur in the literal of a binary floating-point number:
/// a digit, a sign, the point, or a letter of `e`, `inf`, `infinity` and
/// `nan`, in upper or lower case.
pub open spec fn is_literal_char(c: char) -> bool {
    let l = ascii_lower(c);
    ||| is_digit(l)
    ||| l == '+'
    ||| l == '-'
    ||| l == '.'
    ||| l == 'e'
    ||| l == 'i'
    ||| l == 'n'
    ||| l == 'f'
    ||| l == 't'
    ||| l == 'y'
    ||| l == 'a'
}

/// The special words, character by character.
pub proof fn lemma_special(s: Seq<char>)
    ensures
        is_special(s) <==> {
            ||| s.len() == 3 && s[0] == 'i' && s[1] == 'n' && s[2] == 'f'
            ||| s.len() == 3 && s[0] == 'n' && s[1] == 'a' && s[2] == 'n'
            ||| s.len() == 8 && s[0] == 'i' && s[1] == 'n' && s[2] == 'f' && s[3] == 'i' && s[4]
                == 'n' && s[5] == 'i' && s[6] == 't' && s[7] == 'y'
        },
{
    let inf = seq!['i', 'n', 'f'];
    let infinity = seq!['i', 'n', 'f', 'i', 'n', 'i', 't', 'y'];
    let nan = seq!['n', 'a', 'n'];
    assert(inf.len() == 3 && inf[0] == 'i' && inf[1] == 'n' && inf[2] == 'f');
    assert(nan.len() == 3 && nan[0] == 'n' && nan[1] == 'a' && nan[2] == 'n');
    assert(infinity.len() == 8 && infinity[0] == 'i' && infinity[1] == 'n' && infinity[2] == 'f'
        && infinity[3] == 'i' && infinity[4] == 'n' && infinity[5] == 'i' && infinity[6] == 't'
        && infinity[7] == 'y');
    if s.len() == 3 && s[0] == 'i' && s[1] == 'n' && s[2] == 'f' {
        assert(s =~= inf);
    }
    if s.len() == 3 && s[0] == 'n' && s[1] == 'a' && s[2] == 'n' {
        assert(s =~= nan);
    }
    if s.len() == 8 && s[0] == 'i' && s[1] == 'n' && s[2] == 'f' && s[3] == 'i' && s[4] == 'n'
        && s[5] == 'i' && s[6] == 't' && s[7] == 'y' {
        assert(s =~= infinity);
    }
}

/// A mantissa holds digits and points only.
pub proof fn lemma_mantissa_chars(s: Seq<char>, k: int)
    requires
        is_mantissa(s),
        0 <= k < s.len(),
    ensures
        is_digit(s[k]) || s[k] == '.',
{
    lemma_find(s, '.');
    match find(s, '.') {
        None => {},
        Some(i) => {
            if k < i {
                assert(s.take(i)[k] == s[k]);
            } else if k > i {
                assert(s.skip(i + 1)[k - i - 1] == s[k]);
            }
        },
    }
}

/// The literal of a binary floating-point number holds no other characters
/// than those that may occur in one.
pub proof fn lemma_double_literal_chars(s: Seq<char>, k: int)
    requires
        is_double_literal(s),
        0 <= k < s.len(),
    ensures
        is_literal_char(s[k]),
{
    let low = lowercase(s);
    let body = unsigned_part(low);
    assert(low[k] == ascii_lower(s[k]));
    if has_sign(low) && k == 0 {
    } else {
        let j = if has_sign(low) {
            k - 1
        } else {
            k
        };
        assert(body[j] == low[k]);
        if is_special(body) {
            lemma_special(body);
        } else {
            lemma_find(body, 'e');
            match find(body, 'e') {
                None => {
                    lemma_mantissa_chars(body, j);
                },
                Some(i) => {
                    if j < i {
                        lemma_mantissa_chars(body.take(i), j);
                    } else if j > i {
                        let tail = body.skip(i + 1);
                        assert(tail[j - i - 1] == body[j]);
                        if has_sign(tail) {
                            if j - i - 1 > 0 {
                                assert(is_digit(unsigned_part(tail)[j - i - 2]));
                            }
                        } else {
                            assert(is_digit(unsigned_part(tail)[j - i - 1]));
                        }
                    }
                },
            }
        }
    }
}

/// Whether `c` is a decimal digit.
pub fn digit(c: char) -> (r: bool)
    ensures
        r == is_digit(c),
{
    '0' <= c && c <= '9'
}

/// Whether `chars[from..to]` holds decimal digits only.
pub fn digits_only(chars: &Vec<char>, from: usize, to: usize) -> (r: bool)
    requires
        from <= to <= chars.len(),
    ensures
        r == all_digits(chars@.subrange(from as int, to as int)),
{
    let ghost part = chars@.subrange(from as int, to as int);
    let mut i: usize = from;
    while i < to
        invariant
            from <= i <= to <= chars.len(),
            part == chars@.subrange(from as int, to as int),
            forall|j: int| 0 <= j < i - from ==> is_digit(#[trigger] part[j]),
        decreases to - i,
    {
        if !digit(chars[i]) {
            assert(!is_digit(part[i - from]));
            return false;
        }
        i += 1;
    }
    true
}

/// Whether `chars[from..to]` is an integer literal.
pub fn integer_literal(chars: &Vec<char>, from: usize, to: usize) -> (r: bool)
    requires
        from <= to <= chars.len(),
    ensures
        r == is_integer_literal(chars@.subrange(from as int, to as int)),
{
    let ghost part = chars@.subrange(from as int, to as int);
    let signed = from < to && (chars[from] == '+' || chars[from] == '-');
    let start: usize = if signed {
        from + 1
    } else {
        from
    };
    assert(signed == has_sign(part));
    assert(unsigned_part(part) =~= chars@.subrange(start as int, to as int));
    start < to && digits_only(chars, start, to)
}

/// Reads a 128-bit signed integer in decimal notation.
pub fn parse_i128(chars: &Vec<char>) -> (r: Option<i128>)
    ensures
        r == parse_integer(chars@),
{
    let n = chars.len();
    let signed = 0 < n && (chars[0] == '+' || chars[0] == '-');
    let negative = 0 < n && chars[0] == '-';
    let start: usize = if signed {
        1
    } else {
        0
    };
    let ghost body = unsigned_part(chars@);
    assert(body =~= chars@.subrange(start as int, n as int));
    if start == n {
        return None;
    }
    let mut acc: i128 = 0;
    let mut i: usize = start;
    while i < n
        invariant
            start <= i <= n,
            n == chars.len(),
            body == chars@.subrange(start as int, n as int),
            body == unsigned_part(chars@),
            negative == (chars@.len() > 0 && chars@[0] == '-'),
            all_digits(body.take(i - start)),
            negative ==> acc == -digits_value(body.take(i - start)),
            !negative ==> acc == digits_value(body.take(i - start)),
        decreases n - i,
    {
        let c = chars[i];
        assert(body[i - start] == c);
        if !digit(c) {
            assert(!all_digits(body));
            return None;
        }
        let d: i128 = (c as u32 - 0x30) as i128;
        let ghost before = body.take(i - start);
        let ghost now = body.take(i - start + 1);
        proof {
            assert(now.drop_last() =~= before);
            assert(now.last() == c);
            assert(digits_value(now) == digits_value(before) * 10 + d);
            assert forall|j: int| 0 <= j < now.len() implies is_digit(#[trigger] now[j]) by {
                if j < before.len() {
                    assert(now[j] == before[j]);
                }
            }
            if is_integer_literal(chars@) {
                lemma_digits_value_grows(body, i - start + 1);
            }
        }
        let next = match acc.checked_mul(10) {
            Some(m) => if negative {
                m.checked_sub(d)
            } else {
                m.checked_add(d)
            },
            None => None,
        };
        match next {
            Some(v) => {
                acc = v;
            },
            None => {
                return None;
            },
        }
        i += 1;
    }
    assert(body.take(i - start) =~= body);
    Some(acc)
}

/// The lower-case form of `c` if it is an ASCII capital letter, else `c`.
pub fn lower(c: char) -> (r: char)
    ensures
        r == ascii_lower(c),
{
    if 'A' <= c && c <= 'Z' {
        (c as u8 + 0x20) as char
    } else {
        c
    }
}

/// `chars` with its ASCII capital letters in lower case.
pub fn lowered(chars: &Vec<char>) -> (r: Vec<char>)
    ensures
        r@ == lowercase(chars@),
{
    let mut r: Vec<char> = Vec::new();
    let mut i: usize = 0;
    while i < chars.len()
        invariant
            i <= chars.len(),
            r@ == lowercase(chars@.take(i as int)),
        decreases chars.len() - i,
    {
        r.push(lower(chars[i]));
        assert(r@ =~= lowercase(chars@.take(i + 1)));
        i += 1;
    }
    assert(chars@.take(i as int) =~= chars@);
    r
}

/// Whether `chars[from..to]` is one of the words for a value that is no
/// number.
pub fn special(chars: &Vec<char>, from: usize, to: usize) -> (r: bool)
    requires
        from <= to <= chars.len(),
    ensures
        r == is_special(chars@.subrange(from as int, to as int)),
{
    let ghost part = chars@.subrange(from as int, to as int);
    proof {
        lemma_special(part);
    }
    let n: usize = to - from;
    if n == 3 {
        assert(part[0] == chars@[from as int] && part[1] == chars@[from + 1] && part[2]
            == chars@[from + 2]);
        (chars[from] == 'i' && chars[from + 1] == 'n' && chars[from + 2] == 'f') || (chars[from]
            == 'n' && chars[from + 1] == 'a' && chars[from + 2] == 'n')
    } else if n == 8 {
        assert(part[0] == chars@[from as int] && part[1] == chars@[from + 1] && part[2]
            == chars@[from + 2] && part[3] == chars@[from + 3] && part[4] == chars@[from + 4]
            && part[5] == chars@[from + 5] && part[6] == chars@[from + 6] && part[7]
            == chars@[from + 7]);
        chars[from] == 'i' && chars[from + 1] == 'n' && chars[from + 2] == 'f' && chars[from + 3]
            == 'i' && chars[from + 4] == 'n' && chars[from + 5] == 'i' && chars[from + 6] == 't'
            && chars[from + 7] == 'y'
    } else {
        false
    }
}

/// Whether `chars[from..to]` is a mantissa.
pub fn mantissa(chars: &Vec<char>, from: usize, to: usize) -> (r: bool)
    requires
        from <= to <= chars.len(),
    ensures
        r == is_mantissa(chars@.subrange(from as int, to as int)),
{
    let ghost part = chars@.subrange(from as int, to as int);
    match find_char(chars, '.', from, to) {
        None => from < to && digits_only(chars, from, to),
        Some(i) => {
            assert(part.take(i - from) =~= chars@.subrange(from as int, i as int));
            assert(part.skip(i - from + 1) =~= chars@.subrange(i + 1, to as int));
            to - from > 1 && digits_only(chars, from, i) && digits_only(chars, i + 1, to)
        },
    }
}

/// Whether `chars[from..to]` is an unsigned number in lower case.
pub fn number(chars: &Vec<char>, from: usize, to: usize) -> (r: bool)
    requires
        from <= to <= chars.len(),
    ensures
        r == is_number(chars@.subrange(from as int, to as int)),
{
    let ghost part = chars@.subrange(from as int, to as int);
    match find_char(chars, 'e', from, to) {
        None => mantissa(chars, from, to),
        Some(i) => {
            assert(part.take(i - from) =~= chars@.subrange(from as int, i as int));
            assert(part.skip(i - from + 1) =~= chars@.subrange(i + 1, to as int));
            mantissa(chars, from, i) && integer_literal(chars, i + 1, to)
        },
    }
}

/// Whether `chars` is the literal of a binary floating-point number.
pub fn double_literal(chars: &Vec<char>) -> (r: bool)
    ensures
        r == is_double_literal(chars@),
{
    let low = lowered(chars);
    let n = low.len();
    let start: usize = if 0 < n && (low[0] == '+' || low[0] == '-') {
        1
    } else {
        0
    };
    assert(unsigned_part(low@) =~= low@.subrange(start as int, n as int));
    special(&low, start, n) || number(&low, start, n)
}

/// Appends the decimal digits of `n` to `out`.
pub fn push_decimal_digits(out: &mut String, n: u128)
    ensures
        final(out)@ == old(out)@ + decimal_digits(n as nat),
    decreases n,
{
    if n >= 10 {
        push_decimal_digits(out, n / 10);
    }
    let d: u8 = (n % 10) as u8;
    let c: char = (d + 0x30) as char;
    out.push(c);
    assert(final(out)@ =~= old(out)@ + decimal_digits(n as nat));
}

/// The decimal form of `n`.
pub fn render_i128(n: i128) -> (r: String)
    ensures
        r@ == decimal(n as int),
{
    let mut out = String::new();
    if n < 0 {
        out.push('-');
        let magnitude: u128 = (-(n + 1)) as u128 + 1;
        push_decimal_digits(&mut out, magnitude);
    } else {
        push_decimal_digits(&mut out, n as u128);
    }
    assert(out@ =~= decimal(n as int));
    out
}

} // verus!
