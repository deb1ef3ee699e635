//! Numbers in decimal text: writing them, and reading them back.

use vstd::prelude::*;

verus! {

/// The character of the digit `d`, for `d` from 0 to 9.
pub open spec fn digit_char(d: int) -> char {
    if d == 0 {
        '0'
    } else if d == 1 {
        '1'
    } else if d == 2 {
        '2'
    } else if d == 3 {
        '3'
    } else if d == 4 {
        '4'
    } else if d == 5 {
        '5'
    } else if d == 6 {
        '6'
    } else if d == 7 {
        '7'
    } else if d == 8 {
        '8'
    } else {
        '9'
    }
}

/// `c` is one of the ten decimal digits.
pub open spec fn is_digit(c: char) -> bool {
    '0' <= c && c <= '9'
}

/// The number that a digit stands for; 0 for any other character.
pub open spec fn digit_value(c: char) -> nat {
    if is_digit(c) {
        (c as int - '0' as int) as nat
    } else {
        0
    }
}

/// Every character of `s` is a decimal digit.
pub open spec fn all_digits(s: Seq<char>) -> bool {
    forall|i: int| 0 <= i < s.len() ==> is_digit(#[trigger] s[i])
}

/// The decimal text of `n`: its digits from the most significant on, without
/// leading zeros, and `0` for zero.
pub open spec fn decimal(n: nat) -> Seq<char>
    decreases n,
{
    if n < 10 {
        seq![digit_char(n as int)]
    } else {
        decimal(n / 10).push(digit_char((n % 10) as int))
    }
}

/// The decimal text of `n`, with a minus sign before it where `n` is
/// negative.
pub open spec fn signed_decimal(n: int) -> Seq<char> {
    if n < 0 {
        seq!['-'] + decimal((-n) as nat)
    } else {
        decimal(n as nat)
    }
}

/// The number that a sequence of digits stands for, the most significant
/// digit first.
pub open spec fn value(digits: Seq<char>) -> nat
    decreases digits.len(),
{
    if digits.len() == 0 {
        0
    } else {
        value(digits.drop_last()) * 10 + digit_value(digits.last())
    }
}

/// `text` without the sign that may stand at its front. A plus sign always
/// counts as one, a minus sign only where `signed` says so.
pub open spec fn unsigned_part(text: Seq<char>, signed: bool) -> Seq<char> {
    if text.len() > 0 && (text.first() == '+' || (signed && text.first() == '-')) {
        text.drop_first()
    } else {
        text
    }
}

/// The number that `text` stands for as a `u64`: an optional plus sign, then
/// one decimal digit or more, the whole no greater than the type holds.
pub open spec fn parsed_u64(text: Seq<char>) -> Option<u64> {
    let digits = unsigned_part(text, false);
    if digits.len() > 0 && all_digits(digits) && value(digits) <= u64::MAX {
        Some(value(digits) as u64)
    } else {
        None
    }
}

/// The number that `text` stands for as an `i32`: an optional plus or minus
/// sign, then one decimal digit or more, the whole within the type's range.
pub open spec fn parsed_i32(text: Seq<char>) -> Option<i32> {
    let digits = unsigned_part(text, true);
    let number = if text.len() > 0 && text.first() == '-' {
        -(value(digits) as int)
    } else {
        value(digits) as int
    };
    if digits.len() > 0 && all_digits(digits) && i32::MIN <= number <= i32::MAX {
        Some(number as i32)
    } else {
        None
    }
}

/// `text` at the right of a field of `width` characters, with spaces before
/// it; `text` itself where it is too long for the field.
pub open spec fn right_aligned(text: Seq<char>, width: nat) -> Seq<char> {
    if text.len() < width {
        Seq::new((width - text.len()) as nat, |i: int| ' ') + text
    } else {
        text
    }
}

/// `text` at the left of a field of `width` characters, with spaces after
/// it; `text` itself where it is too long for the field.
pub open spec fn right_padded(text: Seq<char>, width: nat) -> Seq<char> {
    if text.len() < width {
        text + Seq::new((width - text.len()) as nat, |i: int| ' ')
    } else {
        text
    }
}

/// A prefix of a sequence of digits stands for no more than the whole.
pub proof fn lemma_value_grows(digits: Seq<char>, k: int)
    requires
        0 <= k <= digits.len(),
    ensures
        value(digits.take(k)) <= value(digits),
    decreases digits.len() - k,
{
    if k < digits.len() {
        lemma_value_grows(digits, k + 1);
        assert(digits.take(k + 1).drop_last() =~= digits.take(k));
    } else {
        assert(digits.take(k) =~= digits);
    }
}

/// The decimal text of a number is made of digits, at least one, and stands
/// for that number.
pub proof fn lemma_decimal_value(n: nat)
    ensures
        decimal(n).len() >= 1,
        all_digits(decimal(n)),
        value(decimal(n)) == n,
    decreases n,
{
    if n < 10 {
        let text = decimal(n);
        assert(text.drop_last() =~= Seq::<char>::empty());
        assert(value(text.drop_last()) == 0);
    } else {
        lemma_decimal_value(n / 10);
        let text = decimal(n);
        assert(text.drop_last() =~= decimal(n / 10));
        assert(text.last() == digit_char((n % 10) as int));
    }
}

/// A number written as decimal text is read back as itself.
pub proof fn lemma_decimal_round_trip(time: u64, count: i32)
    ensures
        parsed_u64(decimal(time as nat)) == Some(time),
        parsed_i32(signed_decimal(count as int)) == Some(count),
{
    lemma_decimal_value(time as nat);
    let text = decimal(time as nat);
    assert(is_digit(text[0]));
    if count < 0 {
        let digits = decimal((-count) as nat);
        lemma_decimal_value((-count) as nat);
        let signed = signed_decimal(count as int);
        assert(signed.drop_first() =~= digits);
    } else {
        lemma_decimal_value(count as nat);
        let digits = decimal(count as nat);
        assert(is_digit(digits[0]));
    }
}

/// The text of one digit.
fn digit_text(d: u8) -> (r: &'static str)
    requires
        d < 10,
    ensures
        r@ == seq![digit_char(d as int)],
{
    proof {
        reveal_strlit("0");
        reveal_strlit("1");
        reveal_strlit("2");
        reveal_strlit("3");
        reveal_strlit("4");
        reveal_strlit("5");
        reveal_strlit("6");
        reveal_strlit("7");
        reveal_strlit("8");
        reveal_strlit("9");
    }
    let r = if d == 0 {
        "0"
    } else if d == 1 {
        "1"
    } else if d == 2 {
        "2"
    } else if d == 3 {
        "3"
    } else if d == 4 {
        "4"
    } else if d == 5 {
        "5"
    } else if d == 6 {
        "6"
    } else if d == 7 {
        "7"
    } else if d == 8 {
        "8"
    } else {
        "9"
    };
    assert(r@ =~= seq![digit_char(d as int)]);
    r
}

/// Appends the decimal text of `n` to `out`.
pub fn push_decimal(out: &mut String, n: u64)
    ensures
        final(out)@ == old(out)@ + decimal(n as nat),
    decreases n,
{
    if n >= 10 {
        push_decimal(out, n / 10);
    }
    out.append(digit_text((n % 10) as u8));
    assert(out@ =~= old(out)@ + decimal(n as nat));
}

/// The decimal text of `n`, with a minus sign where `n` is negative.
pub fn signed_text(n: i32) -> (r: String)
    ensures
        r@ == signed_decimal(n as int),
{
    let mut out = String::new();
    if n < 0 {
        proof {
            reveal_strlit("-");
        }
        out.append("-");
        push_decimal(&mut out, (-(n as i64)) as u64);
    } else {
        push_decimal(&mut out, n as u64);
    }
    assert(out@ =~= signed_decimal(n as int));
    out
}

/// Appends `text` to `out`, at the right of a field of `width` characters.
pub fn push_right_aligned(out: &mut String, text: &str, width: usize)
    ensures
        final(out)@ == old(out)@ + right_aligned(text@, width as nat),
{
    let length = text.unicode_len();
    let ghost start = out@;
    let mut filled: usize = length;
    while filled < width
        invariant
            length == text@.len(),
            length <= filled,
            filled <= width || filled == length,
            out@ == start + Seq::new((filled - length) as nat, |i: int| ' '),
        decreases width - filled,
    {
        proof {
            reveal_strlit(" ");
        }
        out.append(" ");
        filled += 1;
        assert(out@ =~= start + Seq::new((filled - length) as nat, |i: int| ' '));
    }
    out.append(text);
    assert(out@ =~= start + right_aligned(text@, width as nat));
}

/// Appends `text` to `out`, at the left of a field of `width` characters.
pub fn push_right_padded(out: &mut String, text: &str, width: usize)
    ensures
        final(out)@ == old(out)@ + right_padded(text@, width as nat),
{
    let length = text.unicode_len();
    out.append(text);
    let ghost start = out@;
    let mut filled: usize = length;
    assert(out@ =~= start + Seq::new((filled - length) as nat, |i: int| ' '));
    while filled < width
        invariant
            length == text@.len(),
            length <= filled,
            filled <= width || filled == length,
            out@ == start + Seq::new((filled - length) as nat, |i: int| ' '),
        decreases width - filled,
    {
        proof {
            reveal_strlit(" ");
        }
        out.append(" ");
        filled += 1;
        assert(out@ =~= start + Seq::new((filled - length) as nat, |i: int| ' '));
    }
    assert(out@ =~= old(out)@ + right_padded(text@, width as nat));
}

/// Reads the characters of `chars` from `from` up to `to` as a `u64`.
pub fn parse_u64(chars: &Vec<char>, from: usize, to: usize) -> (r: Option<u64>)
    requires
        from <= to <= chars.len(),
    ensures
        r == parsed_u64(chars@.subrange(from as int, to as int)),
{
    let ghost text = chars@.subrange(from as int, to as int);
    let mut i: usize = from;
    if i < to && chars[i] == '+' {
        i += 1;
    }
    let ghost digits = unsigned_part(text, false);
    assert(digits =~= chars@.subrange(i as int, to as int));
    if i == to {
        return None;
    }
    let first: usize = i;
    let mut total: u64 = 0;
    assert(digits.take(0) =~= Seq::<char>::empty());
    while i < to
        invariant
            from <= first <= i <= to <= chars.len(),
            first < to,
            digits == chars@.subrange(first as int, to as int),
            digits == unsigned_part(chars@.subrange(from as int, to as int), false),
            all_digits(digits.take(i - first)),
            total == value(digits.take(i - first)),
        decreases to - i,
    {
        let c = chars[i];
        assert(digits[i - first] == c);
        proof {
            assert(digits.take(i - first + 1).drop_last() =~= digits.take(i - first));
            lemma_value_grows(digits, i - first + 1);
        }
        if !('0' <= c && c <= '9') {
            return None;
        }
        let d: u64 = (c as u32 - '0' as u32) as u64;
        if total > (u64::MAX - d) / 10 {
            return None;
        }
        total = total * 10 + d;
        i += 1;
    }
    assert(digits.take(i - first) =~= digits);
    Some(total)
}

/// Reads the characters of `chars` from `from` up to `to` as an `i32`.
pub fn parse_i32(chars: &Vec<char>, from: usize, to: usize) -> (r: Option<i32>)
    requires
        from <= to <= chars.len(),
    ensures
        r == parsed_i32(chars@.subrange(from as int, to as int)),
{
    let ghost text = chars@.subrange(from as int, to as int);
    let mut i: usize = from;
    let mut negative = false;
    if i < to && (chars[i] == '+' || chars[i] == '-') {
        negative = chars[i] == '-';
        i += 1;
    }
    let ghost digits = unsigned_part(text, true);
    assert(digits =~= chars@.subrange(i as int, to as int));
    if i == to {
        return None;
    }
    let limit: i64 = if negative {
        0x8000_0000
    } else {
        0x7fff_ffff
    };
    let first: usize = i;
    let mut total: i64 = 0;
    assert(digits.take(0) =~= Seq::<char>::empty());
    while i < to
        invariant
            from <= first <= i <= to <= chars.len(),
            first < to,
            digits == chars@.subrange(first as int, to as int),
            digits == unsigned_part(chars@.subrange(from as int, to as int), true),
            negative == (chars@.subrange(from as int, to as int).first() == '-'),
            limit == if negative { 0x8000_0000i64 } else { 0x7fff_ffffi64 },
            all_digits(digits.take(i - first)),
            total == value(digits.take(i - first)),
            0 <= total <= limit,
        decreases to - i,
    {
        let c = chars[i];
        assert(digits[i - first] == c);
        proof {
            assert(digits.take(i - first + 1).drop_last() =~= digits.take(i - first));
            lemma_value_grows(digits, i - first + 1);
        }
        if !('0' <= c && c <= '9') {
            return None;
        }
        let d: i64 = (c as u32 - '0' as u32) as i64;
        if total * 10 + d > limit {
            return None;
        }
        total = total * 10 + d;
        i += 1;
    }
    assert(digits.take(i - first) =~= digits);
    if negative {
        Some((-total) as i32)
    } else {
        Some(total as i32)
    }
}

} // verus!
