//! Reading characters: white space, comma-separated fields, decimal digits.

use vstd::prelude::*;

verus! {

/// The character is white space, as Unicode defines it.
pub open spec fn is_space(c: char) -> bool {
    let code = c as u32;
    ||| 0x09 <= code <= 0x0D
    ||| code == 0x20
    ||| code == 0x85
    ||| code == 0xA0
    ||| code == 0x1680
    ||| 0x2000 <= code <= 0x200A
    ||| code == 0x2028
    ||| code == 0x2029
    ||| code == 0x202F
    ||| code == 0x205F
    ||| code == 0x3000
}

/// Tells white space from other characters.
pub fn char_is_space(c: char) -> (space: bool)
    ensures
        space == is_space(c),
{
    let code = c as u32;
    (0x09 <= code && code <= 0x0D) || code == 0x20 || code == 0x85 || code == 0xA0 || code
        == 0x1680 || (0x2000 <= code && code <= 0x200A) || code == 0x2028 || code == 0x2029
        || code == 0x202F || code == 0x205F || code == 0x3000
}

/// The text without the white space it begins with.
pub open spec fn trim_start(s: Seq<char>) -> Seq<char>
    decreases s.len(),
{
    if s.len() > 0 && is_space(s[0]) {
        trim_start(s.drop_first())
    } else {
        s
    }
}

/// The text without the white space it ends with.
pub open spec fn trim_end(s: Seq<char>) -> Seq<char>
    decreases s.len(),
{
    if s.len() > 0 && is_space(s.last()) {
        trim_end(s.drop_last())
    } else {
        s
    }
}

/// The text without the white space around it.
pub open spec fn trim(s: Seq<char>) -> Seq<char> {
    trim_end(trim_start(s))
}

/// Finds where a stretch of text stands once the white space around it is
/// taken off.
pub fn trim_bounds(text: &Vec<char>, from: usize, to: usize) -> (bounds: (usize, usize))
    requires
        from <= to <= text.len(),
    ensures
        from <= bounds.0 <= bounds.1 <= to,
        text@.subrange(bounds.0 as int, bounds.1 as int) == trim(
            text@.subrange(from as int, to as int),
        ),
{
    let mut start = from;
    while start < to && char_is_space(text[start])
        invariant
            from <= start <= to <= text.len(),
            trim_start(text@.subrange(from as int, to as int)) == trim_start(
                text@.subrange(start as int, to as int),
            ),
        decreases to - start,
    {
        proof {
            assert(text@.subrange(start as int, to as int).drop_first() == text@.subrange(
                start + 1,
                to as int,
            ));
        }
        start += 1;
    }
    let mut end = to;
    while start < end && char_is_space(text[end - 1])
        invariant
            start <= end <= to <= text.len(),
            trim_end(text@.subrange(start as int, to as int)) == trim_end(
                text@.subrange(start as int, end as int),
            ),
        decreases end - start,
    {
        proof {
            assert(text@.subrange(start as int, end as int).drop_last() == text@.subrange(
                start as int,
                end - 1,
            ));
        }
        end -= 1;
    }
    (start, end)
}

/// Where `c` first stands in the text: the length of the text if nowhere.
pub open spec fn first_index_of(s: Seq<char>, c: char) -> int
    decreases s.len(),
{
    if s.len() == 0 || s[0] == c {
        0
    } else {
        1 + first_index_of(s.drop_first(), c)
    }
}

/// [`first_index_of`] is the one place before which `c` does not stand and
/// at which it does, or the text ends.
pub proof fn lemma_first_index_of(s: Seq<char>, c: char, n: int)
    requires
        0 <= n <= s.len(),
        forall|i: int| 0 <= i < n ==> s[i] != c,
        n < s.len() ==> s[n] == c,
    ensures
        first_index_of(s, c) == n,
    decreases s.len(),
{
    if s.len() > 0 && s[0] != c {
        lemma_first_index_of(s.drop_first(), c, n - 1);
    }
}

/// The stretches of the text between its commas, in order.
pub open spec fn fields(s: Seq<char>) -> Seq<Seq<char>>
    decreases s.len(),
{
    let comma = first_index_of(s, ',');
    if 0 <= comma < s.len() {
        seq![s.take(comma)] + fields(s.skip(comma + 1))
    } else {
        seq![s]
    }
}

/// The fields of a line, each without the white space around it.
pub open spec fn trimmed_fields(s: Seq<char>) -> Seq<Seq<char>> {
    fields(s).map_values(|field: Seq<char>| trim(field))
}

/// Splits a line at its commas and finds where each field stands once the
/// white space around it is taken off.
pub fn split_line(text: &Vec<char>) -> (bounds: Vec<(usize, usize)>)
    ensures
        bounds@.len() == trimmed_fields(text@).len(),
        forall|k: int|
            0 <= k < bounds@.len() ==> (#[trigger] bounds@[k]).0 <= bounds@[k].1 <= text@.len()
                && text@.subrange(bounds@[k].0 as int, bounds@[k].1 as int) == trimmed_fields(
                text@,
            )[k],
{
    let mut bounds: Vec<(usize, usize)> = Vec::new();
    let mut start: usize = 0;
    let mut i: usize = 0;
    let ghost mut done: Seq<Seq<char>> = Seq::empty();
    proof {
        assert(text@.skip(0) == text@);
        assert(done + fields(text@) == fields(text@));
    }
    while i < text.len()
        invariant
            start <= i <= text.len(),
            forall|j: int| start <= j < i ==> text@[j] != ',',
            fields(text@) == done + fields(text@.skip(start as int)),
            bounds@.len() == done.len(),
            forall|k: int|
                0 <= k < bounds@.len() ==> (#[trigger] bounds@[k]).0 <= bounds@[k].1 <= text@.len()
                    && text@.subrange(bounds@[k].0 as int, bounds@[k].1 as int) == trim(done[k]),
        decreases text.len() - i,
    {
        if text[i] == ',' {
            let ghost rest = text@.skip(start as int);
            proof {
                lemma_first_index_of(rest, ',', i - start);
                assert(rest.take(i - start) == text@.subrange(start as int, i as int));
                assert(rest.skip(i - start + 1) == text@.skip(i + 1));
                assert(fields(rest) == seq![text@.subrange(start as int, i as int)] + fields(
                    text@.skip(i + 1),
                ));
                assert(done + (seq![text@.subrange(start as int, i as int)] + fields(
                    text@.skip(i + 1),
                )) == done.push(text@.subrange(start as int, i as int)) + fields(
                    text@.skip(i + 1),
                ));
                done = done.push(text@.subrange(start as int, i as int));
            }
            bounds.push(trim_bounds(text, start, i));
            start = i + 1;
        }
        i += 1;
    }
    proof {
        let rest = text@.skip(start as int);
        lemma_first_index_of(rest, ',', rest.len() as int);
        assert(rest == text@.subrange(start as int, text@.len() as int));
        assert(done + seq![rest] == done.push(rest));
        done = done.push(rest);
    }
    bounds.push(trim_bounds(text, start, text.len()));
    bounds
}

/// The character is one of the ten decimal digits.
pub open spec fn is_digit(c: char) -> bool {
    '0' <= c <= '9'
}

/// What a decimal digit counts for.
pub open spec fn digit_value(c: char) -> int {
    c as u32 - '0' as u32
}

/// The text holds decimal digits and nothing else.
pub open spec fn all_digits(s: Seq<char>) -> bool {
    forall|i: int| 0 <= i < s.len() ==> is_digit(#[trigger] s[i])
}

/// The number that a run of decimal digits writes; no digits write 0.
pub open spec fn decimal_value(s: Seq<char>) -> nat
    decreases s.len(),
{
    if s.len() == 0 {
        0
    } else {
        (decimal_value(s.drop_last()) * 10 + digit_value(s.last())) as nat
    }
}

/// What the digits written so far amount to never shrinks as digits follow.
pub proof fn lemma_decimal_value_grows(s: Seq<char>, n: int)
    requires
        all_digits(s),
        0 <= n <= s.len(),
    ensures
        decimal_value(s.take(n)) <= decimal_value(s),
    decreases s.len() - n,
{
    if n < s.len() {
        lemma_decimal_value_grows(s, n + 1);
        assert(s.take(n + 1).drop_last() == s.take(n));
        assert(is_digit(s[n]));
    } else {
        assert(s.take(n) == s);
    }
}

/// Ten to the power `n`.
pub open spec fn pow10(n: nat) -> nat
    decreases n,
{
    if n == 0 {
        1
    } else {
        10 * pow10((n - 1) as nat)
    }
}

/// Digits written after a number shift it to the left by as many places.
pub proof fn lemma_decimal_value_concat(front: Seq<char>, back: Seq<char>)
    requires
        all_digits(back),
    ensures
        decimal_value(front + back) == decimal_value(front) * pow10(back.len()) + decimal_value(
            back,
        ),
    decreases back.len(),
{
    if back.len() == 0 {
        assert(front + back == front);
        assert(pow10(back.len()) == 1);
        assert(decimal_value(front) * pow10(back.len()) == decimal_value(front))
            by (nonlinear_arith)
            requires
                pow10(back.len()) == 1,
        ;
    } else {
        let shorter = back.drop_last();
        assert((front + back).drop_last() == front + shorter);
        assert((front + back).last() == back.last());
        assert(is_digit(back[back.len() - 1]));
        assert forall|i: int| 0 <= i < shorter.len() implies is_digit(#[trigger] shorter[i]) by {
            assert(shorter[i] == back[i]);
        }
        lemma_decimal_value_concat(front, shorter);
        let high = decimal_value(front);
        let scale = pow10(shorter.len());
        let low = decimal_value(shorter);
        let digit = digit_value(back.last());
        assert(pow10(back.len()) == 10 * scale);
        assert(decimal_value(front + back) == (high * scale + low) * 10 + digit);
        assert(decimal_value(back) == low * 10 + digit);
        assert((high * scale + low) * 10 == high * (10 * scale) + low * 10) by (nonlinear_arith);
        assert(high * pow10(back.len()) == high * (10 * scale));
    }
}

/// Zeros write nothing.
pub proof fn lemma_decimal_value_of_zeros(zeros: Seq<char>)
    requires
        forall|i: int| 0 <= i < zeros.len() ==> zeros[i] == '0',
    ensures
        all_digits(zeros),
        decimal_value(zeros) == 0,
    decreases zeros.len(),
{
    if zeros.len() > 0 {
        lemma_decimal_value_of_zeros(zeros.drop_last());
    }
}

/// A few digits write a small number.
pub proof fn lemma_short_number(s: Seq<char>)
    requires
        all_digits(s),
        s.len() <= 4,
    ensures
        s.len() <= 1 ==> decimal_value(s) <= 9,
        s.len() <= 2 ==> decimal_value(s) <= 99,
        s.len() <= 3 ==> decimal_value(s) <= 999,
        decimal_value(s) <= 9999,
    decreases s.len(),
{
    if s.len() > 0 {
        lemma_short_number(s.drop_last());
        assert(is_digit(s[s.len() - 1]));
    }
}

/// A run of digits is one exactly where each part of it is.
pub proof fn lemma_all_digits_split(s: Seq<char>, cut: int)
    requires
        0 <= cut <= s.len(),
    ensures
        all_digits(s) <==> all_digits(s.take(cut)) && all_digits(s.skip(cut)),
{
    if all_digits(s.take(cut)) && all_digits(s.skip(cut)) {
        assert forall|i: int| 0 <= i < s.len() implies is_digit(#[trigger] s[i]) by {
            if i < cut {
                assert(s.take(cut)[i] == s[i]);
            } else {
                assert(s.skip(cut)[i - cut] == s[i]);
            }
        }
    }
    if all_digits(s) {
        assert forall|i: int| 0 <= i < cut implies is_digit(#[trigger] s.take(cut)[i]) by {
            assert(s.take(cut)[i] == s[i]);
        }
        assert forall|i: int| 0 <= i < s.len() - cut implies is_digit(
            #[trigger] s.skip(cut)[i],
        ) by {
            assert(s.skip(cut)[i] == s[i + cut]);
        }
    }
}

/// Reads a run of decimal digits as a number, if it is one that fits.
pub fn read_digits(text: &Vec<char>, from: usize, to: usize) -> (number: Option<u64>)
    requires
        from <= to <= text.len(),
    ensures
        number is Some <==> all_digits(text@.subrange(from as int, to as int)) && decimal_value(
            text@.subrange(from as int, to as int),
        ) <= u64::MAX,
        number matches Some(n) ==> n == decimal_value(text@.subrange(from as int, to as int)),
{
    let ghost digits = text@.subrange(from as int, to as int);
    let mut number: u64 = 0;
    let mut i: usize = from;
    while i < to
        invariant
            from <= i <= to <= text.len(),
            digits == text@.subrange(from as int, to as int),
            all_digits(digits.take(i - from)),
            number == decimal_value(digits.take(i - from)),
        decreases to - i,
    {
        let c = text[i];
        proof {
            assert(digits.take(i - from + 1).drop_last() == digits.take(i - from));
            assert(digits.take(i - from + 1).last() == c);
            assert(digits[i - from] == c);
        }
        if !('0' <= c && c <= '9') {
            return None;
        }
        let digit: u64 = (c as u32 - '0' as u32) as u64;
        if number > (u64::MAX - digit) / 10 {
            proof {
                if all_digits(digits) {
                    lemma_decimal_value_grows(digits, i - from + 1);
                }
            }
            return None;
        }
        number = number * 10 + digit;
        proof {
            assert forall|j: int| 0 <= j < i - from + 1 implies is_digit(
                #[trigger] digits.take(i - from + 1)[j],
            ) by {
                if j < i - from {
                    assert(digits.take(i - from)[j] == digits.take(i - from + 1)[j]);
                }
            }
        }
        i += 1;
    }
    proof {
        assert(digits.take(to - from) == digits);
    }
    Some(number)
}

/// Reads up to four digits at a place of a text.
pub fn read_short_number(text: &Vec<char>, from: usize, width: usize) -> (number: Option<u32>)
    requires
        from + width <= text.len(),
        width <= 4,
    ensures
        number is Some <==> all_digits(text@.subrange(from as int, from + width)),
        number matches Some(n) ==> n == decimal_value(text@.subrange(from as int, from + width))
            && n <= 9999 && (width <= 2 ==> n <= 99),
{
    match read_digits(text, from, from + width) {
        Some(n) => {
            proof {
                lemma_short_number(text@.subrange(from as int, from + width));
            }
            Some(n as u32)
        },
        None => {
            proof {
                if all_digits(text@.subrange(from as int, from + width)) {
                    lemma_short_number(text@.subrange(from as int, from + width));
                }
            }
            None
        },
    }
}

/// The integer that a text writes in decimal, with or without a sign before
/// its digits, if it writes one.
pub open spec fn signed_integer(s: Seq<char>) -> Option<int> {
    if s.len() > 0 && (s[0] == '+' || s[0] == '-') {
        let digits = s.drop_first();
        if digits.len() > 0 && all_digits(digits) {
            Some(
                if s[0] == '-' {
                    -decimal_value(digits)
                } else {
                    decimal_value(digits) as int
                },
            )
        } else {
            None
        }
    } else if s.len() > 0 && all_digits(s) {
        Some(decimal_value(s) as int)
    } else {
        None
    }
}

/// The integer that a text writes, if it writes one that fits 64 bits.
pub open spec fn integer_in_range(s: Seq<char>) -> Option<i64> {
    match signed_integer(s) {
        Some(number) if i64::MIN <= number <= i64::MAX => Some(number as i64),
        _ => None,
    }
}

/// Reads a stretch of text as a signed decimal integer.
pub fn read_integer(text: &Vec<char>, from: usize, to: usize) -> (number: Option<i64>)
    requires
        from <= to <= text.len(),
    ensures
        number == integer_in_range(text@.subrange(from as int, to as int)),
{
    let ghost s = text@.subrange(from as int, to as int);
    if from == to {
        return None;
    }
    let sign = text[from];
    proof {
        assert(s[0] == sign);
    }
    if sign == '+' || sign == '-' {
        proof {
            assert(s.drop_first() == text@.subrange(from + 1, to as int));
        }
        if from + 1 == to {
            return None;
        }
        match read_digits(text, from + 1, to) {
            None => None,
            Some(magnitude) => {
                if sign == '-' {
                    if magnitude > 0x8000_0000_0000_0000 {
                        None
                    } else if magnitude == 0x8000_0000_0000_0000 {
                        Some(i64::MIN)
                    } else {
                        Some(-(magnitude as i64))
                    }
                } else if magnitude > 0x7fff_ffff_ffff_ffff {
                    None
                } else {
                    Some(magnitude as i64)
                }
            },
        }
    } else {
        match read_digits(text, from, to) {
            None => None,
            Some(magnitude) => {
                if magnitude > 0x7fff_ffff_ffff_ffff {
                    None
                } else {
                    Some(magnitude as i64)
                }
            },
        }
    }
}

} // verus!
