//! What holds of numbers in text: how they are written, and what is read as one.
use crate::text::{
    all_digits, ascii_lowercase, decimal, digits_value, is_digit, parsed, signed_decimal,
    without_plus,
};
use vstd::prelude::*;

verus! {

/// Whether `c` is a decimal digit.
pub open spec fn is_numeral(c: char) -> bool {
    48 <= c as u32 <= 57
}

/// The digits are those from `0` to `9`.
proof fn lemma_numerals(c: char)
    ensures
        is_numeral(c) == is_digit(c),
{
}

/// One digit is read as its value.
pub proof fn law_digit_is_read(c: char)
    requires
        is_numeral(c),
    ensures
        parsed(seq![c]) == Some((c as u32 - 48) as u32),
{
    let s = seq![c];
    assert(s.drop_last() =~= Seq::empty());
    assert(digits_value(Seq::<char>::empty()) == 0);
    assert(without_plus(s) == s);
    assert(is_digit(s[0]));
}

/// One digit more multiplies a number by ten and adds the digit, as long as the result fits in
/// 32 bits. Beyond that nothing is read.
pub proof fn law_next_digit_is_read(d: Seq<char>, c: char)
    requires
        d.len() > 0,
        forall|i: int| 0 <= i < d.len() ==> is_numeral(#[trigger] d[i]),
        is_numeral(c),
    ensures
        parsed(d.push(c)) == match parsed(d) {
            Some(v) => if 10 * v + (c as u32 - 48) <= 4_294_967_295 {
                Some((10 * v + (c as u32 - 48)) as u32)
            } else {
                None
            },
            None => None,
        },
{
    let s = d.push(c);
    assert(is_numeral(d[0]));
    assert(s[0] == d[0]);
    assert(without_plus(d) == d);
    assert(without_plus(s) == s);
    assert(s.drop_last() =~= d);
    assert forall|i: int| 0 <= i < s.len() implies is_digit(#[trigger] s[i]) by {
        if i < d.len() {
            assert(s[i] == d[i]);
            assert(is_numeral(d[i]));
        } else {
            assert(s[i] == c);
        }
        lemma_numerals(s[i]);
    }
    assert forall|i: int| 0 <= i < d.len() implies is_digit(#[trigger] d[i]) by {
        lemma_numerals(d[i]);
    }
    assert(all_digits(s) && all_digits(d));
}

/// One plus sign before a number makes no difference.
pub proof fn law_plus_is_optional(d: Seq<char>)
    requires
        d.len() > 0,
        d[0] as u32 != 43,
    ensures
        parsed(seq!['+'] + d) == parsed(d),
{
    let s = seq!['+'] + d;
    assert(s[0] == '+');
    assert(s.skip(1) =~= d);
}

/// Text with anything in it but digits, behind at most one plus sign, is no number; nor is text
/// without any digit.
pub proof fn law_other_text_is_no_number(s: Seq<char>, i: int)
    ensures
        s.len() == 0 ==> parsed(s) is None,
        s.len() == 1 && s[0] as u32 == 43 ==> parsed(s) is None,
        0 <= i < s.len() && !is_numeral(s[i]) && !(i == 0 && s[0] as u32 == 43) ==> parsed(
            s,
        ) is None,
{
    if 0 <= i < s.len() && !is_numeral(s[i]) && !(i == 0 && s[0] as u32 == 43) {
        let d = without_plus(s);
        let k = if s[0] == '+' {
            i - 1
        } else {
            i
        };
        assert(d[k] == s[i]);
        assert(!is_digit(d[k]));
    }
}

/// A number below ten is written as one digit.
pub proof fn law_digit_is_written(n: nat)
    requires
        n < 10,
    ensures
        decimal(n).len() == 1,
        decimal(n)[0] as u32 == 48 + n,
{
}

/// A larger number is written as its tenth, and its last digit behind that.
pub proof fn law_next_digit_is_written(n: nat, d: nat)
    requires
        n > 0,
        d < 10,
    ensures
        decimal(10 * n + d).len() == decimal(n).len() + 1,
        decimal(10 * n + d).drop_last() == decimal(n),
        decimal(10 * n + d).last() as u32 == 48 + d,
{
    let m = 10 * n + d;
    assert(m / 10 == n && m % 10 == d);
    assert(decimal(m).drop_last() =~= decimal(n));
}

/// A negative number is written as its opposite behind a minus sign, any other without a sign.
pub proof fn law_sign_is_written(n: int)
    ensures
        n >= 0 ==> signed_decimal(n) == decimal(n as nat),
        n < 0 ==> signed_decimal(n).len() == decimal((-n) as nat).len() + 1,
        n < 0 ==> signed_decimal(n)[0] as u32 == 45,
        n < 0 ==> signed_decimal(n).skip(1) == decimal((-n) as nat),
{
    if n < 0 {
        assert(signed_decimal(n).skip(1) =~= decimal((-n) as nat));
    }
}

/// Lower case turns capital letters into small ones and leaves everything else.
pub proof fn law_lower_case(s: Seq<char>, i: int)
    requires
        0 <= i < s.len(),
    ensures
        ascii_lowercase(s).len() == s.len(),
        65 <= s[i] as u32 <= 90 ==> ascii_lowercase(s)[i] as u32 == s[i] as u32 + 32,
        !(65 <= s[i] as u32 <= 90) ==> ascii_lowercase(s)[i] == s[i],
{
}

} // verus!
