//! Numbers as text and back.
use vstd::prelude::*;

use crate::numbers::{
    all_digits, decimal, digit_char, digits_value, grouped, hex_fixed, hex_upper, is_digit,
    is_fraction, signed_decimal, signed_value, unsigned_value,
};

verus! {

// ── Decimal ──────────────────────────────────────────────────────────────────

/// Digits stand for a number in the usual way, from the left: each makes ten of
/// what stands before it and adds its own value.
pub proof fn digits_stand_for_their_number(s: Seq<char>)
    requires
        forall|i: int| 0 <= i < s.len() ==> is_digit(#[trigger] s[i]),
    ensures
        digits_value(s) == s.fold_left(0int, |a: int, c: char| a * 10 + (c as int - '0' as int)),
    decreases s.len(),
{
    if s.len() > 0 {
        let d = s.drop_last();
        assert forall|i: int| 0 <= i < d.len() implies is_digit(#[trigger] d[i]) by {
            assert(is_digit(s[i]));
        }
        digits_stand_for_their_number(d);
        assert(is_digit(s[s.len() - 1]));
    }
}

/// A number is written in digits without leading zeros, and the digits stand for
/// it.
pub proof fn decimals_read_back(n: nat)
    ensures
        all_digits(decimal(n)),
        digits_value(decimal(n)) == n,
        unsigned_value(decimal(n)) == Some(n),
        n > 0 ==> decimal(n)[0] != '0',
        n < 10 <==> decimal(n).len() == 1,
    decreases n,
{
    let s = decimal(n);
    if n < 10 {
        assert(s.drop_last() =~= Seq::<char>::empty());
        assert(digits_value(s.drop_last()) == 0);
    } else {
        decimals_read_back(n / 10);
        let d = decimal(n / 10);
        assert(s.drop_last() =~= d);
        assert forall|i: int| 0 <= i < s.len() implies is_digit(#[trigger] s[i]) by {
            if i < d.len() {
                assert(s[i] == d[i]);
            }
        }
        assert(s[0] == d[0]);
    }
    assert(is_digit(s[0]));
}

/// A signed number reads back as it was written: a negative one has a minus
/// before its digits, and no other has a sign.
pub proof fn signed_decimals_read_back(n: int)
    ensures
        signed_value(signed_decimal(n)) == Some(n),
        n < 0 ==> signed_decimal(n) == seq!['-'] + decimal((-n) as nat),
        n >= 0 ==> signed_decimal(n) == decimal(n as nat),
{
    if n < 0 {
        decimals_read_back((-n) as nat);
        assert(signed_decimal(n).skip(1) =~= decimal((-n) as nat));
    } else {
        decimals_read_back(n as nat);
        assert(is_digit(decimal(n as nat)[0]));
    }
}

/// A text reads as a number if and only if it is digits, at least one, with a plus
/// before them or not; a minus makes the number negative.
pub proof fn only_digits_read_as_numbers(s: Seq<char>, digits: Seq<char>)
    ensures
        all_digits(s) ==> unsigned_value(s) == Some(digits_value(s)) && signed_value(s) == Some(
            digits_value(s) as int,
        ),
        all_digits(digits) && s == seq!['+'] + digits ==> unsigned_value(s) == Some(
            digits_value(digits),
        ) && signed_value(s) == Some(digits_value(digits) as int),
        all_digits(digits) && s == seq!['-'] + digits ==> unsigned_value(s) is None
            && signed_value(s) == Some(-(digits_value(digits) as int)),
        unsigned_value(s) is Some ==> all_digits(s) || (s.len() > 0 && s[0] == '+' && all_digits(
            s.skip(1),
        )),
        signed_value(s) is Some ==> all_digits(s) || (s.len() > 0 && (s[0] == '+' || s[0] == '-')
            && all_digits(s.skip(1))),
        all_digits(s) <==> s.len() > 0 && forall|i: int|
            0 <= i < s.len() ==> '0' <= #[trigger] s[i] <= '9',
{
    if all_digits(s) {
        assert(is_digit(s[0]));
    }
    if all_digits(digits) && (s == seq!['+'] + digits || s == seq!['-'] + digits) {
        assert(s.skip(1) =~= digits);
        assert(!is_digit(s[0]));
    }
    if (s.len() > 0 && forall|i: int| 0 <= i < s.len() ==> '0' <= #[trigger] s[i] <= '9') {
        assert forall|i: int| 0 <= i < s.len() implies is_digit(#[trigger] s[i]) by {}
    }
    if all_digits(s) {
        assert forall|i: int| 0 <= i < s.len() implies '0' <= #[trigger] s[i] <= '9' by {
            assert(is_digit(s[i]));
        }
    }
}

/// A decimal fraction is digits with at most one point among them, before them or
/// behind them.
pub proof fn fractions_have_one_point(whole: Seq<char>, part: Seq<char>, s: Seq<char>)
    requires
        forall|i: int| 0 <= i < whole.len() ==> is_digit(#[trigger] whole[i]),
        forall|i: int| 0 <= i < part.len() ==> is_digit(#[trigger] part[i]),
    ensures
        is_fraction(whole) <==> whole.len() > 0,
        is_fraction(whole + seq!['.'] + part) <==> whole.len() + part.len() > 0,
        (exists|i: int| 0 <= i < s.len() && !is_digit(#[trigger] s[i]) && s[i] != '.')
            ==> !is_fraction(s),
        (exists|i: int, j: int|
            0 <= i < j < s.len() && #[trigger] s[i] == '.' && #[trigger] s[j] == '.')
            ==> !is_fraction(s),
{
    if whole.len() > 0 {
        assert(is_digit(whole[0]));
        assert forall|i: int, j: int| 0 <= i < j < whole.len() implies !(#[trigger] whole[i] == '.'
            && #[trigger] whole[j] == '.') by {
            assert(is_digit(whole[i]));
        }
    }
    let t = whole + seq!['.'] + part;
    assert forall|i: int| 0 <= i < t.len() implies is_digit(#[trigger] t[i]) || t[i] == '.' by {
        if i < whole.len() {
            assert(t[i] == whole[i]);
        } else if i > whole.len() {
            assert(t[i] == part[i - whole.len() - 1]);
        }
    }
    assert forall|i: int, j: int| 0 <= i < j < t.len() implies !(#[trigger] t[i] == '.'
        && #[trigger] t[j] == '.') by {
        if i < whole.len() {
            assert(t[i] == whole[i]);
            assert(is_digit(whole[i]));
        } else {
            assert(t[j] == part[j - whole.len() - 1]);
            assert(is_digit(part[j - whole.len() - 1]));
        }
    }
    if whole.len() > 0 {
        assert(t[0] == whole[0]);
        assert(is_digit(t[0]));
    } else if part.len() > 0 {
        assert(t[1] == part[0]);
        assert(is_digit(t[1]));
    } else {
        assert(t =~= seq!['.']);
    }
}

/// In groups a number is its digits with a comma before every third one from the
/// right that has a digit before it.
pub proof fn groups_are_of_three(n: nat)
    ensures
        n < 1000 ==> grouped(n) == decimal(n),
        n >= 1000 ==> {
            let s = grouped(n);
            let k = s.len() as int;
            &&& k >= 5
            &&& s.take(k - 4) == grouped(n / 1000)
            &&& s[k - 4] == ','
            &&& all_digits(s.skip(k - 3))
            &&& digits_value(s.skip(k - 3)) == n % 1000
        },
    decreases n,
{
    if n >= 1000 {
        let s = grouped(n);
        let low = n % 1000;
        let head = grouped(n / 1000);
        let tail = s.skip(s.len() - 3);
        let a = digit_char((low / 100) as int);
        let b = digit_char((low / 10 % 10) as int);
        let c = digit_char((low % 10) as int);
        groups_are_of_three(n / 1000);
        decimals_read_back(n / 1000);
        assert(s.take(s.len() - 4) =~= head);
        assert(tail =~= seq![a, b, c]);
        assert(tail.drop_last() =~= seq![a, b]);
        assert(tail.drop_last().drop_last() =~= seq![a]);
        assert(tail.drop_last().drop_last().drop_last() =~= Seq::<char>::empty());
        assert(digits_value(seq![a]) == low / 100) by {
            assert(digits_value(Seq::<char>::empty()) == 0);
            assert(seq![a].last() == a);
            assert(seq![a].drop_last() =~= Seq::<char>::empty());
        }
        assert(digits_value(seq![a, b]) == low / 100 * 10 + low / 10 % 10) by {
            assert(seq![a, b].last() == b);
        }
        assert(low == (low / 100 * 10 + low / 10 % 10) * 10 + low % 10);
        assert forall|i: int| 0 <= i < tail.len() implies is_digit(#[trigger] tail[i]) by {}
    }
}

// ── Hexadecimal ──────────────────────────────────────────────────────────────

/// The value of a hexadecimal digit in lower case.
pub open spec fn hex_lower_value(c: char) -> int {
    if c <= '9' {
        c as int - '0' as int
    } else {
        c as int - 'a' as int + 10
    }
}

/// The value of a hexadecimal digit in upper case.
pub open spec fn hex_upper_value(c: char) -> int {
    if c <= '9' {
        c as int - '0' as int
    } else {
        c as int - 'A' as int + 10
    }
}

/// In hexadecimal of a fixed width each digit from the right stands for the next
/// remainder by sixteen.
pub proof fn fixed_hex_digits_are_remainders(n: nat, width: nat)
    requires
        width > 0,
    ensures
        hex_fixed(n, width).len() == width,
        hex_lower_value(hex_fixed(n, width).last()) == n % 16,
        hex_fixed(n, width).drop_last() == hex_fixed(n / 16, (width - 1) as nat),
{
    crate::numbers::lemma_hex_fixed(n, width);
    assert(hex_fixed(n, width).drop_last() =~= hex_fixed(n / 16, (width - 1) as nat));
}

/// In hexadecimal without leading zeros each digit from the right stands for the
/// next remainder by sixteen, down to the last that is not zero.
pub proof fn hex_digits_are_remainders(n: nat)
    ensures
        hex_upper(n).len() > 0,
        hex_upper_value(hex_upper(n).last()) == n % 16,
        n < 16 <==> hex_upper(n).len() == 1,
        n >= 16 ==> hex_upper(n).drop_last() == hex_upper(n / 16),
    decreases n,
{
    if n >= 16 {
        hex_digits_are_remainders(n / 16);
        assert(hex_upper(n).drop_last() =~= hex_upper(n / 16));
    }
}

} // verus!
