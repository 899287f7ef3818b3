//! Numbers as text: decimal and hexadecimal digits, and reading them back.
use vstd::prelude::*;

use crate::text::chars_of;

verus! {

// ── Writing ──────────────────────────────────────────────────────────────────

/// The decimal digit `d`.
pub open spec fn digit_char(d: int) -> char {
    (48 + d) as u8 as char
}

/// `n` in decimal, without leading zeros.
pub open spec fn decimal(n: nat) -> Seq<char>
    decreases n,
{
    if n < 10 {
        seq![digit_char(n as int)]
    } else {
        decimal(n / 10).push(digit_char((n % 10) as int))
    }
}

/// Appends `n` in decimal.
pub fn push_decimal(s: &mut String, n: u64)
    ensures
        final(s)@ == old(s)@ + decimal(n as nat),
    decreases n,
{
    if n >= 10 {
        push_decimal(s, n / 10);
    }
    let c = (48 + (n % 10) as u8) as char;
    s.push(c);
    proof {
        if n < 10 {
            assert(decimal(n as nat) =~= seq![c]);
            assert(s@ =~= old(s)@ + seq![c]);
        } else {
            assert(s@ =~= old(s)@ + decimal(n as nat));
        }
    }
}

/// `n` in decimal.
pub fn decimal_text(n: u64) -> (r: String)
    ensures
        r@ == decimal(n as nat),
{
    let mut r = String::new();
    push_decimal(&mut r, n);
    proof {
        assert(Seq::<char>::empty() + decimal(n as nat) =~= decimal(n as nat));
    }
    r
}

/// `n` in decimal, with a minus before a negative one.
pub open spec fn signed_decimal(n: int) -> Seq<char> {
    if n < 0 {
        seq!['-'] + decimal((-n) as nat)
    } else {
        decimal(n as nat)
    }
}

/// Appends `n` in decimal, with a minus before a negative one.
pub fn push_signed(s: &mut String, n: i64)
    ensures
        final(s)@ == old(s)@ + signed_decimal(n as int),
{
    if n < 0 {
        let m: u64 = if n == i64::MIN {
            0x8000_0000_0000_0000
        } else {
            (-n) as u64
        };
        s.push('-');
        push_decimal(s, m);
        proof {
            assert(s@ =~= old(s)@ + signed_decimal(n as int));
        }
    } else {
        push_decimal(s, n as u64);
    }
}

/// `n` in decimal, with a comma before each group of three digits.
pub open spec fn grouped(n: nat) -> Seq<char>
    decreases n,
{
    if n < 1000 {
        decimal(n)
    } else {
        let low = n % 1000;
        grouped(n / 1000) + seq![',', digit_char((low / 100) as int), digit_char((low / 10 % 10) as int), digit_char((low % 10) as int)]
    }
}

/// Appends `n` in decimal, with a comma before each group of three digits.
pub fn push_grouped(s: &mut String, n: u64)
    ensures
        final(s)@ == old(s)@ + grouped(n as nat),
    decreases n,
{
    if n < 1000 {
        push_decimal(s, n);
        return;
    }
    push_grouped(s, n / 1000);
    let low = n % 1000;
    s.push(',');
    s.push((48 + (low / 100) as u8) as char);
    s.push((48 + (low / 10 % 10) as u8) as char);
    s.push((48 + (low % 10) as u8) as char);
    proof {
        assert(s@ =~= old(s)@ + grouped(n as nat));
    }
}

/// The hexadecimal digit `d`, its letters starting at `letters`.
pub open spec fn hex_char(d: int, letters: u8) -> char {
    if d < 10 {
        digit_char(d)
    } else {
        (letters + (d - 10)) as u8 as char
    }
}

/// The last `width` hexadecimal digits of `n`, in lower case.
pub open spec fn hex_fixed(n: nat, width: nat) -> Seq<char>
    decreases width,
{
    if width == 0 {
        Seq::empty()
    } else {
        hex_fixed(n / 16, (width - 1) as nat).push(hex_char((n % 16) as int, 97))
    }
}

/// Appends the last `width` hexadecimal digits of `n`, in lower case.
pub fn push_hex_fixed(s: &mut String, n: u64, width: usize)
    ensures
        final(s)@ == old(s)@ + hex_fixed(n as nat, width as nat),
    decreases width,
{
    if width == 0 {
        proof {
            assert(s@ =~= old(s)@ + Seq::<char>::empty());
        }
        return;
    }
    push_hex_fixed(s, n / 16, width - 1);
    let d = (n % 16) as u8;
    s.push(if d < 10 { (48 + d) as char } else { (97 + (d - 10)) as char });
    proof {
        assert(s@ =~= old(s)@ + hex_fixed(n as nat, width as nat));
    }
}

/// `n` in hexadecimal, in upper case and without leading zeros.
pub open spec fn hex_upper(n: nat) -> Seq<char>
    decreases n,
{
    if n < 16 {
        seq![hex_char(n as int, 65)]
    } else {
        hex_upper(n / 16).push(hex_char((n % 16) as int, 65))
    }
}

/// Appends `n` in hexadecimal, in upper case and without leading zeros.
pub fn push_hex_upper(s: &mut String, n: u32)
    ensures
        final(s)@ == old(s)@ + hex_upper(n as nat),
    decreases n,
{
    if n >= 16 {
        push_hex_upper(s, n / 16);
    }
    let d = (n % 16) as u8;
    s.push(if d < 10 { (48 + d) as char } else { (65 + (d - 10)) as char });
    proof {
        assert(s@ =~= old(s)@ + hex_upper(n as nat));
    }
}

/// Whether `c` is a lower-case hexadecimal digit.
pub open spec fn is_hex_lower(c: char) -> bool {
    '0' <= c <= '9' || 'a' <= c <= 'f'
}

/// Fixed-width hexadecimal has its width and holds hexadecimal digits only.
pub proof fn lemma_hex_fixed(n: nat, width: nat)
    ensures
        hex_fixed(n, width).len() == width,
        forall|i: int| 0 <= i < width ==> is_hex_lower(#[trigger] hex_fixed(n, width)[i]),
    decreases width,
{
    if width > 0 {
        lemma_hex_fixed(n / 16, (width - 1) as nat);
        let p = hex_fixed(n / 16, (width - 1) as nat);
        assert forall|i: int| 0 <= i < width implies is_hex_lower(
            #[trigger] hex_fixed(n, width)[i],
        ) by {
            if i < width - 1 {
                assert(hex_fixed(n, width)[i] == p[i]);
            }
        }
    }
}

// ── Reading ──────────────────────────────────────────────────────────────────

/// Whether `c` is a decimal digit.
pub open spec fn is_digit(c: char) -> bool {
    '0' <= c <= '9'
}

/// A text of digits only, and of at least one.
pub open spec fn all_digits(s: Seq<char>) -> bool {
    s.len() > 0 && forall|i: int| 0 <= i < s.len() ==> is_digit(#[trigger] s[i])
}

/// The number that digits stand for.
pub open spec fn digits_value(s: Seq<char>) -> nat
    decreases s.len(),
{
    if s.len() == 0 {
        0
    } else {
        digits_value(s.drop_last()) * 10 + ((s.last() as u32 - 48) as nat)
    }
}

/// The number that characters `from..` of `s` stand for, if they are digits and
/// the number is at most `max`.
fn read_digits(s: &[char], from: usize, max: u64) -> (r: Option<u64>)
    requires
        from <= s@.len(),
        max >= 9,
    ensures
        match r {
            Some(v) => all_digits(s@.skip(from as int)) && v == digits_value(s@.skip(from as int))
                && v <= max,
            None => !all_digits(s@.skip(from as int)) || digits_value(s@.skip(from as int)) > max,
        },
{
    let ghost t = s@.skip(from as int);
    if from == s.len() {
        return None;
    }
    let mut v: u64 = 0;
    let mut i: usize = from;
    let mut over: bool = false;
    proof {
        assert(t.take(0) =~= Seq::<char>::empty());
    }
    while i < s.len()
        invariant
            from <= i <= s@.len(),
            from <= s@.len(),
            t == s@.skip(from as int),
            max >= 9,
            forall|k: int| 0 <= k < i - from ==> is_digit(#[trigger] t[k]),
            over ==> digits_value(t.take(i - from)) > max,
            !over ==> v == digits_value(t.take(i - from)) && v <= max,
        decreases s@.len() - i,
    {
        let c = s[i];
        proof {
            assert(t[i - from] == c);
        }
        if c < '0' || c > '9' {
            return None;
        }
        let d: u64 = (c as u32 - 48) as u64;
        proof {
            let next = t.take(i - from + 1);
            assert(next.drop_last() =~= t.take(i - from));
            assert(next.last() == c);
        }
        if !over {
            if v > (max - d) / 10 {
                over = true;
            } else {
                v = v * 10 + d;
            }
        }
        i = i + 1;
    }
    proof {
        assert(t.take(t.len() as int) =~= t);
    }
    if over {
        None
    } else {
        Some(v)
    }
}

/// What a text stands for as an unsigned number: digits, with a `+` before them
/// or not.
pub open spec fn unsigned_value(s: Seq<char>) -> Option<nat> {
    let t = if s.len() > 0 && s[0] == '+' {
        s.skip(1)
    } else {
        s
    };
    if all_digits(t) {
        Some(digits_value(t))
    } else {
        None
    }
}

/// What a text stands for as a signed number: digits, with a sign before them
/// or not.
pub open spec fn signed_value(s: Seq<char>) -> Option<int> {
    if s.len() > 0 && s[0] == '-' {
        if all_digits(s.skip(1)) {
            Some(-(digits_value(s.skip(1)) as int))
        } else {
            None
        }
    } else {
        match unsigned_value(s) {
            Some(v) => Some(v as int),
            None => None,
        }
    }
}

/// Reads an unsigned number of at most `max`.
pub fn parse_unsigned(s: &str, max: u64) -> (r: Option<u64>)
    requires
        max >= 9,
    ensures
        match r {
            Some(v) => unsigned_value(s@) == Some(v as nat) && v <= max,
            None => unsigned_value(s@) is None || unsigned_value(s@).unwrap() > max,
        },
{
    let cs = chars_of(s);
    let from: usize = if cs.len() > 0 && cs[0] == '+' {
        1
    } else {
        0
    };
    proof {
        assert(s@.skip(0) =~= s@);
    }
    read_digits(&cs, from, max)
}

/// Reads a signed 64-bit number.
pub fn parse_signed(s: &str) -> (r: Option<i64>)
    ensures
        match r {
            Some(v) => signed_value(s@) == Some(v as int),
            None => signed_value(s@) is None || signed_value(s@).unwrap() < i64::MIN
                || signed_value(s@).unwrap() > i64::MAX,
        },
{
    let cs = chars_of(s);
    if cs.len() > 0 && cs[0] == '-' {
        match read_digits(&cs, 1, 0x8000_0000_0000_0000) {
            Some(v) => {
                if v == 0x8000_0000_0000_0000 {
                    Some(i64::MIN)
                } else {
                    Some(-(v as i64))
                }
            },
            None => None,
        }
    } else {
        match parse_unsigned(s, 0x7fff_ffff_ffff_ffff) {
            Some(v) => Some(v as i64),
            None => None,
        }
    }
}

/// A text that reads as a decimal fraction: digits with at most one point among
/// them, and at least one digit.
pub open spec fn is_fraction(s: Seq<char>) -> bool {
    &&& forall|i: int| 0 <= i < s.len() ==> is_digit(#[trigger] s[i]) || s[i] == '.'
    &&& exists|i: int| 0 <= i < s.len() && is_digit(#[trigger] s[i])
    &&& forall|i: int, j: int| 0 <= i < j < s.len() ==> !(#[trigger] s[i] == '.' && #[trigger] s[j] == '.')
}

/// Whether a text reads as a decimal fraction.
pub fn reads_as_fraction(s: &[char]) -> (r: bool)
    ensures
        r == is_fraction(s@),
{
    let mut i: usize = 0;
    let mut digit: bool = false;
    let mut point: bool = false;
    while i < s.len()
        invariant
            i <= s@.len(),
            forall|k: int| 0 <= k < i ==> is_digit(#[trigger] s@[k]) || s@[k] == '.',
            digit == exists|k: int| 0 <= k < i && is_digit(#[trigger] s@[k]),
            point == exists|k: int| 0 <= k < i && #[trigger] s@[k] == '.',
            forall|k: int, m: int| 0 <= k < m < i ==> !(#[trigger] s@[k] == '.' && #[trigger] s@[m] == '.'),
        decreases s@.len() - i,
    {
        let c = s[i];
        if c == '.' {
            if point {
                return false;
            }
            point = true;
        } else if '0' <= c && c <= '9' {
            digit = true;
        } else {
            return false;
        }
        i = i + 1;
    }
    digit
}

} // verus!
