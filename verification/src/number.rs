//! How a property's raw value is read as a number or as a truth value.
//!
//! A number is written in base ten, or in base sixteen behind the prefix
//! `0x`. A `+` may stand in front of the digits; a `-` may do so where the
//! target type is signed. Nothing else may surround the digits.

use crate::text::{chars_of, same_text};
use vstd::prelude::*;
use vstd::slice::slice_subrange;

verus! {

/// The value of `c` as a digit: `0` to `9`, then the letters, in either case,
/// from ten on.
pub open spec fn digit_value(c: char) -> Option<nat> {
    let u = c as u32;
    if 0x30 <= u <= 0x39 {
        Some((u - 0x30) as nat)
    } else if 0x61 <= u <= 0x7A {
        Some((u - 0x61 + 10) as nat)
    } else if 0x41 <= u <= 0x5A {
        Some((u - 0x41 + 10) as nat)
    } else {
        None
    }
}

/// Whether `c` is a digit of base `radix`.
pub open spec fn is_digit(c: char, radix: nat) -> bool {
    digit_value(c) matches Some(d) && d < radix
}

/// Whether `s` is one digit of base `radix` or more, and nothing else.
pub open spec fn all_digits(s: Seq<char>, radix: nat) -> bool {
    s.len() > 0 && forall|i: int| 0 <= i < s.len() ==> is_digit(#[trigger] s[i], radix)
}

/// The number that the digits `s` denote in base `radix`.
pub open spec fn digits_value(s: Seq<char>, radix: nat) -> nat
    decreases s.len(),
{
    if s.len() == 0 {
        0
    } else {
        digits_value(s.drop_last(), radix) * radix + digit_value(s.last()).unwrap_or(0)
    }
}

/// The number that `s` denotes in base `radix`, if it denotes one: digits,
/// with an optional `+` in front, or an optional `-` where `signed` holds.
pub open spec fn parse_radix(s: Seq<char>, radix: nat, signed: bool) -> Option<int> {
    if s.len() > 0 && s[0] == '+' {
        if all_digits(s.drop_first(), radix) {
            Some(digits_value(s.drop_first(), radix) as int)
        } else {
            None
        }
    } else if s.len() > 0 && s[0] == '-' && signed {
        if all_digits(s.drop_first(), radix) {
            Some(-(digits_value(s.drop_first(), radix) as int))
        } else {
            None
        }
    } else if all_digits(s, radix) {
        Some(digits_value(s, radix) as int)
    } else {
        None
    }
}

/// Whether `s` starts with the prefix of base sixteen.
pub open spec fn has_hex_prefix(s: Seq<char>) -> bool {
    s.len() >= 2 && s[0] == '0' && s[1] == 'x'
}

/// The number that a raw value denotes: base sixteen behind `0x`, base ten
/// otherwise.
pub open spec fn number(s: Seq<char>, signed: bool) -> Option<int> {
    if has_hex_prefix(s) {
        parse_radix(s.subrange(2, s.len() as int), 16, signed)
    } else {
        parse_radix(s, 10, signed)
    }
}

/// The number that a raw value denotes, if it lies between `min` and `max`.
pub open spec fn integer(s: Seq<char>, signed: bool, min: int, max: int) -> Option<int> {
    match number(s, signed) {
        Some(v) => if min <= v <= max {
            Some(v)
        } else {
            None
        },
        None => None,
    }
}

/// The truth value that a raw value denotes: `true` or `false`, written
/// exactly so.
pub open spec fn truth(s: Seq<char>) -> Option<bool> {
    if s == seq!['t', 'r', 'u', 'e'] {
        Some(true)
    } else if s == seq!['f', 'a', 'l', 's', 'e'] {
        Some(false)
    } else {
        None
    }
}

/// More digits never denote less.
pub proof fn lemma_digits_value_grows(s: Seq<char>, radix: nat, k: int)
    requires
        radix >= 1,
        0 <= k <= s.len(),
    ensures
        digits_value(s.subrange(0, k), radix) <= digits_value(s, radix),
    decreases s.len() - k,
{
    if k == s.len() {
        assert(s.subrange(0, k) =~= s);
    } else {
        let front = s.drop_last();
        assert(front.subrange(0, k) =~= s.subrange(0, k));
        lemma_digits_value_grows(front, radix, k);
        assert(digits_value(front, radix) * radix >= digits_value(front, radix)) by (nonlinear_arith)
            requires
                radix >= 1,
        ;
    }
}

/// The value of `c` as a digit, if it is one.
fn digit_of(c: char) -> (d: Option<u8>)
    ensures
        d matches Some(v) ==> digit_value(c) == Some(v as nat) && v < 36,
        d is None ==> digit_value(c) is None,
{
    let u: u32 = c as u32;
    if 0x30 <= u && u <= 0x39 {
        Some((u - 0x30) as u8)
    } else if 0x61 <= u && u <= 0x7A {
        Some((u - 0x61 + 10) as u8)
    } else if 0x41 <= u && u <= 0x5A {
        Some((u - 0x41 + 10) as u8)
    } else {
        None
    }
}

/// Reads the digits `s` in base `radix`. Returns their value if they are
/// digits and the value is at most `limit`.
fn read_digits(s: &[char], radix: u8, limit: u64) -> (r: Option<u64>)
    requires
        1 <= radix <= 36,
    ensures
        r matches Some(v) ==> all_digits(s@, radix as nat) && digits_value(s@, radix as nat) == v
            && v <= limit,
        r is None ==> !all_digits(s@, radix as nat) || digits_value(s@, radix as nat) > limit,
{
    let n: usize = s.len();
    if n == 0 {
        return None;
    }
    let mut acc: u64 = 0;
    let mut i: usize = 0;
    proof {
        assert(s@.subrange(0, 0) =~= Seq::<char>::empty());
    }
    while i < n
        invariant
            i <= n,
            n == s@.len(),
            1 <= radix <= 36,
            forall|j: int| 0 <= j < i ==> is_digit(#[trigger] s@[j], radix as nat),
            acc == digits_value(s@.subrange(0, i as int), radix as nat),
            acc <= limit,
        decreases n - i,
    {
        let d: u8 = match digit_of(s[i]) {
            Some(d) => d,
            None => {
                assert(!is_digit(s@[i as int], radix as nat));
                return None;
            },
        };
        if d >= radix {
            assert(!is_digit(s@[i as int], radix as nat));
            return None;
        }
        let ghost next = s@.subrange(0, i + 1);
        proof {
            assert(next.drop_last() =~= s@.subrange(0, i as int));
            assert(next.last() == s@[i as int]);
            lemma_digits_value_grows(s@, radix as nat, i + 1);
        }
        proof {
            assert((acc as u128) * (radix as u128) <= 0xFFFF_FFFF_FFFF_FFFF * 36) by (nonlinear_arith)
                requires
                    acc <= 0xFFFF_FFFF_FFFF_FFFF,
                    radix <= 36,
            ;
        }
        let wide: u128 = (acc as u128) * (radix as u128) + (d as u128);
        proof {
            assert(wide == digits_value(next, radix as nat));
        }
        if wide > limit as u128 {
            return None;
        }
        acc = wide as u64;
        i += 1;
    }
    proof {
        assert(s@.subrange(0, n as int) =~= s@);
    }
    Some(acc)
}

/// Reads a raw value as an integer between `min` and `max`.
pub fn read_integer(value: &str, signed: bool, min: i128, max: i128) -> (r: Option<i128>)
    requires
        -0x8000_0000_0000_0000 <= min <= 0,
        0 <= max <= 0xFFFF_FFFF_FFFF_FFFF,
    ensures
        r matches Some(v) ==> integer(value@, signed, min as int, max as int) == Some(v as int),
        r is None ==> integer(value@, signed, min as int, max as int) is None,
{
    let chars = chars_of(value);
    let all = chars.as_slice();
    let n: usize = all.len();
    let hex: bool = n >= 2 && all[0] == '0' && all[1] == 'x';
    let body = if hex {
        slice_subrange(all, 2, n)
    } else {
        all
    };
    let radix: u8 = if hex {
        16
    } else {
        10
    };
    let m: usize = body.len();
    if m > 0 && body[0] == '+' {
        let digits = slice_subrange(body, 1, m);
        proof {
            assert(digits@ =~= body@.drop_first());
        }
        match read_digits(digits, radix, max as u64) {
            Some(v) => Some(v as i128),
            None => None,
        }
    } else if m > 0 && body[0] == '-' && signed {
        let digits = slice_subrange(body, 1, m);
        proof {
            assert(digits@ =~= body@.drop_first());
        }
        match read_digits(digits, radix, (-min) as u64) {
            Some(v) => Some(-(v as i128)),
            None => None,
        }
    } else {
        match read_digits(body, radix, max as u64) {
            Some(v) => Some(v as i128),
            None => None,
        }
    }
}

/// Reads a raw value as a truth value.
pub fn read_truth(value: &str) -> (r: Option<bool>)
    ensures
        r == truth(value@),
{
    proof {
        reveal_strlit("true");
        reveal_strlit("false");
        assert("true"@ =~= seq!['t', 'r', 'u', 'e']);
        assert("false"@ =~= seq!['f', 'a', 'l', 's', 'e']);
    }
    if same_text(value, "true") {
        Some(true)
    } else if same_text(value, "false") {
        Some(false)
    } else {
        None
    }
}

} // verus!
