//! Integers written and read as byte strings in bases 2 to 36.
//!
//! A number may follow arbitrary lead text: `Prefix 12` carries the value 12
//! and the prefix `Prefix `. The numeric part is the longest run of digits at
//! the end of the string, with one `-` in front of it counted as its sign.

use vstd::prelude::*;
use crate::mint_types::{MintCount, MintString};

verus! {

/// The base actually used for a requested base: clamped to 2..=36.
pub open spec fn clamp_base(base: int) -> int {
    if base < 2 {
        2
    } else if base > 36 {
        36
    } else {
        base
    }
}

/// The character that stands for the digit `n`.
pub open spec fn digit_of(n: int) -> u8 {
    if n < 10 {
        (48 + n) as u8
    } else {
        (55 + n) as u8
    }
}

/// The digits of `n` in `base`, most significant first; `0` is one digit.
pub open spec fn digits_of(n: nat, base: nat) -> Seq<u8>
    decreases n,
    via digits_of_decreases
{
    if base < 2 || n < base {
        seq![digit_of(n as int)]
    } else {
        digits_of(n / base, base).push(digit_of((n % base) as int))
    }
}

#[via_fn]
proof fn digits_of_decreases(n: nat, base: nat) {
    if !(base < 2 || n < base) {
        vstd::arithmetic::div_mod::lemma_div_decreases(n as int, base as int);
    }
}

/// The text of the signed number `n` in `base`.
pub open spec fn number_text(n: int, base: int) -> Seq<u8> {
    if n < 0 {
        seq![45u8] + digits_of((-n) as nat, base as nat)
    } else {
        digits_of(n as nat, base as nat)
    }
}

/// ASCII upper case of one byte.
pub open spec fn upper_of(ch: u8) -> u8 {
    if 97 <= ch <= 122 {
        (ch - 32) as u8
    } else {
        ch
    }
}

/// Whether `ch` is a digit of `base`, letters in either case.
pub open spec fn is_digit_in(ch: u8, base: int) -> bool {
    let u = upper_of(ch);
    ||| (48 <= u && u < 48 + (if base < 10 { base } else { 10 }))
    ||| (65 <= u && u < 65 + (if base > 10 { base - 10 } else { 0 }))
}

/// The value of a digit of `base`.
pub open spec fn digit_value(ch: u8, base: int) -> int {
    let u = upper_of(ch);
    if u < 65 {
        u - 48
    } else {
        10 + (u - 65)
    }
}

/// Where the run of digits at the end of `s` starts; `s.len()` if there is none.
pub open spec fn digits_start(s: Seq<u8>, base: int) -> int
    decreases s.len(),
{
    if s.len() == 0 || !is_digit_in(s.last(), base) {
        s.len() as int
    } else {
        digits_start(s.drop_last(), base)
    }
}

/// Whether a minus sign stands directly in front of the digits at the end of `s`.
pub open spec fn has_sign(s: Seq<u8>, base: int) -> bool {
    let st = digits_start(s, base);
    st > 0 && s[st - 1] == 45u8
}

/// The value of a run of digits, accumulated in 32-bit two's complement.
pub open spec fn digits_value(d: Seq<u8>, base: int) -> i32
    decreases d.len(),
{
    if d.len() == 0 {
        0i32
    } else {
        (digits_value(d.drop_last(), base) * base + digit_value(d.last(), base)) as i32
    }
}

/// The number at the end of `s`, read in `base` (not clamped here).
pub open spec fn int_value_of(s: Seq<u8>, base: int) -> i32 {
    let st = digits_start(s, base);
    let mag = digits_value(s.subrange(st, s.len() as int), base);
    if has_sign(s, base) {
        (-mag) as i32
    } else {
        mag
    }
}

/// The text in front of the number at the end of `s`, the sign excluded.
pub open spec fn int_prefix_of(s: Seq<u8>, base: int) -> Seq<u8> {
    let st = digits_start(s, base);
    if has_sign(s, base) {
        s.subrange(0, st - 1)
    } else {
        s.subrange(0, st)
    }
}

pub proof fn lemma_digits_start_bounds(s: Seq<u8>, base: int)
    ensures
        0 <= digits_start(s, base) <= s.len(),
        forall|i: int| digits_start(s, base) <= i < s.len() ==> is_digit_in(#[trigger] s[i], base),
        digits_start(s, base) > 0 ==> !is_digit_in(s[digits_start(s, base) - 1], base),
    decreases s.len(),
{
    if s.len() == 0 || !is_digit_in(s.last(), base) {
    } else {
        let t = s.drop_last();
        lemma_digits_start_bounds(t, base);
        assert forall|i: int| digits_start(s, base) <= i < s.len() implies is_digit_in(
            #[trigger] s[i],
            base,
        ) by {
            if i < t.len() {
                assert(s[i] == t[i]);
            }
        }
        if digits_start(s, base) > 0 {
            assert(s[digits_start(s, base) - 1] == t[digits_start(s, base) - 1]);
        }
    }
}

/// The start of the digits is the one index with digits behind it and none before it.
pub proof fn lemma_digits_start_unique(s: Seq<u8>, base: int, i: int)
    requires
        0 <= i <= s.len(),
        forall|j: int| i <= j < s.len() ==> is_digit_in(#[trigger] s[j], base),
        i > 0 ==> !is_digit_in(s[i - 1], base),
    ensures
        digits_start(s, base) == i,
    decreases s.len(),
{
    if s.len() == 0 || !is_digit_in(s.last(), base) {
        if i < s.len() {
            assert(is_digit_in(s[s.len() - 1], base));
        }
    } else {
        let t = s.drop_last();
        assert(i < s.len()) by {
            if i == s.len() {
                assert(!is_digit_in(s[i - 1], base));
            }
        }
        assert forall|j: int| i <= j < t.len() implies is_digit_in(#[trigger] t[j], base) by {
            assert(t[j] == s[j]);
        }
        if i > 0 {
            assert(t[i - 1] == s[i - 1]);
        }
        lemma_digits_start_unique(t, base, i);
    }
}

pub fn to_upper(ch: u8) -> (r: u8)
    ensures
        r == upper_of(ch),
{
    if ch >= 97 && ch <= 122 {
        ch - 32
    } else {
        ch
    }
}

pub fn clamped_base(base: i32) -> (r: i32)
    ensures
        r == clamp_base(base as int),
        2 <= r <= 36,
{
    if base < 2 {
        2
    } else if base > 36 {
        36
    } else {
        base
    }
}

pub fn is_base_digit(ch: u8, base: i32) -> (r: bool)
    requires
        2 <= base <= 36,
    ensures
        r == is_digit_in(ch, base as int),
{
    let u = to_upper(ch);
    let end_number: u8 = 48 + (if base < 10 { base as u8 } else { 10 });
    let end_letter: u8 = 65 + (if base > 10 { (base - 10) as u8 } else { 0 });
    (u >= 48 && u < end_number) || (u >= 65 && u < end_letter)
}

pub fn digit_char(n: u32) -> (r: u8)
    requires
        n < 36,
    ensures
        r == digit_of(n as int),
{
    if n < 10 {
        48 + n as u8
    } else {
        65 + (n - 10) as u8
    }
}

pub fn make_digits(s: &mut MintString, n: MintCount, base: u32)
    requires
        2 <= base <= 36,
    ensures
        final(s)@ == old(s)@ + digits_of(n as nat, base as nat),
    decreases n,
{
    let digit = n % base;
    if n >= base {
        proof {
            vstd::arithmetic::div_mod::lemma_div_decreases(n as int, base as int);
        }
        make_digits(s, n / base, base);
    }
    s.push(digit_char(digit));
    proof {
        if n >= base {
            let hi = digits_of((n / base) as nat, base as nat);
            assert((n as nat) / (base as nat) == (n / base) as nat);
            assert((n as nat) % (base as nat) == (n % base) as nat);
            assert(digits_of(n as nat, base as nat) == hi.push(digit_of((n % base) as int)));
            assert(s@ =~= old(s)@ + hi.push(digit_of((n % base) as int)));
        } else {
            vstd::arithmetic::div_mod::lemma_small_mod(n as nat, base as nat);
            assert(digits_of(n as nat, base as nat) == seq![digit_of(n as int)]);
            assert(s@ =~= old(s)@ + seq![digit_of(n as int)]);
        }
    }
}

/// Appends `n` written in `base` (clamped to 2..=36), with a leading `-` if negative.
pub fn append_num(s: &mut MintString, n: i32, base: i32)
    ensures
        final(s)@ == old(s)@ + number_text(n as int, clamp_base(base as int)),
{
    let b = clamped_base(base) as u32;
    if n < 0 {
        s.push(45u8);
        let m: u32 = (-(n as i64)) as u32;
        make_digits(s, m, b);
        assert(s@ =~= old(s)@ + number_text(n as int, clamp_base(base as int)));
    } else {
        make_digits(s, n as u32, b);
    }
}

/// The number at the end of `s`, read in `base` (clamped to 2..=36); 0 if
/// there are no digits. Overflow wraps in 32-bit two's complement.
pub fn get_int_value(s: &MintString, base: i32) -> (r: i32)
    ensures
        r == int_value_of(s@, clamp_base(base as int)),
{
    let b = clamped_base(base);
    let mut i: usize = s.len();
    let mut negative = false;
    proof {
        lemma_digits_start_bounds(s@, b as int);
    }
    while i > 0 && is_base_digit(s[i - 1], b)
        invariant
            2 <= b <= 36,
            0 <= i <= s.len(),
            forall|j: int| i <= j < s.len() ==> is_digit_in(#[trigger] s@[j], b as int),
        decreases i,
    {
        i -= 1;
    }
    proof {
        lemma_digits_start_unique(s@, b as int, i as int);
    }
    if i > 0 && s[i - 1] == 45u8 {
        negative = true;
    }
    let start = i;
    let mut number: i32 = 0;
    while i < s.len()
        invariant
            2 <= b <= 36,
            start <= i <= s.len(),
            forall|j: int| start <= j < s.len() ==> is_digit_in(#[trigger] s@[j], b as int),
            number == digits_value(s@.subrange(start as int, i as int), b as int),
        decreases s.len() - i,
    {
        let u = to_upper(s[i]);
        let digit: i32 = if u < 65 {
            (u - 48) as i32
        } else {
            10 + (u - 65) as i32
        };
        proof {
            assert(is_digit_in(s@[i as int], b as int));
            let d = s@.subrange(start as int, i + 1);
            assert(d.drop_last() =~= s@.subrange(start as int, i as int));
            assert(d.last() == s@[i as int]);
            assert(digit == digit_value(s@[i as int], b as int));
        }
        assert(-77309411328 <= (number as i64) * (b as i64) <= 77309411328) by (nonlinear_arith)
            requires
                -2147483648 <= number <= 2147483647,
                2 <= b <= 36,
        ;
        number = #[verifier::truncate] (((number as i64) * (b as i64) + (digit as i64)) as i32);
        i += 1;
    }
    if negative {
        #[verifier::truncate] ((-(number as i64)) as i32)
    } else {
        number
    }
}

/// The text in front of the number at the end of `s`; the sign is not part of it.
pub fn get_int_prefix(s: &MintString, base: i32) -> (r: MintString)
    ensures
        r@ == int_prefix_of(s@, clamp_base(base as int)),
{
    let b = clamped_base(base);
    let mut plast: usize = s.len();
    proof {
        lemma_digits_start_bounds(s@, b as int);
    }
    while plast > 0 && is_base_digit(s[plast - 1], b)
        invariant
            2 <= b <= 36,
            0 <= plast <= s.len(),
            forall|j: int| plast <= j < s.len() ==> is_digit_in(#[trigger] s@[j], b as int),
        decreases plast,
    {
        plast -= 1;
    }
    proof {
        lemma_digits_start_unique(s@, b as int, plast as int);
    }
    if plast > 0 && s[plast - 1] == 45u8 {
        plast -= 1;
    }
    let mut r: MintString = Vec::new();
    let mut k: usize = 0;
    while k < plast
        invariant
            0 <= k <= plast <= s.len(),
            r@ == s@.subrange(0, k as int),
        decreases plast - k,
    {
        r.push(s[k]);
        assert(r@ =~= s@.subrange(0, k + 1));
        k += 1;
    }
    r
}

} // verus!
