//! The lexical layer of the grammar: classes of bytes, runs of them, and
//! decimal numbers.

use vstd::prelude::*;
use crate::text::dec;

verus! {

/// The classes of bytes that the grammar takes runs of.
#[derive(Debug, Clone, Copy, PartialEq, Eq, Structural)]
pub enum Class {
    /// Space, tab, carriage return, line feed.
    Space,
    /// `0` to `9`.
    Digit,
    /// ASCII letters and digits.
    Alnum,
    /// What a primitive's token is made of: letters, digits and `'.+-*/=<>&|!`.
    Prim,
    /// What stands for itself in a string literal: all but `"` and `\`.
    Plain,
}

impl Class {
    /// Whether the byte `b` belongs to the class.
    pub open spec fn has(self, b: u8) -> bool {
        match self {
            Class::Space => b == 32 || b == 9 || b == 13 || b == 10,
            Class::Digit => 48 <= b <= 57,
            Class::Alnum => 48 <= b <= 57 || 65 <= b <= 90 || 97 <= b <= 122,
            Class::Prim => 48 <= b <= 57 || 65 <= b <= 90 || 97 <= b <= 122 || b == 39 || b == 46
                || b == 43 || b == 45 || b == 42 || b == 47 || b == 61 || b == 60 || b == 62 || b
                == 38 || b == 124 || b == 33,
            Class::Plain => b != 34 && b != 92,
        }
    }

    /// Whether the byte `b` belongs to the class.
    pub fn contains(&self, b: u8) -> (r: bool)
        ensures
            r == self.has(b),
    {
        match self {
            Class::Space => b == 32 || b == 9 || b == 13 || b == 10,
            Class::Digit => 48 <= b && b <= 57,
            Class::Alnum => (48 <= b && b <= 57) || (65 <= b && b <= 90) || (97 <= b && b <= 122),
            Class::Prim => (48 <= b && b <= 57) || (65 <= b && b <= 90) || (97 <= b && b <= 122)
                || b == 39 || b == 46 || b == 43 || b == 45 || b == 42 || b == 47 || b == 61 || b
                == 60 || b == 62 || b == 38 || b == 124 || b == 33,
            Class::Plain => b != 34 && b != 92,
        }
    }
}

/// The length of the longest run of bytes of `class` that starts at `pos`.
pub open spec fn run(s: Seq<u8>, pos: int, class: Class) -> nat
    decreases s.len() - pos,
{
    if 0 <= pos < s.len() && class.has(s[pos]) {
        1 + run(s, pos + 1, class)
    } else {
        0
    }
}

/// A run ends within the input.
pub proof fn lemma_run_bound(s: Seq<u8>, pos: int, class: Class)
    requires
        0 <= pos <= s.len(),
    ensures
        pos + run(s, pos, class) <= s.len(),
    decreases s.len() - pos,
{
    if pos < s.len() && class.has(s[pos]) {
        lemma_run_bound(s, pos + 1, class);
    }
}

/// The end of the longest run of bytes of `class` that starts at `pos`.
pub fn scan(input: &[u8], pos: usize, class: Class) -> (end: usize)
    requires
        pos <= input.len(),
    ensures
        end == pos + run(input@, pos as int, class),
        end <= input.len(),
{
    let mut i = pos;
    while i < input.len() && class.contains(input[i])
        invariant
            pos <= i <= input.len(),
            run(input@, pos as int, class) == (i - pos) + run(input@, i as int, class),
        decreases input.len() - i,
    {
        i += 1;
    }
    i
}

/// The number that a run of decimal digits denotes.
pub open spec fn dec_value(digits: Seq<u8>) -> nat
    decreases digits.len(),
{
    if digits.len() == 0 {
        0
    } else {
        dec_value(digits.drop_last()) * 10 + (digits.last() - 48) as nat
    }
}

/// A run of digits denotes at least what any of its prefixes denotes.
proof fn lemma_dec_value_rises(digits: Seq<u8>, n: int)
    requires
        0 <= n <= digits.len(),
        forall|i: int| 0 <= i < digits.len() ==> 48 <= #[trigger] digits[i] <= 57,
    ensures
        dec_value(digits.subrange(0, n)) <= dec_value(digits),
    decreases digits.len() - n,
{
    if n < digits.len() {
        let longer = digits.subrange(0, n + 1);
        assert(longer.drop_last() =~= digits.subrange(0, n));
        lemma_dec_value_rises(digits, n + 1);
    } else {
        assert(digits.subrange(0, n) =~= digits);
    }
}

/// Every byte of a run belongs to the run's class.
pub proof fn lemma_run_class(s: Seq<u8>, pos: int, class: Class, i: int)
    requires
        0 <= pos <= i < pos + run(s, pos, class),
    ensures
        i < s.len(),
        class.has(s[i]),
    decreases i - pos,
{
    if i > pos {
        lemma_run_class(s, pos + 1, class, i);
    }
}

/// The value of the digits of `input` from `pos` to `end`, where it is at
/// most `max`.
pub fn number(input: &[u8], pos: usize, end: usize, max: u64) -> (r: Option<u64>)
    requires
        pos <= end <= input.len(),
        forall|i: int| pos <= i < end ==> 48 <= #[trigger] input@[i] <= 57,
    ensures
        r == if dec_value(input@.subrange(pos as int, end as int)) <= max {
            Some(dec_value(input@.subrange(pos as int, end as int)) as u64)
        } else {
            None::<u64>
        },
{
    let ghost digits = input@.subrange(pos as int, end as int);
    let mut value: u64 = 0;
    let mut i = pos;
    assert(digits.subrange(0, 0) =~= Seq::<u8>::empty());
    while i < end
        invariant
            pos <= i <= end <= input.len(),
            digits == input@.subrange(pos as int, end as int),
            forall|k: int| 0 <= k < digits.len() ==> 48 <= #[trigger] digits[k] <= 57,
            forall|k: int| pos <= k < end ==> 48 <= #[trigger] input@[k] <= 57,
            value == dec_value(digits.subrange(0, i - pos)),
            value <= max,
        decreases end - i,
    {
        let d = (input[i] - 48) as u64;
        proof {
            let longer = digits.subrange(0, i - pos + 1);
            assert(longer.drop_last() =~= digits.subrange(0, i - pos));
            assert(longer.last() == input@[i as int]);
            assert(dec_value(longer) == value * 10 + d);
            lemma_dec_value_rises(digits, i - pos + 1);
        }
        if d > max || value > (max - d) / 10 {
            assert(value * 10 + d > max);
            return None;
        }
        value = value * 10 + d;
        i += 1;
    }
    assert(digits.subrange(0, digits.len() as int) =~= digits);
    Some(value)
}

/// The decimal digits of a number are digits, at least one of them.
pub proof fn lemma_dec_digits(n: nat)
    ensures
        dec(n).len() > 0,
        forall|i: int| 0 <= i < dec(n).len() ==> Class::Digit.has(#[trigger] dec(n)[i]),
    decreases n,
{
    if n >= 10 {
        lemma_dec_digits(n / 10);
    }
}

/// The decimal digits of a number denote the number.
pub proof fn lemma_dec_value(n: nat)
    ensures
        dec_value(dec(n)) == n,
    decreases n,
{
    let digits = dec(n);
    if n < 10 {
        assert(digits.drop_last() =~= Seq::<u8>::empty());
        assert(digits.last() == 48 + n);
        assert(dec_value(digits.drop_last()) == 0);
    } else {
        lemma_dec_value(n / 10);
        assert(digits.drop_last() =~= dec(n / 10));
        assert(digits.last() == 48 + n % 10);
        assert(dec_value(digits) == dec_value(dec(n / 10)) * 10 + n % 10);
    }
}

/// A run over bytes of a class goes on to the first byte that is not of it.
pub proof fn lemma_run_exact(s: Seq<u8>, pos: int, class: Class, n: nat)
    requires
        0 <= pos,
        pos + n <= s.len(),
        forall|i: int| pos <= i < pos + n ==> class.has(#[trigger] s[i]),
        pos + n == s.len() || !class.has(s[pos + n]),
    ensures
        run(s, pos, class) == n,
    decreases n,
{
    if n > 0 {
        lemma_run_exact(s, pos + 1, class, (n - 1) as nat);
    }
}

/// Reading back the decimal digits of a number gives the number: where no
/// digit follows them, the run of digits at their start is they, and it
/// denotes the number.
pub proof fn lemma_dec_round_trip(n: nat, rest: Seq<u8>)
    requires
        rest.len() == 0 || !Class::Digit.has(rest[0]),
    ensures
        run(dec(n) + rest, 0, Class::Digit) == dec(n).len(),
        dec_value((dec(n) + rest).subrange(0, dec(n).len() as int)) == n,
{
    let s = dec(n) + rest;
    lemma_dec_digits(n);
    lemma_dec_value(n);
    assert forall|i: int| 0 <= i < dec(n).len() implies Class::Digit.has(#[trigger] s[i]) by {
        assert(s[i] == dec(n)[i]);
    }
    if rest.len() > 0 {
        assert(s[dec(n).len() as int] == rest[0]);
    }
    lemma_run_exact(s, 0, Class::Digit, dec(n).len());
    assert(s.subrange(0, dec(n).len() as int) =~= dec(n));
}

} // verus!
