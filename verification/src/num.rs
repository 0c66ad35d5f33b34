//! Decimal numerals: formatting an unsigned integer as its digits and
//! reading a digit string back, with proofs that the two match.

use vstd::prelude::*;
use vstd::arithmetic::div_mod::lemma_fundamental_div_mod;

verus! {

/// The character for a single decimal digit value.
pub open spec fn digit_char(d: nat) -> char {
    if d == 0 {
        '0'
    } else if d == 1 {
        '1'
    } else if d == 2 {
        '2'
    } else if d == 3 {
        '3'
    } else if d == 4 {
        '4'
    } else if d == 5 {
        '5'
    } else if d == 6 {
        '6'
    } else if d == 7 {
        '7'
    } else if d == 8 {
        '8'
    } else {
        '9'
    }
}

/// Whether a character is a decimal digit.
pub open spec fn is_digit(c: char) -> bool {
    c == '0' || c == '1' || c == '2' || c == '3' || c == '4' || c == '5' || c == '6' || c == '7'
        || c == '8' || c == '9'
}

/// The value of a decimal digit character.
pub open spec fn digit_val(c: char) -> nat {
    if c == '0' {
        0
    } else if c == '1' {
        1
    } else if c == '2' {
        2
    } else if c == '3' {
        3
    } else if c == '4' {
        4
    } else if c == '5' {
        5
    } else if c == '6' {
        6
    } else if c == '7' {
        7
    } else if c == '8' {
        8
    } else {
        9
    }
}

/// The decimal numeral of `n`, most significant digit first.
pub open spec fn digits_of(n: nat) -> Seq<char>
    decreases n,
{
    if n < 10 {
        seq![digit_char(n)]
    } else {
        digits_of(n / 10).push(digit_char(n % 10))
    }
}

/// Whether every character of the sequence is a decimal digit.
pub open spec fn all_digits(s: Seq<char>) -> bool {
    forall|i: int| 0 <= i < s.len() ==> is_digit(s[i])
}

/// The value of a digit sequence read as a decimal numeral.
pub open spec fn digits_val(s: Seq<char>) -> nat
    decreases s.len(),
{
    if s.len() == 0 {
        0
    } else {
        digits_val(s.drop_last()) * 10 + digit_val(s.last())
    }
}

/// What a sequence of characters denotes as an unsigned decimal numeral:
/// `None` unless it is non-empty and all digits.
pub open spec fn parse_digits(s: Seq<char>) -> Option<nat> {
    if s.len() > 0 && all_digits(s) {
        Some(digits_val(s))
    } else {
        None
    }
}

/// A digit character reads back as the digit it was made from.
proof fn lemma_digit_char_val(d: nat)
    requires
        d < 10,
    ensures
        is_digit(digit_char(d)),
        digit_val(digit_char(d)) == d,
{
}

/// The numeral of `n` is non-empty, all digits, and reads back as `n`.
pub proof fn lemma_digits_of_val(n: nat)
    ensures
        digits_of(n).len() >= 1,
        all_digits(digits_of(n)),
        digits_val(digits_of(n)) == n,
        parse_digits(digits_of(n)) == Some(n),
    decreases n,
{
    if n < 10 {
        lemma_digit_char_val(n);
        assert(digits_of(n) =~= seq![digit_char(n)]);
        assert(digits_of(n).drop_last() =~= Seq::<char>::empty());
        assert(digits_val(Seq::<char>::empty()) == 0);
        assert(digits_val(digits_of(n)) == digit_val(digit_char(n)));
    } else {
        lemma_digits_of_val(n / 10);
        lemma_digit_char_val(n % 10);
        let s = digits_of(n / 10);
        let c = digit_char(n % 10);
        assert(s.push(c).drop_last() =~= s);
        assert(s.push(c).last() == c);
        assert(digit_val(c) == n % 10);
        assert(digits_val(s.push(c)) == (n / 10) * 10 + n % 10);
        lemma_fundamental_div_mod(n as int, 10);
        assert(forall|i: int|
            0 <= i < s.push(c).len() ==> is_digit(#[trigger] s.push(c)[i]));
    }
}

/// A longer numeral never denotes a smaller value than one of its prefixes.
proof fn lemma_digits_val_prefix(s: Seq<char>, j: int)
    requires
        0 <= j <= s.len(),
    ensures
        digits_val(s.take(j)) <= digits_val(s),
    decreases s.len() - j,
{
    if j == s.len() {
        assert(s.take(j) =~= s);
    } else {
        let a = s.take(j);
        let b = s.take(j + 1);
        assert(b.drop_last() =~= a);
        assert(digits_val(b) == digits_val(a) * 10 + digit_val(b.last()));
        assert(digits_val(a) * 10 >= digits_val(a));
        lemma_digits_val_prefix(s, j + 1);
    }
}

/// The character for a digit value below ten.
fn digit_to_char(d: usize) -> (c: char)
    requires
        d < 10,
    ensures
        c == digit_char(d as nat),
{
    if d == 0 {
        '0'
    } else if d == 1 {
        '1'
    } else if d == 2 {
        '2'
    } else if d == 3 {
        '3'
    } else if d == 4 {
        '4'
    } else if d == 5 {
        '5'
    } else if d == 6 {
        '6'
    } else if d == 7 {
        '7'
    } else if d == 8 {
        '8'
    } else {
        '9'
    }
}

/// The value of a digit character, or `None` for any other character.
fn char_to_digit(c: char) -> (r: Option<usize>)
    ensures
        match r {
            Some(d) => is_digit(c) && d < 10 && d as nat == digit_val(c),
            None => !is_digit(c),
        },
{
    if c == '0' {
        Some(0)
    } else if c == '1' {
        Some(1)
    } else if c == '2' {
        Some(2)
    } else if c == '3' {
        Some(3)
    } else if c == '4' {
        Some(4)
    } else if c == '5' {
        Some(5)
    } else if c == '6' {
        Some(6)
    } else if c == '7' {
        Some(7)
    } else if c == '8' {
        Some(8)
    } else if c == '9' {
        Some(9)
    } else {
        None
    }
}

/// The decimal numeral of `n`, as characters.
pub fn fmt_usize(n: usize) -> (v: Vec<char>)
    ensures
        v@ == digits_of(n as nat),
    decreases n,
{
    if n < 10 {
        let mut v: Vec<char> = Vec::new();
        v.push(digit_to_char(n));
        proof {
            assert(v@ =~= seq![digit_char(n as nat)]);
        }
        v
    } else {
        proof {
            lemma_fundamental_div_mod(n as int, 10);
        }
        let mut v = fmt_usize(n / 10);
        v.push(digit_to_char(n % 10));
        v
    }
}

/// Reads a decimal numeral. Returns the denoted value when there is one and
/// it fits in `usize`; returns `None` otherwise.
pub fn parse_usize(v: &Vec<char>) -> (r: Option<usize>)
    ensures
        match parse_digits(v@) {
            Some(val) => if val <= usize::MAX as nat {
                r == Some(val as usize)
            } else {
                r is None
            },
            None => r is None,
        },
{
    if v.len() == 0 {
        return None;
    }
    let mut acc: usize = 0;
    let mut i: usize = 0;
    while i < v.len()
        invariant
            i <= v.len(),
            v@.len() > 0,
            all_digits(v@.take(i as int)),
            acc as nat == digits_val(v@.take(i as int)),
        decreases v.len() - i,
    {
        proof {
            assert(v@.take(i + 1).drop_last() =~= v@.take(i as int));
            assert(v@.take(i + 1).last() == v@[i as int]);
        }
        match char_to_digit(v[i]) {
            None => {
                proof {
                    assert(!is_digit(v@[i as int]));
                    assert(!all_digits(v@));
                }
                return None;
            },
            Some(d) => {
                if acc > (usize::MAX - d) / 10 {
                    proof {
                        lemma_fundamental_div_mod((usize::MAX - d) as int, 10);
                        assert(acc * 10 >= ((usize::MAX - d) / 10 + 1) * 10);
                        assert(acc as nat * 10 + d > usize::MAX as nat);
                        assert(digits_val(v@.take(i + 1)) > usize::MAX as nat);
                        lemma_digits_val_prefix(v@, i + 1);
                        assert(digits_val(v@) > usize::MAX as nat);
                    }
                    return None;
                }
                proof {
                    assert(acc <= (usize::MAX - d) / 10);
                    lemma_fundamental_div_mod((usize::MAX - d) as int, 10);
                    assert(acc * 10 <= ((usize::MAX - d) / 10) * 10);
                    assert(acc * 10 + d <= usize::MAX);
                }
                acc = acc * 10 + d;
            },
        }
        i = i + 1;
    }
    proof {
        assert(v@.take(v@.len() as int) =~= v@);
    }
    Some(acc)
}

} // verus!
