//! Decimal numbers in text.

use vstd::prelude::*;
use vstd::string::StringExecFns;

verus! {

/// A decimal digit.
pub open spec fn digit(n: nat) -> Seq<char> {
    if n == 0 {
        "0"@
    } else if n == 1 {
        "1"@
    } else if n == 2 {
        "2"@
    } else if n == 3 {
        "3"@
    } else if n == 4 {
        "4"@
    } else if n == 5 {
        "5"@
    } else if n == 6 {
        "6"@
    } else if n == 7 {
        "7"@
    } else if n == 8 {
        "8"@
    } else {
        "9"@
    }
}

/// The decimal digits of a number, without leading zeros.
pub open spec fn decimal(n: nat) -> Seq<char>
    decreases n,
{
    if n < 10 {
        digit(n)
    } else {
        decimal(n / 10) + digit(n % 10)
    }
}

fn digit_str(n: usize) -> (s: &'static str)
    requires
        n < 10,
    ensures
        s@ == digit(n as nat),
{
    match n {
        0 => "0",
        1 => "1",
        2 => "2",
        3 => "3",
        4 => "4",
        5 => "5",
        6 => "6",
        7 => "7",
        8 => "8",
        _ => "9",
    }
}

/// Appends the decimal digits of `n` to `text`.
pub fn append_decimal(text: &mut String, n: usize)
    ensures
        final(text)@ == old(text)@ + decimal(n as nat),
    decreases n,
{
    if n >= 10 {
        append_decimal(text, n / 10);
    }
    text.append(digit_str(n % 10));
    proof {
        assert(text@ =~= old(text)@ + decimal(n as nat));
    }
}

/// The number that decimal digits spell.
pub open spec fn decimal_value(digits: Seq<char>) -> int
    decreases digits.len(),
{
    if digits.len() == 0 {
        0
    } else {
        10 * decimal_value(digits.drop_last()) + (digits.last() as int - '0' as int)
    }
}

proof fn lemma_digit(n: nat)
    requires
        n < 10,
    ensures
        digit(n).len() == 1,
        digit(n)[0] as int == '0' as int + n,
{
    reveal_strlit("0");
    reveal_strlit("1");
    reveal_strlit("2");
    reveal_strlit("3");
    reveal_strlit("4");
    reveal_strlit("5");
    reveal_strlit("6");
    reveal_strlit("7");
    reveal_strlit("8");
    reveal_strlit("9");
}

/// The decimal digits of a number are digits, spell the number, and do not start
/// with a zero unless the number is zero.
pub proof fn law_decimal(n: nat)
    ensures
        decimal(n).len() > 0,
        forall|i: int| 0 <= i < decimal(n).len() ==> '0' <= #[trigger] decimal(n)[i] <= '9',
        decimal_value(decimal(n)) == n,
        decimal(n)[0] == '0' ==> n == 0,
    decreases n,
{
    if n < 10 {
        lemma_digit(n);
        assert(decimal(n).drop_last() =~= Seq::empty());
        assert(decimal_value(decimal(n).drop_last()) == 0);
    } else {
        let more = decimal(n / 10);
        law_decimal(n / 10);
        lemma_digit(n % 10);
        assert(decimal(n).drop_last() =~= more);
        assert(decimal(n)[0] == more[0]);
    }
}

} // verus!
