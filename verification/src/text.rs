//! Numbers as text.

use vstd::prelude::*;
use vstd::string::*;

verus! {

/// The decimal digit `d`.
pub open spec fn digit(d: nat) -> char {
    ('0' as u32 + d) as char
}

/// `n` in decimal, without leading zeros.
pub open spec fn decimal(n: nat) -> Seq<char>
    decreases n,
{
    if n < 10 {
        seq![digit(n)]
    } else {
        decimal(n / 10).push(digit(n % 10))
    }
}

/// The text of one decimal digit.
fn digit_text(d: u64) -> (s: &'static str)
    requires
        d < 10,
    ensures
        s@ == seq![digit(d as nat)],
{
    proof {
        reveal_strlit("0");
        reveal_strlit("1");
        reveal_strlit("2");
        reveal_strlit("3");
        reveal_strlit("4");
        reveal_strlit("5");
        reveal_strlit("6");
        reveal_strlit("7");
        reveal_strlit("8");
        reveal_strlit("9");
    }
    let s = match d {
        0 => "0",
        1 => "1",
        2 => "2",
        3 => "3",
        4 => "4",
        5 => "5",
        6 => "6",
        7 => "7",
        8 => "8",
        _ => "9",
    };
    assert(s@ =~= seq![digit(d as nat)]);
    s
}

/// Write `n` in decimal.
pub fn decimal_text(n: u64) -> (s: String)
    ensures
        s@ == decimal(n as nat),
    decreases n,
{
    if n < 10 {
        digit_text(n).to_owned()
    } else {
        let mut s = decimal_text(n / 10);
        s.append(digit_text(n % 10));
        assert(s@ =~= decimal(n as nat));
        s
    }
}

/// `before`, the decimal form of `n`, and `after`.
pub fn around(before: &str, n: u64, after: &str) -> (s: String)
    ensures
        s@ == before@ + decimal(n as nat) + after@,
{
    let mut s = before.to_owned();
    let d = decimal_text(n);
    s.append(d.as_str());
    s.append(after);
    s
}

/// `before` and the decimal form of `n`.
pub fn followed_by(before: &str, n: u64) -> (s: String)
    ensures
        s@ == before@ + decimal(n as nat),
{
    let mut s = before.to_owned();
    let d = decimal_text(n);
    s.append(d.as_str());
    s
}


/// The decimal form of a number: digits only, the last of them the number modulo ten after the form
/// of the rest, and none in front of what is needed.
pub proof fn law_decimal_is_positional(n: nat)
    ensures
        n < 10 ==> decimal(n).len() == 1,
        decimal(n).len() > 0,
        decimal(n).last() as u32 == 48 + n % 10,
        n >= 10 ==> decimal(n).drop_last() == decimal(n / 10),
        n > 0 ==> decimal(n)[0] != '0',
        forall|i: int|
            0 <= i < decimal(n).len() ==> '0' <= #[trigger] decimal(n)[i] && decimal(n)[i] <= '9',
    decreases n,
{
    if n >= 10 {
        law_decimal_is_positional(n / 10);
        assert(decimal(n).drop_last() =~= decimal(n / 10));
        assert(decimal(n)[0] == decimal(n / 10)[0]);
        assert forall|i: int| 0 <= i < decimal(n).len() implies '0' <= #[trigger] decimal(n)[i]
            && decimal(n)[i] <= '9' by {
            if i < decimal(n / 10).len() {
                assert(decimal(n)[i] == decimal(n / 10)[i]);
            }
        }
    }
}

/// Different numbers have different decimal forms.
pub proof fn law_decimal_tells_numbers_apart(a: nat, b: nat)
    requires
        decimal(a) == decimal(b),
    ensures
        a == b,
    decreases a,
{
    law_decimal_is_positional(a);
    law_decimal_is_positional(b);
    if a >= 10 && b >= 10 {
        law_decimal_tells_numbers_apart(a / 10, b / 10);
    } else if a >= 10 {
        law_decimal_is_positional(a / 10);
    } else if b >= 10 {
        law_decimal_is_positional(b / 10);
    }
}

}
