//! Numbers in text.

use vstd::prelude::*;
use vstd::string::StringExecFns;

verus! {

/// A decimal digit.
pub open spec fn digit(d: nat) -> char {
    if d == 0 {
        '0'
    } else if d == 1 {
        '1'
    } else if d == 2 {
        '2'
    } else if d == 3 {
        '3'
    } else if d == 4 {
        '4'
    } else if d == 5 {
        '5'
    } else if d == 6 {
        '6'
    } else if d == 7 {
        '7'
    } else if d == 8 {
        '8'
    } else {
        '9'
    }
}

/// A number in decimal digits.
pub open spec fn decimal(x: nat) -> Seq<char>
    decreases x,
{
    if x < 10 {
        seq![digit(x)]
    } else {
        decimal(x / 10).push(digit(x % 10))
    }
}

/// The number that a row of decimal digits stands for.
pub open spec fn read_decimal(s: Seq<char>) -> nat
    decreases s.len(),
{
    if s.len() == 0 {
        0
    } else {
        10 * read_decimal(s.drop_last()) + (s.last() as nat - 48) as nat
    }
}

/// A number in decimal is read back as that number. It is made of digits, and starts with nought
/// only if it is nought.
pub proof fn law_decimal(x: nat)
    ensures
        read_decimal(decimal(x)) == x,
        decimal(x).len() > 0,
        forall|i: int| 0 <= i < decimal(x).len() ==> 48 <= #[trigger] decimal(x)[i] as int <= 57,
        decimal(x)[0] == '0' <==> x == 0,
        x == 0 ==> decimal(x).len() == 1,
    decreases x,
{
    if x < 10 {
        let s = decimal(x);
        assert(s.drop_last() =~= Seq::<char>::empty());
        assert(s.last() == digit(x));
        assert(read_decimal(s.drop_last()) == 0);
    } else {
        law_decimal(x / 10);
        let s = decimal(x);
        assert(s.drop_last() =~= decimal(x / 10));
        assert(s.last() == digit(x % 10));
        assert(s[0] == decimal(x / 10)[0]);
    }
}

fn digit_text(d: u64) -> (r: &'static str)
    requires
        d < 10,
    ensures
        r@ == seq![digit(d as nat)],
{
    proof {
        reveal_strlit("0");
        reveal_strlit("1");
        reveal_strlit("2");
        reveal_strlit("3");
        reveal_strlit("4");
        reveal_strlit("5");
        reveal_strlit("6");
        reveal_strlit("7");
        reveal_strlit("8");
        reveal_strlit("9");
    }
    let r = match d {
        0 => "0",
        1 => "1",
        2 => "2",
        3 => "3",
        4 => "4",
        5 => "5",
        6 => "6",
        7 => "7",
        8 => "8",
        _ => "9",
    };
    assert(r@ =~= seq![digit(d as nat)]);
    r
}

/// Appends a number in decimal digits.
pub fn push_decimal(s: &mut String, x: u64)
    ensures
        final(s)@ == old(s)@ + decimal(x as nat),
    decreases x,
{
    let ghost before = s@;
    if x >= 10 {
        push_decimal(s, x / 10);
    }
    s.append(digit_text(x % 10));
    assert(s@ =~= before + decimal(x as nat));
}

/// Appends a label and a number.
pub fn push_count(s: &mut String, label: &str, x: usize)
    ensures
        final(s)@ == old(s)@ + label@ + decimal(x as nat),
{
    s.append(label);
    push_decimal(s, x as u64);
}

} // verus!
