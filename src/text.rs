use vstd::prelude::*;

verus! {

/// The decimal digit `d`.
pub open spec fn digit_char(d: nat) -> char {
    seq!['0', '1', '2', '3', '4', '5', '6', '7', '8', '9'][d as int]
}

/// The decimal notation of `n`, without leading zeros.
pub open spec fn decimal(n: nat) -> Seq<char>
    decreases n,
{
    if n < 10 {
        seq![digit_char(n)]
    } else {
        decimal(n / 10).push(digit_char(n % 10))
    }
}

/// The decimal digit `d`, as a string.
fn digit_str(d: usize) -> (r: &'static str)
    requires
        d < 10,
    ensures
        r@ == seq![digit_char(d as nat)],
{
    proof {
        reveal_strlit("0");
        reveal_strlit("1");
        reveal_strlit("2");
        reveal_strlit("3");
        reveal_strlit("4");
        reveal_strlit("5");
        reveal_strlit("6");
        reveal_strlit("7");
        reveal_strlit("8");
        reveal_strlit("9");
    }
    if d == 0 {
        assert("0"@ =~= seq![digit_char(d as nat)]);
        "0"
    } else if d == 1 {
        assert("1"@ =~= seq![digit_char(d as nat)]);
        "1"
    } else if d == 2 {
        assert("2"@ =~= seq![digit_char(d as nat)]);
        "2"
    } else if d == 3 {
        assert("3"@ =~= seq![digit_char(d as nat)]);
        "3"
    } else if d == 4 {
        assert("4"@ =~= seq![digit_char(d as nat)]);
        "4"
    } else if d == 5 {
        assert("5"@ =~= seq![digit_char(d as nat)]);
        "5"
    } else if d == 6 {
        assert("6"@ =~= seq![digit_char(d as nat)]);
        "6"
    } else if d == 7 {
        assert("7"@ =~= seq![digit_char(d as nat)]);
        "7"
    } else if d == 8 {
        assert("8"@ =~= seq![digit_char(d as nat)]);
        "8"
    } else {
        assert("9"@ =~= seq![digit_char(d as nat)]);
        "9"
    }
}

/// Appends the decimal notation of `n` to `s`.
pub fn push_decimal(s: &mut String, n: usize)
    ensures
        final(s)@ == old(s)@ + decimal(n as nat),
    decreases n,
{
    if n < 10 {
        s.append(digit_str(n));
    } else {
        push_decimal(s, n / 10);
        s.append(digit_str(n % 10));
        assert(decimal(n as nat) == decimal((n / 10) as nat).push(digit_char((n % 10) as nat)));
        assert(s@ =~= old(s)@ + decimal(n as nat));
    }
}

} // verus!
