use vstd::prelude::*;
use vstd::string::StringExecFns;

verus! {

/// The character of the decimal digit d, for d in 0..10.
pub open spec fn digit_char(d: int) -> char {
    if d == 0 {
        '0'
    } else if d == 1 {
        '1'
    } else if d == 2 {
        '2'
    } else if d == 3 {
        '3'
    } else if d == 4 {
        '4'
    } else if d == 5 {
        '5'
    } else if d == 6 {
        '6'
    } else if d == 7 {
        '7'
    } else if d == 8 {
        '8'
    } else {
        '9'
    }
}

/// The ASCII byte of the decimal digit d, for d in 0..10.
pub open spec fn digit_byte(d: int) -> u8 {
    (48 + d) as u8
}

/// The decimal digits of n, most significant first, without leading zeros.
pub open spec fn dec_bytes(n: int) -> Seq<u8>
    decreases n,
{
    if n < 10 {
        seq![digit_byte(n)]
    } else {
        dec_bytes(n / 10).push(digit_byte(n % 10))
    }
}

/// The decimal digits of n as characters, most significant first, without
/// leading zeros.
pub open spec fn dec_chars(n: int) -> Seq<char>
    decreases n,
{
    if n < 10 {
        seq![digit_char(n)]
    } else {
        dec_chars(n / 10).push(digit_char(n % 10))
    }
}

/// Appends the decimal digits of n to out.
pub fn push_dec_bytes(out: &mut Vec<u8>, n: u128)
    ensures
        final(out)@ == old(out)@ + dec_bytes(n as int),
    decreases n,
{
    if n < 10 {
        out.push(48 + n as u8);
        assert(final(out)@ =~= old(out)@ + dec_bytes(n as int));
    } else {
        push_dec_bytes(out, n / 10);
        out.push(48 + (n % 10) as u8);
        assert(final(out)@ =~= old(out)@ + dec_bytes(n as int));
    }
}

/// Appends the single decimal digit d to out as a character.
pub fn push_digit_char(out: &mut String, d: u64)
    requires
        d < 10,
    ensures
        final(out)@ == old(out)@ + seq![digit_char(d as int)],
{
    if d == 0 {
        proof {
            reveal_strlit("0");
            assert(("0")@ =~= seq![digit_char(0)]);
        }
        out.append("0");
    } else if d == 1 {
        proof {
            reveal_strlit("1");
            assert(("1")@ =~= seq![digit_char(1)]);
        }
        out.append("1");
    } else if d == 2 {
        proof {
            reveal_strlit("2");
            assert(("2")@ =~= seq![digit_char(2)]);
        }
        out.append("2");
    } else if d == 3 {
        proof {
            reveal_strlit("3");
            assert(("3")@ =~= seq![digit_char(3)]);
        }
        out.append("3");
    } else if d == 4 {
        proof {
            reveal_strlit("4");
            assert(("4")@ =~= seq![digit_char(4)]);
        }
        out.append("4");
    } else if d == 5 {
        proof {
            reveal_strlit("5");
            assert(("5")@ =~= seq![digit_char(5)]);
        }
        out.append("5");
    } else if d == 6 {
        proof {
            reveal_strlit("6");
            assert(("6")@ =~= seq![digit_char(6)]);
        }
        out.append("6");
    } else if d == 7 {
        proof {
            reveal_strlit("7");
            assert(("7")@ =~= seq![digit_char(7)]);
        }
        out.append("7");
    } else if d == 8 {
        proof {
            reveal_strlit("8");
            assert(("8")@ =~= seq![digit_char(8)]);
        }
        out.append("8");
    } else {
        proof {
            reveal_strlit("9");
            assert(("9")@ =~= seq![digit_char(9)]);
        }
        out.append("9");
    }
}

/// Appends the decimal digits of n to out as characters.
pub fn push_dec_chars(out: &mut String, n: u64)
    ensures
        final(out)@ == old(out)@ + dec_chars(n as int),
    decreases n,
{
    if n < 10 {
        push_digit_char(out, n);
        assert(final(out)@ =~= old(out)@ + dec_chars(n as int));
    } else {
        push_dec_chars(out, n / 10);
        push_digit_char(out, n % 10);
        assert(final(out)@ =~= old(out)@ + dec_chars(n as int));
    }
}

} // verus!
