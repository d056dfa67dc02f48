//! Digit-level string building shared by the text encodings: decimal and
//! hexadecimal renderings of small numbers, one pushed character at a time.

use vstd::prelude::*;
use vstd::string::StringExecFns;

verus! {

/// The decimal digit character for a value in `0..=9`.
pub open spec fn dec_digit(d: int) -> char {
    if d == 0 {
        '0'
    } else if d == 1 {
        '1'
    } else if d == 2 {
        '2'
    } else if d == 3 {
        '3'
    } else if d == 4 {
        '4'
    } else if d == 5 {
        '5'
    } else if d == 6 {
        '6'
    } else if d == 7 {
        '7'
    } else if d == 8 {
        '8'
    } else {
        '9'
    }
}

/// The lowercase hexadecimal digit character for a value in `0..=15`.
pub open spec fn hex_digit(d: int) -> char {
    if d < 10 {
        dec_digit(d)
    } else if d == 10 {
        'a'
    } else if d == 11 {
        'b'
    } else if d == 12 {
        'c'
    } else if d == 13 {
        'd'
    } else if d == 14 {
        'e'
    } else {
        'f'
    }
}

/// The decimal rendering of a non-negative number, without leading zeros.
pub open spec fn spec_dec(n: int) -> Seq<char>
    decreases n,
{
    if n < 10 {
        seq![dec_digit(n)]
    } else {
        spec_dec(n / 10).push(dec_digit(n % 10))
    }
}

/// The lowercase hexadecimal rendering of a byte, without leading zeros.
pub open spec fn spec_hex(i: u8) -> Seq<char> {
    if i < 16 {
        seq![hex_digit(i as int)]
    } else {
        seq![hex_digit(i as int / 16), hex_digit(i as int % 16)]
    }
}

/// Appends the decimal digit character for `d`.
pub fn push_dec_digit(s: &mut String, d: u8)
    requires
        d < 10,
    ensures
        final(s)@ == old(s)@.push(dec_digit(d as int)),
{
    let ghost prev = s@;
    if d == 0 {
        s.append("0");
        proof {
            reveal_strlit("0");
        }
    } else if d == 1 {
        s.append("1");
        proof {
            reveal_strlit("1");
        }
    } else if d == 2 {
        s.append("2");
        proof {
            reveal_strlit("2");
        }
    } else if d == 3 {
        s.append("3");
        proof {
            reveal_strlit("3");
        }
    } else if d == 4 {
        s.append("4");
        proof {
            reveal_strlit("4");
        }
    } else if d == 5 {
        s.append("5");
        proof {
            reveal_strlit("5");
        }
    } else if d == 6 {
        s.append("6");
        proof {
            reveal_strlit("6");
        }
    } else if d == 7 {
        s.append("7");
        proof {
            reveal_strlit("7");
        }
    } else if d == 8 {
        s.append("8");
        proof {
            reveal_strlit("8");
        }
    } else {
        s.append("9");
        proof {
            reveal_strlit("9");
        }
    }
    proof {
        assert(s@ =~= prev.push(dec_digit(d as int)));
    }
}

/// Appends the lowercase hexadecimal digit character for `d`.
pub fn push_hex_digit(s: &mut String, d: u8)
    requires
        d < 16,
    ensures
        final(s)@ == old(s)@.push(hex_digit(d as int)),
{
    let ghost prev = s@;
    if d < 10 {
        push_dec_digit(s, d);
    } else if d == 10 {
        s.append("a");
        proof {
            reveal_strlit("a");
        }
    } else if d == 11 {
        s.append("b");
        proof {
            reveal_strlit("b");
        }
    } else if d == 12 {
        s.append("c");
        proof {
            reveal_strlit("c");
        }
    } else if d == 13 {
        s.append("d");
        proof {
            reveal_strlit("d");
        }
    } else if d == 14 {
        s.append("e");
        proof {
            reveal_strlit("e");
        }
    } else {
        s.append("f");
        proof {
            reveal_strlit("f");
        }
    }
    proof {
        assert(s@ =~= prev.push(hex_digit(d as int)));
    }
}

/// Appends the decimal rendering of `n`, without leading zeros.
pub fn push_dec(s: &mut String, n: usize)
    ensures
        final(s)@ == old(s)@ + spec_dec(n as int),
    decreases n,
{
    let ghost prev = s@;
    if n < 10 {
        push_dec_digit(s, n as u8);
        proof {
            assert(s@ =~= prev + spec_dec(n as int));
        }
    } else {
        push_dec(s, n / 10);
        push_dec_digit(s, (n % 10) as u8);
        proof {
            assert(s@ =~= prev + spec_dec(n as int));
        }
    }
}

/// Appends the lowercase hexadecimal rendering of `i`, without leading zeros.
pub fn push_hex(s: &mut String, i: u8)
    ensures
        final(s)@ == old(s)@ + spec_hex(i),
{
    let ghost prev = s@;
    if i < 16 {
        push_hex_digit(s, i);
    } else {
        push_hex_digit(s, i / 16);
        push_hex_digit(s, i % 16);
    }
    proof {
        assert(s@ =~= prev + spec_hex(i));
    }
}

} // verus!
