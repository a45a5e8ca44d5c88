//! Numbers as text, for error messages: decimal, signed decimal and
//! fixed-width upper-case hexadecimal.
use vstd::prelude::*;
use vstd::string::StringExecFns;

verus! {

/// The character of digit `d`, `0` to `9` then `A` to `F`.
pub open spec fn digit_char(d: nat) -> char {
    seq!['0', '1', '2', '3', '4', '5', '6', '7', '8', '9', 'A', 'B', 'C', 'D', 'E', 'F'][d as int]
}

/// The decimal digits of `v`, most significant first.
pub open spec fn decimal(v: nat) -> Seq<char>
    decreases v,
{
    if v < 10 {
        seq![digit_char(v)]
    } else {
        decimal(v / 10).push(digit_char(v % 10))
    }
}

/// `v` in decimal, with a leading minus sign when negative.
pub open spec fn signed_decimal(v: int) -> Seq<char> {
    if v < 0 {
        seq!['-'] + decimal((-v) as nat)
    } else {
        decimal(v as nat)
    }
}

/// The last `n` hexadecimal digits of `v`, upper case, most significant
/// first.
pub open spec fn hex_digits(v: nat, n: nat) -> Seq<char>
    decreases n,
{
    if n == 0 {
        Seq::empty()
    } else {
        hex_digits(v / 16, (n - 1) as nat).push(digit_char(v % 16))
    }
}

/// The text of one digit.
fn digit_str(d: u64) -> (r: &'static str)
    requires
        d < 16,
    ensures
        r@ == seq![digit_char(d as nat)],
{
    if d == 0 {
        proof {
            reveal_strlit("0");
        }
        "0"
    } else if d == 1 {
        proof {
            reveal_strlit("1");
        }
        "1"
    } else if d == 2 {
        proof {
            reveal_strlit("2");
        }
        "2"
    } else if d == 3 {
        proof {
            reveal_strlit("3");
        }
        "3"
    } else if d == 4 {
        proof {
            reveal_strlit("4");
        }
        "4"
    } else if d == 5 {
        proof {
            reveal_strlit("5");
        }
        "5"
    } else if d == 6 {
        proof {
            reveal_strlit("6");
        }
        "6"
    } else if d == 7 {
        proof {
            reveal_strlit("7");
        }
        "7"
    } else if d == 8 {
        proof {
            reveal_strlit("8");
        }
        "8"
    } else if d == 9 {
        proof {
            reveal_strlit("9");
        }
        "9"
    } else if d == 10 {
        proof {
            reveal_strlit("A");
        }
        "A"
    } else if d == 11 {
        proof {
            reveal_strlit("B");
        }
        "B"
    } else if d == 12 {
        proof {
            reveal_strlit("C");
        }
        "C"
    } else if d == 13 {
        proof {
            reveal_strlit("D");
        }
        "D"
    } else if d == 14 {
        proof {
            reveal_strlit("E");
        }
        "E"
    } else {
        proof {
            reveal_strlit("F");
        }
        "F"
    }
}

/// Appends `v` in decimal.
pub fn push_decimal(s: &mut String, v: u64)
    ensures
        final(s)@ == old(s)@ + decimal(v as nat),
    decreases v,
{
    let ghost s0 = s@;
    if v >= 10 {
        push_decimal(s, v / 10);
    }
    s.append(digit_str(v % 10));
    proof {
        if v >= 10 {
            assert(s0 + decimal((v / 10) as nat) + seq![digit_char((v % 10) as nat)] =~= s0 + decimal(v as nat));
        } else {
            assert(s0 + seq![digit_char((v % 10) as nat)] =~= s0 + decimal(v as nat));
        }
    }
}

/// Appends `v` in decimal, with a minus sign when negative.
pub fn push_signed(s: &mut String, v: i64)
    ensures
        final(s)@ == old(s)@ + signed_decimal(v as int),
{
    let ghost s0 = s@;
    if v < 0 {
        proof {
            reveal_strlit("-");
        }
        s.append("-");
        let m: u64 = (-(v as i128)) as u64;
        push_decimal(s, m);
        proof {
            assert(s0 + seq!['-'] + decimal(m as nat) =~= s0 + signed_decimal(v as int));
        }
    } else {
        push_decimal(s, v as u64);
    }
}

/// Appends the last `n` hexadecimal digits of `v`, upper case.
pub fn push_hex(s: &mut String, v: u64, n: u32)
    ensures
        final(s)@ == old(s)@ + hex_digits(v as nat, n as nat),
    decreases n,
{
    let ghost s0 = s@;
    if n > 0 {
        push_hex(s, v / 16, n - 1);
        s.append(digit_str(v % 16));
        proof {
            assert(s0 + hex_digits((v / 16) as nat, (n - 1) as nat) + seq![digit_char((v % 16) as nat)] =~= s0 + hex_digits(
                v as nat,
                n as nat,
            ));
        }
    } else {
        assert(s0 + hex_digits(v as nat, 0) =~= s0);
    }
}

} // verus!
