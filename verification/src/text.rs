//! Texts built from literal parts and decimal numbers.
use vstd::prelude::*;

verus! {

/// The character of the decimal digit `d`.
pub open spec fn digit(d: nat) -> char {
    (d + 48) as char
}

/// The decimal digits of `n`, most significant first, without sign or
/// leading zeros.
pub open spec fn decimal(n: nat) -> Seq<char>
    decreases n,
{
    if n < 10 {
        seq![digit(n)]
    } else {
        decimal(n / 10).push(digit(n % 10))
    }
}

/// Returns the text of the decimal digit `d`.
fn digit_text(d: u64) -> (r: &'static str)
    requires
        d < 10,
    ensures
        r@ == seq![digit(d as nat)],
{
    proof {
        reveal_strlit("0");
        reveal_strlit("1");
        reveal_strlit("2");
        reveal_strlit("3");
        reveal_strlit("4");
        reveal_strlit("5");
        reveal_strlit("6");
        reveal_strlit("7");
        reveal_strlit("8");
        reveal_strlit("9");
    }
    if d == 0 {
        "0"
    } else if d == 1 {
        "1"
    } else if d == 2 {
        "2"
    } else if d == 3 {
        "3"
    } else if d == 4 {
        "4"
    } else if d == 5 {
        "5"
    } else if d == 6 {
        "6"
    } else if d == 7 {
        "7"
    } else if d == 8 {
        "8"
    } else {
        "9"
    }
}

/// Returns `prefix` followed by the decimal digits of `n`.
pub(crate) fn with_number(prefix: &str, n: u64) -> (r: String)
    ensures
        r@ == prefix@ + decimal(n as nat),
    decreases n,
{
    let mut s = if n < 10 {
        String::from_str(prefix)
    } else {
        with_number(prefix, n / 10)
    };
    s.append(digit_text(n % 10));
    proof {
        if n >= 10 {
            assert(prefix@ + decimal(n as nat) =~= prefix@ + decimal((n / 10) as nat) + seq![digit((n % 10) as nat)]);
        } else {
            assert(prefix@ + decimal(n as nat) =~= prefix@ + seq![digit((n % 10) as nat)]);
        }
    }
    s
}

/// Appends the decimal digits of `n` to `out`.
pub(crate) fn push_decimal(out: &mut String, n: u64)
    ensures
        final(out)@ == old(out)@ + decimal(n as nat),
    decreases n,
{
    if n >= 10 {
        push_decimal(out, n / 10);
    }
    out.append(digit_text(n % 10));
    proof {
        if n >= 10 {
            assert(old(out)@ + decimal(n as nat) =~= old(out)@ + decimal((n / 10) as nat) + seq![
                digit((n % 10) as nat),
            ]);
        } else {
            assert(old(out)@ + decimal(n as nat) =~= old(out)@ + seq![digit((n % 10) as nat)]);
        }
    }
}

/// The character of the hexadecimal digit `d`, in upper or lower case.
pub open spec fn hex_digit(d: nat, upper: bool) -> char {
    if d < 10 {
        (d + 48) as char
    } else if upper {
        (d + 55) as char
    } else {
        (d + 87) as char
    }
}

/// The hexadecimal digits of `n`, most significant first, without leading
/// zeros, in upper or lower case.
pub open spec fn hex(n: nat, upper: bool) -> Seq<char>
    decreases n,
{
    if n < 16 {
        seq![hex_digit(n, upper)]
    } else {
        hex(n / 16, upper).push(hex_digit(n % 16, upper))
    }
}

/// The hexadecimal digits of `n`, at least two of them, in upper or lower
/// case.
pub open spec fn hex2(n: nat, upper: bool) -> Seq<char> {
    if n < 16 {
        seq!['0'] + hex(n, upper)
    } else {
        hex(n, upper)
    }
}

/// Returns the text of the hexadecimal digit `d`, in upper or lower case.
fn hex_digit_text(d: u64, upper: bool) -> (r: &'static str)
    requires
        d < 16,
    ensures
        r@ == seq![hex_digit(d as nat, upper)],
{
    if d < 10 {
        digit_text(d)
    } else if upper {
        proof {
            reveal_strlit("A");
            reveal_strlit("B");
            reveal_strlit("C");
            reveal_strlit("D");
            reveal_strlit("E");
            reveal_strlit("F");
        }
        if d == 10 {
            "A"
        } else if d == 11 {
            "B"
        } else if d == 12 {
            "C"
        } else if d == 13 {
            "D"
        } else if d == 14 {
            "E"
        } else {
            "F"
        }
    } else {
        proof {
            reveal_strlit("a");
            reveal_strlit("b");
            reveal_strlit("c");
            reveal_strlit("d");
            reveal_strlit("e");
            reveal_strlit("f");
        }
        if d == 10 {
            "a"
        } else if d == 11 {
            "b"
        } else if d == 12 {
            "c"
        } else if d == 13 {
            "d"
        } else if d == 14 {
            "e"
        } else {
            "f"
        }
    }
}

/// Appends the hexadecimal digits of `n` to `out`, in upper or lower case.
fn push_hex(out: &mut String, n: u64, upper: bool)
    ensures
        final(out)@ == old(out)@ + hex(n as nat, upper),
    decreases n,
{
    if n >= 16 {
        push_hex(out, n / 16, upper);
    }
    out.append(hex_digit_text(n % 16, upper));
    proof {
        if n >= 16 {
            assert(old(out)@ + hex(n as nat, upper) =~= old(out)@ + hex((n / 16) as nat, upper)
                + seq![hex_digit((n % 16) as nat, upper)]);
        } else {
            assert(old(out)@ + hex(n as nat, upper) =~= old(out)@ + seq![
                hex_digit((n % 16) as nat, upper),
            ]);
        }
    }
}

/// Appends the hexadecimal digits of `n` to `out`, at least two of them, in
/// upper or lower case.
pub(crate) fn push_hex2(out: &mut String, n: u64, upper: bool)
    ensures
        final(out)@ == old(out)@ + hex2(n as nat, upper),
{
    if n < 16 {
        proof {
            reveal_strlit("0");
        }
        out.append("0");
    }
    push_hex(out, n, upper);
    proof {
        if n < 16 {
            assert(old(out)@ + hex2(n as nat, upper) =~= old(out)@ + seq!['0'] + hex(n as nat, upper));
        }
    }
}

/// The decimal digits of `n`, after a minus sign where it is negative.
pub open spec fn signed_decimal(n: int) -> Seq<char> {
    if n < 0 {
        seq!['-'] + decimal((-n) as nat)
    } else {
        decimal(n as nat)
    }
}

/// Appends the decimal digits of `n` to `out`, after a minus sign where it
/// is negative.
pub(crate) fn push_signed_decimal(out: &mut String, n: i64)
    requires
        n > i64::MIN,
    ensures
        final(out)@ == old(out)@ + signed_decimal(n as int),
{
    if n < 0 {
        proof {
            reveal_strlit("-");
        }
        out.append("-");
        push_decimal(out, (-n) as u64);
        proof {
            assert(old(out)@ + signed_decimal(n as int) =~= old(out)@ + seq!['-'] + decimal(
                (-n) as nat,
            ));
        }
    } else {
        push_decimal(out, n as u64);
    }
}

} // verus!
