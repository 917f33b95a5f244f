//! Human-readable rendering of byte counts.
//!
//! A magnitude of at most 1100 is printed in bytes, as `"<n>B"`.  A larger
//! magnitude is divided by 1024 until it no longer exceeds 1100 of the chosen
//! unit (KiB, MiB, GiB, TiB; TiB is the last step), and printed with one
//! decimal place, rounding ties to even, with the sign preserved.

use vstd::prelude::*;
use vstd::string::StringExecFns;

verus! {

/// The character for one decimal digit value.
pub open spec fn digit_char(d: nat) -> char {
    if d == 0 {
        '0'
    } else if d == 1 {
        '1'
    } else if d == 2 {
        '2'
    } else if d == 3 {
        '3'
    } else if d == 4 {
        '4'
    } else if d == 5 {
        '5'
    } else if d == 6 {
        '6'
    } else if d == 7 {
        '7'
    } else if d == 8 {
        '8'
    } else {
        '9'
    }
}

/// Decimal digits of `n`, most significant first, without sign.
pub open spec fn dec_digits(n: nat) -> Seq<char>
    decreases n,
{
    if n < 10 {
        seq![digit_char(n)]
    } else {
        dec_digits(n / 10).push(digit_char(n % 10))
    }
}

/// Decimal rendering of a possibly negative value.
pub open spec fn int_digits(v: int) -> Seq<char> {
    if v < 0 {
        seq!['-'] + dec_digits((-v) as nat)
    } else {
        dec_digits(v as nat)
    }
}

/// How many bytes one step of unit `k` holds: 1024^k, for `k` in 1..=4.
pub open spec fn unit_divisor(k: nat) -> nat {
    if k == 1 {
        1024
    } else if k == 2 {
        1048576
    } else if k == 3 {
        1073741824
    } else {
        1099511627776
    }
}

/// The unit chosen for a magnitude above 1100 bytes: the smallest power of
/// 1024 that brings the magnitude to at most 1100, capped at the fourth.
pub open spec fn unit_index(a: nat) -> nat {
    if a <= 1126400 {
        1
    } else if a <= 1153433600 {
        2
    } else if a <= 1181116006400 {
        3
    } else {
        4
    }
}

/// The letter of unit `k`, for `k` in 1..=4.
pub open spec fn unit_char(k: nat) -> char {
    if k == 1 {
        'K'
    } else if k == 2 {
        'M'
    } else if k == 3 {
        'G'
    } else {
        'T'
    }
}

/// `a / d` rounded to the nearest integer, ties to even; `d` must be positive.
pub open spec fn round_half_even(a: nat, d: nat) -> nat {
    let q = a / d;
    let r = a % d;
    if 2 * r > d {
        q + 1
    } else if 2 * r < d {
        q
    } else if q % 2 == 1 {
        q + 1
    } else {
        q
    }
}

/// The rendering of `v` bytes: bytes up to a magnitude of 1100, else one
/// decimal place of the scaled magnitude (ties to even) and the unit's letter.
pub open spec fn spec_filesize(v: int) -> Seq<char> {
    let a = if v < 0 {
        -v
    } else {
        v
    };
    if a <= 1100 {
        int_digits(v) + seq!['B']
    } else {
        let k = unit_index(a as nat);
        let t = round_half_even((a * 10) as nat, unit_divisor(k));
        let sign: Seq<char> = if v < 0 {
            seq!['-']
        } else {
            Seq::empty()
        };
        sign + dec_digits(t / 10) + seq!['.'] + seq![digit_char(t % 10)] + seq![unit_char(k)]
            + seq!['i', 'B']
    }
}

/// Appends the character of the digit `d` to `s`.
fn append_digit(s: &mut String, d: u64)
    requires
        d < 10,
    ensures
        final(s)@ == old(s)@.push(digit_char(d as nat)),
{
    proof {
        reveal_strlit("0");
        reveal_strlit("1");
        reveal_strlit("2");
        reveal_strlit("3");
        reveal_strlit("4");
        reveal_strlit("5");
        reveal_strlit("6");
        reveal_strlit("7");
        reveal_strlit("8");
        reveal_strlit("9");
    }
    if d == 0 {
        s.append("0");
    } else if d == 1 {
        s.append("1");
    } else if d == 2 {
        s.append("2");
    } else if d == 3 {
        s.append("3");
    } else if d == 4 {
        s.append("4");
    } else if d == 5 {
        s.append("5");
    } else if d == 6 {
        s.append("6");
    } else if d == 7 {
        s.append("7");
    } else if d == 8 {
        s.append("8");
    } else {
        s.append("9");
    }
    proof {
        assert(s@ =~= old(s)@.push(digit_char(d as nat)));
    }
}

/// Builds the decimal digit string of `n`.
fn u64_dec(n: u64) -> (r: String)
    ensures
        r@ == dec_digits(n as nat),
    decreases n,
{
    if n < 10 {
        let mut s = String::new();
        append_digit(&mut s, n);
        proof {
            assert(s@ =~= dec_digits(n as nat));
        }
        s
    } else {
        let mut s = u64_dec(n / 10);
        append_digit(&mut s, n % 10);
        s
    }
}

/// Renders a byte count for display, keeping the sign and choosing the unit
/// by the magnitude.
pub fn filesize(size: i64) -> (r: String)
    ensures
        r@ == spec_filesize(size as int),
{
    let a: u64 = if size >= 0 {
        size as u64
    } else {
        ((-(size + 1)) as u64) + 1
    };
    proof {
        assert(a == (if size < 0 { -(size as int) } else { size as int }));
    }
    if a <= 1100 {
        let mut s = String::new();
        if size < 0 {
            proof {
                reveal_strlit("-");
            }
            s.append("-");
        }
        let whole = u64_dec(a);
        s.append(whole.as_str());
        proof {
            reveal_strlit("B");
        }
        s.append("B");
        proof {
            assert(s@ =~= spec_filesize(size as int));
        }
        s
    } else {
        let k: u64 = if a <= 1126400 {
            1
        } else if a <= 1153433600 {
            2
        } else if a <= 1181116006400 {
            3
        } else {
            4
        };
        let divisor: u64 = if k == 1 {
            1024
        } else if k == 2 {
            1048576
        } else if k == 3 {
            1073741824
        } else {
            1099511627776
        };
        let a10: u128 = (a as u128) * 10;
        let d128: u128 = divisor as u128;
        let q: u128 = a10 / d128;
        let rem: u128 = a10 % d128;
        proof {
            vstd::arithmetic::div_mod::lemma_div_is_ordered_by_denominator(
                a10 as int,
                1024,
                d128 as int,
            );
            vstd::arithmetic::div_mod::lemma_div_is_ordered(
                a10 as int,
                184467440737095516150,
                1024,
            );
        }
        let tq: u128 = if 2 * rem > d128 {
            q + 1
        } else if 2 * rem < d128 {
            q
        } else if q % 2 == 1 {
            q + 1
        } else {
            q
        };
        let t: u64 = tq as u64;
        proof {
            assert(t == round_half_even((a * 10) as nat, unit_divisor(k as nat)));
        }
        let mut s = String::new();
        if size < 0 {
            proof {
                reveal_strlit("-");
            }
            s.append("-");
        }
        let whole = u64_dec(t / 10);
        s.append(whole.as_str());
        proof {
            reveal_strlit(".");
        }
        s.append(".");
        append_digit(&mut s, t % 10);
        proof {
            reveal_strlit("K");
            reveal_strlit("M");
            reveal_strlit("G");
            reveal_strlit("T");
        }
        if k == 1 {
            s.append("K");
        } else if k == 2 {
            s.append("M");
        } else if k == 3 {
            s.append("G");
        } else {
            s.append("T");
        }
        proof {
            reveal_strlit("iB");
        }
        s.append("iB");
        proof {
            assert(s@ =~= spec_filesize(size as int));
        }
        s
    }
}

} // verus!
