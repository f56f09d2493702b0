use vstd::prelude::*;

verus! {

/// The character of a decimal digit.
pub open spec fn digit_char(d: int) -> char {
    if d == 0 {
        '0'
    } else if d == 1 {
        '1'
    } else if d == 2 {
        '2'
    } else if d == 3 {
        '3'
    } else if d == 4 {
        '4'
    } else if d == 5 {
        '5'
    } else if d == 6 {
        '6'
    } else if d == 7 {
        '7'
    } else if d == 8 {
        '8'
    } else {
        '9'
    }
}

/// The decimal digits of `n`, most significant first, without leading
/// zeros (`0` is written `0`).
pub open spec fn decimal(n: nat) -> Seq<char>
    decreases n,
{
    if n < 10 {
        seq![digit_char(n as int)]
    } else {
        decimal(n / 10).push(digit_char((n % 10) as int))
    }
}

/// The decimal form of `v`, with a leading `-` if it is negative.
pub open spec fn signed_decimal(v: int) -> Seq<char> {
    if v < 0 {
        seq!['-'] + decimal((-v) as nat)
    } else {
        decimal(v as nat)
    }
}

fn digit_str(d: u64) -> (r: &'static str)
    requires
        d < 10,
    ensures
        r@ == seq![digit_char(d as int)],
{
    proof {
        reveal_strlit("0");
        reveal_strlit("1");
        reveal_strlit("2");
        reveal_strlit("3");
        reveal_strlit("4");
        reveal_strlit("5");
        reveal_strlit("6");
        reveal_strlit("7");
        reveal_strlit("8");
        reveal_strlit("9");
    }
    let r = if d == 0 {
        "0"
    } else if d == 1 {
        "1"
    } else if d == 2 {
        "2"
    } else if d == 3 {
        "3"
    } else if d == 4 {
        "4"
    } else if d == 5 {
        "5"
    } else if d == 6 {
        "6"
    } else if d == 7 {
        "7"
    } else if d == 8 {
        "8"
    } else {
        "9"
    };
    assert(r@ =~= seq![digit_char(d as int)]);
    r
}

/// Appends the decimal digits of `v`.
fn push_decimal(s: &mut String, v: u64)
    ensures
        final(s)@ == old(s)@ + decimal(v as nat),
    decreases v,
{
    if v >= 10 {
        push_decimal(s, v / 10);
    }
    s.append(digit_str(v % 10));
    proof {
        if v >= 10 {
            assert(old(s)@ + decimal((v / 10) as nat) + seq![digit_char((v % 10) as int)] =~= old(
                s,
            )@ + decimal(v as nat));
        } else {
            assert(old(s)@ + seq![digit_char((v % 10) as int)] =~= old(s)@ + decimal(v as nat));
        }
    }
}

/// `text` followed by the decimal form of `value`.
pub fn describe(text: &str, value: i64) -> (r: String)
    ensures
        r@ == text@ + signed_decimal(value as int),
{
    let mut s = text.to_owned();
    if value < 0 {
        proof {
            reveal_strlit("-");
        }
        s.append("-");
        let magnitude: u64 = (-(value as i128)) as u64;
        push_decimal(&mut s, magnitude);
        assert(s@ =~= text@ + signed_decimal(value as int));
    } else {
        push_decimal(&mut s, value as u64);
    }
    s
}

/// `text`, the decimal digits of `a`, `relation`, and the decimal digits of
/// `b`.
pub fn describe_pair(text: &str, a: u64, relation: &str, b: u64) -> (r: String)
    ensures
        r@ == text@ + decimal(a as nat) + relation@ + decimal(b as nat),
{
    let mut s = text.to_owned();
    push_decimal(&mut s, a);
    s.append(relation);
    push_decimal(&mut s, b);
    s
}

} // verus!
