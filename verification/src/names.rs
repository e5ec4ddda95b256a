//! Synthetic names for hoisted constants: a `const_` prefix followed by the
//! planner's counter rendered in decimal, zero-padded to at least nine
//! digits. Distinct counters give distinct names.

use vstd::prelude::*;

verus! {

/// The character for one decimal digit.
pub open spec fn digit_char(d: nat) -> char {
    if d == 0 {
        '0'
    } else if d == 1 {
        '1'
    } else if d == 2 {
        '2'
    } else if d == 3 {
        '3'
    } else if d == 4 {
        '4'
    } else if d == 5 {
        '5'
    } else if d == 6 {
        '6'
    } else if d == 7 {
        '7'
    } else if d == 8 {
        '8'
    } else {
        '9'
    }
}

/// The numeric value of one decimal digit character.
pub open spec fn char_digit(c: char) -> nat {
    if c == '0' {
        0
    } else if c == '1' {
        1
    } else if c == '2' {
        2
    } else if c == '3' {
        3
    } else if c == '4' {
        4
    } else if c == '5' {
        5
    } else if c == '6' {
        6
    } else if c == '7' {
        7
    } else if c == '8' {
        8
    } else {
        9
    }
}

/// The decimal rendering of a natural number, without padding.
pub open spec fn decimal_of(n: nat) -> Seq<char>
    decreases n,
{
    if n < 10 {
        seq![digit_char(n)]
    } else {
        decimal_of(n / 10).push(digit_char(n % 10))
    }
}

/// A run of zero characters.
pub open spec fn zero_run(k: nat) -> Seq<char> {
    Seq::new(k, |i: int| '0')
}

/// The decimal rendering of a natural number, left-padded with zeros to at
/// least nine digits.
pub open spec fn padded_decimal(n: nat) -> Seq<char> {
    if decimal_of(n).len() >= 9 {
        decimal_of(n)
    } else {
        zero_run((9 - decimal_of(n).len()) as nat) + decimal_of(n)
    }
}

/// The synthetic name given to the constant hoisted at counter value `n`.
pub open spec fn const_name(n: nat) -> Seq<char> {
    "const_"@ + padded_decimal(n)
}

/// The number a digit sequence denotes, most significant digit first.
pub open spec fn undigits(s: Seq<char>) -> nat
    decreases s.len(),
{
    if s.len() == 0 {
        0
    } else {
        undigits(s.drop_last()) * 10 + char_digit(s.last())
    }
}

/// Reading back the decimal rendering of `n` yields `n`.
proof fn lemma_undigits_decimal(n: nat)
    ensures
        undigits(decimal_of(n)) == n,
    decreases n,
{
    reveal_with_fuel(undigits, 2);
    if n < 10 {
        assert(decimal_of(n).drop_last() =~= Seq::<char>::empty());
        assert(decimal_of(n).last() == digit_char(n));
    } else {
        lemma_undigits_decimal(n / 10);
        assert(decimal_of(n).drop_last() =~= decimal_of(n / 10));
        assert(decimal_of(n).last() == digit_char(n % 10));
        assert(n / 10 * 10 + n % 10 == n) by {
            vstd::arithmetic::div_mod::lemma_fundamental_div_mod(n as int, 10);
        }
    }
}

/// Leading zeros do not change the number a digit sequence denotes.
proof fn lemma_undigits_zero_prefix(k: nat, s: Seq<char>)
    ensures
        undigits(zero_run(k) + s) == undigits(s),
    decreases s.len(), k,
{
    if s.len() == 0 {
        assert(zero_run(k) + s =~= zero_run(k));
        if k > 0 {
            assert(zero_run(k).drop_last() =~= zero_run((k - 1) as nat));
            assert(zero_run((k - 1) as nat) + s =~= zero_run((k - 1) as nat));
            lemma_undigits_zero_prefix((k - 1) as nat, s);
        }
    } else {
        assert((zero_run(k) + s).drop_last() =~= zero_run(k) + s.drop_last());
        lemma_undigits_zero_prefix(k, s.drop_last());
    }
}

/// Reading back the padded decimal rendering of `n` yields `n`.
proof fn lemma_undigits_padded(n: nat)
    ensures
        undigits(padded_decimal(n)) == n,
{
    lemma_undigits_decimal(n);
    if decimal_of(n).len() < 9 {
        lemma_undigits_zero_prefix((9 - decimal_of(n).len()) as nat, decimal_of(n));
    }
}

/// Distinct counters always receive distinct synthetic names.
pub proof fn lemma_const_name_injective(a: nat, b: nat)
    requires
        const_name(a) == const_name(b),
    ensures
        a == b,
{
    reveal_strlit("const_");
    let p = "const_"@;
    assert(padded_decimal(a) =~= const_name(a).subrange(
        p.len() as int,
        const_name(a).len() as int,
    ));
    assert(padded_decimal(b) =~= const_name(b).subrange(
        p.len() as int,
        const_name(b).len() as int,
    ));
    lemma_undigits_padded(a);
    lemma_undigits_padded(b);
}

/// One decimal digit character, as a borrowed string.
fn digit_str(d: u32) -> (r: &'static str)
    requires
        d < 10,
    ensures
        r@ =~= seq![digit_char(d as nat)],
{
    proof {
        reveal_strlit("0");
        reveal_strlit("1");
        reveal_strlit("2");
        reveal_strlit("3");
        reveal_strlit("4");
        reveal_strlit("5");
        reveal_strlit("6");
        reveal_strlit("7");
        reveal_strlit("8");
        reveal_strlit("9");
    }
    match d {
        0 => "0",
        1 => "1",
        2 => "2",
        3 => "3",
        4 => "4",
        5 => "5",
        6 => "6",
        7 => "7",
        8 => "8",
        _ => "9",
    }
}

/// The decimal rendering of `n`, without padding.
fn render_decimal(n: u32) -> (r: String)
    ensures
        r@ == decimal_of(n as nat),
    decreases n,
{
    if n < 10 {
        digit_str(n).to_owned()
    } else {
        let mut s = render_decimal(n / 10);
        s.append(digit_str(n % 10));
        proof {
            assert(s@ =~= decimal_of(n as nat));
        }
        s
    }
}

/// The synthetic constant name for counter value `n`.
pub fn render_const_name(n: u32) -> (r: String)
    ensures
        r@ == const_name(n as nat),
{
    let digits = render_decimal(n);
    let digit_count = digits.as_str().unicode_len();
    let mut s = "const_".to_owned();
    let mut k = digit_count;
    while k < 9
        invariant
            digit_count <= k <= 9 || (digit_count >= 9 && k == digit_count),
            s@ == "const_"@ + zero_run((k - digit_count) as nat),
        decreases 9 - k,
    {
        s.append("0");
        proof {
            reveal_strlit("0");
            assert(s@ =~= "const_"@ + zero_run((k + 1 - digit_count) as nat));
        }
        k += 1;
    }
    proof {
        assert(zero_run(0) =~= Seq::<char>::empty());
        assert("const_"@ + zero_run(0) =~= "const_"@);
    }
    s.append(digits.as_str());
    proof {
        if digit_count >= 9 {
            assert(s@ =~= "const_"@ + padded_decimal(n as nat));
        } else {
            assert(s@ =~= "const_"@ + padded_decimal(n as nat));
        }
    }
    s
}

} // verus!
