//! Text building blocks: decimal integers, argument lists and call syntax.

use vstd::prelude::*;

verus! {

/// The character of one decimal digit.
pub open spec fn digit_char(d: nat) -> char {
    (48 + d) as char
}

/// The decimal representation of a natural number, most significant digit first.
pub open spec fn decimal(n: nat) -> Seq<char>
    decreases n,
{
    if n < 10 {
        seq![digit_char(n)]
    } else {
        decimal(n / 10).push(digit_char(n % 10))
    }
}

/// `args` joined with `sep` between consecutive items.
pub open spec fn join(args: Seq<Seq<char>>, sep: Seq<char>) -> Seq<char>
    decreases args.len(),
{
    if args.len() == 0 {
        Seq::empty()
    } else if args.len() == 1 {
        args[0]
    } else {
        join(args.drop_last(), sep) + sep + args.last()
    }
}

/// The separator between call arguments.
pub open spec fn comma_sep() -> Seq<char> {
    seq![',', ' ']
}

/// `name(arg0, arg1, ...)`.
pub open spec fn call_text(name: Seq<char>, args: Seq<Seq<char>>) -> Seq<char> {
    name + seq!['('] + join(args, comma_sep()) + seq![')']
}

/// `v_{i}`: the display name of input variable `i`.
pub open spec fn var_text(i: nat) -> Seq<char> {
    seq!['v', '_', '{'] + decimal(i) + seq!['}']
}

/// Appends `t` to `s`.
pub fn push_str(s: &mut String, t: &str)
    ensures
        final(s)@ == old(s)@ + t@,
{
    s.append(t);
}

fn digit_str(d: u64) -> (r: &'static str)
    requires
        d < 10,
    ensures
        r@ == seq![digit_char(d as nat)],
{
    proof {
        reveal_strlit("0");
        reveal_strlit("1");
        reveal_strlit("2");
        reveal_strlit("3");
        reveal_strlit("4");
        reveal_strlit("5");
        reveal_strlit("6");
        reveal_strlit("7");
        reveal_strlit("8");
        reveal_strlit("9");
    }
    if d == 0 {
        "0"
    } else if d == 1 {
        "1"
    } else if d == 2 {
        "2"
    } else if d == 3 {
        "3"
    } else if d == 4 {
        "4"
    } else if d == 5 {
        "5"
    } else if d == 6 {
        "6"
    } else if d == 7 {
        "7"
    } else if d == 8 {
        "8"
    } else {
        "9"
    }
}

/// Appends the decimal digits of `n` to `s`.
pub fn push_decimal(s: &mut String, n: u64)
    ensures
        final(s)@ == old(s)@ + decimal(n as nat),
    decreases n,
{
    if n < 10 {
        push_str(s, digit_str(n));
    } else {
        push_decimal(s, n / 10);
        push_str(s, digit_str(n % 10));
        assert(old(s)@ + decimal(n as nat) =~= old(s)@ + decimal((n / 10) as nat) + seq![
            digit_char((n % 10) as nat),
        ]);
    }
}

/// `v_{i}` as a string.
pub fn var_name(i: u64) -> (s: String)
    ensures
        s@ == var_text(i as nat),
{
    let mut s = String::new();
    proof {
        reveal_strlit("v_{");
        reveal_strlit("}");
    }
    push_str(&mut s, "v_{");
    push_decimal(&mut s, i);
    push_str(&mut s, "}");
    assert(s@ =~= var_text(i as nat));
    s
}

} // verus!
