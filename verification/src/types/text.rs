use vstd::prelude::*;
use vstd::string::StringExecFns;

verus! {

/// The character that writes a digit below sixteen, in lower case.
pub open spec fn digit_char(d: u8) -> char {
    if d == 0 {
        '0'
    } else if d == 1 {
        '1'
    } else if d == 2 {
        '2'
    } else if d == 3 {
        '3'
    } else if d == 4 {
        '4'
    } else if d == 5 {
        '5'
    } else if d == 6 {
        '6'
    } else if d == 7 {
        '7'
    } else if d == 8 {
        '8'
    } else if d == 9 {
        '9'
    } else if d == 10 {
        'a'
    } else if d == 11 {
        'b'
    } else if d == 12 {
        'c'
    } else if d == 13 {
        'd'
    } else if d == 14 {
        'e'
    } else {
        'f'
    }
}

/// The `k` lowest digits of `n` in the given base, the lowest first.
pub open spec fn digits_lsb(n: nat, base: nat, k: nat) -> Seq<u8>
    decreases k,
{
    if k == 0 || base == 0 {
        Seq::empty()
    } else {
        seq![(n % base) as u8] + digits_lsb(n / base, base, (k - 1) as nat)
    }
}

/// How many digits `n` takes in the given base; zero takes one.
pub open spec fn digit_count(n: nat, base: nat) -> nat
    decreases n,
    via digit_count_terminates
{
    if base < 2 || n < base {
        1
    } else {
        1 + digit_count(n / base, base)
    }
}

#[via_fn]
proof fn digit_count_terminates(n: nat, base: nat) {
    if !(base < 2 || n < base) {
        assert(n / base < n) by (nonlinear_arith)
            requires
                base >= 2,
                n >= base,
        ;
    }
}

/// The text of a run of digits given lowest first: the highest digit is written first.
pub open spec fn text_of_digits(digits: Seq<u8>) -> Seq<char> {
    Seq::new(digits.len(), |i: int| digit_char(digits[digits.len() - 1 - i]))
}

/// `n` written in the given base with exactly `k` digits, padded with zeros.
pub open spec fn fixed_text(n: nat, base: nat, k: nat) -> Seq<char> {
    text_of_digits(digits_lsb(n, base, k))
}

/// `n` written in the given base without leading zeros.
pub open spec fn number_text(n: nat, base: nat) -> Seq<char> {
    fixed_text(n, base, digit_count(n, base))
}

/// The one-character text of a digit below sixteen.
pub fn digit_str(d: u8) -> (r: &'static str)
    requires
        d < 16,
    ensures
        r@ == seq![digit_char(d)],
{
    proof {
        reveal_strlit("0");
        reveal_strlit("1");
        reveal_strlit("2");
        reveal_strlit("3");
        reveal_strlit("4");
        reveal_strlit("5");
        reveal_strlit("6");
        reveal_strlit("7");
        reveal_strlit("8");
        reveal_strlit("9");
        reveal_strlit("a");
        reveal_strlit("b");
        reveal_strlit("c");
        reveal_strlit("d");
        reveal_strlit("e");
        reveal_strlit("f");
    }
    let r = if d == 0 {
        "0"
    } else if d == 1 {
        "1"
    } else if d == 2 {
        "2"
    } else if d == 3 {
        "3"
    } else if d == 4 {
        "4"
    } else if d == 5 {
        "5"
    } else if d == 6 {
        "6"
    } else if d == 7 {
        "7"
    } else if d == 8 {
        "8"
    } else if d == 9 {
        "9"
    } else if d == 10 {
        "a"
    } else if d == 11 {
        "b"
    } else if d == 12 {
        "c"
    } else if d == 13 {
        "d"
    } else if d == 14 {
        "e"
    } else {
        "f"
    };
    assert(r@ =~= seq![digit_char(d)]);
    r
}

/// Appends the text of a run of digits, given lowest first, to `out`.
pub fn append_digits(out: &mut String, digits: &Vec<u8>)
    requires
        forall|i: int| 0 <= i < digits@.len() ==> digits@[i] < 16,
    ensures
        final(out)@ == old(out)@ + text_of_digits(digits@),
{
    let n = digits.len();
    let ghost start = out@;
    let mut j: usize = n;
    while j > 0
        invariant
            j <= n,
            n == digits@.len(),
            forall|i: int| 0 <= i < digits@.len() ==> digits@[i] < 16,
            out@ == start + text_of_digits(digits@).take(n - j),
        decreases j,
    {
        j -= 1;
        let ghost before = out@;
        out.append(digit_str(digits[j]));
        assert(out@ =~= start + text_of_digits(digits@).take(n - j));
    }
    assert(text_of_digits(digits@).take(n as int) =~= text_of_digits(digits@));
}

} // verus!
