//! Numbers as text.

use vstd::prelude::*;

verus! {

/// The hexadecimal digit for a number below 16.
pub open spec fn hex_char(n: u8) -> char {
    if n < 10 {
        (n + 48) as char
    } else {
        (n + 87) as char
    }
}

/// The digits of `n` to the given base, most significant first, at least one.
pub open spec fn digits(n: nat, base: nat) -> Seq<char>
    recommends
        2 <= base <= 16,
    decreases n,
{
    if n < base || base < 2 {
        seq![hex_char(n as u8)]
    } else {
        proof {
            assert(n / base < n) by (nonlinear_arith)
                requires
                    n >= base,
                    base >= 2,
            ;
        }
        digits(n / base, base).push(hex_char((n % base) as u8))
    }
}

/// `n` characters `0`.
pub open spec fn zeros(n: nat) -> Seq<char> {
    Seq::new(n, |i: int| '0')
}

/// `text`, with zeros in front where it is shorter than `width`.
pub open spec fn padded(text: Seq<char>, width: nat) -> Seq<char> {
    if text.len() < width {
        zeros((width - text.len()) as nat) + text
    } else {
        text
    }
}

/// Whether there is a space in some text.
pub fn has_space(text: &str) -> (r: bool)
    ensures
        r == text@.contains(' '),
{
    let mut found: bool = false;
    for c in chars: text.chars()
        invariant
            chars.seq() == text@,
            found == exists|i: int| 0 <= i < chars.index() && #[trigger] text@[i] == ' ',
    {
        if c == ' ' {
            assert(text@[chars.index()] == ' ');
            found = true;
        }
    }
    found
}

/// The hexadecimal digit for a number below 16.
pub fn hex_digit(n: u8) -> (r: &'static str)
    requires
        n < 16,
    ensures
        r@ == seq![hex_char(n)],
{
    proof {
        reveal_strlit("0");
        reveal_strlit("1");
        reveal_strlit("2");
        reveal_strlit("3");
        reveal_strlit("4");
        reveal_strlit("5");
        reveal_strlit("6");
        reveal_strlit("7");
        reveal_strlit("8");
        reveal_strlit("9");
        reveal_strlit("a");
        reveal_strlit("b");
        reveal_strlit("c");
        reveal_strlit("d");
        reveal_strlit("e");
        reveal_strlit("f");
    }
    let digit = match n {
        0 => "0",
        1 => "1",
        2 => "2",
        3 => "3",
        4 => "4",
        5 => "5",
        6 => "6",
        7 => "7",
        8 => "8",
        9 => "9",
        10 => "a",
        11 => "b",
        12 => "c",
        13 => "d",
        14 => "e",
        _ => "f",
    };
    assert(digit@ =~= seq![hex_char(n)]);
    digit
}

/// Append the digits of `n` to the given base.
fn push_digits(text: &mut String, n: u64, base: u64)
    requires
        2 <= base <= 16,
    ensures
        final(text)@ == old(text)@ + digits(n as nat, base as nat),
    decreases n,
{
    if n < base {
        text.append(hex_digit(n as u8));
        assert(text@ =~= old(text)@ + digits(n as nat, base as nat));
    } else {
        assert(n / base < n) by (nonlinear_arith)
            requires
                n >= base,
                base >= 2,
        ;
        push_digits(text, n / base, base);
        text.append(hex_digit((n % base) as u8));
        assert(text@ =~= old(text)@ + digits(n as nat, base as nat));
    }
}

/// Append `n` in decimal, with zeros in front up to `width` digits.
pub fn push_decimal(text: &mut String, n: u64, width: usize)
    ensures
        final(text)@ == old(text)@ + padded(digits(n as nat, 10), width as nat),
{
    let mut len: usize = 1;
    let mut rest: u64 = n;
    proof {
        lemma_few_digits(n as nat, 10);
    }
    while rest >= 10
        invariant
            digits(n as nat, 10).len() == len + digits(rest as nat, 10).len() - 1,
            digits(n as nat, 10).len() <= 64,
        decreases rest,
    {
        proof {
            lemma_few_digits((rest / 10) as nat, 10);
        }
        rest = rest / 10;
        len = len + 1;
    }
    let ghost start = text@;
    let ghost wanted = digits(n as nat, 10);
    let mut pad: usize = 0;
    while len < width && pad < width - len
        invariant
            pad <= width,
            len < width ==> pad <= width - len,
            len >= width ==> pad == 0,
            text@ == start + zeros(pad as nat),
        decreases width - pad,
    {
        proof {
            reveal_strlit("0");
        }
        text.append("0");
        pad = pad + 1;
        assert(text@ =~= start + zeros(pad as nat));
    }
    push_digits(text, n, 10);
    assert(text@ =~= start + padded(wanted, width as nat));
}

/// Append `n` in hexadecimal, after `0x`.
pub fn push_hex(text: &mut String, n: u64)
    ensures
        final(text)@ == old(text)@ + ("0x"@ + digits(n as nat, 16)),
{
    text.append("0x");
    push_digits(text, n, 16);
    assert(text@ =~= old(text)@ + ("0x"@ + digits(n as nat, 16)));
}

/// A 64-bit number has at most 64 digits.
proof fn lemma_few_digits(n: nat, base: nat)
    requires
        n <= u64::MAX,
        2 <= base,
    ensures
        1 <= digits(n, base).len() <= 64,
{
    assert(vstd::arithmetic::power2::pow2(64) > n) by {
        vstd::arithmetic::power2::lemma2_to64();
    }
    lemma_digits_below(n, base, 64);
}

proof fn lemma_digits_below(n: nat, base: nat, bits: nat)
    requires
        n < vstd::arithmetic::power2::pow2(bits),
        bits >= 1,
        2 <= base,
    ensures
        1 <= digits(n, base).len() <= bits,
    decreases bits,
{
    if n >= base {
        vstd::arithmetic::power2::lemma_pow2_unfold(bits);
        if bits == 1 {
            vstd::arithmetic::power2::lemma2_to64();
            assert(false);
        }
        let p = vstd::arithmetic::power2::pow2((bits - 1) as nat);
        assert(n / base < p) by (nonlinear_arith)
            requires
                n < 2 * p,
                base >= 2,
        ;
        lemma_digits_below(n / base, base, (bits - 1) as nat);
    }
}

} // verus!
