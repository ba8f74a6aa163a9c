//! Hexadecimal formatting for operands and generated label names.

use vstd::prelude::*;
use vstd::string::*;

verus! {

/// The upper-case hexadecimal digit for `d`, where `d < 16`.
pub open spec fn hex_digit(d: nat) -> char {
    "0123456789ABCDEF"@[d as int]
}

/// `v` in upper-case hexadecimal, padded with leading zeros to at least
/// `width` digits. A value that needs more digits gets them all.
pub open spec fn hex(v: nat, width: nat) -> Seq<char>
    decreases v + width,
{
    if v < 16 && width <= 1 {
        seq![hex_digit(v)]
    } else {
        hex(
            v / 16,
            if width > 0 {
                (width - 1) as nat
            } else {
                0
            },
        ).push(hex_digit(v % 16))
    }
}

/// 16 to the power of `n`.
pub open spec fn pow16(n: nat) -> nat
    decreases n,
{
    if n == 0 {
        1
    } else {
        16 * pow16((n - 1) as nat)
    }
}

/// A number in hexadecimal has `width` digits at least, and no more where
/// it is below 16 to the power of `width`.
pub proof fn lemma_hex_len(v: nat, width: nat)
    ensures
        hex(v, width).len() >= width,
        hex(v, width).len() >= 1,
        width >= 1 && v < pow16(width) ==> hex(v, width).len() == width,
    decreases v + width,
{
    reveal_with_fuel(pow16, 2);
    if v < 16 && width <= 1 {
    } else {
        let w = if width > 0 {
            (width - 1) as nat
        } else {
            0
        };
        lemma_hex_len(v / 16, w);
    }
}

/// A byte takes two digits, a 16-bit offset four, a 24-bit address six.
pub proof fn lemma_hex_widths(v: nat)
    ensures
        v < 0x100 ==> hex(v, 2).len() == 2,
        v < 0x1_0000 ==> hex(v, 4).len() == 4,
        v < 0x100_0000 ==> hex(v, 6).len() == 6,
{
    reveal_with_fuel(pow16, 7);
    lemma_hex_len(v, 2);
    lemma_hex_len(v, 4);
    lemma_hex_len(v, 6);
}

fn push_hex_digit(s: &mut String, d: u32)
    requires
        d < 16,
    ensures
        final(s)@ == old(s)@.push(hex_digit(d as nat)),
{
    let digits = "0123456789ABCDEF";
    proof {
        reveal_strlit("0123456789ABCDEF");
    }
    let one = digits.substring_ascii(d as usize, d as usize + 1);
    assert(one@ =~= seq![hex_digit(d as nat)]);
    s.append(one);
    assert(s@ =~= old(s)@.push(hex_digit(d as nat)));
}

/// Formats `v` in upper-case hexadecimal with at least `width` digits.
pub fn hex_upper(v: u32, width: usize) -> (s: String)
    ensures
        s@ == hex(v as nat, width as nat),
    decreases v + width,
{
    if v < 16 && width <= 1 {
        let mut s = String::new();
        push_hex_digit(&mut s, v);
        assert(s@ =~= seq![hex_digit(v as nat)]);
        s
    } else {
        let rest = if width > 0 {
            width - 1
        } else {
            0
        };
        let mut s = hex_upper(v / 16, rest);
        push_hex_digit(&mut s, v % 16);
        s
    }
}

} // verus!
