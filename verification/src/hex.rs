//! Parsing of hexadecimal character sequences into integers.

use vstd::prelude::*;

verus! {

/// A hexadecimal digit's value, or 0 for any other character.
pub open spec fn hex_digit_val(c: char) -> u64 {
    match c {
        '0' => 0,
        '1' => 1,
        '2' => 2,
        '3' => 3,
        '4' => 4,
        '5' => 5,
        '6' => 6,
        '7' => 7,
        '8' => 8,
        '9' => 9,
        'a' | 'A' => 10,
        'b' | 'B' => 11,
        'c' | 'C' => 12,
        'd' | 'D' => 13,
        'e' | 'E' => 14,
        'f' | 'F' => 15,
        _ => 0,
    }
}

/// The value of a big-endian sequence of hexadecimal digits; characters that
/// are not hexadecimal digits count as 0.
pub open spec fn hex_val(chars: Seq<char>) -> int
    decreases chars.len(),
{
    if chars.len() == 0 {
        0
    } else {
        hex_val(chars.drop_last()) * 16 + hex_digit_val(chars.last())
    }
}

/// The numeric value of one hexadecimal digit; any other character maps to 0.
pub fn char_to_hex(c: char) -> (v: u64)
    ensures
        v == hex_digit_val(c),
{
    match c {
        '0' => 0,
        '1' => 1,
        '2' => 2,
        '3' => 3,
        '4' => 4,
        '5' => 5,
        '6' => 6,
        '7' => 7,
        '8' => 8,
        '9' => 9,
        'a' => 10,
        'b' => 11,
        'c' => 12,
        'd' => 13,
        'e' => 14,
        'f' => 15,
        'A' => 10,
        'B' => 11,
        'C' => 12,
        'D' => 13,
        'E' => 14,
        'F' => 15,
        _ => 0,
    }
}

proof fn lemma_hex_val_bound(chars: Seq<char>)
    ensures
        0 <= hex_val(chars),
        hex_val(chars) < pow16(chars.len() as nat),
    decreases chars.len(),
{
    if chars.len() > 0 {
        lemma_hex_val_bound(chars.drop_last());
        assert(hex_digit_val(chars.last()) <= 15);
    }
}

spec fn pow16(n: nat) -> int
    decreases n,
{
    if n == 0 {
        1
    } else {
        16 * pow16((n - 1) as nat)
    }
}

proof fn lemma_pow16_pos(n: nat)
    ensures
        pow16(n) >= 1,
    decreases n,
{
    if n > 0 {
        lemma_pow16_pos((n - 1) as nat);
    }
}

proof fn lemma_pow16_mono(a: nat, b: nat)
    requires
        a <= b,
    ensures
        pow16(a) <= pow16(b),
    decreases b,
{
    if a < b {
        lemma_pow16_mono(a, (b - 1) as nat);
        lemma_pow16_pos((b - 1) as nat);
    }
}

/// The value of a big-endian hexadecimal digit string, most significant digit
/// first. At most 16 digits fit in a `u64`.
pub fn char_hex_vec_to_int(chars: Vec<char>) -> (v: u64)
    requires
        chars@.len() <= 16,
    ensures
        v == hex_val(chars@),
{
    let mut value: u64 = 0;
    let n = chars.len();
    for i in 0..n
        invariant
            n == chars@.len() <= 16,
            value == hex_val(chars@.subrange(0, i as int)),
            value < pow16(i as nat),
    {
        proof {
            lemma_hex_val_bound(chars@.subrange(0, i as int));
            lemma_pow16_mono((i + 1) as nat, 16);
            assert(pow16(16) == 0x1_0000_0000_0000_0000) by {
                reveal_with_fuel(pow16, 17);
            }
            assert(chars@.subrange(0, i + 1).drop_last() =~= chars@.subrange(0, i as int));
            assert(chars@.subrange(0, i + 1).last() == chars@[i as int]);
        }
        let d = char_to_hex(chars[i]);
        value = value * 16 + d;
    }
    proof {
        assert(chars@.subrange(0, n as int) =~= chars@);
    }
    value
}

} // verus!
