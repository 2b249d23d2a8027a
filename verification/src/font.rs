//! The bitmap digits, five rows of five pixels each, and the decimal digits
//! of a number.

use vstd::prelude::*;

verus! {

/// The rows of the glyph of `digit` from the top, each row's five pixels in
/// the low five bits, the leftmost pixel in the highest of them.
pub open spec fn glyph(digit: int) -> Seq<u8> {
    if digit == 0 {
        seq![0b01110u8, 0b10001u8, 0b10001u8, 0b10001u8, 0b01110u8]
    } else if digit == 1 {
        seq![0b00100u8, 0b01100u8, 0b00100u8, 0b00100u8, 0b01110u8]
    } else if digit == 2 {
        seq![0b01110u8, 0b10001u8, 0b00110u8, 0b01000u8, 0b11111u8]
    } else if digit == 3 {
        seq![0b01110u8, 0b10001u8, 0b00110u8, 0b10001u8, 0b01110u8]
    } else if digit == 4 {
        seq![0b00100u8, 0b01100u8, 0b10100u8, 0b11111u8, 0b00100u8]
    } else if digit == 5 {
        seq![0b11111u8, 0b10000u8, 0b11110u8, 0b00001u8, 0b11110u8]
    } else if digit == 6 {
        seq![0b01110u8, 0b10000u8, 0b11110u8, 0b10001u8, 0b01110u8]
    } else if digit == 7 {
        seq![0b11111u8, 0b00010u8, 0b00100u8, 0b01000u8, 0b10000u8]
    } else if digit == 8 {
        seq![0b01110u8, 0b10001u8, 0b01110u8, 0b10001u8, 0b01110u8]
    } else {
        seq![0b01110u8, 0b10001u8, 0b01111u8, 0b00001u8, 0b01110u8]
    }
}

/// The pixel in row `row` and column `col` of the glyph of `digit` is set.
pub open spec fn glyph_bit(digit: int, row: int, col: int) -> bool {
    &&& 0 <= digit < 10
    &&& 0 <= row < 5
    &&& 0 <= col < 5
    &&& glyph(digit)[row] & (1u8 << ((4 - col) as u8)) != 0
}

/// The decimal digits of `n`, the most significant first.
pub open spec fn digits_of(n: nat) -> Seq<u8>
    decreases n,
{
    if n < 10 {
        seq![n as u8]
    } else {
        digits_of(n / 10).push((n % 10) as u8)
    }
}

/// A number has at least one digit, and each is below 10.
pub proof fn lemma_digits_of(n: nat)
    ensures
        digits_of(n).len() >= 1,
        forall|k: int| 0 <= k < digits_of(n).len() ==> #[trigger] digits_of(n)[k] < 10,
    decreases n,
{
    if n >= 10 {
        lemma_digits_of(n / 10);
    }
}

/// Row `row` of the glyph of `digit`.
pub fn glyph_row(digit: u8, row: usize) -> (bits: u8)
    requires
        digit < 10,
        row < 5,
    ensures
        bits == glyph(digit as int)[row as int],
{
    let rows: [u8; 5] = if digit == 0 {
        [0b01110u8, 0b10001u8, 0b10001u8, 0b10001u8, 0b01110u8]
    } else if digit == 1 {
        [0b00100u8, 0b01100u8, 0b00100u8, 0b00100u8, 0b01110u8]
    } else if digit == 2 {
        [0b01110u8, 0b10001u8, 0b00110u8, 0b01000u8, 0b11111u8]
    } else if digit == 3 {
        [0b01110u8, 0b10001u8, 0b00110u8, 0b10001u8, 0b01110u8]
    } else if digit == 4 {
        [0b00100u8, 0b01100u8, 0b10100u8, 0b11111u8, 0b00100u8]
    } else if digit == 5 {
        [0b11111u8, 0b10000u8, 0b11110u8, 0b00001u8, 0b11110u8]
    } else if digit == 6 {
        [0b01110u8, 0b10000u8, 0b11110u8, 0b10001u8, 0b01110u8]
    } else if digit == 7 {
        [0b11111u8, 0b00010u8, 0b00100u8, 0b01000u8, 0b10000u8]
    } else if digit == 8 {
        [0b01110u8, 0b10001u8, 0b01110u8, 0b10001u8, 0b01110u8]
    } else {
        [0b01110u8, 0b10001u8, 0b01111u8, 0b00001u8, 0b01110u8]
    };
    rows[row]
}

/// Whether the pixel in row `row` and column `col` of the glyph of `digit`
/// is set.
pub fn glyph_pixel(digit: u8, row: usize, col: usize) -> (set: bool)
    requires
        digit < 10,
        row < 5,
        col < 5,
    ensures
        set == glyph_bit(digit as int, row as int, col as int),
{
    let bits: u8 = glyph_row(digit, row);
    let shift: u8 = 4 - col as u8;
    bits & (1u8 << shift) != 0
}

/// The decimal digits of `number`, the most significant first.
pub fn decimal_digits(number: u32) -> (digits: Vec<u8>)
    ensures
        digits@ == digits_of(number as nat),
{
    let mut rest: u32 = number;
    let mut low: Vec<u8> = Vec::new();
    assert(digits_of(rest as nat) + low@.reverse() =~= digits_of(number as nat));
    while rest >= 10
        invariant
            digits_of(number as nat) == digits_of(rest as nat) + low@.reverse(),
        decreases rest,
    {
        let ghost before = low@;
        let digit: u8 = (rest % 10) as u8;
        low.push(digit);
        proof {
            assert(low@.reverse() =~= seq![digit] + before.reverse());
            assert(digits_of((rest / 10) as nat).push(digit) + before.reverse() =~= digits_of(
                (rest / 10) as nat,
            ) + (seq![digit] + before.reverse()));
        }
        rest = rest / 10;
    }
    let mut digits: Vec<u8> = Vec::new();
    digits.push(rest as u8);
    let count: usize = low.len();
    let mut taken: usize = 0;
    while taken < count
        invariant
            taken <= count,
            count == low@.len(),
            digits@ == seq![rest as u8] + low@.reverse().subrange(0, taken as int),
        decreases count - taken,
    {
        let ghost before = digits@;
        digits.push(low[count - 1 - taken]);
        proof {
            assert(low@.reverse()[taken as int] == low@[count - 1 - taken]);
            assert(digits@ =~= seq![rest as u8] + low@.reverse().subrange(0, taken + 1));
        }
        taken = taken + 1;
    }
    proof {
        assert(low@.reverse().subrange(0, count as int) =~= low@.reverse());
    }
    digits
}

} // verus!
