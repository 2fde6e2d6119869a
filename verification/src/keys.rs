//! Keys and values that stand for numbers: eight little-endian bytes, then zeros.

use vstd::prelude::*;

verus! {

/// Byte `i` of the little-endian form of `n`.
pub open spec fn le64_byte(n: u64, i: int) -> u8 {
    if i == 0 {
        (n % 0x100) as u8
    } else if i == 1 {
        (n / 0x100 % 0x100) as u8
    } else if i == 2 {
        (n / 0x1_0000 % 0x100) as u8
    } else if i == 3 {
        (n / 0x100_0000 % 0x100) as u8
    } else if i == 4 {
        (n / 0x1_0000_0000 % 0x100) as u8
    } else if i == 5 {
        (n / 0x100_0000_0000 % 0x100) as u8
    } else if i == 6 {
        (n / 0x1_0000_0000_0000 % 0x100) as u8
    } else {
        (n / 0x100_0000_0000_0000) as u8
    }
}

/// The 24 bytes that stand for `n`.
pub open spec fn block_of(n: u64) -> Seq<u8> {
    Seq::new(
        24,
        |i: int|
            if i < 8 {
                le64_byte(n, i)
            } else {
                0u8
            },
    )
}

/// The number that the first eight bytes of a block stand for.
pub open spec fn number_of(block: Seq<u8>) -> u64 {
    (block[0] + 0x100 * block[1] + 0x1_0000 * block[2] + 0x100_0000 * block[3] + 0x1_0000_0000
        * block[4] + 0x100_0000_0000 * block[5] + 0x1_0000_0000_0000 * block[6]
        + 0x100_0000_0000_0000 * block[7]) as u64
}

fn block(n: u64) -> (b: [u8; 24])
    ensures
        b@ == block_of(n),
{
    let mut b = [0u8; 24];
    b[0] = (n % 0x100) as u8;
    b[1] = (n / 0x100 % 0x100) as u8;
    b[2] = (n / 0x1_0000 % 0x100) as u8;
    b[3] = (n / 0x100_0000 % 0x100) as u8;
    b[4] = (n / 0x1_0000_0000 % 0x100) as u8;
    b[5] = (n / 0x100_0000_0000 % 0x100) as u8;
    b[6] = (n / 0x1_0000_0000_0000 % 0x100) as u8;
    b[7] = (n / 0x100_0000_0000_0000) as u8;
    assert(b@ =~= block_of(n));
    b
}

/// The key of number `n`.
pub fn make_key(n: u64) -> (key: [u8; 24])
    ensures
        key@ == block_of(n),
{
    block(n)
}

/// The value of number `n`.
pub fn make_val(n: u64) -> (value: [u8; 24])
    ensures
        value@ == block_of(n),
{
    block(n)
}

/// The number that a value stands for.
pub fn val_number(value: &[u8; 24]) -> (n: u64)
    ensures
        n == number_of(value@),
{
    value[0] as u64 + 0x100 * value[1] as u64 + 0x1_0000 * value[2] as u64 + 0x100_0000
        * value[3] as u64 + 0x1_0000_0000 * value[4] as u64 + 0x100_0000_0000 * value[5] as u64
        + 0x1_0000_0000_0000 * value[6] as u64 + 0x100_0000_0000_0000 * value[7] as u64
}

/// A block tells which number it stands for: no two numbers share one.
pub proof fn law_number_of_block(n: u64)
    ensures
        number_of(block_of(n)) == n,
{
    let b = block_of(n);
    let n0 = n as int;
    let q1 = n0 / 0x100;
    let q2 = n0 / 0x1_0000;
    let q3 = n0 / 0x100_0000;
    let q4 = n0 / 0x1_0000_0000;
    let q5 = n0 / 0x100_0000_0000;
    let q6 = n0 / 0x1_0000_0000_0000;
    let q7 = n0 / 0x100_0000_0000_0000;
    vstd::arithmetic::div_mod::lemma_div_denominator(n0, 0x100, 0x100);
    vstd::arithmetic::div_mod::lemma_div_denominator(n0, 0x1_0000, 0x100);
    vstd::arithmetic::div_mod::lemma_div_denominator(n0, 0x100_0000, 0x100);
    vstd::arithmetic::div_mod::lemma_div_denominator(n0, 0x1_0000_0000, 0x100);
    vstd::arithmetic::div_mod::lemma_div_denominator(n0, 0x100_0000_0000, 0x100);
    vstd::arithmetic::div_mod::lemma_div_denominator(n0, 0x1_0000_0000_0000, 0x100);
    assert(q2 == q1 / 0x100 && q3 == q2 / 0x100 && q4 == q3 / 0x100 && q5 == q4 / 0x100 && q6
        == q5 / 0x100 && q7 == q6 / 0x100);
    assert(n0 == 0x100 * q1 + b[0]);
    assert(q1 == 0x100 * q2 + b[1]);
    assert(q2 == 0x100 * q3 + b[2]);
    assert(q3 == 0x100 * q4 + b[3]);
    assert(q4 == 0x100 * q5 + b[4]);
    assert(q5 == 0x100 * q6 + b[5]);
    assert(q6 == 0x100 * q7 + b[6]);
    assert(q7 == b[7]);
}

/// A block has 24 bytes: the digits of its number to the base 256, the lowest first, and zeros from
/// the ninth byte on.
pub proof fn law_block_is_little_endian(n: u64)
    ensures
        block_of(n).len() == 24,
        block_of(n)[0] == n % 256,
        forall|i: int| 0 <= i < 7 ==> #[trigger] block_of(n)[i + 1] == block_of(n / 256)[i],
        block_of(n / 256)[7] == 0,
        forall|i: int| 8 <= i < 24 ==> #[trigger] block_of(n)[i] == 0,
{
    let q = n as int / 256;
    vstd::arithmetic::div_mod::lemma_div_denominator(n as int, 0x100, 0x100);
    vstd::arithmetic::div_mod::lemma_div_denominator(n as int, 0x100, 0x1_0000);
    vstd::arithmetic::div_mod::lemma_div_denominator(n as int, 0x100, 0x100_0000);
    vstd::arithmetic::div_mod::lemma_div_denominator(n as int, 0x100, 0x1_0000_0000);
    vstd::arithmetic::div_mod::lemma_div_denominator(n as int, 0x100, 0x100_0000_0000);
    vstd::arithmetic::div_mod::lemma_div_denominator(n as int, 0x100, 0x1_0000_0000_0000);
    vstd::arithmetic::div_mod::lemma_div_denominator(n as int, 0x100, 0x100_0000_0000_0000);
}

/// The number of a block is that of its first eight bytes, the lowest first: the first byte counts
/// once, and the others as the number of the block without it, 256 times. A block stands for zero
/// exactly where these eight bytes are zero.
pub proof fn law_number_is_little_endian(block: Seq<u8>)
    requires
        block.len() == 24,
    ensures
        number_of(block) % 256 == block[0],
        number_of(block) / 256 == number_of(block.subrange(1, 8) + seq![0u8] + block.skip(8)),
        number_of(block) == 0 <==> (forall|i: int| 0 <= i < 8 ==> #[trigger] block[i] == 0),
{
    let rest = block.subrange(1, 8) + seq![0u8] + block.skip(8);
    assert(forall|i: int| 0 <= i < 7 ==> rest[i] == block[i + 1]);
    assert(rest[7] == 0);
    if number_of(block) == 0 {
        assert forall|i: int| 0 <= i < 8 implies #[trigger] block[i] == 0 by {
            assert(block[0] == 0 && block[1] == 0 && block[2] == 0 && block[3] == 0 && block[4]
                == 0 && block[5] == 0 && block[6] == 0 && block[7] == 0);
        }
    }
}

} // verus!
