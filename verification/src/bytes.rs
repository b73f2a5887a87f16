//! Little-endian fields of eight bytes, and the two readings of 64 bits as
//! a number: unsigned, and signed in two's complement.
use vstd::prelude::*;

verus! {

/// The number that eight bytes spell, lowest byte first.
pub open spec fn le_u64(s: Seq<u8>) -> u64 {
    (s[0] + s[1] * 0x100 + s[2] * 0x1_0000 + s[3] * 0x100_0000 + s[4] * 0x1_0000_0000 + s[5] * 0x100_0000_0000 + s[6]
        * 0x1_0000_0000_0000 + s[7] * 0x100_0000_0000_0000) as u64
}

/// The eight bytes that spell a number, lowest byte first.
pub open spec fn le_bytes(x: u64) -> Seq<u8> {
    seq![
        (x % 0x100) as u8,
        (x / 0x100 % 0x100) as u8,
        (x / 0x1_0000 % 0x100) as u8,
        (x / 0x100_0000 % 0x100) as u8,
        (x / 0x1_0000_0000 % 0x100) as u8,
        (x / 0x100_0000_0000 % 0x100) as u8,
        (x / 0x1_0000_0000_0000 % 0x100) as u8,
        (x / 0x100_0000_0000_0000 % 0x100) as u8,
    ]
}

/// 64 bits read in two's complement.
pub open spec fn signed(x: u64) -> i64 {
    if x < 0x8000_0000_0000_0000 {
        x as i64
    } else {
        (x - 0x1_0000_0000_0000_0000) as i64
    }
}

/// The 64 bits of a signed number in two's complement.
pub open spec fn unsigned(x: i64) -> u64 {
    if x >= 0 {
        x as u64
    } else {
        (x + 0x1_0000_0000_0000_0000) as u64
    }
}

pub fn to_signed(x: u64) -> (r: i64)
    ensures
        r == signed(x),
{
    if x < 0x8000_0000_0000_0000 {
        x as i64
    } else {
        ((x - 0x8000_0000_0000_0000) as i64) + i64::MIN
    }
}

pub fn to_unsigned(x: i64) -> (r: u64)
    ensures
        r == unsigned(x),
{
    if x >= 0 {
        x as u64
    } else {
        ((x - i64::MIN) as u64) + 0x8000_0000_0000_0000
    }
}

/// Reads the eight bytes of `buf` from `at` on as a number.
pub fn read_u64(buf: &[u8], at: usize) -> (r: u64)
    requires
        at + 8 <= buf@.len(),
    ensures
        r == le_u64(buf@.subrange(at as int, at + 8)),
{
    let b0 = buf[at] as u64;
    let b1 = buf[at + 1] as u64;
    let b2 = buf[at + 2] as u64;
    let b3 = buf[at + 3] as u64;
    let b4 = buf[at + 4] as u64;
    let b5 = buf[at + 5] as u64;
    let b6 = buf[at + 6] as u64;
    let b7 = buf[at + 7] as u64;
    b0 + b1 * 0x100 + b2 * 0x1_0000 + b3 * 0x100_0000 + b4 * 0x1_0000_0000 + b5 * 0x100_0000_0000 + b6
        * 0x1_0000_0000_0000 + b7 * 0x100_0000_0000_0000
}

/// The eight bytes of a number, lowest first.
pub fn write_u64(x: u64) -> (r: [u8; 8])
    ensures
        r@ == le_bytes(x),
{
    let r = [
        (x % 0x100) as u8,
        (x / 0x100 % 0x100) as u8,
        (x / 0x1_0000 % 0x100) as u8,
        (x / 0x100_0000 % 0x100) as u8,
        (x / 0x1_0000_0000 % 0x100) as u8,
        (x / 0x100_0000_0000 % 0x100) as u8,
        (x / 0x1_0000_0000_0000 % 0x100) as u8,
        (x / 0x100_0000_0000_0000 % 0x100) as u8,
    ];
    assert(r@ =~= le_bytes(x));
    r
}

/// Reading gives back what was written.
pub proof fn lemma_read_written(x: u64)
    ensures
        le_bytes(x).len() == 8,
        le_u64(le_bytes(x)) == x,
{
    assert(x == (x % 0x100) + (x / 0x100 % 0x100) * 0x100 + (x / 0x1_0000 % 0x100) * 0x1_0000 + (x / 0x100_0000
        % 0x100) * 0x100_0000 + (x / 0x1_0000_0000 % 0x100) * 0x1_0000_0000 + (x / 0x100_0000_0000 % 0x100)
        * 0x100_0000_0000 + (x / 0x1_0000_0000_0000 % 0x100) * 0x1_0000_0000_0000 + (x / 0x100_0000_0000_0000
        % 0x100) * 0x100_0000_0000_0000) by (bit_vector);
}

/// Writing gives back what was read.
pub proof fn lemma_write_read(s: Seq<u8>)
    requires
        s.len() == 8,
    ensures
        le_bytes(le_u64(s)) == s,
{
    let a = s[0] as u64;
    let b = s[1] as u64;
    let c = s[2] as u64;
    let d = s[3] as u64;
    let e = s[4] as u64;
    let f = s[5] as u64;
    let g = s[6] as u64;
    let h = s[7] as u64;
    let x: u64 = le_u64(s);
    assert(x == a + b * 0x100 + c * 0x1_0000 + d * 0x100_0000 + e * 0x1_0000_0000 + f * 0x100_0000_0000 + g
        * 0x1_0000_0000_0000 + h * 0x100_0000_0000_0000);
    assert(x % 0x100 == a && x / 0x100 % 0x100 == b && x / 0x1_0000 % 0x100 == c && x / 0x100_0000 % 0x100 == d && x
        / 0x1_0000_0000 % 0x100 == e && x / 0x100_0000_0000 % 0x100 == f && x / 0x1_0000_0000_0000 % 0x100 == g && x
        / 0x100_0000_0000_0000 % 0x100 == h) by (bit_vector)
        requires
            a < 0x100,
            b < 0x100,
            c < 0x100,
            d < 0x100,
            e < 0x100,
            f < 0x100,
            g < 0x100,
            h < 0x100,
            x == a + b * 0x100 + c * 0x1_0000 + d * 0x100_0000 + e * 0x1_0000_0000 + f * 0x100_0000_0000 + g
                * 0x1_0000_0000_0000 + h * 0x100_0000_0000_0000,
    ;
    assert(le_bytes(x) =~= s);
}

/// The two readings of 64 bits turn into each other without loss.
pub proof fn lemma_signed_unsigned(x: i64, y: u64)
    ensures
        signed(unsigned(x)) == x,
        unsigned(signed(y)) == y,
{
}

} // verus!
