//! Order identifiers: the price key in the high bits, a sequence number in
//! the low 24.
use vstd::prelude::*;

verus! {

/// Sequence numbers below this leave the price key of an identifier intact.
pub const SEQ_LIMIT: i64 = 0x100_0000;

/// Price keys from `-KEY_LIMIT` up to but not including `KEY_LIMIT` fit
/// above the sequence number.
pub const KEY_LIMIT: i64 = 0x80_0000_0000;

/// The identifier made of a price key and a sequence number.
pub open spec fn mint_id(price: i64, seq: i64) -> i64 {
    (price << 24u32) | seq
}

/// The price key that an identifier names.
pub open spec fn level_of_id(id: i64) -> i64 {
    id >> 24u32
}

/// The sequence number that an identifier names.
pub open spec fn seq_of_id(id: i64) -> i64 {
    id & 0xff_ffff
}

pub fn mint(price: i64, seq: i64) -> (id: i64)
    ensures
        id == mint_id(price, seq),
{
    (price << 24u32) | seq
}

pub fn level_of(id: i64) -> (price: i64)
    ensures
        price == level_of_id(id),
{
    id >> 24u32
}

/// An identifier gives back the price key and the sequence number it was
/// made of, and is the key times 2^24 plus the sequence number, as long as
/// both are within their limits.
pub proof fn lemma_id_parts(price: i64, seq: i64)
    requires
        -KEY_LIMIT <= price < KEY_LIMIT,
        0 <= seq < SEQ_LIMIT,
    ensures
        level_of_id(mint_id(price, seq)) == price,
        seq_of_id(mint_id(price, seq)) == seq,
        mint_id(price, seq) == price * SEQ_LIMIT + seq,
{
    assert(((price << 24u32) | seq) >> 24u32 == price) by (bit_vector)
        requires
            -0x80_0000_0000i64 <= price < 0x80_0000_0000i64,
            0 <= seq < 0x100_0000i64,
    ;
    assert(((price << 24u32) | seq) & 0xff_ffff == seq) by (bit_vector)
        requires
            -0x80_0000_0000i64 <= price < 0x80_0000_0000i64,
            0 <= seq < 0x100_0000i64,
    ;
    assert(((price << 24u32) | seq) == price * 0x100_0000 + seq) by (bit_vector)
        requires
            -0x80_0000_0000i64 <= price < 0x80_0000_0000i64,
            0 <= seq < 0x100_0000i64,
    ;
}

/// Within the limits, identifiers sort by price key first and by sequence
/// number second, so two of them are equal only if both parts are.
pub proof fn lemma_ids_sort(first_key: i64, first_seq: i64, second_key: i64, second_seq: i64)
    requires
        -KEY_LIMIT <= first_key < KEY_LIMIT,
        -KEY_LIMIT <= second_key < KEY_LIMIT,
        0 <= first_seq < SEQ_LIMIT,
        0 <= second_seq < SEQ_LIMIT,
    ensures
        mint_id(first_key, first_seq) < mint_id(second_key, second_seq) <==> (first_key < second_key || (first_key
            == second_key && first_seq < second_seq)),
        mint_id(first_key, first_seq) == mint_id(second_key, second_seq) <==> (first_key == second_key && first_seq
            == second_seq),
{
    lemma_id_parts(first_key, first_seq);
    lemma_id_parts(second_key, second_seq);
}

} // verus!
