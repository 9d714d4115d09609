//! Display codec: a 64-bit key as 32 symbols over `A`, `C`, `G`, `T`,
//! two bits per symbol, most significant pair first.
use vstd::prelude::*;

verus! {

/// The symbol for a two-bit value: `00 -> A`, `01 -> C`, `10 -> G`, `11 -> T`.
pub open spec fn symbol_of(bits: u64) -> char {
    if bits == 0 {
        'A'
    } else if bits == 1 {
        'C'
    } else if bits == 2 {
        'G'
    } else {
        'T'
    }
}

/// The two bits of `num` at pair `p`, counting from the least significant pair.
pub open spec fn pair_at(num: u64, p: int) -> u64 {
    (num >> ((2 * p) as u64)) & 3u64
}

/// The 32 symbols of `num`, most significant pair first.
pub open spec fn acgt_of(num: u64) -> Seq<char> {
    Seq::new(32, |i: int| symbol_of(pair_at(num, 31 - i)))
}

/// Renders `num` as 32 symbols, most significant pair first.
pub fn u64_to_acgt(num: u64) -> (r: String)
    ensures
        r@ == acgt_of(num),
        r@.len() == 32,
{
    let mut result = String::new();
    let mut i: u64 = 32;
    while i > 0
        invariant
            i <= 32,
            result@ == acgt_of(num).subrange(0, 32 - i),
        decreases i,
    {
        i = i - 1;
        let bits: u64 = (num >> (i * 2)) & 3;
        assert(bits <= 3) by (bit_vector)
            requires
                bits == (num >> (i * 2)) & 3,
        ;
        proof {
            reveal_strlit("A");
            reveal_strlit("C");
            reveal_strlit("G");
            reveal_strlit("T");
        }
        if bits == 0 {
            result.append("A");
        } else if bits == 1 {
            result.append("C");
        } else if bits == 2 {
            result.append("G");
        } else {
            result.append("T");
        }
        assert(result@ =~= acgt_of(num).subrange(0, 32 - i));
    }
    result
}

} // verus!
