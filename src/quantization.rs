//! Packing of one bit per vector component, as used by binary quantization.
//!
//! The sign test of each component is done by the caller; this module packs
//! the resulting bits eight to a byte, lowest bit first, and unpacks them.
use vstd::prelude::*;

verus! {

/// Bit `j` (0 is the lowest) of `b` is set.
pub open spec fn bit_at(b: u8, j: int) -> bool {
    (b >> (j as u8)) & 1u8 == 1u8
}

/// Bit `t` of the packed bytes `data`.
pub open spec fn packed_bit(data: Seq<u8>, t: int) -> bool {
    bit_at(data[t / 8], t % 8)
}

/// `data` holds `bits` packed eight to a byte, lowest bit first, with the
/// unused bits of the last byte clear.
pub open spec fn packs(data: Seq<u8>, bits: Seq<bool>) -> bool {
    &&& data.len() == (bits.len() + 7) / 8
    &&& forall|t: int| 0 <= t < bits.len() ==> packed_bit(data, t) == #[trigger] bits[t]
    &&& forall|t: int| bits.len() <= t < 8 * data.len() ==> !#[trigger] packed_bit(data, t)
}

/// The first `n` bits of `data` (fewer when `data` holds fewer).
pub open spec fn unpacked(data: Seq<u8>, n: int) -> Seq<bool> {
    let m: int = if n < 8 * data.len() { n } else { 8 * data.len() as int };
    Seq::new(m as nat, |t: int| packed_bit(data, t))
}

proof fn lemma_set_bit(b: u8, j: u8, k: u8)
    requires
        j < 8,
        k < 8,
    ensures
        ((b | (1u8 << j)) >> k) & 1u8 == 1u8 <==> ((b >> k) & 1u8 == 1u8 || k == j),
{
    assert(j < 8 && k < 8 ==> (((b | (1u8 << j)) >> k) & 1u8 == 1u8 <==> ((b >> k) & 1u8 == 1u8
        || k == j))) by (bit_vector);
}

proof fn lemma_zero_bits(k: u8)
    requires
        k < 8,
    ensures
        (0u8 >> k) & 1u8 != 1u8,
{
    assert(k < 8 ==> (0u8 >> k) & 1u8 != 1u8) by (bit_vector);
}

/// Unpacking what was packed gives back the bits.
pub proof fn lemma_bits_round_trip(data: Seq<u8>, bits: Seq<bool>)
    requires
        packs(data, bits),
    ensures
        unpacked(data, bits.len() as int) == bits,
{
    let n = bits.len() as int;
    assert(8 * ((n + 7) / 8) >= n) by (nonlinear_arith);
    assert(unpacked(data, n) =~= bits);
}

/// Bit packing for binary quantization.
pub struct Quantizer;

impl Quantizer {
    /// Packs `bits` eight to a byte, lowest bit first; the last byte is
    /// padded with clear bits.
    pub fn pack_bits(bits: &Vec<bool>) -> (data: Vec<u8>)
        ensures
            packs(data@, bits@),
    {
        let mut data: Vec<u8> = Vec::new();
        let mut current: u8 = 0;
        let mut bit_index: u8 = 0;
        let mut t: usize = 0;
        proof {
            assert forall|j: int| 0 <= j < 8 implies !#[trigger] bit_at(current, j) by {
                lemma_zero_bits(j as u8);
            }
        }
        while t < bits.len()
            invariant
                t <= bits@.len(),
                bit_index < 8,
                bit_index as int == t as int % 8,
                data@.len() == t as int / 8,
                forall|s: int| 0 <= s < 8 * data@.len() ==> packed_bit(data@, s) == #[trigger] bits@[s],
                forall|j: int| 0 <= j < bit_index ==> bit_at(current, j) == bits@[8 * (t as int / 8) + j],
                forall|j: int| bit_index <= j < 8 ==> !#[trigger] bit_at(current, j),
            decreases bits@.len() - t,
        {
            let ghost prev = current;
            if bits[t] {
                current = current | (1u8 << bit_index);
            }
            proof {
                assert forall|j: int| 0 <= j < 8 implies bit_at(current, j) == (if j == bit_index {
                    bits@[t as int]
                } else {
                    bit_at(prev, j)
                }) by {
                    if bits@[t as int] {
                        lemma_set_bit(prev, bit_index, j as u8);
                    }
                }
            }
            bit_index = bit_index + 1;
            if bit_index == 8 {
                let ghost full = current;
                data.push(current);
                current = 0;
                bit_index = 0;
                proof {
                    assert forall|j: int| 0 <= j < 8 implies !#[trigger] bit_at(current, j) by {
                        lemma_zero_bits(j as u8);
                    }
                    assert forall|s: int| 0 <= s < 8 * data@.len() implies packed_bit(data@, s)
                        == #[trigger] bits@[s] by {
                        if s >= 8 * (data@.len() - 1) {
                            assert(data@[s / 8] == full);
                        } else {
                            assert(data@[s / 8] == data@.drop_last()[s / 8]);
                        }
                    }
                }
            }
            t = t + 1;
        }
        if bit_index > 0 {
            let ghost last = current;
            data.push(current);
            proof {
                assert forall|s: int| 0 <= s < bits@.len() implies packed_bit(data@, s)
                    == #[trigger] bits@[s] by {
                    if s >= 8 * (data@.len() - 1) {
                        assert(data@[s / 8] == last);
                    } else {
                        assert(data@[s / 8] == data@.drop_last()[s / 8]);
                    }
                }
                assert forall|s: int| bits@.len() <= s < 8 * data@.len() implies !#[trigger] packed_bit(
                    data@,
                    s,
                ) by {
                    assert(data@[s / 8] == last);
                }
            }
        }
        data
    }

    /// The first `original_length` packed bits of `data`, lowest bit of each
    /// byte first (fewer when `data` holds fewer).
    pub fn unpack_bits(data: &[u8], original_length: usize) -> (bits: Vec<bool>)
        ensures
            bits@ == unpacked(data@, original_length as int),
    {
        let ghost n = original_length as int;
        let ghost len = data@.len() as int;
        let total: usize = if original_length / 8 < data.len() {
            assert(n / 8 < len ==> n < 8 * len) by (nonlinear_arith);
            original_length
        } else {
            assert(n / 8 >= len ==> 8 * len <= n) by (nonlinear_arith)
                requires n >= 0,;
            data.len() * 8
        };
        let mut bits: Vec<bool> = Vec::new();
        let mut t: usize = 0;
        while t < total
            invariant
                t <= total,
                total == unpacked(data@, original_length as int).len(),
                total <= 8 * data@.len(),
                bits@.len() == t,
                forall|s: int| 0 <= s < t ==> bits@[s] == packed_bit(data@, s),
            decreases total - t,
        {
            assert(t / 8 < data@.len()) by (nonlinear_arith)
                requires t < total, total <= 8 * data@.len(),;
            let byte = data[t / 8];
            let shift: u8 = (t % 8) as u8;
            bits.push((byte >> shift) & 1u8 == 1u8);
            t = t + 1;
        }
        assert(bits@ =~= unpacked(data@, original_length as int));
        bits
    }
}

} // verus!
