//! Cost model for the squeeze pass: the fixed-tree per-symbol bit cost, and
//! the "multiply with carry" random generator used to perturb frequencies.

use vstd::prelude::*;
use crate::symbols::spec_length_symbol;
use crate::symbols::spec_length_extra_bits;
use crate::symbols::spec_dist_extra_bits;
use crate::symbols::length_symbol;
use crate::symbols::length_extra_bits;
use crate::symbols::dist_extra_bits;

verus! {

/// Bit cost of one LZ77 symbol under the fixed DEFLATE Huffman tree: 8 or 9
/// bits for a literal; for a match, the 7- or 8-bit length code plus the
/// 5-bit distance code plus both extra-bit counts.
pub open spec fn spec_cost_fixed(litlen: int, dist: int) -> int {
    if dist == 0 {
        if litlen <= 143 { 8 } else { 9 }
    } else {
        (if spec_length_symbol(litlen) <= 279 { 7int } else { 8int })
            + 5
            + spec_length_extra_bits(litlen)
            + spec_dist_extra_bits(dist)
    }
}

/// Cost model that exactly matches the fixed DEFLATE tree.
pub fn get_cost_fixed(litlen: u16, dist: u16) -> (cost: u32)
    requires
        dist == 0 ==> litlen <= 255,
        dist != 0 ==> 3 <= litlen <= 258 && dist <= 32768,
    ensures
        cost == spec_cost_fixed(litlen as int, dist as int),
        cost <= 33,
{
    if dist == 0 {
        if litlen <= 143 { 8 } else { 9 }
    } else {
        let lsym = length_symbol(litlen);
        let lbits = length_extra_bits(litlen);
        let dbits = dist_extra_bits(dist);
        let base: u32 = if lsym <= 279 { 7 } else { 8 };
        base + 5 + lbits as u32 + dbits as u32
    }
}

/// State of G. Marsaglia's "multiply with carry" generator.
pub struct RanState {
    pub m_w: u32,
    pub m_z: u32,
}

impl RanState {
    pub fn new() -> (r: RanState)
        ensures
            r.m_w == 1,
            r.m_z == 2,
    {
        RanState { m_w: 1, m_z: 2 }
    }

    /// One step of the generator; the 32-bit result combines both halves.
    pub fn ran(&mut self) -> (r: u32)
        ensures
            final(self).m_z == 36969 * (old(self).m_z % 0x10000) + old(self).m_z / 0x10000,
            final(self).m_w == 18000 * (old(self).m_w % 0x10000) + old(self).m_w / 0x10000,
            r == ((final(self).m_z % 0x10000) * 0x10000 + final(self).m_w) % 0x1_0000_0000,
    {
        let ghost z0 = self.m_z;
        let ghost w0 = self.m_w;
        proof {
            assert(z0 & 65535 == z0 % 0x10000) by (bit_vector);
            assert(z0 >> 16 == z0 / 0x10000) by (bit_vector);
            assert(w0 & 65535 == w0 % 0x10000) by (bit_vector);
            assert(w0 >> 16 == w0 / 0x10000) by (bit_vector);
        }
        self.m_z = 36969 * (self.m_z & 65535) + (self.m_z >> 16);
        self.m_w = 18000 * (self.m_w & 65535) + (self.m_w >> 16);
        let r64: u64 = (((self.m_z as u64) % 0x10000) * 0x10000 + self.m_w as u64) % 0x1_0000_0000;
        r64 as u32
    }
}

} // verus!
