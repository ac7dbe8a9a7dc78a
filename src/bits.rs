use vstd::prelude::*;

use crate::error::InflateError;

verus! {

/// 2 to the power `n`.
pub open spec fn two_pow(n: nat) -> nat
    decreases n,
{
    if n == 0 {
        1
    } else {
        2 * two_pow((n - 1) as nat)
    }
}

/// Bit `k` of the byte buffer `d`, counting bits from the least significant
/// bit of each byte, bytes in order.
pub open spec fn bit_at(d: Seq<u8>, k: int) -> nat {
    ((d[k / 8] >> ((k % 8) as u8)) & 1u8) as nat
}

/// The `n` bits from position `pos`, the first read being the least
/// significant (the order of DEFLATE's multi-bit fields).
pub open spec fn bits_lsb(d: Seq<u8>, pos: int, n: nat) -> nat
    decreases n,
{
    if n == 0 {
        0
    } else {
        bits_lsb(d, pos, (n - 1) as nat) + bit_at(d, pos + n - 1) * two_pow((n - 1) as nat)
    }
}

/// The `n` bits from position `pos`, the first read being the most
/// significant (the order of Huffman codes).
pub open spec fn bits_msb(d: Seq<u8>, pos: int, n: nat) -> nat
    decreases n,
{
    if n == 0 {
        0
    } else {
        2 * bits_msb(d, pos, (n - 1) as nat) + bit_at(d, pos + n - 1)
    }
}

/// The position of the first bit of the byte at or after bit `pos`.
pub open spec fn align_up(pos: int) -> int {
    ((pos + 7) / 8) * 8
}

pub proof fn lemma_two_pow_grows(n: nat)
    ensures
        two_pow(n) >= 1,
        two_pow(n + 1) == 2 * two_pow(n),
    decreases n,
{
    if n > 0 {
        lemma_two_pow_grows((n - 1) as nat);
    }
}

pub proof fn lemma_two_pow_mono(a: nat, b: nat)
    requires
        a <= b,
    ensures
        two_pow(a) <= two_pow(b),
    decreases b - a,
{
    if a < b {
        lemma_two_pow_mono(a, (b - 1) as nat);
        lemma_two_pow_grows((b - 1) as nat);
    }
}

pub proof fn lemma_two_pow_16()
    ensures
        two_pow(16) == 65536,
{
    reveal_with_fuel(two_pow, 17);
}

pub proof fn lemma_bit_at_le_one(d: Seq<u8>, k: int)
    ensures
        bit_at(d, k) <= 1,
{
    let b = d[k / 8];
    let s = (k % 8) as u8;
    assert((b >> s) & 1u8 <= 1u8) by (bit_vector);
}

pub proof fn lemma_bits_lsb_bound(d: Seq<u8>, pos: int, n: nat)
    ensures
        bits_lsb(d, pos, n) < two_pow(n),
    decreases n,
{
    if n > 0 {
        lemma_bits_lsb_bound(d, pos, (n - 1) as nat);
        lemma_two_pow_grows((n - 1) as nat);
        lemma_bit_at_le_one(d, pos + n - 1);
        let b = bit_at(d, pos + n - 1);
        let p = two_pow((n - 1) as nat);
        assert(b * p <= p) by (nonlinear_arith)
            requires
                b <= 1,
        ;
    }
}

pub proof fn lemma_bits_lsb_small(d: Seq<u8>, pos: int, n: nat)
    requires
        n <= 16,
    ensures
        bits_lsb(d, pos, n) < 65536,
{
    lemma_bits_lsb_bound(d, pos, n);
    lemma_two_pow_mono(n, 16);
    lemma_two_pow_16();
}

pub proof fn lemma_bits_msb_bound(d: Seq<u8>, pos: int, n: nat)
    ensures
        bits_msb(d, pos, n) < two_pow(n),
    decreases n,
{
    if n > 0 {
        lemma_bits_msb_bound(d, pos, (n - 1) as nat);
        lemma_two_pow_grows((n - 1) as nat);
        lemma_bit_at_le_one(d, pos + n - 1);
    }
}

/// A reader of the bits of a byte buffer, with a cursor counted in bits.
pub struct BitStream {
    pub data: Vec<u8>,
    pub pos: usize,
}

impl BitStream {
    pub open spec fn wf(&self) -> bool {
        8 * self.data.len() <= usize::MAX && self.pos <= 8 * self.data.len()
    }

    pub fn new(data: Vec<u8>) -> (r: BitStream)
        requires
            8 * data.len() <= usize::MAX,
        ensures
            r.wf(),
            r.data@ == data@,
            r.pos == 0,
    {
        BitStream { data, pos: 0 }
    }

    /// Reads one bit.
    pub fn next_bit(&mut self) -> (r: Result<u8, InflateError>)
        requires
            old(self).wf(),
        ensures
            final(self).wf(),
            final(self).data@ == old(self).data@,
            old(self).pos < 8 * old(self).data.len() ==> r == Ok::<u8, InflateError>(
                bit_at(old(self).data@, old(self).pos as int) as u8,
            ) && final(self).pos == old(self).pos + 1,
            old(self).pos >= 8 * old(self).data.len() ==> r == Err::<u8, InflateError>(
                InflateError::Truncated,
            ) && final(self).pos == old(self).pos,
    {
        if self.pos / 8 >= self.data.len() {
            return Err(InflateError::Truncated);
        }
        let byte = self.data[self.pos / 8];
        let shift = (self.pos % 8) as u8;
        let b = (byte >> shift) & 1u8;
        self.pos = self.pos + 1;
        Ok(b)
    }

    /// Reads `n` bits, the first read being the least significant.
    pub fn next_bits(&mut self, n: usize) -> (r: Result<usize, InflateError>)
        requires
            old(self).wf(),
            n <= 16,
        ensures
            final(self).wf(),
            final(self).data@ == old(self).data@,
            old(self).pos + n <= 8 * old(self).data.len() ==> r is Ok && r->Ok_0 == bits_lsb(
                old(self).data@,
                old(self).pos as int,
                n as nat,
            ) && final(self).pos == old(self).pos + n,
            old(self).pos + n > 8 * old(self).data.len() ==> r == Err::<usize, InflateError>(
                InflateError::Truncated,
            ),
    {
        let ghost d = self.data@;
        let ghost start = self.pos as int;
        let mut acc: usize = 0;
        let mut weight: usize = 1;
        let mut i: usize = 0;
        while i < n
            invariant
                self.wf(),
                self.data@ == d,
                d == old(self).data@,
                start == old(self).pos,
                self.pos == start + i,
                i <= n,
                n <= 16,
                acc == bits_lsb(d, start, i as nat),
                weight == two_pow(i as nat),
                weight <= 65536,
            decreases n - i,
        {
            let b = match self.next_bit() {
                Ok(b) => b,
                Err(e) => {
                    return Err(e);
                },
            };
            proof {
                lemma_bits_lsb_bound(d, start, i as nat);
                lemma_two_pow_grows(i as nat);
                lemma_bit_at_le_one(d, start + i);
                lemma_two_pow_16();
                assert(b as nat * weight <= weight) by (nonlinear_arith)
                    requires
                        b <= 1,
                ;
            }
            proof {
                lemma_two_pow_mono((i + 1) as nat, 16);
            }
            acc = acc + (b as usize) * weight;
            weight = weight * 2;
            i = i + 1;
        }
        Ok(acc)
    }

    /// Skips what is left of the current byte and reads the next whole one.
    pub fn next_byte(&mut self) -> (r: Result<u8, InflateError>)
        requires
            old(self).wf(),
        ensures
            final(self).wf(),
            final(self).data@ == old(self).data@,
            align_up(old(self).pos as int) < 8 * old(self).data.len() ==> r == Ok::<u8, InflateError>(
                old(self).data@[align_up(old(self).pos as int) / 8],
            ) && final(self).pos == align_up(old(self).pos as int) + 8,
            align_up(old(self).pos as int) >= 8 * old(self).data.len() ==> r == Err::<u8, InflateError>(
                InflateError::Truncated,
            ),
    {
        let i = self.pos / 8 + if self.pos % 8 == 0 { 0 } else { 1 };
        if i >= self.data.len() {
            return Err(InflateError::Truncated);
        }
        let byte = self.data[i];
        self.pos = 8 * i + 8;
        Ok(byte)
    }
}

} // verus!
