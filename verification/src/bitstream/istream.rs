//! The bit source: reads a byte buffer bit by bit.
//!
//! Within each byte the reader hands bits out starting at the
//! most-significant bit; `read` reassembles whole bytes even when the
//! cursor is not byte-aligned.

use vstd::arithmetic::div_mod::lemma_fundamental_div_mod;
use vstd::arithmetic::power2::{lemma2_to64, lemma_pow2_adds, pow2};
use vstd::prelude::*;

use crate::bitstream::{pow2_u8, BYTE_SIZE};

verus! {

/// Bit `k` of the buffer (0 or 1), bytes read most-significant bit first.
pub open spec fn bit_in(bytes: Seq<u8>, k: int) -> nat
    recommends
        0 <= k < 8 * bytes.len(),
{
    ((bytes[k / 8] as nat) / pow2((7 - k % 8) as nat)) % 2
}

/// The bits of the byte containing position `pos` from `pos` to the end
/// of that byte, as a value (the byte's low `8 - pos % 8` bits).
pub open spec fn byte_tail(bytes: Seq<u8>, pos: int) -> nat
    recommends
        0 <= pos < 8 * bytes.len(),
{
    (bytes[pos / 8] as nat) % pow2((8 - pos % 8) as nat)
}

/// The byte obtained by reading eight bits starting at bit position
/// `pos`: the rest of the current byte in its low bits, joined with the
/// high bits of the following byte.
pub open spec fn byte_at(bytes: Seq<u8>, pos: int) -> nat
    recommends
        0 <= pos,
        pos + 8 <= 8 * bytes.len(),
{
    if pos % 8 == 0 {
        bytes[pos / 8] as nat
    } else {
        let next = bytes[pos / 8 + 1] as nat;
        (byte_tail(bytes, pos) + (next - next % pow2((8 - pos % 8) as nat))) as nat
    }
}

/// Bit reader over a borrowed buffer.  `pos` is the next bit to hand
/// out and `remain` counts the bits still unread.
#[derive(Debug)]
pub struct InputStream<'a> {
    pub input: &'a [u8],
    pub pos: usize,
    pub remain: usize,
}

impl<'a> InputStream<'a> {
    /// The cursor is inside the buffer and `remain` is its complement.
    pub open spec fn wf(&self) -> bool {
        &&& self.pos + self.remain == 8 * self.input@.len()
        &&& 8 * self.input@.len() <= usize::MAX
    }

    pub fn new(input: &'a [u8]) -> (r: Self)
        requires
            8 * input@.len() <= usize::MAX,
        ensures
            r.wf(),
            r.input@ == input@,
            r.pos == 0,
            r.remain == 8 * input@.len(),
    {
        Self { input, pos: 0, remain: input.len() * BYTE_SIZE }
    }

    pub fn bits_remain(&self) -> (r: usize)
        ensures
            r == self.remain,
    {
        self.remain
    }

    /// Hand out the next bit, most-significant bit of each byte first.
    pub fn read_bit(&mut self) -> (r: Option<u8>)
        requires
            old(self).wf(),
        ensures
            final(self).wf(),
            final(self).input@ == old(self).input@,
            old(self).remain == 0 ==> r is None && *final(self) == *old(self),
            old(self).remain > 0 ==> {
                &&& r == Some(bit_in(old(self).input@, old(self).pos as int) as u8)
                &&& final(self).pos == old(self).pos + 1
                &&& final(self).remain == old(self).remain - 1
            },
    {
        if self.remain == 0 {
            return None;
        }
        let (byte_pos, bit_pos) = self.get_positions();
        let bit_shift = BYTE_SIZE - bit_pos - 1;
        if self.advance(1) {
            let p = pow2_u8(bit_shift);
            Some((self.input[byte_pos] / p) % 2)
        } else {
            None
        }
    }

    fn get_positions(&self) -> (r: (usize, usize))
        ensures
            r.0 == self.pos / 8,
            r.1 == self.pos % 8,
    {
        (self.pos / BYTE_SIZE, self.pos % BYTE_SIZE)
    }

    /// Move the cursor `n` bits forward if that many are left.
    fn advance(&mut self, n: usize) -> (r: bool)
        requires
            old(self).wf(),
        ensures
            final(self).wf(),
            final(self).input@ == old(self).input@,
            old(self).remain < n ==> !r && *final(self) == *old(self),
            old(self).remain >= n ==> {
                &&& r
                &&& final(self).pos == old(self).pos + n
                &&& final(self).remain == old(self).remain - n
            },
    {
        if self.remain < n {
            return false;
        }
        self.remain = self.remain - n;
        self.pos = self.pos + n;
        true
    }

    /// Read the rest of the current byte: its remaining bits as a value,
    /// together with how many there were.  Leaves the cursor byte-aligned.
    pub fn read_until_end_of_byte(&mut self) -> (r: (u8, usize))
        requires
            old(self).wf(),
            old(self).remain > 0,
        ensures
            final(self).wf(),
            final(self).input@ == old(self).input@,
            r.0 as nat == byte_tail(old(self).input@, old(self).pos as int),
            r.1 == 8 - old(self).pos % 8,
            final(self).pos == old(self).pos + r.1,
            final(self).remain == old(self).remain - r.1,
    {
        let (byte_pos, bit_pos) = self.get_positions();
        let last_bits = BYTE_SIZE - bit_pos;
        proof {
            lemma_fundamental_div_mod(old(self).pos as int, 8);
            assert(old(self).remain >= last_bits);
        }
        if self.advance(last_bits) {
            (get_last_bits(self.input[byte_pos], last_bits), last_bits)
        } else {
            (0, 0)
        }
    }

    /// Read as many whole bytes as fit into `buf` and are left in the
    /// stream, reassembling across byte boundaries when unaligned.
    #[verifier::loop_isolation(false)]
    pub fn read(&mut self, buf: &mut Vec<u8>) -> (r: usize)
        requires
            old(self).wf(),
        ensures
            final(self).wf(),
            final(self).input@ == old(self).input@,
            r == if old(self).remain / 8 < old(buf)@.len() {
                old(self).remain as int / 8
            } else {
                old(buf)@.len() as int
            },
            final(self).pos == old(self).pos + 8 * r,
            final(buf)@.len() == old(buf)@.len(),
            forall|j: int|
                0 <= j < r ==> final(buf)@[j] as nat == byte_at(
                    old(self).input@,
                    old(self).pos + 8 * j,
                ),
            forall|j: int| r <= j < old(buf)@.len() ==> final(buf)@[j] == old(buf)@[j],
    {
        let mut have_read: usize = 0;
        let n = buf.len();
        while have_read < n
            invariant
                have_read <= n,
                self.wf(),
                self.input@ == old(self).input@,
                self.pos == old(self).pos + 8 * have_read,
                buf@.len() == n,
                forall|j: int|
                    0 <= j < have_read ==> buf@[j] as nat == byte_at(
                        old(self).input@,
                        old(self).pos + 8 * j,
                    ),
                forall|j: int| have_read <= j < n ==> buf@[j] == old(buf)@[j],
            decreases n - have_read,
        {
            if self.bits_remain() < BYTE_SIZE {
                proof {
                    lemma_fundamental_div_mod(old(self).remain as int, 8);
                }
                return have_read;
            }
            let ghost entry_pos = self.pos as int;
            let (left, bits_read) = self.read_until_end_of_byte();
            let right = if bits_read < BYTE_SIZE {
                let (byte_pos, bit_pos) = self.get_positions();
                proof {
                    assert(bit_pos == 0);
                    assert(byte_pos < self.input@.len());
                }
                let bits_to_read = BYTE_SIZE - bits_read;
                self.advance(bits_to_read);
                strip_last_bits(self.input[byte_pos], bits_read)
            } else {
                0
            };
            proof {
                lemma_split_parts_fit(
                    old(self).input@,
                    entry_pos,
                    left as nat,
                    right as nat,
                );
            }
            buf.set(have_read, left + right);
            have_read = have_read + 1;
        }
        proof {
            lemma_fundamental_div_mod(old(self).remain as int, 8);
        }
        have_read
    }
}

/// The two halves of an unaligned byte read fit together in one byte.
proof fn lemma_split_parts_fit(bytes: Seq<u8>, pos: int, left: nat, right: nat)
    requires
        0 <= pos,
        pos + 8 <= 8 * bytes.len(),
        left == byte_tail(bytes, pos),
        pos % 8 != 0 ==> right == {
            let next = bytes[pos / 8 + 1] as nat;
            next - next % pow2((8 - pos % 8) as nat)
        },
        pos % 8 == 0 ==> right == 0,
    ensures
        left + right == byte_at(bytes, pos),
        left + right < 256,
{
    lemma2_to64();
    let k = pos % 8;
    let p = pow2((8 - k) as nat);
    if k == 0 {
        assert(byte_tail(bytes, pos) == (bytes[pos / 8] as nat) % 256);
    } else {
        let next = bytes[pos / 8 + 1] as nat;
        lemma_fundamental_div_mod(next as int, p as int);
        lemma_pow2_adds((8 - k) as nat, k as nat);
        let q = next / p;
        let kk = pow2(k as nat);
        assert(q * p <= 256 - p) by (nonlinear_arith)
            requires
                q == next / p,
                next < 256,
                p >= 1,
                p * kk == 256,
                kk >= 1,
                next == q * p + next % p,
                0 <= next % p < p,
        ;
        assert(left < p);
    }
}

/// Clear the low `n` bits of a byte.
pub fn strip_last_bits(byte: u8, n: usize) -> (r: u8)
    ensures
        n < 8 ==> r as nat == (byte as nat) - (byte as nat) % pow2(n as nat),
        n >= 8 ==> r == 0,
{
    if n >= BYTE_SIZE {
        return 0;
    }
    let p = pow2_u8(n);
    let q = byte / p;
    proof {
        lemma_fundamental_div_mod(byte as int, p as int);
        assert((q as int) * (p as int) == (byte as int) - (byte as int) % (p as int)
            && 0 <= (q as int) * (p as int)) by (nonlinear_arith)
            requires
                q as int == (byte as int) / (p as int),
                p as int > 0,
                byte as int >= 0,
        ;
    }
    q * p
}

/// The high `n` bits of a byte, as a value.
pub fn get_first_bits(byte: u8, n: usize) -> (r: u8)
    requires
        n <= 8,
    ensures
        r as nat == (byte as nat) / pow2((8 - n) as nat),
{
    if n == 0 {
        proof {
            lemma2_to64();
            assert((byte as nat) / pow2(8) == 0);
        }
        return 0;
    }
    let bit_shift = BYTE_SIZE - n;
    byte / pow2_u8(bit_shift)
}

/// The low `n` bits of a byte, as a value.
pub fn get_last_bits(byte: u8, n: usize) -> (r: u8)
    requires
        n <= 8,
    ensures
        r as nat == (byte as nat) % pow2(n as nat),
{
    proof {
        lemma2_to64();
    }
    if n == 0 {
        return 0;
    }
    if n == BYTE_SIZE {
        return byte;
    }
    byte % pow2_u8(n)
}

} // verus!
