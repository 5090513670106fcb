//! The bit sink: an append-only bit buffer that produces a byte vector.
//!
//! Bits are packed into bytes starting at the least-significant bit
//! (RFC 1951 §3.1.1).  Numerical fields enter low bit first, Huffman
//! codewords high bit first; `finalize` pads the last byte with zeros.

use vstd::arithmetic::power2::{
    lemma2_to64, lemma_pow2_strictly_increases, lemma_pow2_unfold, pow2,
};
use vstd::prelude::*;

use crate::bitstream::{
    bits_lsb, code_bits, lemma_bits_lsb_clear_top, lemma_bits_lsb_len, lemma_bits_lsb_set_top,
    lemma_bits_lsb_zero_extend, lemma_code_bits_len, lemma_stream_bits_len,
    lemma_stream_bits_push, pow2_u8, stream_bits, zero_bits, BYTE_SIZE,
};
use crate::deflate::{
    distance_conversion, length_conversion, token_bits, token_writable, tokens_bits,
    DeflateToken, END_OF_BLOCK,
};
use crate::huffman::HuffmanToken;

verus! {

/// The bit stream extended with the zero bits that pad it to a whole
/// number of bytes.
pub open spec fn padded_bits(bits: Seq<bool>) -> Seq<bool> {
    bits + zero_bits(((8 - bits.len() % 8) % 8) as nat)
}

/// Append-only bit sink.  `output` holds the completed bytes, `current`
/// the byte in progress and `bit_pos` the next free bit within it.
/// The two code tables drive `write_token`.
pub struct OutputStream {
    pub output: Vec<u8>,
    pub current: u8,
    pub bit_pos: usize,
    pub ll_code: Vec<HuffmanToken>,
    pub d_code: Vec<HuffmanToken>,
}

impl View for OutputStream {
    type V = Seq<bool>;

    /// The bits written so far, in emission order.
    open spec fn view(&self) -> Seq<bool> {
        stream_bits(self.output@) + bits_lsb(self.current as nat, self.bit_pos as nat)
    }
}

impl OutputStream {
    /// The in-progress byte is consistent: the cursor is inside it and
    /// the bits at and above the cursor are still clear.
    pub open spec fn wf(&self) -> bool {
        &&& self.bit_pos < 8
        &&& (self.current as nat) < pow2(self.bit_pos as nat)
    }

    pub fn new(ll_code: Vec<HuffmanToken>, d_code: Vec<HuffmanToken>) -> (r: Self)
        ensures
            r.wf(),
            r@ == Seq::<bool>::empty(),
            r.ll_code == ll_code,
            r.d_code == d_code,
            r.output@ == Seq::<u8>::empty(),
    {
        proof {
            lemma2_to64();
        }
        let r = Self { output: Vec::new(), current: 0, bit_pos: 0, ll_code, d_code };
        proof {
            assert(r@ =~= Seq::<bool>::empty());
        }
        r
    }

    /// Push the in-progress byte and start a fresh one.
    fn flush(&mut self)
        ensures
            final(self).output@ == old(self).output@.push(old(self).current),
            final(self).current == 0,
            final(self).bit_pos == 0,
            final(self).ll_code == old(self).ll_code,
            final(self).d_code == old(self).d_code,
    {
        self.output.push(self.current);
        self.bit_pos = 0;
        self.current = 0;
    }

    /// Move the cursor past `n` freshly written bits, completing the byte
    /// when it fills up.
    fn advance(&mut self, n: usize)
        requires
            old(self).bit_pos + n <= 8,
            (old(self).current as nat) < pow2((old(self).bit_pos + n) as nat),
        ensures
            final(self).wf(),
            final(self)@ == stream_bits(old(self).output@) + bits_lsb(
                old(self).current as nat,
                (old(self).bit_pos + n) as nat,
            ),
            final(self).ll_code == old(self).ll_code,
            final(self).d_code == old(self).d_code,
    {
        self.bit_pos = self.bit_pos + n;
        if self.bit_pos == BYTE_SIZE {
            proof {
                lemma_stream_bits_push(self.output@, self.current);
                lemma2_to64();
                if old(self).bit_pos + n < 8 {
                    lemma_pow2_strictly_increases((old(self).bit_pos + n) as nat, 8);
                }
            }
            assert((old(self).current as nat) < pow2(8));
            self.flush();
            proof {
                lemma2_to64();
                assert(bits_lsb(0, 0) =~= Seq::<bool>::empty());
                assert(self@ =~= stream_bits(old(self).output@) + bits_lsb(
                    old(self).current as nat,
                    8,
                ));
            }
        }
    }

    /// Append a single bit.
    pub fn write_bit(&mut self, bit: bool)
        requires
            old(self).wf(),
        ensures
            final(self).wf(),
            final(self)@ == old(self)@.push(bit),
            final(self).ll_code == old(self).ll_code,
            final(self).d_code == old(self).d_code,
    {
        proof {
            if old(self).bit_pos < 7 {
                lemma_pow2_strictly_increases(old(self).bit_pos as nat, 7);
            }
            lemma2_to64();
            lemma_pow2_unfold((old(self).bit_pos + 1) as nat);
        }
        if bit {
            let p = pow2_u8(self.bit_pos);
            self.current = self.current + p;
            proof {
                lemma_bits_lsb_set_top(old(self).current as nat, old(self).bit_pos as nat);
            }
        } else {
            proof {
                lemma_bits_lsb_clear_top(old(self).current as nat, old(self).bit_pos as nat);
            }
        }
        self.advance(1);
        proof {
            assert(final(self)@ =~= old(self)@.push(bit));
        }
    }

    /// Write the `n` low bits of `value`, least-significant bit first:
    /// the RFC's convention for header fields and extra-bits fields.
    pub fn write_numerical(&mut self, n: usize, value: usize)
        requires
            old(self).wf(),
        ensures
            final(self).wf(),
            final(self)@ == old(self)@ + bits_lsb(value as nat, n as nat),
            final(self).ll_code == old(self).ll_code,
            final(self).d_code == old(self).d_code,
        decreases n,
    {
        if n > 0 {
            self.write_bit(value % 2 == 1);
            self.write_numerical(n - 1, value / 2);
            proof {
                lemma_bits_lsb_len((value / 2) as nat, (n - 1) as nat);
                assert(final(self)@ =~= old(self)@ + bits_lsb(value as nat, n as nat));
            }
        } else {
            proof {
                assert(old(self)@ + bits_lsb(value as nat, 0) =~= old(self)@);
            }
        }
    }

    /// Write an `len`-bit Huffman codeword, most-significant bit first:
    /// the RFC's convention for packing Huffman codes.
    pub fn write_code(&mut self, len: usize, token: usize)
        requires
            old(self).wf(),
            len <= usize::BITS,
        ensures
            final(self).wf(),
            final(self)@ == old(self)@ + code_bits(token as nat, len as nat),
            final(self).ll_code == old(self).ll_code,
            final(self).d_code == old(self).d_code,
        decreases len,
    {
        if len > 0 {
            self.write_code(len - 1, token / 2);
            self.write_bit(token % 2 == 1);
            proof {
                lemma_code_bits_len((token / 2) as nat, (len - 1) as nat);
                assert(final(self)@ =~= old(self)@ + code_bits(token as nat, len as nat));
            }
        } else {
            proof {
                assert(old(self)@ + code_bits(token as nat, 0) =~= old(self)@);
            }
        }
    }

    /// Encode one token against the tables this sink was created with.
    pub fn write_token(&mut self, token: &DeflateToken)
        requires
            old(self).wf(),
            token_writable(*token, old(self).ll_code@, old(self).d_code@),
        ensures
            final(self).wf(),
            final(self)@ == old(self)@ + token_bits(
                *token,
                old(self).ll_code@,
                old(self).d_code@,
            ),
            final(self).ll_code == old(self).ll_code,
            final(self).d_code == old(self).d_code,
    {
        match token {
            DeflateToken::Bhead(head) => self.write_numerical(1, *head as usize),
            DeflateToken::Btype(b_type) => self.write_numerical(2, *b_type as usize),
            DeflateToken::Literal(literal) => {
                let huffman_token = self.ll_code[*literal as usize];
                self.write_code(huffman_token.len as usize, huffman_token.token.unwrap() as usize);
            },
            DeflateToken::EndOfBlock => {
                let huffman_token = self.ll_code[END_OF_BLOCK];
                self.write_code(huffman_token.len as usize, huffman_token.token.unwrap() as usize);
            },
            DeflateToken::Backref { length, distance } => {
                let (token_i, extra, bits) = length_conversion(*length as usize);
                let huffman_token = self.ll_code[token_i];
                self.write_code(huffman_token.len as usize, huffman_token.token.unwrap() as usize);
                self.write_numerical(extra, bits);
                let (token_i, extra, bits) = distance_conversion(*distance as usize);
                let huffman_token = self.d_code[token_i];
                self.write_code(huffman_token.len as usize, huffman_token.token.unwrap() as usize);
                self.write_numerical(extra, bits);
                proof {
                    assert(final(self)@ =~= old(self)@ + token_bits(
                        *token,
                        old(self).ll_code@,
                        old(self).d_code@,
                    ));
                }
            },
        }
    }

    /// Encode a whole token sequence, in order.
    #[verifier::loop_isolation(false)]
    pub fn extend(&mut self, tokens: &Vec<DeflateToken>)
        requires
            old(self).wf(),
            forall|i: int|
                0 <= i < tokens@.len() ==> token_writable(
                    tokens@[i],
                    old(self).ll_code@,
                    old(self).d_code@,
                ),
        ensures
            final(self).wf(),
            final(self)@ == old(self)@ + tokens_bits(
                tokens@,
                old(self).ll_code@,
                old(self).d_code@,
            ),
            final(self).ll_code == old(self).ll_code,
            final(self).d_code == old(self).d_code,
    {
        let ghost ts = tokens@;
        let ghost ll = old(self).ll_code@;
        let ghost d = old(self).d_code@;
        let n = tokens.len();
        let mut i: usize = 0;
        proof {
            assert(ts.skip(0) =~= ts);
        }
        while i < n
            invariant
                i <= n,
                self.wf(),
                self.ll_code == old(self).ll_code,
                self.d_code == old(self).d_code,
                self@ + tokens_bits(ts.skip(i as int), ll, d) == old(self)@ + tokens_bits(
                    ts,
                    ll,
                    d,
                ),
            decreases n - i,
        {
            let t = &tokens[i];
            self.write_token(t);
            proof {
                assert(ts.skip(i as int)[0] == ts[i as int]);
                assert(ts.skip(i as int).drop_first() =~= ts.skip(i as int + 1));
                assert(self@ + tokens_bits(ts.skip(i as int + 1), ll, d) =~= old(self)@
                    + tokens_bits(ts, ll, d));
            }
            i = i + 1;
        }
        proof {
            assert(ts.skip(n as int) =~= Seq::<DeflateToken>::empty());
            assert(final(self)@ =~= old(self)@ + tokens_bits(ts, ll, d));
        }
    }

    /// Write whole bytes, each entering low bit first.
    #[verifier::loop_isolation(false)]
    pub fn write(&mut self, buf: &[u8]) -> (r: usize)
        requires
            old(self).wf(),
        ensures
            final(self).wf(),
            final(self)@ == old(self)@ + stream_bits(buf@),
            final(self).ll_code == old(self).ll_code,
            final(self).d_code == old(self).d_code,
            r == buf@.len(),
    {
        let mut have_written: usize = 0;
        let n = buf.len();
        while have_written < n
            invariant
                have_written <= n,
                self.wf(),
                self@ == old(self)@ + stream_bits(buf@.take(have_written as int)),
                self.ll_code == old(self).ll_code,
                self.d_code == old(self).d_code,
            decreases n - have_written,
        {
            let b = buf[have_written];
            self.write_numerical(BYTE_SIZE, b as usize);
            proof {
                lemma_stream_bits_push(buf@.take(have_written as int), b);
                assert(buf@.take(have_written as int).push(b) =~= buf@.take(
                    have_written + 1,
                ));
                assert(self@ =~= old(self)@ + stream_bits(buf@.take(have_written + 1)));
            }
            have_written = have_written + 1;
        }
        proof {
            assert(buf@.take(n as int) =~= buf@);
        }
        have_written
    }

    /// Zero-pad the in-progress byte, if any, and hand back the bytes.
    pub fn finalize(self) -> (r: Vec<u8>)
        requires
            self.wf(),
        ensures
            stream_bits(r@) == padded_bits(self@),
            8 * r@.len() == padded_bits(self@).len(),
    {
        proof {
            lemma_stream_bits_len(self.output@);
            lemma_bits_lsb_len(self.current as nat, self.bit_pos as nat);
        }
        let mut s = self;
        if s.bit_pos % BYTE_SIZE > 0 {
            proof {
                lemma2_to64();
                lemma_pow2_strictly_increases(s.bit_pos as nat, 8);
                lemma_bits_lsb_zero_extend(s.current as nat, s.bit_pos as nat, 8);
                lemma_stream_bits_push(s.output@, s.current);
            }
            s.flush();
            proof {
                lemma_stream_bits_len(s.output@);
                assert(stream_bits(s.output@) =~= padded_bits(self@));
            }
        } else {
            proof {
                assert(stream_bits(s.output@) =~= padded_bits(self@));
            }
        }
        s.output
    }
}

impl Default for OutputStream {
    /// An empty sink with empty code tables.
    fn default() -> (r: Self)
        ensures
            r.wf(),
            r@ == Seq::<bool>::empty(),
            r.output@ == Seq::<u8>::empty(),
            r.ll_code@ == Seq::<HuffmanToken>::empty(),
            r.d_code@ == Seq::<HuffmanToken>::empty(),
    {
        OutputStream::new(Vec::new(), Vec::new())
    }
}

} // verus!
