//! Bit-level streams over byte buffers.
//!
//! DEFLATE (RFC 1951 §3.1.1) packs bits into bytes starting at each byte's
//! least-significant bit.  The model shared by the reader and the writer is a
//! sequence of booleans: `stream_bits` gives the bits of a finished byte
//! vector, `bits_lsb` the bits of a numerical field (low bit first) and
//! `code_bits` the bits of a Huffman codeword (high bit first).

pub mod istream;
pub mod ostream;

use vstd::arithmetic::power2::{
    lemma2_to64, lemma_pow2_pos, lemma_pow2_strictly_increases, lemma_pow2_unfold, pow2,
};
use vstd::prelude::*;

verus! {

/// Number of bits in a byte.
pub const BYTE_SIZE: usize = 8;

/// The `n` low bits of `v`, least-significant bit first: the order in which
/// DEFLATE packs numerical fields (headers, extra bits) into the stream.
pub open spec fn bits_lsb(v: nat, n: nat) -> Seq<bool>
    decreases n,
{
    if n == 0 {
        Seq::empty()
    } else {
        seq![v % 2 == 1] + bits_lsb(v / 2, (n - 1) as nat)
    }
}

/// The `n` low bits of `v`, most-significant bit first: the order in which
/// DEFLATE packs Huffman codewords into the stream.
pub open spec fn code_bits(v: nat, n: nat) -> Seq<bool>
    decreases n,
{
    if n == 0 {
        Seq::empty()
    } else {
        code_bits(v / 2, (n - 1) as nat).push(v % 2 == 1)
    }
}

/// A run of `n` zero bits, as produced by padding.
pub open spec fn zero_bits(n: nat) -> Seq<bool> {
    Seq::new(n, |i: int| false)
}

/// All bits of a byte sequence, each byte contributing its eight bits
/// low-order first.
pub open spec fn stream_bits(bytes: Seq<u8>) -> Seq<bool>
    decreases bytes.len(),
{
    if bytes.len() == 0 {
        Seq::empty()
    } else {
        bits_lsb(bytes[0] as nat, 8) + stream_bits(bytes.drop_first())
    }
}

pub proof fn lemma_bits_lsb_len(v: nat, n: nat)
    ensures
        bits_lsb(v, n).len() == n,
    decreases n,
{
    if n > 0 {
        lemma_bits_lsb_len(v / 2, (n - 1) as nat);
    }
}

pub proof fn lemma_code_bits_len(v: nat, n: nat)
    ensures
        code_bits(v, n).len() == n,
    decreases n,
{
    if n > 0 {
        lemma_code_bits_len(v / 2, (n - 1) as nat);
    }
}

pub proof fn lemma_stream_bits_len(bytes: Seq<u8>)
    ensures
        stream_bits(bytes).len() == 8 * bytes.len(),
    decreases bytes.len(),
{
    if bytes.len() > 0 {
        lemma_bits_lsb_len(bytes[0] as nat, 8);
        lemma_stream_bits_len(bytes.drop_first());
    }
}

/// Appending a byte to a buffer appends its eight bits to the bit stream.
pub proof fn lemma_stream_bits_push(bytes: Seq<u8>, b: u8)
    ensures
        stream_bits(bytes.push(b)) == stream_bits(bytes) + bits_lsb(b as nat, 8),
    decreases bytes.len(),
{
    if bytes.len() == 0 {
        assert(stream_bits(bytes.push(b).drop_first()) == stream_bits(
            Seq::<u8>::empty(),
        )) by {
            assert(bytes.push(b).drop_first() =~= Seq::<u8>::empty());
        }
        assert(stream_bits(bytes.push(b)) =~= stream_bits(bytes) + bits_lsb(b as nat, 8));
    } else {
        lemma_stream_bits_push(bytes.drop_first(), b);
        assert(bytes.push(b).drop_first() =~= bytes.drop_first().push(b));
        assert(stream_bits(bytes.push(b)) =~= stream_bits(bytes) + bits_lsb(b as nat, 8));
    }
}

/// A value below `2^n` is determined by its `n` low bits.
pub proof fn lemma_bits_lsb_injective(v: nat, w: nat, n: nat)
    requires
        v < pow2(n),
        w < pow2(n),
        bits_lsb(v, n) == bits_lsb(w, n),
    ensures
        v == w,
    decreases n,
{
    lemma2_to64();
    if n == 0 {
        assert(pow2(0) == 1);
    } else {
        lemma_bits_lsb_len(v / 2, (n - 1) as nat);
        lemma_bits_lsb_len(w / 2, (n - 1) as nat);
        assert(bits_lsb(v, n) == seq![v % 2 == 1] + bits_lsb(v / 2, (n - 1) as nat));
        assert(bits_lsb(w, n) == seq![w % 2 == 1] + bits_lsb(w / 2, (n - 1) as nat));
        assert((seq![v % 2 == 1] + bits_lsb(v / 2, (n - 1) as nat))[0] == (v % 2 == 1));
        assert((seq![w % 2 == 1] + bits_lsb(w / 2, (n - 1) as nat))[0] == (w % 2 == 1));
        assert(v % 2 == w % 2);
        assert(bits_lsb(v, n).drop_first() =~= bits_lsb(v / 2, (n - 1) as nat));
        assert(bits_lsb(w, n).drop_first() =~= bits_lsb(w / 2, (n - 1) as nat));
        assert(bits_lsb(v / 2, (n - 1) as nat) == bits_lsb(w / 2, (n - 1) as nat));
        lemma_pow2_unfold(n);
        lemma_bits_lsb_injective(v / 2, w / 2, (n - 1) as nat);
    }
}

/// Byte buffers of one length with equal bit streams are equal: the
/// bits a sink promises in its contract determine the bytes it returns.
pub proof fn lemma_stream_bits_injective(a: Seq<u8>, b: Seq<u8>)
    requires
        a.len() == b.len(),
        stream_bits(a) == stream_bits(b),
    ensures
        a == b,
    decreases a.len(),
{
    if a.len() > 0 {
        lemma_bits_lsb_len(a[0] as nat, 8);
        lemma_bits_lsb_len(b[0] as nat, 8);
        lemma_stream_bits_len(a.drop_first());
        lemma_stream_bits_len(b.drop_first());
        assert(stream_bits(a) == bits_lsb(a[0] as nat, 8) + stream_bits(a.drop_first()));
        assert(stream_bits(b) == bits_lsb(b[0] as nat, 8) + stream_bits(b.drop_first()));
        assert(bits_lsb(a[0] as nat, 8) =~= bits_lsb(b[0] as nat, 8)) by {
            assert forall|i: int|
                0 <= i < 8 implies #[trigger] bits_lsb(a[0] as nat, 8)[i] == bits_lsb(
                b[0] as nat,
                8,
            )[i] by {
                assert((bits_lsb(a[0] as nat, 8) + stream_bits(a.drop_first()))[i]
                    == bits_lsb(a[0] as nat, 8)[i]);
                assert((bits_lsb(b[0] as nat, 8) + stream_bits(b.drop_first()))[i]
                    == bits_lsb(b[0] as nat, 8)[i]);
                assert(stream_bits(a)[i] == stream_bits(b)[i]);
            }
        }
        assert(pow2(8) == 256) by {
            lemma2_to64();
        }
        lemma_bits_lsb_injective(a[0] as nat, b[0] as nat, 8);
        assert(stream_bits(a.drop_first()) =~= stream_bits(b.drop_first())) by {
            assert forall|i: int|
                0 <= i < stream_bits(a.drop_first()).len() implies #[trigger] stream_bits(
                a.drop_first(),
            )[i] == stream_bits(b.drop_first())[i] by {
                assert((bits_lsb(a[0] as nat, 8) + stream_bits(a.drop_first()))[i + 8]
                    == stream_bits(a.drop_first())[i]);
                assert((bits_lsb(b[0] as nat, 8) + stream_bits(b.drop_first()))[i + 8]
                    == stream_bits(b.drop_first())[i]);
                assert(stream_bits(a)[i + 8] == stream_bits(b)[i + 8]);
            }
        }
        lemma_stream_bits_injective(a.drop_first(), b.drop_first());
        assert forall|i: int| 0 <= i < a.len() implies a[i] == b[i] by {
            if i > 0 {
                assert(a.drop_first()[i - 1] == b.drop_first()[i - 1]);
            }
        }
        assert(a =~= b);
    } else {
        assert(a =~= b);
    }
}

/// Reading more bits than a value occupies only appends zeros:
/// if `v < 2^k`, its bits beyond position `k` are all zero.
pub proof fn lemma_bits_lsb_zero_extend(v: nat, k: nat, n: nat)
    requires
        v < pow2(k),
        k <= n,
    ensures
        bits_lsb(v, n) == bits_lsb(v, k) + zero_bits((n - k) as nat),
    decreases n,
{
    if n == 0 {
        assert(bits_lsb(v, n) =~= bits_lsb(v, k) + zero_bits((n - k) as nat));
    } else if k == 0 {
        assert(v == 0) by {
            assert(pow2(0) == 1) by {
                lemma2_to64();
            }
        }
        lemma_bits_lsb_zero_extend(0, 0, (n - 1) as nat);
        assert(bits_lsb(0, n) =~= bits_lsb(0, 0) + zero_bits(n));
    } else {
        assert(v / 2 < pow2((k - 1) as nat)) by {
            lemma_pow2_unfold(k);
        }
        lemma_bits_lsb_zero_extend(v / 2, (k - 1) as nat, (n - 1) as nat);
        assert(bits_lsb(v, n) =~= bits_lsb(v, k) + zero_bits((n - k) as nat));
    }
}

/// Setting the bit just above the `n` known bits of `v` appends `true`.
pub proof fn lemma_bits_lsb_set_top(v: nat, n: nat)
    requires
        v < pow2(n),
    ensures
        bits_lsb(v + pow2(n), n + 1) == bits_lsb(v, n).push(true),
    decreases n,
{
    if n == 0 {
        assert(pow2(0) == 1) by {
            lemma2_to64();
        }
        assert(bits_lsb(1, 1) =~= bits_lsb(0, 0).push(true));
    } else {
        lemma_pow2_unfold(n);
        assert(v / 2 < pow2((n - 1) as nat));
        assert((v + pow2(n)) % 2 == v % 2);
        assert((v + pow2(n)) / 2 == v / 2 + pow2((n - 1) as nat));
        lemma_bits_lsb_set_top(v / 2, (n - 1) as nat);
        assert(bits_lsb(v + pow2(n), n + 1) =~= bits_lsb(v, n).push(true));
    }
}

/// Leaving the bit just above the `n` known bits of `v` clear appends `false`.
pub proof fn lemma_bits_lsb_clear_top(v: nat, n: nat)
    requires
        v < pow2(n),
    ensures
        bits_lsb(v, n + 1) == bits_lsb(v, n).push(false),
{
    lemma_bits_lsb_zero_extend(v, n, n + 1);
    assert(bits_lsb(v, n) + zero_bits(1) =~= bits_lsb(v, n).push(false));
}

/// `2^e` for `e < 8`, as a byte.
pub fn pow2_u8(e: usize) -> (r: u8)
    requires
        e < 8,
    ensures
        r as nat == pow2(e as nat),
        r >= 1,
    decreases e,
{
    if e == 0 {
        proof {
            lemma2_to64();
        }
        1
    } else {
        let p = pow2_u8(e - 1);
        proof {
            lemma_pow2_pos((e - 1) as nat);
            if e - 1 < 7 {
                lemma_pow2_strictly_increases((e - 1) as nat, 7);
            }
            lemma2_to64();
            lemma_pow2_unfold(e as nat);
        }
        2 * p
    }
}

} // verus!
