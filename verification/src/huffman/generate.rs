//! Construction of canonical Huffman codes from code lengths
//! (RFC 1951 §3.2.2), and the two fixed DEFLATE code tables.

use vstd::arithmetic::div_mod::{
    lemma_fundamental_div_mod, lemma_mod_multiples_vanish, lemma_small_mod,
};
use vstd::arithmetic::power2::{
    lemma2_to64, lemma_pow2_adds, lemma_pow2_pos, lemma_pow2_strictly_increases,
    lemma_pow2_unfold, pow2,
};
use vstd::prelude::*;

use crate::huffman::HuffmanToken;

verus! {

/// The longest code length RFC 1951 admits.
pub const MAX_BITS: usize = 15;

/// Why a set of code lengths cannot yield a prefix code.
#[derive(Debug, Clone, Copy, PartialEq, Eq)]
pub enum HuffmanError {
    /// Some code length exceeds 15.
    LengthOutOfRange,
    /// The lengths oversubscribe the code space (scaled Kraft sum above one).
    KraftViolation,
}

/// How many of the first `n` lengths equal `l`.
pub open spec fn count_upto(lens: Seq<u8>, l: int, n: int) -> nat
    decreases n,
{
    if n <= 0 {
        0
    } else {
        count_upto(lens, l, n - 1) + (if lens[n - 1] == l {
            1nat
        } else {
            0nat
        })
    }
}

/// How many lengths equal `l`.
pub open spec fn count_len(lens: Seq<u8>, l: int) -> nat {
    count_upto(lens, l, lens.len() as int)
}

/// The first canonical codeword of length `l`:
/// `first_code(1) == 0`, `first_code(l) == (first_code(l-1) + count(l-1)) * 2`.
pub open spec fn first_code(lens: Seq<u8>, l: int) -> nat
    decreases l,
{
    if l <= 1 {
        0
    } else {
        (first_code(lens, l - 1) + count_len(lens, l - 1)) * 2
    }
}

/// The canonical codeword of symbol `i`: the first code of its length,
/// offset by its rank among equal-length symbols in symbol order.
pub open spec fn code_of(lens: Seq<u8>, i: int) -> nat
    recommends
        0 <= i < lens.len(),
        lens[i] > 0,
{
    first_code(lens, lens[i] as int) + count_upto(lens, lens[i] as int, i)
}

/// The table entry of symbol `i`: absent symbols get length 0 and no code.
pub open spec fn canonical_entry(lens: Seq<u8>, i: int) -> HuffmanToken {
    if lens[i] == 0 {
        HuffmanToken { len: 0, token: None }
    } else {
        HuffmanToken { len: lens[i], token: Some(code_of(lens, i) as u16) }
    }
}

/// The whole canonical code table for a length vector.
pub open spec fn canonical_table(lens: Seq<u8>) -> Seq<HuffmanToken> {
    Seq::new(lens.len(), |i: int| canonical_entry(lens, i))
}

/// The Kraft sum of the first `n` lengths, scaled by `2^15`:
/// each present symbol contributes `2^(15 - len)`.
pub open spec fn kraft_upto(lens: Seq<u8>, n: int) -> nat
    decreases n,
{
    if n <= 0 {
        0
    } else {
        kraft_upto(lens, n - 1) + (if 1 <= lens[n - 1] <= 15 {
            pow2((15 - lens[n - 1]) as nat)
        } else {
            0nat
        })
    }
}

/// The scaled Kraft sum of a length vector.
pub open spec fn kraft_scaled(lens: Seq<u8>) -> nat {
    kraft_upto(lens, lens.len() as int)
}

/// Every length is at most 15.
pub open spec fn lengths_ok(lens: Seq<u8>) -> bool {
    forall|i: int| 0 <= i < lens.len() ==> lens[i] <= 15
}

/// The lengths do not oversubscribe the code space.
pub open spec fn kraft_ok(lens: Seq<u8>) -> bool {
    kraft_scaled(lens) <= 0x8000
}

/// The scaled Kraft sum grouped by length instead of by symbol:
/// the sum over lengths `1..=l` of `count(length) * 2^(15 - length)`.
pub open spec fn kraft_by_length(lens: Seq<u8>, l: int) -> nat
    decreases l,
{
    if l <= 0 {
        0
    } else {
        kraft_by_length(lens, l - 1) + count_len(lens, l) * pow2((15 - l) as nat)
    }
}

/// The truncating variant of the `first_code` recurrence, as a 16-bit
/// accumulator computes it.
pub open spec fn trunc_code(counts: Seq<usize>, l: int) -> nat
    decreases l,
{
    if l <= 0 {
        0
    } else {
        (((trunc_code(counts, l - 1) + counts[l - 1]) * 2) % 0x10000) as nat
    }
}

pub proof fn lemma_count_upto_bound(lens: Seq<u8>, l: int, n: int)
    requires
        n >= 0,
    ensures
        count_upto(lens, l, n) <= n,
    decreases n,
{
    if n > 0 {
        lemma_count_upto_bound(lens, l, n - 1);
    }
}

pub proof fn lemma_count_upto_mono(lens: Seq<u8>, l: int, m: int, n: int)
    requires
        m <= n,
    ensures
        count_upto(lens, l, m) <= count_upto(lens, l, n),
    decreases n - m,
{
    if m < n {
        lemma_count_upto_mono(lens, l, m, n - 1);
    }
}

/// Counting within a prefix ignores anything appended behind it.
proof fn lemma_count_upto_push(lens: Seq<u8>, x: u8, l: int, n: int)
    requires
        0 <= n <= lens.len(),
    ensures
        count_upto(lens.push(x), l, n) == count_upto(lens, l, n),
    decreases n,
{
    if n > 0 {
        lemma_count_upto_push(lens, x, l, n - 1);
    }
}

/// Likewise for the Kraft sum over a prefix.
proof fn lemma_kraft_upto_push(lens: Seq<u8>, x: u8, n: int)
    requires
        0 <= n <= lens.len(),
    ensures
        kraft_upto(lens.push(x), n) == kraft_upto(lens, n),
    decreases n,
{
    if n > 0 {
        lemma_kraft_upto_push(lens, x, n - 1);
    }
}

/// Appending one length adds its term to the by-length Kraft sum.
proof fn lemma_kraft_by_length_push(lens: Seq<u8>, x: u8, l: int)
    requires
        l >= 0,
    ensures
        kraft_by_length(lens.push(x), l) == kraft_by_length(lens, l) + (if 1 <= x <= l {
            pow2((15 - x) as nat)
        } else {
            0nat
        }),
    decreases l,
{
    if l > 0 {
        lemma_kraft_by_length_push(lens, x, l - 1);
        lemma_count_upto_push(lens, x, l, lens.len() as int);
        assert(count_upto(lens.push(x), l, lens.len() as int + 1) == count_upto(
            lens.push(x),
            l,
            lens.len() as int,
        ) + (if x == l {
            1nat
        } else {
            0nat
        }));
        assert(count_len(lens.push(x), l) == count_len(lens, l) + (if x == l {
            1nat
        } else {
            0nat
        }));
        let c = count_len(lens, l);
        let p = pow2((15 - l) as nat);
        assert((c + 1) * p == c * p + p) by (nonlinear_arith);
    }
}

/// The Kraft sum grouped by symbol equals the sum grouped by length,
/// provided no length exceeds 15.
proof fn lemma_kraft_exchange(lens: Seq<u8>)
    requires
        lengths_ok(lens),
    ensures
        kraft_scaled(lens) == kraft_by_length(lens, 15),
    decreases lens.len(),
{
    if lens.len() == 0 {
        assert(kraft_by_length(lens, 15) == 0) by {
            lemma_kraft_by_length_empty(lens, 15);
        }
    } else {
        let s = lens.drop_last();
        let x = lens.last();
        assert(lens =~= s.push(x));
        lemma_kraft_exchange(s);
        lemma_kraft_upto_push(s, x, s.len() as int);
        lemma_kraft_by_length_push(s, x, 15);
    }
}

/// An empty length vector has an empty Kraft sum, however grouped.
proof fn lemma_kraft_by_length_empty(lens: Seq<u8>, l: int)
    requires
        lens.len() == 0,
        l >= 0,
    ensures
        kraft_by_length(lens, l) == 0,
    decreases l,
{
    if l > 0 {
        lemma_kraft_by_length_empty(lens, l - 1);
        assert(count_len(lens, l) == 0);
        assert(count_len(lens, l) * pow2((15 - l) as nat) == 0);
    }
}

pub proof fn lemma_kraft_by_length_mono(lens: Seq<u8>, m: int, l: int)
    requires
        0 <= m <= l,
    ensures
        kraft_by_length(lens, m) <= kraft_by_length(lens, l),
    decreases l,
{
    if m < l {
        lemma_kraft_by_length_mono(lens, m, l - 1);
    }
}

/// The codes of length `l` end exactly where the by-length Kraft sum
/// says: `(first_code(l) + count(l)) * 2^(15-l)` equals the sum up to `l`.
proof fn lemma_first_code_kraft(lens: Seq<u8>, l: int)
    requires
        1 <= l <= 15,
    ensures
        (first_code(lens, l) + count_len(lens, l)) * pow2((15 - l) as nat) == kraft_by_length(
            lens,
            l,
        ),
    decreases l,
{
    if l == 1 {
        assert(kraft_by_length(lens, 0) == 0);
    } else {
        lemma_first_code_kraft(lens, l - 1);
        lemma_pow2_unfold((15 - (l - 1)) as nat);
        let a = first_code(lens, l - 1) + count_len(lens, l - 1);
        let c = count_len(lens, l);
        let p = pow2((15 - l) as nat);
        assert((a * 2 + c) * p == a * (2 * p) + c * p) by (nonlinear_arith);
    }
}

/// With the Kraft inequality satisfied, the codes of length `l` fit in
/// `l` bits.
pub proof fn lemma_code_space(lens: Seq<u8>, l: int)
    requires
        lengths_ok(lens),
        kraft_ok(lens),
        1 <= l <= 15,
    ensures
        first_code(lens, l) + count_len(lens, l) <= pow2(l as nat),
{
    lemma_first_code_kraft(lens, l);
    lemma_kraft_by_length_mono(lens, l, 15);
    lemma_kraft_exchange(lens);
    lemma_pow2_adds(l as nat, (15 - l) as nat);
    lemma2_to64();
    let a = first_code(lens, l) + count_len(lens, l);
    let b = pow2((15 - l) as nat);
    let c = pow2(l as nat);
    lemma_pow2_pos((15 - l) as nat);
    assert(a * b <= c * b);
    assert(a <= c) by (nonlinear_arith)
        requires
            a * b <= c * b,
            b > 0,
    ;
}

/// `2^e` for small `e`, as a machine word.
fn pow2_u64(e: usize) -> (r: u64)
    requires
        e < 32,
    ensures
        r as nat == pow2(e as nat),
        r >= 1,
    decreases e,
{
    if e == 0 {
        proof {
            lemma2_to64();
        }
        1
    } else {
        let p = pow2_u64(e - 1);
        proof {
            if e - 1 < 31 {
                lemma_pow2_strictly_increases((e - 1) as nat, 31);
            }
            lemma2_to64();
            lemma_pow2_unfold(e as nat);
        }
        2 * p
    }
}

/// Fill `counts` so that `counts[l-1]` is the number of lengths equal
/// to `l`.  Zero lengths mark absent symbols and are not counted.
#[verifier::loop_isolation(false)]
pub fn calc_bl_count(bit_lengths: &[u8], counts: &mut Vec<usize>)
    requires
        forall|i: int|
            0 <= i < bit_lengths@.len() ==> bit_lengths@[i] as int <= old(counts)@.len(),
    ensures
        final(counts)@.len() == old(counts)@.len(),
        forall|l: int|
            1 <= l <= final(counts)@.len() ==> final(counts)@[l - 1] == count_len(
                bit_lengths@,
                l,
            ),
{
    let m = counts.len();
    let mut i: usize = 0;
    while i < m
        invariant
            i <= m,
            counts@.len() == m,
            forall|j: int| 0 <= j < i ==> counts@[j] == 0,
        decreases m - i,
    {
        counts.set(i, 0);
        i = i + 1;
    }
    let n = bit_lengths.len();
    let mut k: usize = 0;
    while k < n
        invariant
            k <= n,
            counts@.len() == m,
            forall|l: int|
                1 <= l <= m ==> counts@[l - 1] == count_upto(bit_lengths@, l, k as int),
        decreases n - k,
    {
        let len = bit_lengths[k];
        let bl_index = len as usize;
        if bl_index > 0 {
            // zero-bit-long codes are ignored
            let c = counts[bl_index - 1];
            proof {
                lemma_count_upto_bound(bit_lengths@, len as int, k as int);
            }
            counts.set(bl_index - 1, c + 1);
            proof {
                assert forall|l: int| 1 <= l <= m implies counts@[l - 1] == #[trigger] count_upto(
                    bit_lengths@,
                    l,
                    k as int + 1,
                ) by {
                    assert(count_upto(bit_lengths@, l, k as int + 1) == count_upto(
                        bit_lengths@,
                        l,
                        k as int,
                    ) + (if bit_lengths@[k as int] == l {
                        1nat
                    } else {
                        0nat
                    }));
                }
            }
        } else {
            proof {
                assert forall|l: int| 1 <= l <= m implies counts@[l - 1] == #[trigger] count_upto(
                    bit_lengths@,
                    l,
                    k as int + 1,
                ) by {
                    assert(count_upto(bit_lengths@, l, k as int + 1) == count_upto(
                        bit_lengths@,
                        l,
                        k as int,
                    ));
                }
            }
        }
        k = k + 1;
    }
}

/// Run the `first_code` recurrence over a count vector, truncating to 16
/// bits, and record each step: `next_code[l]` receives the first code of
/// length `l + 1`.
#[verifier::loop_isolation(false)]
pub fn calc_first_codes(bl_count: &Vec<usize>, next_code: &mut Vec<u16>)
    requires
        old(next_code)@.len() > bl_count@.len(),
        forall|j: int| 0 <= j < bl_count@.len() ==> bl_count@[j] <= usize::MAX - 0x10000,
    ensures
        final(next_code)@.len() == old(next_code)@.len(),
        final(next_code)@[0] == 0,
        forall|l: int|
            1 <= l <= bl_count@.len() ==> final(next_code)@[l] as nat == trunc_code(
                bl_count@,
                l,
            ),
        forall|l: int|
            bl_count@.len() < l < final(next_code)@.len() ==> final(next_code)@[l] == 0,
{
    let m = next_code.len();
    let mut i: usize = 0;
    while i < m
        invariant
            i <= m,
            next_code@.len() == m,
            forall|j: int| 0 <= j < i ==> next_code@[j] == 0,
        decreases m - i,
    {
        next_code.set(i, 0);
        i = i + 1;
    }
    let mut code: u16 = 0;
    let mut bits: usize = 0;
    let n = bl_count.len();
    while bits < n
        invariant
            bits <= n,
            next_code@.len() == m,
            code as nat == trunc_code(bl_count@, bits as int),
            next_code@[0] == 0,
            forall|l: int|
                1 <= l <= bits ==> next_code@[l] as nat == trunc_code(bl_count@, l),
            forall|l: int| bits < l < m ==> next_code@[l] == 0,
        decreases n - bits,
    {
        let sum = code as usize + bl_count[bits];
        let low = sum % 0x8000;
        proof {
            lemma_fundamental_div_mod(sum as int, 0x8000);
            lemma_mod_multiples_vanish(sum as int / 0x8000, 2 * (sum as int % 0x8000), 0x10000);
            assert(sum as int * 2 == 0x10000 * (sum as int / 0x8000) + 2 * (sum as int
                % 0x8000));
            lemma_small_mod((2 * low) as nat, 0x10000);
        }
        code = (low * 2) as u16;
        next_code.set(bits + 1, code);
        bits = bits + 1;
    }
}

/// Derive the canonical code table for a vector of per-symbol code
/// lengths.  Rejects a length above 15 and lengths whose Kraft sum
/// oversubscribes the code space; a deficient (incomplete) code is
/// accepted.  The table is indexed by symbol, absent symbols keeping
/// their slot with length 0.
#[verifier::loop_isolation(false)]
pub fn generate_code(bit_lengths: &[u8]) -> (r: Result<Vec<HuffmanToken>, HuffmanError>)
    ensures
        !lengths_ok(bit_lengths@) ==> r == Err::<Vec<HuffmanToken>, HuffmanError>(
            HuffmanError::LengthOutOfRange,
        ),
        lengths_ok(bit_lengths@) && !kraft_ok(bit_lengths@) ==> r == Err::<
            Vec<HuffmanToken>,
            HuffmanError,
        >(HuffmanError::KraftViolation),
        lengths_ok(bit_lengths@) && kraft_ok(bit_lengths@) ==> r is Ok && r->Ok_0@
            == canonical_table(bit_lengths@),
{
    let ghost lens = bit_lengths@;
    let n = bit_lengths.len();

    let mut i: usize = 0;
    while i < n
        invariant
            i <= n,
            forall|j: int| 0 <= j < i ==> lens[j] <= 15,
        decreases n - i,
    {
        if bit_lengths[i] > 15 {
            return Err(HuffmanError::LengthOutOfRange);
        }
        i = i + 1;
    }
    assert(lengths_ok(lens));

    let mut bl_count: Vec<usize> = Vec::new();
    let mut z: usize = 0;
    while z < MAX_BITS
        invariant
            bl_count@.len() == z,
            z <= 15,
        decreases MAX_BITS - z,
    {
        bl_count.push(0);
        z = z + 1;
    }
    calc_bl_count(bit_lengths, &mut bl_count);

    // The scaled Kraft sum, grouped by length; each term is checked so
    // that the u64 accumulator cannot overflow.
    let mut total: u64 = 0;
    let mut l: usize = 1;
    while l <= MAX_BITS
        invariant
            1 <= l <= 16,
            bl_count@.len() == 15,
            forall|j: int|
                1 <= j <= 15 ==> bl_count@[j - 1] == count_len(lens, j),
            total as nat == kraft_by_length(lens, l - 1),
            total <= 0x20000000u64 * ((l - 1) as u64),
            forall|j: int| 0 <= j < l - 1 ==> bl_count@[j] <= 0x8000,
        decreases MAX_BITS + 1 - l,
    {
        let c = bl_count[l - 1];
        proof {
            lemma_pow2_pos((15 - l) as nat);
        }
        if c > 0x8000 {
            proof {
                lemma_kraft_exchange(lens);
                lemma_kraft_by_length_mono(lens, l as int, 15);
                let p = pow2((15 - l) as nat);
                assert(c * p >= c) by (nonlinear_arith)
                    requires
                        p >= 1,
                        c >= 0,
                ;
            }
            return Err(HuffmanError::KraftViolation);
        }
        let p = pow2_u64(15 - l);
        proof {
            lemma_pow2_strictly_increases((15 - l) as nat, 15);
            lemma2_to64();
            assert((c as u64) * p <= 0x20000000) by (nonlinear_arith)
                requires
                    c <= 0x8000,
                    p <= 0x4000,
            ;
        }
        total = total + (c as u64) * p;
        l = l + 1;
    }
    proof {
        lemma_kraft_exchange(lens);
    }
    if total > 0x8000 {
        return Err(HuffmanError::KraftViolation);
    }
    assert(kraft_ok(lens));

    let mut next_code: Vec<u16> = Vec::new();
    let mut z2: usize = 0;
    while z2 < MAX_BITS + 1
        invariant
            next_code@.len() == z2,
            z2 <= 16,
        decreases MAX_BITS + 1 - z2,
    {
        next_code.push(0);
        z2 = z2 + 1;
    }
    calc_first_codes(&bl_count, &mut next_code);
    proof {
        assert forall|ll: int| 1 <= ll <= 15 implies next_code@[ll - 1] as nat == first_code(
            lens,
            ll,
        ) + count_upto(lens, ll, 0) by {
            lemma_trunc_matches_first_code(lens, bl_count@, ll - 1);
        }
    }

    let mut code: Vec<HuffmanToken> = Vec::new();
    let mut s: usize = 0;
    while s < n
        invariant
            s <= n,
            code@.len() == s,
            next_code@.len() == 16,
            forall|j: int| 0 <= j < s ==> code@[j] == canonical_entry(lens, j),
            forall|ll: int|
                1 <= ll <= 15 ==> next_code@[ll - 1] as nat == first_code(lens, ll)
                    + count_upto(lens, ll, s as int),
        decreases n - s,
    {
        let len = bit_lengths[s];
        if len > 0 {
            let bl_index = (len - 1) as usize;
            let cw = next_code[bl_index];
            proof {
                lemma_code_space(lens, len as int);
                lemma_count_upto_mono(lens, len as int, s as int + 1, n as int);
                lemma_pow2_strictly_increases(len as nat, 16);
                lemma2_to64();
            }
            code.push(HuffmanToken::new(len, cw));
            next_code.set(bl_index, cw + 1);
        } else {
            code.push(HuffmanToken::new(0, 0));
        }
        s = s + 1;
    }
    proof {
        assert(code@ =~= canonical_table(lens));
    }
    Ok(code)
}

/// While the Kraft inequality holds, the 16-bit accumulator never
/// truncates below length 16: its value is the true first code.
proof fn lemma_trunc_matches_first_code(lens: Seq<u8>, counts: Seq<usize>, l: int)
    requires
        lengths_ok(lens),
        kraft_ok(lens),
        counts.len() == 15,
        forall|j: int| 1 <= j <= 15 ==> counts[j - 1] == count_len(lens, j),
        0 <= l <= 14,
    ensures
        trunc_code(counts, l) == first_code(lens, l + 1),
    decreases l,
{
    if l > 0 {
        lemma_trunc_matches_first_code(lens, counts, l - 1);
        lemma_code_space(lens, l);
        lemma_pow2_unfold((l + 1) as nat);
        lemma_pow2_strictly_increases((l + 1) as nat, 16);
        lemma2_to64();
        lemma_small_mod(((first_code(lens, l) + count_len(lens, l)) * 2) as nat, 0x10000);
    }
}

/// The code-length vector of the fixed literal/length alphabet.
pub open spec fn fixed_ll_len(i: int) -> u8 {
    if i < 144 {
        8
    } else if i < 256 {
        9
    } else if i < 280 {
        7
    } else {
        8
    }
}

pub open spec fn fixed_ll_lens() -> Seq<u8> {
    Seq::new(288, |i: int| fixed_ll_len(i))
}

/// The code-length vector of the fixed distance alphabet.
pub open spec fn fixed_d_lens() -> Seq<u8> {
    Seq::new(32, |i: int| 5u8)
}

/// Over a run of constant lengths the Kraft sum grows linearly.
proof fn lemma_kraft_upto_const_run(lens: Seq<u8>, a: int, b: int, v: u8)
    requires
        0 <= a <= b <= lens.len(),
        1 <= v <= 15,
        forall|j: int| a <= j < b ==> lens[j] == v,
    ensures
        kraft_upto(lens, b) == kraft_upto(lens, a) + (b - a) * pow2((15 - v) as nat),
    decreases b - a,
{
    if a < b {
        lemma_kraft_upto_const_run(lens, a, b - 1, v);
        let p = pow2((15 - v) as nat);
        assert(lens[b - 1] == v);
        assert(kraft_upto(lens, b) == kraft_upto(lens, b - 1) + p);
        assert((b - a) * p == (b - 1 - a) * p + p) by (nonlinear_arith);
    } else {
        assert((b - a) * pow2((15 - v) as nat) == 0) by (nonlinear_arith)
            requires
                a == b,
        ;
    }
}

/// The fixed literal/length lengths meet the Kraft bound with equality.
proof fn lemma_fixed_ll_kraft()
    ensures
        lengths_ok(fixed_ll_lens()),
        kraft_ok(fixed_ll_lens()),
{
    let lens = fixed_ll_lens();
    lemma2_to64();
    lemma_kraft_upto_const_run(lens, 0, 144, 8);
    lemma_kraft_upto_const_run(lens, 144, 256, 9);
    lemma_kraft_upto_const_run(lens, 256, 280, 7);
    lemma_kraft_upto_const_run(lens, 280, 288, 8);
}

/// So do the fixed distance lengths.
proof fn lemma_fixed_d_kraft()
    ensures
        lengths_ok(fixed_d_lens()),
        kraft_ok(fixed_d_lens()),
{
    let lens = fixed_d_lens();
    lemma2_to64();
    lemma_kraft_upto_const_run(lens, 0, 32, 5);
}

/// The two fixed code tables of RFC 1951 §3.2.6: 288 literal/length
/// entries (lengths 8, 9, 7 and 8 over the four symbol ranges) and 32
/// five-bit distance entries.
#[verifier::loop_isolation(false)]
pub fn generate_fixed_code() -> (r: (Vec<HuffmanToken>, Vec<HuffmanToken>))
    ensures
        r.0@ == canonical_table(fixed_ll_lens()),
        r.1@ == canonical_table(fixed_d_lens()),
{
    let mut ll_lengths: Vec<u8> = Vec::new();
    let mut i: usize = 0;
    while i < 288
        invariant
            i <= 288,
            ll_lengths@.len() == i,
            forall|j: int| 0 <= j < i ==> ll_lengths@[j] == fixed_ll_len(j),
        decreases 288 - i,
    {
        if i < 144 {
            ll_lengths.push(8);
        } else if i < 256 {
            ll_lengths.push(9);
        } else if i < 280 {
            ll_lengths.push(7);
        } else {
            ll_lengths.push(8);
        }
        i = i + 1;
    }
    assert(ll_lengths@ =~= fixed_ll_lens());

    let mut d_lengths: Vec<u8> = Vec::new();
    let mut k: usize = 0;
    while k < 32
        invariant
            k <= 32,
            d_lengths@.len() == k,
            forall|j: int| 0 <= j < k ==> d_lengths@[j] == 5u8,
        decreases 32 - k,
    {
        d_lengths.push(5);
        k = k + 1;
    }
    assert(d_lengths@ =~= fixed_d_lens());

    proof {
        lemma_fixed_ll_kraft();
        lemma_fixed_d_kraft();
    }
    let ll = match generate_code(ll_lengths.as_slice()) {
        Ok(t) => t,
        Err(_) => vstd::pervasive::unreached(),
    };
    let d = match generate_code(d_lengths.as_slice()) {
        Ok(t) => t,
        Err(_) => vstd::pervasive::unreached(),
    };
    (ll, d)
}

} // verus!
