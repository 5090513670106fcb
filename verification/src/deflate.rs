//! The DEFLATE compressor core: LZ77 match search, token stream, and
//! token-to-bitstream encoding with the fixed Huffman tables
//! (RFC 1951, block type 01, single final block).

use vstd::prelude::*;

use crate::bitstream::ostream::{padded_bits, OutputStream};
use crate::bitstream::{bits_lsb, code_bits, stream_bits};
use crate::huffman::generate::{
    canonical_entry, canonical_table, fixed_d_lens, fixed_ll_lens, generate_fixed_code,
};
use crate::huffman::HuffmanToken;

verus! {

pub const BFINAL_YES: u16 = 1;

pub const BTYPE_FIXED: u16 = 1;

pub const END_OF_BLOCK: usize = 256;

pub const MIN_SEQUENCE: usize = 3;

pub const MAX_SEQUENCE: usize = 258;

pub const MAX_DISTANCE: usize = 32768;

/// RFC 1951 §3.2.5, lengths: the literal/length symbol, the number of
/// extra bits and their value, for a match length in `[3, 258]`.
#[verifier::opaque]
pub open spec fn length_conv(len: int) -> (int, int, int) {
    if len < 11 {
        (254 + len, 0, 0)
    } else if len < 19 {
        (265 + (len - 11) / 2, 1, (len - 3) % 2)
    } else if len < 35 {
        (269 + (len - 19) / 4, 2, (len - 3) % 4)
    } else if len < 67 {
        (273 + (len - 35) / 8, 3, (len - 3) % 8)
    } else if len < 131 {
        (277 + (len - 67) / 16, 4, (len - 3) % 16)
    } else if len < 258 {
        (281 + (len - 131) / 32, 5, (len - 3) % 32)
    } else {
        (285, 0, 0)
    }
}

/// RFC 1951 §3.2.5, distances: the distance symbol, the number of
/// extra bits and their value, for a distance in `[1, 32768]`.
#[verifier::opaque]
pub open spec fn dist_conv(d: int) -> (int, int, int) {
    if d < 5 {
        (d - 1, 0, 0)
    } else if d < 9 {
        (4 + (d - 5) / 2, 1, (d - 1) % 2)
    } else if d < 17 {
        (6 + (d - 9) / 4, 2, (d - 1) % 4)
    } else if d < 33 {
        (8 + (d - 17) / 8, 3, (d - 1) % 8)
    } else if d < 65 {
        (10 + (d - 33) / 16, 4, (d - 1) % 16)
    } else if d < 129 {
        (12 + (d - 65) / 32, 5, (d - 1) % 32)
    } else if d < 257 {
        (14 + (d - 129) / 64, 6, (d - 1) % 64)
    } else if d < 513 {
        (16 + (d - 257) / 128, 7, (d - 1) % 128)
    } else if d < 1025 {
        (18 + (d - 513) / 256, 8, (d - 1) % 256)
    } else if d < 2049 {
        (20 + (d - 1025) / 512, 9, (d - 1) % 512)
    } else if d < 4097 {
        (22 + (d - 2049) / 1024, 10, (d - 1) % 1024)
    } else if d < 8193 {
        (24 + (d - 4097) / 2048, 11, (d - 1) % 2048)
    } else if d < 16385 {
        (26 + (d - 8193) / 4096, 12, (d - 1) % 4096)
    } else {
        (28 + (d - 16385) / 8192, 13, (d - 1) % 8192)
    }
}

pub proof fn lemma_length_conv_bounds(len: int)
    requires
        3 <= len <= 258,
    ensures
        257 <= length_conv(len).0 <= 285,
        0 <= length_conv(len).1 <= 5,
        0 <= length_conv(len).2,
{
    reveal(length_conv);
}

pub proof fn lemma_dist_conv_bounds(d: int)
    requires
        1 <= d <= 32768,
    ensures
        0 <= dist_conv(d).0 <= 29,
        0 <= dist_conv(d).1 <= 13,
        0 <= dist_conv(d).2,
{
    reveal(dist_conv);
}

/// Executable form of `length_conv`.
pub fn length_conversion(length: usize) -> (r: (usize, usize, usize))
    requires
        3 <= length <= 258,
    ensures
        (r.0 as int, r.1 as int, r.2 as int) == length_conv(length as int),
{
    proof {
        reveal(length_conv);
    }
    if length < 11 {
        (length + 254, 0, 0)
    } else if length < 19 {
        ((length - 11) / 2 + 265, 1, (length - 3) % 2)
    } else if length < 35 {
        ((length - 19) / 4 + 269, 2, (length - 3) % 4)
    } else if length < 67 {
        ((length - 35) / 8 + 273, 3, (length - 3) % 8)
    } else if length < 131 {
        ((length - 67) / 16 + 277, 4, (length - 3) % 16)
    } else if length < 258 {
        ((length - 131) / 32 + 281, 5, (length - 3) % 32)
    } else {
        (285, 0, 0)
    }
}

/// Executable form of `dist_conv`.
pub fn distance_conversion(distance: usize) -> (r: (usize, usize, usize))
    requires
        1 <= distance <= 32768,
    ensures
        (r.0 as int, r.1 as int, r.2 as int) == dist_conv(distance as int),
{
    proof {
        reveal(dist_conv);
    }
    if distance < 5 {
        (distance - 1, 0, 0)
    } else if distance < 9 {
        ((distance - 5) / 2 + 4, 1, (distance - 1) % 2)
    } else if distance < 17 {
        ((distance - 9) / 4 + 6, 2, (distance - 1) % 4)
    } else if distance < 33 {
        ((distance - 17) / 8 + 8, 3, (distance - 1) % 8)
    } else if distance < 65 {
        ((distance - 33) / 16 + 10, 4, (distance - 1) % 16)
    } else if distance < 129 {
        ((distance - 65) / 32 + 12, 5, (distance - 1) % 32)
    } else if distance < 257 {
        ((distance - 129) / 64 + 14, 6, (distance - 1) % 64)
    } else if distance < 513 {
        ((distance - 257) / 128 + 16, 7, (distance - 1) % 128)
    } else if distance < 1025 {
        ((distance - 513) / 256 + 18, 8, (distance - 1) % 256)
    } else if distance < 2049 {
        ((distance - 1025) / 512 + 20, 9, (distance - 1) % 512)
    } else if distance < 4097 {
        ((distance - 2049) / 1024 + 22, 10, (distance - 1) % 1024)
    } else if distance < 8193 {
        ((distance - 4097) / 2048 + 24, 11, (distance - 1) % 2048)
    } else if distance < 16385 {
        ((distance - 8193) / 4096 + 26, 12, (distance - 1) % 4096)
    } else {
        ((distance - 16385) / 8192 + 28, 13, (distance - 1) % 8192)
    }
}

/// One unit of the compressed stream: header fields, a literal byte,
/// a back-reference or the end-of-block mark.
#[derive(Debug, Clone, Copy)]
pub enum DeflateToken {
    Bhead(u16),
    Btype(u16),
    Literal(u16),
    EndOfBlock,
    Backref { length: u16, distance: u16 },
}

/// A table entry that can actually be emitted: the symbol is present
/// and its length is within the RFC's limit.
pub open spec fn entry_emittable(t: HuffmanToken) -> bool {
    &&& t.token is Some
    &&& t.len <= 15
}

/// The bits of one codeword, high bit first.
pub open spec fn huff_bits(t: HuffmanToken) -> Seq<bool>
    recommends
        t.token is Some,
{
    code_bits(t.token->0 as nat, t.len as nat)
}

/// The exact bits a token contributes to the stream, given the
/// literal/length and distance code tables.
pub open spec fn token_bits(
    t: DeflateToken,
    ll: Seq<HuffmanToken>,
    d: Seq<HuffmanToken>,
) -> Seq<bool> {
    match t {
        DeflateToken::Bhead(head) => bits_lsb(head as nat, 1),
        DeflateToken::Btype(b_type) => bits_lsb(b_type as nat, 2),
        DeflateToken::Literal(literal) => huff_bits(ll[literal as int]),
        DeflateToken::EndOfBlock => huff_bits(ll[256]),
        DeflateToken::Backref { length, distance } => {
            let (ls, lb, lv) = length_conv(length as int);
            let (ds, db, dv) = dist_conv(distance as int);
            huff_bits(ll[ls]) + bits_lsb(lv as nat, lb as nat) + huff_bits(d[ds]) + bits_lsb(
                dv as nat,
                db as nat,
            )
        },
    }
}

/// When a token can be encoded against the given tables.
pub open spec fn token_writable(
    t: DeflateToken,
    ll: Seq<HuffmanToken>,
    d: Seq<HuffmanToken>,
) -> bool {
    match t {
        DeflateToken::Bhead(head) => true,
        DeflateToken::Btype(b_type) => true,
        DeflateToken::Literal(literal) => literal < ll.len() && entry_emittable(
            ll[literal as int],
        ),
        DeflateToken::EndOfBlock => 256 < ll.len() && entry_emittable(ll[256]),
        DeflateToken::Backref { length, distance } => {
            let (ls, lb, lv) = length_conv(length as int);
            let (ds, db, dv) = dist_conv(distance as int);
            &&& 3 <= length <= 258
            &&& 1 <= distance <= 32768
            &&& 0 <= ls < ll.len()
            &&& entry_emittable(ll[ls])
            &&& 0 <= ds < d.len()
            &&& entry_emittable(d[ds])
        },
    }
}

/// The bits of a whole token sequence, in order.
pub open spec fn tokens_bits(
    ts: Seq<DeflateToken>,
    ll: Seq<HuffmanToken>,
    d: Seq<HuffmanToken>,
) -> Seq<bool>
    decreases ts.len(),
{
    if ts.len() == 0 {
        Seq::empty()
    } else {
        token_bits(ts[0], ll, d) + tokens_bits(ts.drop_first(), ll, d)
    }
}

/// Length of the longest common prefix of the suffixes at `x` and `y`,
/// compared over at most `n` bytes.
pub open spec fn common_prefix(s: Seq<u8>, x: int, y: int, n: int) -> nat
    recommends
        0 <= x,
        0 <= y,
        y + n <= s.len(),
    decreases n,
{
    if n <= 0 {
        0
    } else if s[x] == s[y] {
        (1 + common_prefix(s, x + 1, y + 1, n - 1)) as nat
    } else {
        0
    }
}

/// How many bytes a match starting at `y` may cover: at most 258, and
/// never past the end of the input.
pub open spec fn match_limit(s: Seq<u8>, y: int) -> int {
    if s.len() - y < 258 {
        s.len() - y
    } else {
        258
    }
}

/// The match length the finder reports for candidate `x` against the
/// cursor `y`.
pub open spec fn match_len(s: Seq<u8>, x: int, y: int) -> nat {
    common_prefix(s, x, y, match_limit(s, y))
}

/// The best candidate among start positions `[c, pos)`: the pair
/// (length, start).  An older candidate displaces a more recent one
/// only with a strictly longer match, so on ties the most recent
/// candidate wins.  `(0, 0)` when the range is empty or nothing matches.
pub open spec fn best_match(s: Seq<u8>, pos: int, c: int) -> (nat, int)
    decreases pos - c,
{
    if c >= pos {
        (0nat, 0int)
    } else {
        let rest = best_match(s, pos, c + 1);
        if match_len(s, c, pos) > rest.0 {
            (match_len(s, c, pos), c)
        } else {
            rest
        }
    }
}

/// Where the 32 KiB sliding window begins for a cursor at `pos`.
pub open spec fn window_start(pos: int) -> int {
    if pos < 32768 {
        0
    } else {
        pos - 32768
    }
}

/// The match the finder settles on at `pos`: the best over the window.
pub open spec fn found_match(s: Seq<u8>, pos: int) -> (nat, int) {
    best_match(s, pos, window_start(pos))
}

/// Whether the encoder emits a back-reference at `pos`: at least three
/// bytes remain and the best match covers at least three bytes.
pub open spec fn emits_backref(s: Seq<u8>, pos: int) -> bool {
    s.len() - pos >= 3 && found_match(s, pos).0 > 2
}

pub proof fn lemma_common_prefix_bound(s: Seq<u8>, x: int, y: int, n: int)
    requires
        n >= 0,
    ensures
        common_prefix(s, x, y, n) <= n,
    decreases n,
{
    if n > 0 && s[x] == s[y] {
        lemma_common_prefix_bound(s, x + 1, y + 1, n - 1);
    }
}

pub proof fn lemma_match_len_bound(s: Seq<u8>, x: int, y: int)
    requires
        0 <= y <= s.len(),
    ensures
        match_len(s, x, y) <= 258,
        match_len(s, x, y) <= s.len() - y,
{
    lemma_common_prefix_bound(s, x, y, match_limit(s, y));
}

/// A non-trivial best match names a real candidate in range whose
/// match length it reports, and no candidate in range matches longer.
pub proof fn lemma_best_match_props(s: Seq<u8>, pos: int, c: int)
    requires
        0 <= c <= pos <= s.len(),
    ensures
        best_match(s, pos, c).0 > 0 ==> c <= best_match(s, pos, c).1 < pos && best_match(
            s,
            pos,
            c,
        ).0 == match_len(s, best_match(s, pos, c).1, pos),
        best_match(s, pos, c).0 <= 258,
        best_match(s, pos, c).0 <= s.len() - pos,
        forall|j: int| c <= j < pos ==> #[trigger] match_len(s, j, pos) <= best_match(
            s,
            pos,
            c,
        ).0,
    decreases pos - c,
{
    if c < pos {
        lemma_best_match_props(s, pos, c + 1);
        lemma_match_len_bound(s, c, pos);
    }
}

pub proof fn lemma_found_match_props(s: Seq<u8>, pos: int)
    requires
        0 <= pos <= s.len(),
    ensures
        found_match(s, pos).0 > 0 ==> window_start(pos) <= found_match(s, pos).1 < pos
            && found_match(s, pos).0 == match_len(s, found_match(s, pos).1, pos),
        found_match(s, pos).0 <= 258,
        found_match(s, pos).0 <= s.len() - pos,
        forall|j: int|
            window_start(pos) <= j < pos ==> #[trigger] match_len(s, j, pos) <= found_match(
                s,
                pos,
            ).0,
{
    lemma_best_match_props(s, pos, window_start(pos));
}

/// The LZ77 match finder: a read-only view of the input and an
/// advancing cursor.
#[derive(Debug)]
pub struct Deflator<'a> {
    pub input: &'a [u8],
    pub pos: usize,
}

impl<'a> Deflator<'a> {
    /// The cursor never leaves the input.
    pub open spec fn wf(&self) -> bool {
        self.pos <= self.input@.len()
    }

    pub fn new(input: &'a [u8]) -> (r: Self)
        ensures
            r.wf(),
            r.input@ == input@,
            r.pos == 0,
    {
        Self { input, pos: 0 }
    }

    /// Search the window for the longest match at the cursor.  On equal
    /// lengths the most recent candidate wins; that tie-break is
    /// observable in the output bits.
    #[verifier::loop_isolation(false)]
    fn find_sequence(&self) -> (r: Option<(u16, u16)>)
        requires
            self.wf(),
        ensures
            self.input@.len() - self.pos < 3 ==> r is None,
            self.input@.len() - self.pos >= 3 ==> {
                let b = found_match(self.input@, self.pos as int);
                if b.0 > 2 {
                    r == Some(((b.0 as u16), ((self.pos - b.1) as u16)))
                } else {
                    r is None
                }
            },
    {
        if self.input.len() - self.pos < MIN_SEQUENCE {
            return None;
        }
        let ghost s = self.input@;
        let ghost p = self.pos as int;
        let mut index: usize = 0;
        let mut len: usize = 0;
        let start = if self.pos < MAX_DISTANCE {
            0
        } else {
            self.pos - MAX_DISTANCE
        };
        let mut current = self.pos;
        while current > start
            invariant
                start <= current <= self.pos,
                len == best_match(s, p, current as int).0,
                index == best_match(s, p, current as int).1,
            decreases current - start,
        {
            current = current - 1;
            let longest = self.lookup(current, self.pos);
            if longest > len {
                len = longest;
                index = current;
            }
        }
        proof {
            lemma_best_match_props(s, p, start as int);
        }
        if len > 2 {
            Some((len as u16, (self.pos - index) as u16))
        } else {
            None
        }
    }

    /// Compare the suffixes at `x` and the cursor `y` byte by byte,
    /// stopping at the first mismatch, the 258-byte cap or the end of
    /// the input.
    fn lookup(&self, x: usize, y: usize) -> (r: usize)
        requires
            x < y,
            y <= self.input@.len(),
        ensures
            r == match_len(self.input@, x as int, y as int),
    {
        let ghost s = self.input@;
        // y is the cursor position
        let end = if self.input.len() - y < MAX_SEQUENCE {
            self.input.len() - y
        } else {
            MAX_SEQUENCE
        };
        let mut off: usize = 0;
        while off < end
            invariant_except_break
                off <= end,
                s == self.input@,
                x < y,
                y + end <= s.len(),
                s.len() <= usize::MAX,
                match_len(s, x as int, y as int) == off + common_prefix(
                    s,
                    x + off,
                    y + off,
                    end - off,
                ),
            ensures
                match_len(s, x as int, y as int) == off,
            decreases end - off,
        {
            if self.input[x + off] == self.input[y + off] {
                off = off + 1;
            } else {
                proof {
                    assert(common_prefix(s, x + off, y + off, end - off) == 0);
                }
                break ;
            }
        }
        off
    }

    /// Produce the next body token: a back-reference when the window
    /// holds a match of three or more bytes, otherwise a literal.
    pub fn next(&mut self) -> (r: Option<DeflateToken>)
        requires
            old(self).wf(),
        ensures
            final(self).wf(),
            final(self).input@ == old(self).input@,
            old(self).pos >= old(self).input@.len() ==> r is None && *final(self) == *old(
                self,
            ),
            old(self).pos < old(self).input@.len() ==> {
                let s = old(self).input@;
                let p = old(self).pos as int;
                if emits_backref(s, p) {
                    let b = found_match(s, p);
                    &&& r == Some(
                        DeflateToken::Backref {
                            length: b.0 as u16,
                            distance: (p - b.1) as u16,
                        },
                    )
                    &&& final(self).pos == p + b.0
                } else {
                    &&& r == Some(DeflateToken::Literal(s[p] as u16))
                    &&& final(self).pos == p + 1
                }
            },
    {
        if self.pos < self.input.len() {
            proof {
                lemma_found_match_props(old(self).input@, old(self).pos as int);
            }
            let current = self.pos;
            match self.find_sequence() {
                Some((length, distance)) => {
                    self.pos = self.pos + length as usize;
                    Some(DeflateToken::Backref { length, distance })
                },
                None => {
                    self.pos = self.pos + 1;
                    Some(DeflateToken::Literal(self.input[current] as u16))
                },
            }
        } else {
            None
        }
    }
}

/// The token stream the encoder produces for the input suffix starting
/// at `pos`.
pub open spec fn body_tokens(s: Seq<u8>, pos: int) -> Seq<DeflateToken>
    decreases s.len() - pos,
    when 0 <= pos
    via body_tokens_dec
{
    if pos >= s.len() {
        Seq::empty()
    } else if emits_backref(s, pos) {
        let b = found_match(s, pos);
        seq![
            DeflateToken::Backref { length: b.0 as u16, distance: (pos - b.1) as u16 },
        ] + body_tokens(s, pos + b.0)
    } else {
        seq![DeflateToken::Literal(s[pos] as u16)] + body_tokens(s, pos + 1)
    }
}

#[via_fn]
proof fn body_tokens_dec(s: Seq<u8>, pos: int) {
    if pos < s.len() && emits_backref(s, pos) {
        lemma_found_match_props(s, pos);
    }
}

/// The whole token stream: final-block header, fixed-Huffman block
/// type, body, end of block.
pub open spec fn deflate_tokens(s: Seq<u8>) -> Seq<DeflateToken> {
    seq![DeflateToken::Bhead(1), DeflateToken::Btype(1)] + body_tokens(s, 0) + seq![
        DeflateToken::EndOfBlock,
    ]
}

/// Turn a byte buffer into the DEFLATE token stream: header tokens,
/// then the greedy LZ77 body, then the end-of-block mark.
#[verifier::loop_isolation(false)]
pub fn deflate(input: &[u8]) -> (r: Vec<DeflateToken>)
    ensures
        r@ == deflate_tokens(input@),
{
    let ghost s = input@;
    let mut tokens: Vec<DeflateToken> = Vec::new();
    tokens.push(DeflateToken::Bhead(BFINAL_YES));
    tokens.push(DeflateToken::Btype(BTYPE_FIXED));
    let mut encoder = Deflator::new(input);
    proof {
        assert(tokens@ + body_tokens(s, 0) =~= seq![
            DeflateToken::Bhead(1),
            DeflateToken::Btype(1),
        ] + body_tokens(s, 0));
    }
    while encoder.pos < encoder.input.len()
        invariant
            encoder.wf(),
            encoder.input@ == s,
            tokens@ + body_tokens(s, encoder.pos as int) == seq![
                DeflateToken::Bhead(1),
                DeflateToken::Btype(1),
            ] + body_tokens(s, 0),
        decreases s.len() - encoder.pos,
    {
        let ghost p = encoder.pos as int;
        match encoder.next() {
            Some(t) => {
                tokens.push(t);
                proof {
                    assert(body_tokens(s, p) =~= seq![t] + body_tokens(
                        s,
                        encoder.pos as int,
                    ));
                    assert(tokens@ + body_tokens(s, encoder.pos as int) =~= seq![
                        DeflateToken::Bhead(1),
                        DeflateToken::Btype(1),
                    ] + body_tokens(s, 0));
                }
            },
            None => {
                proof {
                    assert(false);
                }
            },
        }
    }
    tokens.push(DeflateToken::EndOfBlock);
    proof {
        assert(body_tokens(s, encoder.pos as int) =~= Seq::<DeflateToken>::empty());
        assert(tokens@ =~= deflate_tokens(s));
    }
    tokens
}

/// The shape every body token has: a byte literal or a legal
/// back-reference.
pub open spec fn body_token_ok(t: DeflateToken) -> bool {
    match t {
        DeflateToken::Literal(v) => v < 256,
        DeflateToken::Backref { length, distance } => 3 <= length <= 258 && 1 <= distance
            <= 32768,
        _ => false,
    }
}

/// Every token the match finder emits is a byte literal or a legal
/// back-reference.
pub proof fn lemma_body_tokens_ok(s: Seq<u8>, pos: int)
    requires
        0 <= pos <= s.len(),
    ensures
        forall|i: int|
            0 <= i < body_tokens(s, pos).len() ==> #[trigger] body_token_ok(
                body_tokens(s, pos)[i],
            ),
    decreases s.len() - pos,
{
    if pos < s.len() {
        lemma_found_match_props(s, pos);
        let next = if emits_backref(s, pos) {
            pos + found_match(s, pos).0
        } else {
            pos + 1
        };
        lemma_body_tokens_ok(s, next);
        assert forall|i: int| 0 <= i < body_tokens(s, pos).len() implies #[trigger] body_token_ok(
            body_tokens(s, pos)[i],
        ) by {
            if i > 0 {
                assert(body_tokens(s, pos)[i] == body_tokens(s, next)[i - 1]);
                assert(body_token_ok(body_tokens(s, next)[i - 1]));
            }
        }
    }
}

/// Every entry of the fixed tables is present with a short length.
pub proof fn lemma_fixed_tables_emittable()
    ensures
        forall|sym: int|
            0 <= sym < 288 ==> #[trigger] entry_emittable(
                canonical_table(fixed_ll_lens())[sym],
            ),
        forall|sym: int|
            0 <= sym < 32 ==> #[trigger] entry_emittable(
                canonical_table(fixed_d_lens())[sym],
            ),
{
    assert forall|sym: int| 0 <= sym < 288 implies #[trigger] entry_emittable(
        canonical_table(fixed_ll_lens())[sym],
    ) by {
        assert(canonical_table(fixed_ll_lens())[sym] == canonical_entry(
            fixed_ll_lens(),
            sym,
        ));
    }
    assert forall|sym: int| 0 <= sym < 32 implies #[trigger] entry_emittable(
        canonical_table(fixed_d_lens())[sym],
    ) by {
        assert(canonical_table(fixed_d_lens())[sym] == canonical_entry(fixed_d_lens(), sym));
    }
}

/// Every token of the stream can be encoded against the fixed tables.
pub proof fn lemma_deflate_tokens_writable(s: Seq<u8>)
    ensures
        forall|i: int|
            0 <= i < deflate_tokens(s).len() ==> #[trigger] token_writable(
                deflate_tokens(s)[i],
                canonical_table(fixed_ll_lens()),
                canonical_table(fixed_d_lens()),
            ),
{
    let ll = canonical_table(fixed_ll_lens());
    let d = canonical_table(fixed_d_lens());
    lemma_fixed_tables_emittable();
    lemma_body_tokens_ok(s, 0);
    let ts = deflate_tokens(s);
    let body = body_tokens(s, 0);
    assert forall|i: int| 0 <= i < ts.len() implies #[trigger] token_writable(
        ts[i],
        ll,
        d,
    ) by {
        if 2 <= i < ts.len() - 1 {
            assert(ts[i] == body[i - 2]);
            assert(body_token_ok(body[i - 2]));
            match ts[i] {
                DeflateToken::Literal(v) => {
                    assert(entry_emittable(ll[v as int]));
                },
                DeflateToken::Backref { length, distance } => {
                    lemma_length_conv_bounds(length as int);
                    lemma_dist_conv_bounds(distance as int);
                    assert(entry_emittable(ll[length_conv(length as int).0]));
                    assert(entry_emittable(d[dist_conv(distance as int).0]));
                },
                _ => {},
            }
        } else if i == ts.len() - 1 {
            assert(ts[i] == DeflateToken::EndOfBlock);
            assert(entry_emittable(ll[256]));
        }
    }
}

/// What a decoder's copy loop produces for one back-reference: `length`
/// bytes appended one at a time, each read `distance` positions back in
/// the output produced so far.  Overlapping copies (`distance` smaller
/// than `length`) re-read bytes this very copy appended.
pub open spec fn lz_copy(out: Seq<u8>, distance: int, length: int) -> Seq<u8>
    decreases length,
{
    if length <= 0 || distance <= 0 || distance > out.len() {
        out
    } else {
        lz_copy(out.push(out[out.len() - distance]), distance, length - 1)
    }
}

/// What a decoder reconstructs from one token, given the bytes it has
/// already produced.  Header fields and the end-of-block mark add
/// nothing.
pub open spec fn lz_step(out: Seq<u8>, t: DeflateToken) -> Seq<u8> {
    match t {
        DeflateToken::Literal(v) => out.push(v as u8),
        DeflateToken::Backref { length, distance } => lz_copy(
            out,
            distance as int,
            length as int,
        ),
        _ => out,
    }
}

/// What a decoder reconstructs from a token sequence.
pub open spec fn lz_expand(ts: Seq<DeflateToken>, out: Seq<u8>) -> Seq<u8>
    decreases ts.len(),
{
    if ts.len() == 0 {
        out
    } else {
        lz_expand(ts.drop_first(), lz_step(out, ts[0]))
    }
}

/// Matched positions hold equal bytes: every offset below the common
/// prefix length compares equal.
pub proof fn lemma_common_prefix_index(s: Seq<u8>, x: int, y: int, n: int, j: int)
    requires
        0 <= j < common_prefix(s, x, y, n),
    ensures
        s[x + j] == s[y + j],
    decreases j,
{
    if j > 0 {
        lemma_common_prefix_index(s, x + 1, y + 1, n - 1, j - 1);
    }
}

/// Copying `l` bytes from `d` back, onto a prefix of `s` whose bytes
/// repeat with period `d` over the copied range, extends the prefix.
proof fn lemma_lz_copy_extends(s: Seq<u8>, p: int, d: int, l: int)
    requires
        0 < d <= p,
        0 <= l,
        p + l <= s.len(),
        forall|j: int| 0 <= j < l ==> s[p + j - d] == #[trigger] s[p + j],
    ensures
        lz_copy(s.take(p), d, l) == s.take(p + l),
    decreases l,
{
    if l <= 0 {
        assert(s.take(p) =~= s.take(p + l));
    } else {
        let out = s.take(p);
        assert(out[out.len() - d] == s[p - d]);
        assert(s[p + 0 - d] == s[p + 0]);
        assert(s[p - d] == s[p]);
        assert(out.push(out[out.len() - d]) =~= s.take(p + 1));
        assert forall|j: int| 0 <= j < l - 1 implies s[p + 1 + j - d] == #[trigger] s[p + 1
            + j] by {
            assert(s[p + (j + 1) - d] == s[p + (j + 1)]);
        }
        lemma_lz_copy_extends(s, p + 1, d, l - 1);
        assert(lz_copy(s.take(p), d, l) == lz_copy(s.take(p + 1), d, l - 1));
    }
}

/// Expanding a concatenation expands its parts in turn.
proof fn lemma_lz_expand_concat(a: Seq<DeflateToken>, b: Seq<DeflateToken>, out: Seq<u8>)
    ensures
        lz_expand(a + b, out) == lz_expand(b, lz_expand(a, out)),
    decreases a.len(),
{
    if a.len() == 0 {
        assert(a + b =~= b);
    } else {
        assert((a + b).drop_first() =~= a.drop_first() + b);
        assert((a + b)[0] == a[0]);
        lemma_lz_expand_concat(a.drop_first(), b, lz_step(out, a[0]));
    }
}

/// Replaying the body tokens emitted from position `pos` onward, onto
/// the bytes before `pos`, reconstructs the whole input.
proof fn lemma_body_tokens_restore(s: Seq<u8>, pos: int)
    requires
        0 <= pos <= s.len(),
    ensures
        lz_expand(body_tokens(s, pos), s.take(pos)) == s,
    decreases s.len() - pos,
{
    if pos >= s.len() {
        assert(s.take(pos) =~= s);
    } else if emits_backref(s, pos) {
        lemma_found_match_props(s, pos);
        let b = found_match(s, pos);
        let l = b.0 as int;
        let d = pos - b.1;
        let tok = DeflateToken::Backref { length: b.0 as u16, distance: (pos - b.1) as u16 };
        assert forall|j: int| 0 <= j < l implies s[pos + j - d] == #[trigger] s[pos + j] by {
            lemma_common_prefix_index(s, b.1, pos, match_limit(s, pos), j);
        }
        lemma_lz_copy_extends(s, pos, d, l);
        assert(lz_step(s.take(pos), tok) == s.take(pos + l));
        lemma_body_tokens_restore(s, pos + l);
        assert(body_tokens(s, pos).drop_first() =~= body_tokens(s, pos + l));
        assert(body_tokens(s, pos)[0] == tok);
    } else {
        let tok = DeflateToken::Literal(s[pos] as u16);
        assert(s.take(pos).push(s[pos]) =~= s.take(pos + 1));
        assert(lz_step(s.take(pos), tok) == s.take(pos + 1));
        lemma_body_tokens_restore(s, pos + 1);
        assert(body_tokens(s, pos).drop_first() =~= body_tokens(s, pos + 1));
        assert(body_tokens(s, pos)[0] == tok);
    }
}

/// The match finder is sound: a decoder that replays the emitted token
/// stream — appending each literal and copying each back-reference from
/// `distance` positions back — reconstructs the input byte for byte.
/// Header fields and the end-of-block mark contribute no bytes.
pub proof fn lemma_deflate_tokens_restore_input(s: Seq<u8>)
    ensures
        lz_expand(deflate_tokens(s), Seq::empty()) == s,
{
    let e = Seq::<u8>::empty();
    let header = seq![DeflateToken::Bhead(1u16), DeflateToken::Btype(1u16)];
    let body = body_tokens(s, 0);
    let eob = seq![DeflateToken::EndOfBlock];
    lemma_lz_expand_concat(header + body, eob, e);
    lemma_lz_expand_concat(header, body, e);
    assert(lz_expand(header, e) == e) by {
        let rest = seq![DeflateToken::Btype(1u16)];
        assert(lz_step(e, header[0]) == e);
        assert(header.drop_first() =~= rest);
        assert(lz_expand(header, e) == lz_expand(rest, lz_step(e, header[0])));
        assert(lz_step(e, rest[0]) == e);
        assert(rest.drop_first() =~= Seq::<DeflateToken>::empty());
        assert(lz_expand(rest, e) == lz_expand(Seq::<DeflateToken>::empty(), e));
    }
    assert(e =~= s.take(0));
    lemma_body_tokens_restore(s, 0);
    assert(lz_expand(header + body, e) == s);
    assert(lz_expand(eob, s) == s) by {
        assert(lz_step(s, eob[0]) == s);
        assert(eob.drop_first() =~= Seq::<DeflateToken>::empty());
        assert(lz_expand(eob, s) == lz_expand(Seq::<DeflateToken>::empty(), s));
    }
    assert(deflate_tokens(s) == header + body + eob);
}

/// The exact bit stream `compress` produces for an input, before byte
/// padding: the token stream encoded through the fixed tables.
pub open spec fn deflate_bits(s: Seq<u8>) -> Seq<bool> {
    tokens_bits(
        deflate_tokens(s),
        canonical_table(fixed_ll_lens()),
        canonical_table(fixed_d_lens()),
    )
}

/// Compress a byte buffer into one final fixed-Huffman DEFLATE block
/// (raw RFC 1951 payload, no wrapper).
pub fn compress(input: &[u8]) -> (r: Vec<u8>)
    ensures
        stream_bits(r@) == padded_bits(deflate_bits(input@)),
        8 * r@.len() == padded_bits(deflate_bits(input@)).len(),
{
    let (ll_code, d_code) = generate_fixed_code();
    let tokens = deflate(input);
    let mut os = OutputStream::new(ll_code, d_code);
    proof {
        lemma_deflate_tokens_writable(input@);
    }
    os.extend(&tokens);
    os.finalize()
}

impl DeflateToken {
    /// Encode this token into a sink through explicitly supplied code
    /// tables.
    pub fn write_to_ostream(
        &self,
        ll_code: &[HuffmanToken],
        d_code: &[HuffmanToken],
        os: &mut OutputStream,
    )
        requires
            old(os).wf(),
            token_writable(*self, ll_code@, d_code@),
        ensures
            final(os).wf(),
            final(os)@ == old(os)@ + token_bits(*self, ll_code@, d_code@),
            final(os).ll_code == old(os).ll_code,
            final(os).d_code == old(os).d_code,
    {
        match self {
            DeflateToken::Bhead(head) => os.write_numerical(1, *head as usize),
            DeflateToken::Btype(b_type) => os.write_numerical(2, *b_type as usize),
            DeflateToken::Literal(literal) => {
                let huffman_token = ll_code[*literal as usize];
                os.write_code(huffman_token.len as usize, huffman_token.token.unwrap() as usize);
            },
            DeflateToken::EndOfBlock => {
                let huffman_token = ll_code[END_OF_BLOCK];
                os.write_code(huffman_token.len as usize, huffman_token.token.unwrap() as usize);
            },
            DeflateToken::Backref { length, distance } => {
                let (token, extra, bits) = length_conversion(*length as usize);
                let huffman_token = ll_code[token];
                os.write_code(huffman_token.len as usize, huffman_token.token.unwrap() as usize);
                os.write_numerical(extra, bits);
                let (token, extra, bits) = distance_conversion(*distance as usize);
                let huffman_token = d_code[token];
                os.write_code(huffman_token.len as usize, huffman_token.token.unwrap() as usize);
                os.write_numerical(extra, bits);
                proof {
                    assert(final(os)@ =~= old(os)@ + token_bits(*self, ll_code@, d_code@));
                }
            },
        }
    }
}

} // verus!
