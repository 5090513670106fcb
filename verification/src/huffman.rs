//! Canonical Huffman codes per RFC 1951 §3.2.2.

pub mod generate;

use vstd::prelude::*;

verus! {

/// One code-table entry: a bit length and, when the symbol is present
/// (length > 0), its codeword.  A length of zero marks a symbol that is
/// absent from the alphabet; its codeword is `None`.
#[derive(Debug, Clone, Copy)]
pub struct HuffmanToken {
    pub len: u8,
    pub token: Option<u16>,
}

impl HuffmanToken {
    pub fn new(len: u8, code: u16) -> (r: Self)
        ensures
            r.len == len,
            r.token == if len > 0 {
                Some(code)
            } else {
                None::<u16>
            },
    {
        let token = if len > 0 {
            Some(code)
        } else {
            None
        };
        Self { len, token }
    }
}

} // verus!
