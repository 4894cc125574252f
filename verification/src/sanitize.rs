//! Lexical filtering: everything but the eight instruction symbols is
//! dropped from the source text before parsing.

use vstd::prelude::*;
use crate::token::{
    ADD_BYTE, CLOSE_BYTE, LEFT_BYTE, OPEN_BYTE, READ_BYTE, RIGHT_BYTE, SUB_BYTE, WRITE_BYTE,
};

verus! {

/// Whether a byte is one of the eight instruction symbols.
pub open spec fn is_instr_byte(b: u8) -> bool {
    b == LEFT_BYTE || b == RIGHT_BYTE || b == ADD_BYTE || b == SUB_BYTE || b == READ_BYTE
        || b == WRITE_BYTE || b == OPEN_BYTE || b == CLOSE_BYTE
}

/// Whether every byte of a text is an instruction symbol.
pub open spec fn all_instr(s: Seq<u8>) -> bool {
    forall|i: int| 0 <= i < s.len() ==> is_instr_byte(#[trigger] s[i])
}

/// The sanitized form of a text: its instruction symbols, in order.
pub open spec fn sanitize_spec(s: Seq<u8>) -> Seq<u8>
    decreases s.len(),
{
    if s.len() == 0 {
        Seq::empty()
    } else if is_instr_byte(s.last()) {
        sanitize_spec(s.drop_last()).push(s.last())
    } else {
        sanitize_spec(s.drop_last())
    }
}

/// Sanitization only keeps instruction symbols.
pub proof fn lemma_sanitize_all_instr(s: Seq<u8>)
    ensures
        all_instr(sanitize_spec(s)),
    decreases s.len(),
{
    if s.len() > 0 {
        lemma_sanitize_all_instr(s.drop_last());
    }
}

/// A text made of instruction symbols alone is already sanitized.
pub proof fn lemma_sanitize_fixed(s: Seq<u8>)
    requires
        all_instr(s),
    ensures
        sanitize_spec(s) == s,
    decreases s.len(),
{
    if s.len() > 0 {
        assert(is_instr_byte(s[s.len() - 1]));
        lemma_sanitize_fixed(s.drop_last());
        assert(s.drop_last().push(s.last()) =~= s);
    } else {
        assert(sanitize_spec(s) =~= s);
    }
}

/// Sanitization never lengthens a text.
pub proof fn lemma_sanitize_len_le(s: Seq<u8>)
    ensures
        sanitize_spec(s).len() <= s.len(),
    decreases s.len(),
{
    if s.len() > 0 {
        lemma_sanitize_len_le(s.drop_last());
    }
}

/// Sanitization is idempotent: sanitizing an already-sanitized text yields
/// the same text.
pub proof fn lemma_sanitize_idempotent(s: Seq<u8>)
    ensures
        sanitize_spec(sanitize_spec(s)) == sanitize_spec(s),
{
    lemma_sanitize_all_instr(s);
    lemma_sanitize_fixed(sanitize_spec(s));
}

/// Decide whether a byte is an instruction symbol.
pub fn instr_byte(b: u8) -> (r: bool)
    ensures
        r == is_instr_byte(b),
{
    b == LEFT_BYTE || b == RIGHT_BYTE || b == ADD_BYTE || b == SUB_BYTE || b == READ_BYTE
        || b == WRITE_BYTE || b == OPEN_BYTE || b == CLOSE_BYTE
}

/// Strip a source text down to its instruction symbols, preserving their
/// relative order.
pub fn sanitize(src: &Vec<u8>) -> (r: Vec<u8>)
    ensures
        r@ == sanitize_spec(src@),
{
    let mut out: Vec<u8> = Vec::new();
    let mut i: usize = 0;
    while i < src.len()
        invariant
            i <= src.len(),
            out@ == sanitize_spec(src@.take(i as int)),
        decreases src.len() - i,
    {
        let b = src[i];
        proof {
            assert(src@.take(i + 1).drop_last() =~= src@.take(i as int));
            assert(src@.take(i + 1).last() == b);
        }
        if instr_byte(b) {
            out.push(b);
        }
        i = i + 1;
    }
    proof {
        assert(src@.take(src@.len() as int) =~= src@);
    }
    out
}

} // verus!
