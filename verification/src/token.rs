//! The instruction tree: the shared contract between the parser, the
//! interpreter and the code generator.

use vstd::prelude::*;

verus! {

/// The byte value of `<`.
pub const LEFT_BYTE: u8 = 60;
/// The byte value of `>`.
pub const RIGHT_BYTE: u8 = 62;
/// The byte value of `+`.
pub const ADD_BYTE: u8 = 43;
/// The byte value of `-`.
pub const SUB_BYTE: u8 = 45;
/// The byte value of `,`.
pub const READ_BYTE: u8 = 44;
/// The byte value of `.`.
pub const WRITE_BYTE: u8 = 46;
/// The byte value of `[`.
pub const OPEN_BYTE: u8 = 91;
/// The byte value of `]`.
pub const CLOSE_BYTE: u8 = 93;

/// One instruction of the language. A program is an ordered sequence of
/// these; a `Loop` owns the complete body of one balanced bracket pair.
#[derive(Debug, PartialEq)]
pub enum Token {
    Left,
    Right,
    Add,
    Sub,
    Read,
    Write,
    Loop(Vec<Token>),
}

/// The number of nodes (leaves and loop nodes) in one instruction.
pub open spec fn size_tok(t: Token) -> nat
    decreases t,
{
    match t {
        Token::Loop(body) => 1 + size_seq(body@),
        _ => 1,
    }
}

/// The number of nodes (leaves and loop nodes) in an instruction sequence.
pub open spec fn size_seq(ts: Seq<Token>) -> nat
    decreases ts,
{
    if ts.len() == 0 {
        0
    } else {
        size_tok(ts[0]) + size_seq(ts.drop_first())
    }
}

/// The number of loop nodes in one instruction.
pub open spec fn loop_count_tok(t: Token) -> nat
    decreases t,
{
    match t {
        Token::Loop(body) => 1 + loop_count_seq(body@),
        _ => 0,
    }
}

/// The number of loop nodes in an instruction sequence.
pub open spec fn loop_count_seq(ts: Seq<Token>) -> nat
    decreases ts,
{
    if ts.len() == 0 {
        0
    } else {
        loop_count_tok(ts[0]) + loop_count_seq(ts.drop_first())
    }
}

/// The source text an instruction renders back to: one symbol per leaf, and
/// a bracketed rendering of the body for a loop.
pub open spec fn flat_tok(t: Token) -> Seq<u8>
    decreases t,
{
    match t {
        Token::Left => seq![LEFT_BYTE],
        Token::Right => seq![RIGHT_BYTE],
        Token::Add => seq![ADD_BYTE],
        Token::Sub => seq![SUB_BYTE],
        Token::Read => seq![READ_BYTE],
        Token::Write => seq![WRITE_BYTE],
        Token::Loop(body) => seq![OPEN_BYTE] + flat_seq(body@) + seq![CLOSE_BYTE],
    }
}

/// The source text an instruction sequence renders back to.
pub open spec fn flat_seq(ts: Seq<Token>) -> Seq<u8>
    decreases ts,
{
    if ts.len() == 0 {
        Seq::empty()
    } else {
        flat_tok(ts[0]) + flat_seq(ts.drop_first())
    }
}

pub proof fn lemma_size_tok_pos(t: Token)
    ensures
        size_tok(t) >= 1,
{
}

/// Each element's node count is bounded by the whole sequence's node count.
pub proof fn lemma_size_seq_index(ts: Seq<Token>, i: int)
    requires
        0 <= i < ts.len(),
    ensures
        size_tok(ts[i]) <= size_seq(ts),
    decreases ts.len(),
{
    if i > 0 {
        lemma_size_seq_index(ts.drop_first(), i - 1);
        assert(ts.drop_first()[i - 1] == ts[i]);
    }
}

/// Dropping a non-empty prefix strictly shrinks the node count.
pub proof fn lemma_size_seq_skip(ts: Seq<Token>, n: int)
    requires
        1 <= n <= ts.len(),
    ensures
        size_seq(ts.skip(n)) < size_seq(ts),
    decreases n,
{
    lemma_size_tok_pos(ts[0]);
    if n == 1 {
        assert(ts.skip(1) =~= ts.drop_first());
    } else {
        assert(ts.skip(n) =~= ts.drop_first().skip(n - 1));
        lemma_size_seq_skip(ts.drop_first(), n - 1);
    }
}

} // verus!
