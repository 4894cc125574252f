//! Recursive-descent parsing of the sanitized symbol stream into an
//! instruction tree. Parsing succeeds exactly on bracket-balanced texts;
//! an unbalanced text is a structural parse failure, never a partial tree.

use vstd::prelude::*;
use crate::token::{
    flat_seq, flat_tok, loop_count_seq, loop_count_tok, size_seq, size_tok, Token, ADD_BYTE,
    CLOSE_BYTE, LEFT_BYTE, OPEN_BYTE, READ_BYTE, RIGHT_BYTE, SUB_BYTE, WRITE_BYTE,
};
use crate::sanitize::{all_instr, is_instr_byte, sanitize, sanitize_spec};
use crate::sanitize::lemma_sanitize_all_instr;

verus! {

/// A structural defect of the source text.
#[derive(Debug, Clone, Copy, PartialEq, Eq, Structural)]
pub enum ParseError {
    /// A `]` appeared with no bracket open.
    UnexpectedClose,
    /// The text ended while a `[` was still open.
    MissingClose,
}

/// The bracket weight of one byte: `[` opens, `]` closes, the rest is flat.
pub open spec fn delta(b: u8) -> int {
    if b == OPEN_BYTE {
        1
    } else if b == CLOSE_BYTE {
        -1
    } else {
        0
    }
}

/// The net bracket count of a text: opens minus closes.
pub open spec fn net(s: Seq<u8>) -> int
    decreases s.len(),
{
    if s.len() == 0 {
        0
    } else {
        delta(s[0]) + net(s.drop_first())
    }
}

/// Every prefix has at least as many `[` as `]`.
pub open spec fn prefixes_ok(s: Seq<u8>) -> bool {
    forall|k: int| 0 <= k <= s.len() ==> net(#[trigger] s.take(k)) >= 0
}

/// Some prefix closes a bracket that was never opened.
pub open spec fn has_neg_prefix(s: Seq<u8>) -> bool {
    exists|k: int| 0 <= k <= s.len() && net(#[trigger] s.take(k)) < 0
}

/// A text is validly bracketed: no stray `]`, and every `[` is closed.
pub open spec fn balanced(s: Seq<u8>) -> bool {
    net(s) == 0 && prefixes_ok(s)
}

pub proof fn lemma_net_concat(a: Seq<u8>, b: Seq<u8>)
    ensures
        net(a + b) == net(a) + net(b),
    decreases a.len(),
{
    if a.len() == 0 {
        assert(a + b =~= b);
    } else {
        assert((a + b).drop_first() =~= a.drop_first() + b);
        lemma_net_concat(a.drop_first(), b);
    }
}

pub proof fn lemma_net_single(b: u8)
    ensures
        net(seq![b]) == delta(b),
{
    assert(seq![b].drop_first() =~= Seq::<u8>::empty());
    assert(net(Seq::<u8>::empty()) == 0);
    assert(seq![b][0] == b);
}

/// A single symbol that is not a bracket is balanced.
pub proof fn lemma_balanced_single(b: u8)
    requires
        delta(b) == 0,
    ensures
        balanced(seq![b]),
{
    lemma_net_single(b);
    assert forall|k: int| 0 <= k <= seq![b].len() implies net(#[trigger] seq![b].take(k)) >= 0 by {
        if k == 0 {
            assert(seq![b].take(0) =~= Seq::<u8>::empty());
        } else {
            assert(seq![b].take(k) =~= seq![b]);
        }
    }
}

/// Balanced texts stay balanced under concatenation.
pub proof fn lemma_balanced_concat(a: Seq<u8>, b: Seq<u8>)
    requires
        balanced(a),
        balanced(b),
    ensures
        balanced(a + b),
{
    lemma_net_concat(a, b);
    assert forall|k: int| 0 <= k <= (a + b).len() implies net(#[trigger] (a + b).take(k)) >= 0 by {
        if k <= a.len() {
            assert((a + b).take(k) =~= a.take(k));
        } else {
            assert((a + b).take(k) =~= a + b.take(k - a.len()));
            lemma_net_concat(a, b.take(k - a.len()));
        }
    }
}

/// Wrapping a balanced text in one bracket pair keeps it balanced.
pub proof fn lemma_balanced_bracket(m: Seq<u8>)
    requires
        balanced(m),
    ensures
        balanced(seq![OPEN_BYTE] + m + seq![CLOSE_BYTE]),
{
    let s = seq![OPEN_BYTE] + m + seq![CLOSE_BYTE];
    lemma_net_single(OPEN_BYTE);
    lemma_net_single(CLOSE_BYTE);
    lemma_net_concat(seq![OPEN_BYTE], m);
    lemma_net_concat(seq![OPEN_BYTE] + m, seq![CLOSE_BYTE]);
    assert forall|k: int| 0 <= k <= s.len() implies net(#[trigger] s.take(k)) >= 0 by {
        if k == 0 {
            assert(s.take(0) =~= Seq::<u8>::empty());
        } else if k <= 1 + m.len() {
            assert(s.take(k) =~= seq![OPEN_BYTE] + m.take(k - 1));
            lemma_net_concat(seq![OPEN_BYTE], m.take(k - 1));
            assert(net(m.take(k - 1)) >= 0);
        } else {
            assert(s.take(k) =~= s);
        }
    }
}

/// The rendering of any instruction is a balanced text.
pub proof fn lemma_flat_tok_balanced(t: Token)
    ensures
        balanced(flat_tok(t)),
    decreases t,
{
    match t {
        Token::Left => lemma_balanced_single(LEFT_BYTE),
        Token::Right => lemma_balanced_single(RIGHT_BYTE),
        Token::Add => lemma_balanced_single(ADD_BYTE),
        Token::Sub => lemma_balanced_single(SUB_BYTE),
        Token::Read => lemma_balanced_single(READ_BYTE),
        Token::Write => lemma_balanced_single(WRITE_BYTE),
        Token::Loop(body) => {
            lemma_flat_seq_balanced(body@);
            lemma_balanced_bracket(flat_seq(body@));
        }
    }
}

/// The rendering of any instruction sequence is a balanced text.
pub proof fn lemma_flat_seq_balanced(ts: Seq<Token>)
    ensures
        balanced(flat_seq(ts)),
    decreases ts,
{
    if ts.len() == 0 {
        assert forall|k: int| 0 <= k <= flat_seq(ts).len() implies net(
            #[trigger] flat_seq(ts).take(k),
        ) >= 0 by {
            assert(flat_seq(ts).take(k) =~= Seq::<u8>::empty());
        }
    } else {
        lemma_flat_tok_balanced(ts[0]);
        lemma_flat_seq_balanced(ts.drop_first());
        lemma_balanced_concat(flat_tok(ts[0]), flat_seq(ts.drop_first()));
    }
}

/// An instruction renders to one symbol per node, plus one extra symbol
/// per loop node (a bracket pair is two symbols but one node).
pub proof fn lemma_flat_tok_len(t: Token)
    ensures
        flat_tok(t).len() == size_tok(t) + loop_count_tok(t),
    decreases t,
{
    match t {
        Token::Loop(body) => lemma_flat_seq_len(body@),
        _ => {}
    }
}

/// A tree's symbol count: its node count (leaves plus loop nodes), plus one
/// extra symbol for each loop node's second bracket. On a loop-free tree
/// the node count alone equals the symbol count.
pub proof fn lemma_flat_seq_len(ts: Seq<Token>)
    ensures
        flat_seq(ts).len() == size_seq(ts) + loop_count_seq(ts),
    decreases ts,
{
    if ts.len() > 0 {
        lemma_flat_tok_len(ts[0]);
        lemma_flat_seq_len(ts.drop_first());
    }
}

pub proof fn lemma_flat_seq_snoc(ts: Seq<Token>, t: Token)
    ensures
        flat_seq(ts.push(t)) == flat_seq(ts) + flat_tok(t),
    decreases ts,
{
    if ts.len() == 0 {
        assert(ts.push(t).drop_first() =~= Seq::<Token>::empty());
        assert(ts.push(t)[0] == t);
        assert(flat_seq(Seq::<Token>::empty()) =~= Seq::<u8>::empty());
        assert(flat_seq(ts.push(t)) =~= flat_seq(ts) + flat_tok(t));
    } else {
        assert(ts.push(t)[0] == ts[0]);
        assert(ts.push(t).drop_first() =~= ts.drop_first().push(t));
        lemma_flat_seq_snoc(ts.drop_first(), t);
        assert(flat_tok(ts[0]) + (flat_seq(ts.drop_first()) + flat_tok(t)) =~= (flat_tok(ts[0])
            + flat_seq(ts.drop_first())) + flat_tok(t));
    }
}

/// Parse one sequence of instructions starting at `start`, stopping at the
/// end of the text or at the first `]` belonging to an enclosing loop.
#[verifier::loop_isolation(false)]
fn parse_body(s: &Vec<u8>, start: usize) -> (r: Result<(Vec<Token>, usize), ParseError>)
    requires
        all_instr(s@),
        start <= s@.len(),
    ensures
        match r {
            Ok((ts, end)) => {
                &&& start <= end <= s@.len()
                &&& flat_seq(ts@) == s@.subrange(start as int, end as int)
                &&& end == s@.len() || s@[end as int] == CLOSE_BYTE
            },
            Err(e) => {
                &&& e == ParseError::MissingClose
                &&& forall|k: int|
                    start <= k <= s@.len() ==> net(#[trigger] s@.subrange(start as int, k)) >= 0
                &&& net(s@.subrange(start as int, s@.len() as int)) > 0
            },
        },
    decreases s@.len() - start,
{
    let mut acc: Vec<Token> = Vec::new();
    let mut pos: usize = start;
    proof {
        assert(s@.subrange(start as int, start as int) =~= Seq::<u8>::empty());
    }
    while pos < s.len() && s[pos] != CLOSE_BYTE
        invariant
            start <= pos <= s@.len(),
            flat_seq(acc@) == s@.subrange(start as int, pos as int),
        decreases s@.len() - pos,
    {
        let b = s[pos];
        assert(is_instr_byte(b));
        if b == OPEN_BYTE {
            match parse_body(s, pos + 1) {
                Ok((body, end)) => {
                    if end < s.len() {
                        // the recursive call stopped at the matching `]`
                        let ghost prev = acc@;
                        acc.push(Token::Loop(body));
                        proof {
                            lemma_flat_seq_snoc(prev, Token::Loop(body));
                            assert(s@.subrange(start as int, end + 1) =~= s@.subrange(
                                start as int,
                                pos as int,
                            ) + seq![OPEN_BYTE] + s@.subrange(pos + 1, end as int) + seq![
                                CLOSE_BYTE,
                            ]);
                            assert(flat_tok(Token::Loop(body)) =~= seq![OPEN_BYTE] + flat_seq(
                                body@,
                            ) + seq![CLOSE_BYTE]);
                            assert(flat_seq(acc@) =~= s@.subrange(start as int, end + 1));
                        }
                        pos = end + 1;
                    } else {
                        // the text ended while this bracket was still open
                        proof {
                            lemma_flat_seq_balanced(acc@);
                            lemma_flat_seq_balanced(body@);
                            lemma_open_run_out(s@, start as int, pos as int, end as int, acc@, body@);
                        }
                        return Err(ParseError::MissingClose);
                    }
                },
                Err(e) => {
                    proof {
                        lemma_flat_seq_balanced(acc@);
                        lemma_open_inner_fail(s@, start as int, pos as int, acc@);
                    }
                    return Err(e);
                },
            }
        } else {
            let t = if b == LEFT_BYTE {
                Token::Left
            } else if b == RIGHT_BYTE {
                Token::Right
            } else if b == ADD_BYTE {
                Token::Add
            } else if b == SUB_BYTE {
                Token::Sub
            } else if b == READ_BYTE {
                Token::Read
            } else {
                Token::Write
            };
            let ghost prev = acc@;
            acc.push(t);
            proof {
                lemma_flat_seq_snoc(prev, t);
                assert(s@.subrange(start as int, pos + 1) =~= s@.subrange(start as int, pos as int)
                    + seq![b]);
                assert(flat_tok(t) =~= seq![b]);
                assert(flat_seq(acc@) =~= s@.subrange(start as int, pos + 1));
            }
            pos = pos + 1;
        }
    }
    Ok((acc, pos))
}

/// Facts carried out of `parse_body` when an inner bracket never closed:
/// the consumed prefix was balanced, so from `start` on the net count never
/// dips below zero and ends positive.
proof fn lemma_open_run_out(
    s: Seq<u8>,
    start: int,
    pos: int,
    end: int,
    consumed: Seq<Token>,
    body: Seq<Token>,
)
    requires
        0 <= start <= pos < end == s.len(),
        s[pos] == OPEN_BYTE,
        balanced(flat_seq(consumed)),
        balanced(flat_seq(body)),
        flat_seq(consumed) == s.subrange(start, pos),
        flat_seq(body) == s.subrange(pos + 1, end),
    ensures
        forall|k: int| start <= k <= s.len() ==> net(#[trigger] s.subrange(start, k)) >= 0,
        net(s.subrange(start, s.len() as int)) > 0,
{
    let a = s.subrange(start, pos);
    let m = s.subrange(pos + 1, end);
    lemma_net_single(OPEN_BYTE);
    assert forall|k: int| start <= k <= s.len() implies net(#[trigger] s.subrange(start, k)) >= 0 by {
        if k <= pos {
            assert(s.subrange(start, k) =~= a.take(k - start));
        } else {
            assert(s.subrange(start, k) =~= a + seq![OPEN_BYTE] + m.take(k - pos - 1));
            lemma_net_concat(a + seq![OPEN_BYTE], m.take(k - pos - 1));
            lemma_net_concat(a, seq![OPEN_BYTE]);
        }
    }
    assert(s.subrange(start, s.len() as int) =~= a + seq![OPEN_BYTE] + m);
    lemma_net_concat(a + seq![OPEN_BYTE], m);
    lemma_net_concat(a, seq![OPEN_BYTE]);
}

/// Facts carried out of `parse_body` when the recursive call below an `[`
/// already failed: its guarantees, shifted to this level's `start`.
proof fn lemma_open_inner_fail(s: Seq<u8>, start: int, pos: int, consumed: Seq<Token>)
    requires
        0 <= start <= pos < s.len(),
        s[pos] == OPEN_BYTE,
        balanced(flat_seq(consumed)),
        flat_seq(consumed) == s.subrange(start, pos),
        forall|k: int| pos + 1 <= k <= s.len() ==> net(#[trigger] s.subrange(pos + 1, k)) >= 0,
        net(s.subrange(pos + 1, s.len() as int)) > 0,
    ensures
        forall|k: int| start <= k <= s.len() ==> net(#[trigger] s.subrange(start, k)) >= 0,
        net(s.subrange(start, s.len() as int)) > 0,
{
    let a = s.subrange(start, pos);
    lemma_net_single(OPEN_BYTE);
    assert forall|k: int| start <= k <= s.len() implies net(#[trigger] s.subrange(start, k)) >= 0 by {
        if k <= pos {
            assert(s.subrange(start, k) =~= a.take(k - start));
        } else {
            assert(s.subrange(start, k) =~= a + seq![OPEN_BYTE] + s.subrange(pos + 1, k));
            lemma_net_concat(a + seq![OPEN_BYTE], s.subrange(pos + 1, k));
            lemma_net_concat(a, seq![OPEN_BYTE]);
        }
    }
    assert(s.subrange(start, s.len() as int) =~= a + seq![OPEN_BYTE] + s.subrange(
        pos + 1,
        s.len() as int,
    ));
    lemma_net_concat(a + seq![OPEN_BYTE], s.subrange(pos + 1, s.len() as int));
    lemma_net_concat(a, seq![OPEN_BYTE]);
}

/// Parse a sanitized symbol stream into an instruction tree.
///
/// Succeeds exactly on balanced texts; the tree then renders back to the
/// input, symbol for symbol. On an unbalanced text the error says which
/// defect came first: a stray `]`, or a `[` that never closed.
pub fn parse(src: &Vec<u8>) -> (r: Result<Vec<Token>, ParseError>)
    requires
        all_instr(src@),
    ensures
        match r {
            Ok(ts) => balanced(src@) && flat_seq(ts@) == src@,
            Err(e) => {
                &&& !balanced(src@)
                &&& (e == ParseError::UnexpectedClose <==> has_neg_prefix(src@))
                &&& (e == ParseError::MissingClose <==> !has_neg_prefix(src@) && net(src@) > 0)
            },
        },
{
    match parse_body(src, 0) {
        Ok((ts, end)) => {
            if end == src.len() {
                proof {
                    lemma_flat_seq_balanced(ts@);
                    assert(src@.subrange(0, src@.len() as int) =~= src@);
                }
                Ok(ts)
            } else {
                // stopped at a `]` no bracket had opened
                proof {
                    lemma_flat_seq_balanced(ts@);
                    let a = src@.subrange(0, end as int);
                    assert(src@.take(end + 1) =~= a + seq![CLOSE_BYTE]);
                    lemma_net_concat(a, seq![CLOSE_BYTE]);
                    lemma_net_single(CLOSE_BYTE);
                    assert(net(src@.take(end + 1)) < 0);
                    assert(has_neg_prefix(src@));
                    assert(!balanced(src@));
                }
                Err(ParseError::UnexpectedClose)
            }
        },
        Err(e) => {
            proof {
                assert forall|k: int| 0 <= k <= src@.len() implies net(#[trigger] src@.take(k))
                    >= 0 by {
                    assert(src@.take(k) =~= src@.subrange(0, k));
                }
                assert(src@.subrange(0, src@.len() as int) =~= src@);
                assert(net(src@) > 0);
            }
            Err(e)
        },
    }
}

/// Sanitize a source text and parse it: the toolchain's front end.
pub fn tokens(src: &Vec<u8>) -> (r: Result<Vec<Token>, ParseError>)
    ensures
        match r {
            Ok(ts) => balanced(sanitize_spec(src@)) && flat_seq(ts@) == sanitize_spec(src@),
            Err(e) => {
                &&& !balanced(sanitize_spec(src@))
                &&& (e == ParseError::UnexpectedClose <==> has_neg_prefix(sanitize_spec(src@)))
                &&& (e == ParseError::MissingClose <==> !has_neg_prefix(sanitize_spec(src@))
                    && net(sanitize_spec(src@)) > 0)
            },
        },
{
    let clean = sanitize(src);
    proof {
        lemma_sanitize_all_instr(src@);
    }
    parse(&clean)
}

} // verus!
