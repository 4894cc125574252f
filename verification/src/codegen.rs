//! Code generation: lowering an instruction tree to assembly text, with
//! run-length coalescing of consecutive identical move and arithmetic
//! instructions and uniquely numbered label pairs for loops. The emitted
//! text is pinned, character for character, by the spec functions here, and
//! coalescing is proved behavior-preserving against the semantics.

use vstd::prelude::*;
use vstd::string::StringExecFns;
use crate::machine::{run_prog, run_tok, MachineSpec, Outcome, TAPE_LEN};
use crate::token::{
    flat_seq, lemma_size_seq_index, lemma_size_seq_skip, lemma_size_tok_pos, size_seq, size_tok,
    Token,
};
use crate::parse::{balanced, has_neg_prefix, lemma_flat_seq_len, net, tokens, ParseError};
use crate::sanitize::{lemma_sanitize_len_le, sanitize_spec};

verus! {

/// Whether two adjacent instructions fold into one counted operation:
/// only equal move or arithmetic instructions do. Loops are never
/// coalesced, and reads and writes each keep their own system call.
pub open spec fn groupable(a: Token, b: Token) -> bool {
    match (a, b) {
        (Token::Left, Token::Left) => true,
        (Token::Right, Token::Right) => true,
        (Token::Add, Token::Add) => true,
        (Token::Sub, Token::Sub) => true,
        _ => false,
    }
}

/// The length of the leading run of mutually coalescable instructions:
/// at least 1 on a non-empty sequence, exactly 1 when the first
/// instruction coalesces with nothing.
pub open spec fn lead_count(ts: Seq<Token>) -> nat
    decreases ts.len(),
{
    if ts.len() == 0 {
        0
    } else if ts.len() >= 2 && groupable(ts[0], ts[1]) {
        1 + lead_count(ts.drop_first())
    } else {
        1
    }
}

pub proof fn lemma_lead_count_bounds(ts: Seq<Token>)
    requires
        ts.len() >= 1,
    ensures
        1 <= lead_count(ts) <= ts.len(),
    decreases ts.len(),
{
    if ts.len() >= 2 && groupable(ts[0], ts[1]) {
        lemma_lead_count_bounds(ts.drop_first());
    }
}

/// A run of `k` instructions coalescable with the first, cut off at `k`,
/// has lead count exactly `k`.
pub proof fn lemma_lead_count_is(ts: Seq<Token>, k: int)
    requires
        1 <= k <= ts.len(),
        forall|m: int| 1 <= m < k ==> groupable(ts[0], #[trigger] ts[m]),
        k == ts.len() || !groupable(ts[0], ts[k]),
    ensures
        lead_count(ts) == k,
    decreases k,
{
    if k == 1 {
        if ts.len() >= 2 {
            assert(!groupable(ts[0], ts[1]));
        }
    } else {
        assert(groupable(ts[0], ts[1]));
        let d = ts.drop_first();
        assert forall|m: int| 1 <= m < k - 1 implies groupable(d[0], #[trigger] d[m]) by {
            assert(d[m] == ts[m + 1]);
            assert(groupable(ts[0], ts[m + 1]));
        }
        if k - 1 < d.len() {
            assert(d[k - 1] == ts[k]);
        }
        lemma_lead_count_is(d, k - 1);
    }
}

/// The decimal rendering of a number, most significant digit first.
pub open spec fn dec_rep(n: nat) -> Seq<char>
    decreases n,
{
    if n < 10 {
        digit_str(n)
    } else {
        dec_rep(n / 10) + digit_str(n % 10)
    }
}

/// One decimal digit as text.
pub open spec fn digit_str(d: nat) -> Seq<char> {
    if d == 0 {
        "0"@
    } else if d == 1 {
        "1"@
    } else if d == 2 {
        "2"@
    } else if d == 3 {
        "3"@
    } else if d == 4 {
        "4"@
    } else if d == 5 {
        "5"@
    } else if d == 6 {
        "6"@
    } else if d == 7 {
        "7"@
    } else if d == 8 {
        "8"@
    } else {
        "9"@
    }
}

/// The fixed prologue: the tape buffer and the data-pointer register.
pub open spec fn header() -> Seq<char> {
    ".data\n.bss\n.lcomm ARRAY, 30000\n.text\n.global _start\n_start:\nmov r12, offset ARRAY\n"@
}

/// The fixed epilogue: the exit system call.
pub open spec fn footer() -> Seq<char> {
    "mov rax, 60\nmov rdi, 9\nsyscall\n"@
}

/// The system-call sequence reading one byte into the current cell.
pub open spec fn read_block() -> Seq<char> {
    "mov rax, 0\nmov rdi, 0\nmov rsi, r12\nmov rdx, 1\nsyscall\n"@
}

/// The system-call sequence writing one byte from the current cell.
pub open spec fn write_block() -> Seq<char> {
    "mov rax, 1\nmov rdi, 1\nmov rsi, r12\nmov rdx, 1\nsyscall\n"@
}

/// The head guard of loop `idx`: skip to the end label on a zero cell.
pub open spec fn loop_head(idx: nat) -> Seq<char> {
    "cmpb [r12], 0\nje LOOP_END_"@ + dec_rep(idx) + "\nLOOP_START_"@ + dec_rep(idx) + ":\n"@
}

/// The tail guard of loop `idx`: jump back to the start on a non-zero cell.
pub open spec fn loop_tail(idx: nat) -> Seq<char> {
    "cmpb [r12], 0\njne LOOP_START_"@ + dec_rep(idx) + "\nLOOP_END_"@ + dec_rep(idx) + ":\n"@
}

/// The lowering of one leaf instruction repeated `n` times: one counted
/// operation for moves and arithmetic, one system-call block per read or
/// write.
pub open spec fn chunk(t: Token, n: nat) -> Seq<char> {
    match t {
        Token::Left => "sub r12, "@ + dec_rep(n) + "\n"@,
        Token::Right => "add r12, "@ + dec_rep(n) + "\n"@,
        Token::Add => "addb [r12], "@ + dec_rep(n) + "\n"@,
        Token::Sub => "subb [r12], "@ + dec_rep(n) + "\n"@,
        Token::Read => read_block(),
        Token::Write => write_block(),
        Token::Loop(_) => Seq::empty(),
    }
}

/// The body text for an instruction sequence, starting from loop label
/// `idx`, and the next free label index: a depth-first walk minting one
/// label pair per loop node in encounter order.
pub open spec fn gen_prog(ts: Seq<Token>, idx: nat) -> (Seq<char>, nat)
    decreases size_seq(ts),
    via gen_prog_decreases
{
    if ts.len() == 0 {
        (Seq::empty(), idx)
    } else {
        match ts[0] {
            Token::Loop(body) => {
                let inner = gen_prog(body@, idx + 1);
                let rest = gen_prog(ts.drop_first(), inner.1);
                (loop_head(idx) + inner.0 + loop_tail(idx) + rest.0, rest.1)
            },
            _ => {
                let n = lead_count(ts);
                let rest = gen_prog(ts.skip(n as int), idx);
                (chunk(ts[0], n) + rest.0, rest.1)
            },
        }
    }
}

#[via_fn]
proof fn gen_prog_decreases(ts: Seq<Token>, idx: nat) {
    if ts.len() > 0 {
        lemma_size_tok_pos(ts[0]);
        lemma_size_seq_index(ts, 0);
        match ts[0] {
            Token::Loop(body) => {},
            _ => {
                lemma_lead_count_bounds(ts);
                lemma_size_seq_skip(ts, lead_count(ts) as int);
            },
        }
    }
}

/// The complete program text for an instruction tree.
pub open spec fn gen_program(ts: Seq<Token>) -> Seq<char> {
    header() + gen_prog(ts, 0).0 + footer()
}

/// Label indices only grow, by at most one per node.
pub proof fn lemma_gen_next(ts: Seq<Token>, idx: nat)
    ensures
        idx <= gen_prog(ts, idx).1 <= idx + size_seq(ts),
    decreases size_seq(ts),
{
    if ts.len() > 0 {
        lemma_size_tok_pos(ts[0]);
        lemma_size_seq_index(ts, 0);
        match ts[0] {
            Token::Loop(body) => {
                lemma_gen_next(body@, idx + 1);
                lemma_gen_next(ts.drop_first(), gen_prog(body@, idx + 1).1);
            },
            _ => {
                lemma_lead_count_bounds(ts);
                lemma_size_seq_skip(ts, lead_count(ts) as int);
                lemma_gen_next(ts.skip(lead_count(ts) as int), idx);
            },
        }
    }
}

/// Append the decimal rendering of `n`.
fn push_dec(out: &mut String, n: usize)
    ensures
        final(out)@ == old(out)@ + dec_rep(n as nat),
    decreases n,
{
    if n >= 10 {
        push_dec(out, n / 10);
    }
    let d = if n < 10 {
        n
    } else {
        n % 10
    };
    out.append(
        if d == 0 {
            "0"
        } else if d == 1 {
            "1"
        } else if d == 2 {
            "2"
        } else if d == 3 {
            "3"
        } else if d == 4 {
            "4"
        } else if d == 5 {
            "5"
        } else if d == 6 {
            "6"
        } else if d == 7 {
            "7"
        } else if d == 8 {
            "8"
        } else {
            "9"
        },
    );
    proof {
        if n >= 10 {
            assert((old(out)@ + dec_rep((n / 10) as nat)) + digit_str((n % 10) as nat) =~= old(
                out,
            )@ + (dec_rep((n / 10) as nat) + digit_str((n % 10) as nat)));
        }
    }
}

/// Decide whether two adjacent instructions coalesce.
fn same_group(a: &Token, b: &Token) -> (r: bool)
    ensures
        r == groupable(*a, *b),
{
    match (a, b) {
        (Token::Left, Token::Left) => true,
        (Token::Right, Token::Right) => true,
        (Token::Add, Token::Add) => true,
        (Token::Sub, Token::Sub) => true,
        _ => false,
    }
}

/// The code generator: a monotonically increasing loop-label counter and
/// the output text built so far.
pub struct Assembler {
    pub index: usize,
    pub output: String,
}

impl Assembler {
    /// A fresh generator: no labels minted, nothing emitted.
    pub fn new() -> (r: Self)
        ensures
            r.index == 0,
            r.output@ == Seq::<char>::empty(),
    {
        Assembler { index: 0, output: String::new() }
    }

    /// Emit the body text for an instruction sequence: exactly what
    /// `gen_prog` says, labels minted from the current counter.
    #[verifier::loop_isolation(false)]
    #[verifier::rlimit(80)]
    pub fn dump(&mut self, tokens: &Vec<Token>)
        requires
            old(self).index + size_seq(tokens@) <= usize::MAX,
        ensures
            final(self).output@ == old(self).output@ + gen_prog(
                tokens@,
                old(self).index as nat,
            ).0,
            final(self).index == gen_prog(tokens@, old(self).index as nat).1,
        decreases size_seq(tokens@),
    {
        let ghost target = gen_prog(tokens@, old(self).index as nat);
        let mut i: usize = 0;
        proof {
            assert(tokens@.skip(0) =~= tokens@);
        }
        while i < tokens.len()
            invariant
                i <= tokens@.len(),
                self.index + size_seq(tokens@.skip(i as int)) <= usize::MAX,
                self.output@ + gen_prog(tokens@.skip(i as int), self.index as nat).0 == old(
                    self,
                ).output@ + target.0,
                gen_prog(tokens@.skip(i as int), self.index as nat).1 == target.1,
            decreases tokens@.len() - i,
        {
            let ghost rem = tokens@.skip(i as int);
            let ghost cur_idx = self.index as nat;
            let ghost pre_out = self.output@;
            proof {
                assert(rem[0] == tokens@[i as int]);
                lemma_size_tok_pos(rem[0]);
                lemma_size_seq_index(rem, 0);
            }
            match &tokens[i] {
                Token::Loop(body) => {
                    proof {
                        assert(size_tok(rem[0]) == 1 + size_seq(body@));
                        assert(rem.drop_first() =~= tokens@.skip(i + 1));
                        lemma_gen_next(body@, cur_idx + 1);
                    }
                    let idx = self.index;
                    self.index = self.index + 1;
                    self.output.append("cmpb [r12], 0\nje LOOP_END_");
                    push_dec(&mut self.output, idx);
                    self.output.append("\nLOOP_START_");
                    push_dec(&mut self.output, idx);
                    self.output.append(":\n");
                    proof {
                        assert(self.output@ =~= pre_out + loop_head(idx as nat));
                        assert(size_seq(body@) < size_seq(rem));
                        lemma_size_seq_index(tokens@, i as int);
                    }
                    self.dump(body);
                    proof {
                        let inner = gen_prog(body@, cur_idx + 1);
                        assert(self.output@ =~= pre_out + (loop_head(idx as nat) + inner.0));
                    }
                    let ghost tail_pre = self.output@;
                    self.output.append("cmpb [r12], 0\njne LOOP_START_");
                    push_dec(&mut self.output, idx);
                    self.output.append("\nLOOP_END_");
                    push_dec(&mut self.output, idx);
                    self.output.append(":\n");
                    i = i + 1;
                    proof {
                        let inner = gen_prog(body@, cur_idx + 1);
                        let rest = gen_prog(tokens@.skip(i as int), inner.1);
                        assert(self.output@ =~= tail_pre + loop_tail(idx as nat));
                        assert(self.output@ =~= pre_out + (loop_head(idx as nat) + inner.0
                            + loop_tail(idx as nat)));
                        assert(gen_prog(rem, cur_idx).0 =~= (loop_head(idx as nat) + inner.0
                            + loop_tail(idx as nat)) + rest.0);
                        assert(pre_out + ((loop_head(idx as nat) + inner.0 + loop_tail(
                            idx as nat,
                        )) + rest.0) =~= (pre_out + (loop_head(idx as nat) + inner.0 + loop_tail(
                            idx as nat,
                        ))) + rest.0);
                        lemma_gen_next(body@, cur_idx + 1);
                    }
                },
                _ => {
                    let mut j: usize = i + 1;
                    while j < tokens.len() && same_group(&tokens[i], &tokens[j])
                        invariant
                            i < j <= tokens@.len(),
                            forall|m: int|
                                i < m < j ==> groupable(tokens@[i as int], #[trigger] tokens@[m]),
                        decreases tokens@.len() - j,
                    {
                        j = j + 1;
                    }
                    let n = j - i;
                    proof {
                        assert forall|m: int| 1 <= m < n implies groupable(
                            rem[0],
                            #[trigger] rem[m],
                        ) by {
                            assert(rem[m] == tokens@[i + m]);
                        }
                        if n < rem.len() {
                            assert(rem[n as int] == tokens@[j as int]);
                        }
                        lemma_lead_count_is(rem, n as int);
                        lemma_size_seq_skip(rem, n as int);
                        assert(rem.skip(n as int) =~= tokens@.skip(j as int));
                    }
                    match &tokens[i] {
                        Token::Right => {
                            self.output.append("add r12, ");
                        },
                        Token::Left => {
                            self.output.append("sub r12, ");
                        },
                        Token::Add => {
                            self.output.append("addb [r12], ");
                        },
                        Token::Sub => {
                            self.output.append("subb [r12], ");
                        },
                        Token::Read => {
                            self.output.append(
                                "mov rax, 0\nmov rdi, 0\nmov rsi, r12\nmov rdx, 1\nsyscall\n",
                            );
                        },
                        Token::Write => {
                            self.output.append(
                                "mov rax, 1\nmov rdi, 1\nmov rsi, r12\nmov rdx, 1\nsyscall\n",
                            );
                        },
                        Token::Loop(_) => {
                            proof {
                                assert(false);
                            }
                        },
                    }
                    match &tokens[i] {
                        Token::Left | Token::Right | Token::Add | Token::Sub => {
                            push_dec(&mut self.output, n);
                            self.output.append("\n");
                        },
                        _ => {},
                    }
                    i = j;
                    proof {
                        let rest = gen_prog(tokens@.skip(i as int), cur_idx);
                        assert(self.output@ =~= pre_out + chunk(rem[0], n as nat));
                        assert(gen_prog(rem, cur_idx).0 =~= chunk(rem[0], n as nat) + rest.0);
                        assert(pre_out + (chunk(rem[0], n as nat) + rest.0) =~= (pre_out + chunk(
                            rem[0],
                            n as nat,
                        )) + rest.0);
                    }
                },
            }
        }
        proof {
            assert(tokens@.skip(tokens@.len() as int) =~= Seq::<Token>::empty());
            assert(self.output@ + Seq::<char>::empty() =~= self.output@);
        }
    }

    /// Emit a complete, self-contained program: the fixed prologue, the
    /// lowered body, and the fixed exit epilogue.
    pub fn assembly(&mut self, tokens: &Vec<Token>)
        requires
            old(self).index + size_seq(tokens@) <= usize::MAX,
        ensures
            final(self).output@ == old(self).output@ + header() + gen_prog(
                tokens@,
                old(self).index as nat,
            ).0 + footer(),
            final(self).index == gen_prog(tokens@, old(self).index as nat).1,
    {
        let ghost pre_out = old(self).output@;
        self.output.append(
            ".data\n.bss\n.lcomm ARRAY, 30000\n.text\n.global _start\n_start:\nmov r12, offset ARRAY\n",
        );
        self.dump(tokens);
        let ghost body_out = self.output@;
        self.output.append("mov rax, 60\nmov rdi, 9\nsyscall\n");
        proof {
            let b = gen_prog(tokens@, old(self).index as nat).0;
            assert(body_out =~= (pre_out + header()) + b);
            assert(self.output@ =~= ((pre_out + header()) + b) + footer());
            assert(((pre_out + header()) + b) + footer() =~= pre_out + header() + b + footer());
        }
    }
}

/// Sanitize a source text, parse it, and lower the tree to a complete
/// program text: the toolchain's build mode. Fails exactly where parsing
/// fails.
pub fn build_program(src: &Vec<u8>) -> (r: Result<String, ParseError>)
    ensures
        match r {
            Ok(text) => {
                &&& balanced(sanitize_spec(src@))
                &&& exists|ts: Seq<Token>|
                    flat_seq(ts) == sanitize_spec(src@) && text@ == #[trigger] gen_program(ts)
            },
            Err(e) => {
                &&& !balanced(sanitize_spec(src@))
                &&& (e == ParseError::UnexpectedClose <==> has_neg_prefix(sanitize_spec(src@)))
                &&& (e == ParseError::MissingClose <==> !has_neg_prefix(sanitize_spec(src@))
                    && net(sanitize_spec(src@)) > 0)
            },
        },
{
    match tokens(src) {
        Ok(ts) => {
            proof {
                lemma_flat_seq_len(ts@);
                lemma_sanitize_len_le(src@);
                assert(src@.len() == src.len());
                assert(size_seq(ts@) <= usize::MAX);
            }
            let mut generator = Assembler::new();
            generator.assembly(&ts);
            proof {
                assert(generator.output@ =~= Seq::<char>::empty() + header() + gen_prog(
                    ts@,
                    0,
                ).0 + footer());
                assert(generator.output@ =~= gen_program(ts@));
            }
            Ok(generator.output)
        },
        Err(e) => Err(e),
    }
}

/// The sequence `t` repeated `n` times: one run of identical instructions.
pub open spec fn repeat_tok(t: Token, n: nat) -> Seq<Token> {
    Seq::new(n, |i: int| t)
}

/// An integer folded into a byte, wrapping at 256.
pub open spec fn norm256(x: int) -> u8 {
    (((x % 256) + 256) % 256) as u8
}

/// What the single counted operation emitted for `n` repetitions of a
/// move or arithmetic instruction does to the machine: the pointer moves
/// by `n` (faulting if that leaves the tape), or the cell changes by `n`
/// with native 8-bit wraparound.
pub open spec fn counted_outcome(t: Token, n: nat, s: MachineSpec) -> Outcome {
    match t {
        Token::Left => if s.ptr - n >= 0 {
            Outcome::Done(MachineSpec { ptr: s.ptr - n, ..s })
        } else {
            Outcome::Fault
        },
        Token::Right => if s.ptr + n < TAPE_LEN {
            Outcome::Done(MachineSpec { ptr: s.ptr + n, ..s })
        } else {
            Outcome::Fault
        },
        Token::Add => Outcome::Done(
            MachineSpec { tape: s.tape.update(s.ptr, norm256(s.cell() + n)), ..s },
        ),
        Token::Sub => Outcome::Done(
            MachineSpec { tape: s.tape.update(s.ptr, norm256(s.cell() - n)), ..s },
        ),
        _ => Outcome::More,
    }
}

/// Run-length coalescing is behavior-preserving: executing `n` consecutive
/// identical move or arithmetic instructions comes to exactly the same
/// outcome as the one counted operation the code generator emits for them,
/// whatever the fuel.
#[verifier::rlimit(80)]
pub proof fn lemma_coalescing_preserves_behavior(t: Token, n: nat, s: MachineSpec, fuel: nat)
    requires
        s.wf(),
        groupable(t, t),
    ensures
        run_prog(repeat_tok(t, n), s, fuel) == counted_outcome(t, n, s),
    decreases n,
{
    if n == 0 {
        match t {
            Token::Add => {
                assert(s.tape.update(s.ptr, norm256(s.cell() + 0)) =~= s.tape);
            },
            Token::Sub => {
                assert(s.tape.update(s.ptr, norm256(s.cell() - 0)) =~= s.tape);
            },
            _ => {},
        }
    } else {
        let rep = repeat_tok(t, n);
        assert(rep[0] == t);
        assert(rep.drop_first() =~= repeat_tok(t, (n - 1) as nat));
        match run_tok(t, s, fuel) {
            Outcome::Done(s1) => {
                lemma_coalescing_preserves_behavior(t, (n - 1) as nat, s1, fuel);
                match t {
                    Token::Add => {
                        assert(s1.tape.update(s1.ptr, norm256(s1.cell() + (n - 1))) =~= s.tape
                            .update(s.ptr, norm256(s.cell() + n)));
                    },
                    Token::Sub => {
                        assert(s1.tape.update(s1.ptr, norm256(s1.cell() - (n - 1))) =~= s.tape
                            .update(s.ptr, norm256(s.cell() - n)));
                    },
                    _ => {},
                }
            },
            _ => {},
        }
    }
}

/// The cell value wraps exactly at 256: a run of 256 increments leaves the
/// machine exactly as it stood.
pub proof fn lemma_increments_wrap_at_256(s: MachineSpec, fuel: nat)
    requires
        s.wf(),
    ensures
        run_prog(repeat_tok(Token::Add, 256), s, fuel) == Outcome::Done(s),
{
    lemma_coalescing_preserves_behavior(Token::Add, 256, s, fuel);
    assert(norm256(s.cell() + 256) == s.cell());
    assert(s.tape.update(s.ptr, s.cell()) =~= s.tape);
}

} // verus!
