//! The execution semantics of an instruction tree: a big-step evaluator
//! over a mathematical tape-machine state. A fuel bound makes the evaluator
//! a total function; fuel is spent only on loop iterations, so a run that
//! completes within some fuel completes, unchanged, within any larger fuel.

use vstd::prelude::*;
use crate::token::{lemma_size_tok_pos, size_seq, size_tok, Token};

verus! {

/// The number of cells on the tape.
pub const TAPE_LEN: usize = 30000;

/// The mathematical state of one tape machine mid-run: the tape, the data
/// pointer, the input bytes not yet consumed, and the output bytes emitted
/// so far.
pub ghost struct MachineSpec {
    pub tape: Seq<u8>,
    pub ptr: int,
    pub input: Seq<u8>,
    pub output: Seq<u8>,
}

impl MachineSpec {
    /// A valid state: a full-length tape with the pointer on it.
    pub open spec fn wf(self) -> bool {
        self.tape.len() == TAPE_LEN && 0 <= self.ptr < TAPE_LEN
    }

    /// The freshly initialized state: all cells zero, pointer at the first
    /// cell, the given input ahead, nothing written.
    pub open spec fn init(input: Seq<u8>) -> MachineSpec {
        MachineSpec { tape: Seq::new(TAPE_LEN as nat, |i: int| 0u8), ptr: 0, input, output: Seq::empty() }
    }

    /// The byte under the data pointer.
    pub open spec fn cell(self) -> u8 {
        self.tape[self.ptr]
    }
}

/// What a bounded run came to: completion in a final state, a tape bounds
/// violation, or the fuel running out first.
pub ghost enum Outcome {
    Done(MachineSpec),
    Fault,
    More,
}

/// One added to a cell, wrapping at 256.
pub open spec fn wrap_inc(v: u8) -> u8 {
    if v == 255 {
        0
    } else {
        (v + 1) as u8
    }
}

/// One subtracted from a cell, wrapping at 256.
pub open spec fn wrap_dec(v: u8) -> u8 {
    if v == 0 {
        255
    } else {
        (v - 1) as u8
    }
}

/// Run one instruction. Fuel is spent once per loop iteration, nowhere
/// else.
pub open spec fn run_tok(t: Token, s: MachineSpec, fuel: nat) -> Outcome
    decreases fuel, size_tok(t), 0nat,
{
    match t {
        Token::Left => if s.ptr == 0 {
            Outcome::Fault
        } else {
            Outcome::Done(MachineSpec { ptr: s.ptr - 1, ..s })
        },
        Token::Right => if s.ptr + 1 >= TAPE_LEN {
            Outcome::Fault
        } else {
            Outcome::Done(MachineSpec { ptr: s.ptr + 1, ..s })
        },
        Token::Add => Outcome::Done(
            MachineSpec { tape: s.tape.update(s.ptr, wrap_inc(s.cell())), ..s },
        ),
        Token::Sub => Outcome::Done(
            MachineSpec { tape: s.tape.update(s.ptr, wrap_dec(s.cell())), ..s },
        ),
        Token::Read => if s.input.len() == 0 {
            // end of input leaves the cell unchanged
            Outcome::Done(s)
        } else {
            Outcome::Done(
                MachineSpec {
                    tape: s.tape.update(s.ptr, s.input[0]),
                    input: s.input.drop_first(),
                    ..s
                },
            )
        },
        Token::Write => Outcome::Done(MachineSpec { output: s.output.push(s.cell()), ..s }),
        Token::Loop(body) => if s.cell() == 0 {
            Outcome::Done(s)
        } else if fuel == 0 {
            Outcome::More
        } else {
            match run_prog(body@, s, (fuel - 1) as nat) {
                Outcome::Done(s2) => run_tok(t, s2, (fuel - 1) as nat),
                o => o,
            }
        },
    }
}

/// Run an instruction sequence from left to right.
pub open spec fn run_prog(ts: Seq<Token>, s: MachineSpec, fuel: nat) -> Outcome
    decreases fuel, size_seq(ts), 1nat,
    via run_prog_decreases
{
    if ts.len() == 0 {
        Outcome::Done(s)
    } else {
        match run_tok(ts[0], s, fuel) {
            Outcome::Done(s2) => run_prog(ts.drop_first(), s2, fuel),
            o => o,
        }
    }
}

#[via_fn]
proof fn run_prog_decreases(ts: Seq<Token>, s: MachineSpec, fuel: nat) {
    if ts.len() > 0 {
        lemma_size_tok_pos(ts[0]);
    }
}

/// Reading past the end of input leaves the machine exactly as it stands:
/// no zero-fill, no error.
pub proof fn lemma_read_at_end_of_input(s: MachineSpec, fuel: nat)
    requires
        s.input.len() == 0,
    ensures
        run_tok(Token::Read, s, fuel) == Outcome::Done(s),
{
}

/// A run that did not stall keeps its outcome under any larger fuel.
pub proof fn lemma_run_tok_mono(t: Token, s: MachineSpec, f1: nat, f2: nat)
    requires
        f1 <= f2,
        !(run_tok(t, s, f1) is More),
    ensures
        run_tok(t, s, f2) == run_tok(t, s, f1),
    decreases f1, size_tok(t), 0nat,
{
    match t {
        Token::Loop(body) => {
            if s.cell() != 0 {
                // fuel 0 would have stalled, so f1 >= 1
                match run_prog(body@, s, (f1 - 1) as nat) {
                    Outcome::Done(s2) => {
                        lemma_run_prog_mono(body@, s, (f1 - 1) as nat, (f2 - 1) as nat);
                        lemma_run_tok_mono(t, s2, (f1 - 1) as nat, (f2 - 1) as nat);
                    },
                    _ => {
                        lemma_run_prog_mono(body@, s, (f1 - 1) as nat, (f2 - 1) as nat);
                    },
                }
            }
        },
        _ => {},
    }
}

/// A run that did not stall keeps its outcome under any larger fuel.
pub proof fn lemma_run_prog_mono(ts: Seq<Token>, s: MachineSpec, f1: nat, f2: nat)
    requires
        f1 <= f2,
        !(run_prog(ts, s, f1) is More),
    ensures
        run_prog(ts, s, f2) == run_prog(ts, s, f1),
    decreases f1, size_seq(ts), 1nat,
{
    if ts.len() > 0 {
        lemma_size_tok_pos(ts[0]);
        match run_tok(ts[0], s, f1) {
            Outcome::Done(s2) => {
                lemma_run_tok_mono(ts[0], s, f1, f2);
                lemma_run_prog_mono(ts.drop_first(), s2, f1, f2);
            },
            _ => {
                lemma_run_tok_mono(ts[0], s, f1, f2);
            },
        }
    }
}

} // verus!
