//! Tree-walking interpretation of an instruction tree against a fixed-size
//! byte tape, proved to compute exactly what the big-step semantics in
//! `machine` says, step for step and byte for byte.

use vstd::prelude::*;
use vstd::pervasive::VecAdditionalExecFns;
use crate::machine::{run_prog, run_tok, MachineSpec, Outcome, TAPE_LEN};
use crate::token::{lemma_size_tok_pos, size_seq, size_tok, Token};

verus! {

/// The interpreter's connection to the outside world: the bytes standing
/// ready on the input stream, how many of them are already consumed, and
/// the bytes written to the output stream so far.
pub struct Io {
    pub input: Vec<u8>,
    pub pos: usize,
    pub output: Vec<u8>,
}

impl Io {
    pub open spec fn wf(self) -> bool {
        self.pos <= self.input@.len()
    }

    /// The input bytes not yet consumed.
    pub open spec fn remaining(self) -> Seq<u8> {
        self.input@.skip(self.pos as int)
    }

    /// An io channel with the given input ahead and nothing written yet.
    pub fn new(input: Vec<u8>) -> (r: Io)
        ensures
            r.wf(),
            r.remaining() == input@,
            r.output@ == Seq::<u8>::empty(),
    {
        let r = Io { input, pos: 0, output: Vec::new() };
        proof {
            assert(r.remaining() =~= r.input@);
        }
        r
    }
}

/// How a bounded interpreter run ended.
#[derive(Debug, Clone, Copy, PartialEq, Eq, Structural)]
pub enum RunStatus {
    /// The program ran to completion.
    Done,
    /// The data pointer moved off the tape: a fatal language-level error.
    Fault,
    /// The iteration budget ran out before the program finished.
    Stalled,
}

/// The tape machine: a fixed-size array of byte cells and one data pointer.
pub struct Interpreter {
    pub memory: Vec<u8>,
    pub data_pointer: usize,
}

impl Interpreter {
    /// A full-length tape with the pointer on it.
    pub open spec fn wf(self) -> bool {
        self.memory@.len() == TAPE_LEN && self.data_pointer < TAPE_LEN
    }

    /// The mathematical state this interpreter and io channel stand in.
    pub open spec fn state(self, io: Io) -> MachineSpec {
        MachineSpec {
            tape: self.memory@,
            ptr: self.data_pointer as int,
            input: io.remaining(),
            output: io.output@,
        }
    }

    /// A freshly initialized machine: all cells zero, pointer at the first
    /// cell.
    pub fn new() -> (r: Self)
        ensures
            r.wf(),
            r.memory@ == Seq::new(TAPE_LEN as nat, |i: int| 0u8),
            r.data_pointer == 0,
    {
        let mut memory: Vec<u8> = Vec::new();
        while memory.len() < TAPE_LEN
            invariant
                memory@.len() <= TAPE_LEN,
                forall|i: int| 0 <= i < memory@.len() ==> memory@[i] == 0u8,
            decreases TAPE_LEN - memory@.len(),
        {
            memory.push(0);
        }
        proof {
            assert(memory@ =~= Seq::new(TAPE_LEN as nat, |i: int| 0u8));
        }
        Interpreter { memory, data_pointer: 0 }
    }

    /// Execute an instruction sequence, spending one unit of fuel per loop
    /// iteration: the run comes out exactly as the semantics `run_prog`
    /// says for that fuel.
    #[verifier::loop_isolation(false)]
    pub fn interpret(&mut self, tokens: &Vec<Token>, io: &mut Io, fuel: u64) -> (r: RunStatus)
        requires
            old(self).wf(),
            old(io).wf(),
        ensures
            final(self).wf(),
            final(io).wf(),
            final(io).input@ == old(io).input@,
            old(io).pos <= final(io).pos,
            old(io).output@.is_prefix_of(final(io).output@),
            match r {
                RunStatus::Done => run_prog(tokens@, old(self).state(*old(io)), fuel as nat)
                    == Outcome::Done(final(self).state(*final(io))),
                RunStatus::Fault => run_prog(tokens@, old(self).state(*old(io)), fuel as nat)
                    == Outcome::Fault,
                RunStatus::Stalled => run_prog(tokens@, old(self).state(*old(io)), fuel as nat)
                    == Outcome::More,
            },
        decreases fuel, size_seq(tokens@), 1nat,
    {
        let ghost s0 = old(self).state(*old(io));
        let mut i: usize = 0;
        proof {
            assert(tokens@.skip(0) =~= tokens@);
        }
        while i < tokens.len()
            invariant
                i <= tokens@.len(),
                self.wf(),
                io.wf(),
                io.input@ == old(io).input@,
                old(io).pos <= io.pos,
                old(io).output@.is_prefix_of(io.output@),
                run_prog(tokens@, s0, fuel as nat) == run_prog(
                    tokens@.skip(i as int),
                    self.state(*io),
                    fuel as nat,
                ),
            decreases tokens@.len() - i,
        {
            let ghost pre = self.state(*io);
            let ghost mid_out = io.output@;
            proof {
                lemma_size_tok_pos(tokens@[i as int]);
                crate::token::lemma_size_seq_index(tokens@, i as int);
                assert(tokens@.skip(i as int)[0] == tokens@[i as int]);
                assert(tokens@.skip(i as int).drop_first() =~= tokens@.skip(i + 1));
            }
            let status = self.interpret_tok(&tokens[i], io, fuel);
            proof {
                lemma_prefix_trans(old(io).output@, mid_out, io.output@);
            }
            match status {
                RunStatus::Done => {
                    i = i + 1;
                },
                RunStatus::Fault => {
                    return RunStatus::Fault;
                },
                RunStatus::Stalled => {
                    return RunStatus::Stalled;
                },
            }
        }
        proof {
            assert(tokens@.skip(tokens@.len() as int) =~= Seq::<Token>::empty());
        }
        RunStatus::Done
    }

    /// Execute one instruction. A loop re-checks the current cell before
    /// every iteration and spends one unit of fuel per iteration taken.
    #[verifier::loop_isolation(false)]
    pub fn interpret_tok(&mut self, t: &Token, io: &mut Io, fuel: u64) -> (r: RunStatus)
        requires
            old(self).wf(),
            old(io).wf(),
        ensures
            final(self).wf(),
            final(io).wf(),
            final(io).input@ == old(io).input@,
            old(io).pos <= final(io).pos,
            old(io).output@.is_prefix_of(final(io).output@),
            match r {
                RunStatus::Done => run_tok(*t, old(self).state(*old(io)), fuel as nat)
                    == Outcome::Done(final(self).state(*final(io))),
                RunStatus::Fault => run_tok(*t, old(self).state(*old(io)), fuel as nat)
                    == Outcome::Fault,
                RunStatus::Stalled => run_tok(*t, old(self).state(*old(io)), fuel as nat)
                    == Outcome::More,
            },
        decreases fuel, size_tok(*t), 0nat,
    {
        let ghost s0 = old(self).state(*old(io));
        match t {
            Token::Left => {
                if self.data_pointer == 0 {
                    RunStatus::Fault
                } else {
                    self.data_pointer = self.data_pointer - 1;
                    RunStatus::Done
                }
            },
            Token::Right => {
                if self.data_pointer + 1 >= TAPE_LEN {
                    RunStatus::Fault
                } else {
                    self.data_pointer = self.data_pointer + 1;
                    RunStatus::Done
                }
            },
            Token::Add => {
                let v = self.memory[self.data_pointer];
                let w = if v == 255 {
                    0
                } else {
                    v + 1
                };
                self.memory.set(self.data_pointer, w);
                RunStatus::Done
            },
            Token::Sub => {
                let v = self.memory[self.data_pointer];
                let w = if v == 0 {
                    255
                } else {
                    v - 1
                };
                self.memory.set(self.data_pointer, w);
                RunStatus::Done
            },
            Token::Read => {
                if io.pos < io.input.len() {
                    let b = io.input[io.pos];
                    self.memory.set(self.data_pointer, b);
                    io.pos = io.pos + 1;
                    proof {
                        assert(s0.input[0] == io.input@[old(io).pos as int]);
                        assert(io.remaining() =~= s0.input.drop_first());
                    }
                } else {
                    // end of input: the cell keeps its prior value
                    assert(s0.input.len() == 0);
                }
                RunStatus::Done
            },
            Token::Write => {
                let v = self.memory[self.data_pointer];
                io.output.push(v);
                proof {
                    assert(old(io).output@.is_prefix_of(io.output@)) by {
                        assert(old(io).output@ =~= io.output@.take(old(io).output@.len() as int));
                    }
                }
                RunStatus::Done
            },
            Token::Loop(body) => {
                let ghost lp = *t;
                let mut fuel_left = fuel;
                while self.memory[self.data_pointer] != 0
                    invariant
                        self.wf(),
                        io.wf(),
                        fuel_left <= fuel,
                        io.input@ == old(io).input@,
                        old(io).pos <= io.pos,
                        old(io).output@.is_prefix_of(io.output@),
                        run_tok(lp, s0, fuel as nat) == run_tok(
                            lp,
                            self.state(*io),
                            fuel_left as nat,
                        ),
                    decreases fuel_left,
                {
                    if fuel_left == 0 {
                        return RunStatus::Stalled;
                    }
                    fuel_left = fuel_left - 1;
                    let ghost s_cur = self.state(*io);
                    let ghost mid_out = io.output@;
                    let status = self.interpret(body, io, fuel_left);
                    proof {
                        lemma_prefix_trans(old(io).output@, mid_out, io.output@);
                    }
                    match status {
                        RunStatus::Done => {
                            proof {
                                assert(run_tok(lp, s_cur, (fuel_left + 1) as nat) == run_tok(
                                    lp,
                                    self.state(*io),
                                    fuel_left as nat,
                                ));
                            }
                        },
                        RunStatus::Fault => {
                            return RunStatus::Fault;
                        },
                        RunStatus::Stalled => {
                            return RunStatus::Stalled;
                        },
                    }
                }
                RunStatus::Done
            },
        }
    }
}

/// Execute a program on a freshly initialized machine with the given input
/// bytes ahead, and hand back how the run ended together with everything it
/// wrote: exactly what the semantics says of a zeroed tape. A run that did
/// not stall came to the one outcome the program has: a larger budget could
/// not have changed it.
pub fn run_program(tokens: &Vec<Token>, input: Vec<u8>, fuel: u64) -> (r: (RunStatus, Vec<u8>))
    ensures
        ({
            let o = run_prog(tokens@, MachineSpec::init(input@), fuel as nat);
            match r.0 {
                RunStatus::Done => o matches Outcome::Done(s) && s.output == r.1@,
                RunStatus::Fault => o == Outcome::Fault,
                RunStatus::Stalled => o == Outcome::More,
            }
        }),
        !(r.0 is Stalled) ==> forall|f2: nat|
            fuel as nat <= f2 ==> run_prog(tokens@, MachineSpec::init(input@), f2) == run_prog(
                tokens@,
                MachineSpec::init(input@),
                fuel as nat,
            ),
{
    let ghost given = input@;
    let mut machine = Interpreter::new();
    let mut io = Io::new(input);
    proof {
        assert(machine.memory@ =~= MachineSpec::init(given).tape);
        assert(machine.state(io) == MachineSpec::init(given));
    }
    let status = machine.interpret(tokens, &mut io, fuel);
    proof {
        if !(status is Stalled) {
            assert forall|f2: nat|
                fuel as nat <= f2 implies run_prog(tokens@, MachineSpec::init(given), f2)
                == run_prog(tokens@, MachineSpec::init(given), fuel as nat) by {
                crate::machine::lemma_run_prog_mono(
                    tokens@,
                    MachineSpec::init(given),
                    fuel as nat,
                    f2,
                );
            }
        }
    }
    (status, io.output)
}

/// Prefix-of is transitive.
proof fn lemma_prefix_trans(a: Seq<u8>, b: Seq<u8>, c: Seq<u8>)
    requires
        a.is_prefix_of(b),
        b.is_prefix_of(c),
    ensures
        a.is_prefix_of(c),
{
    assert(a =~= c.take(a.len() as int));
}

} // verus!
