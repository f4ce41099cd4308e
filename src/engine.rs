use vstd::prelude::*;

use crate::resolver::{
    all_matched, first_unmatched, matches_backward, matches_forward, resolution_of, resolved_at,
    target,
};
use crate::lexer::{lex_spec, tokenize};
use vstd::arithmetic::div_mod::{lemma_add_mod_noop_right, lemma_mod_add_multiples_vanish};
use crate::token::{is_close, is_open, token_of, BfError, Token};

verus! {

/// The abstract state of a run: the tape, the data pointer and the
/// instruction pointer.
pub struct MachineState {
    pub tape: Seq<u8>,
    pub dp: nat,
    pub ip: nat,
}

/// What a single step did, when it did not fail.
#[derive(Copy, Clone, Debug, PartialEq, Eq, Structural)]
pub enum Step {
    /// An instruction ran and produced no output.
    Running,
    /// An output instruction ran and wrote this byte.
    Output(u8),
    /// The instruction pointer is past the end: the run is over.
    Halted,
}

/// Every loop target of the program is an index into the program.
pub open spec fn targets_in_bounds(p: Seq<Token>) -> bool {
    forall|i: int|
        0 <= i < p.len() && (is_open(#[trigger] p[i]) || is_close(p[i])) ==> 0 <= target(p[i])
            < p.len()
}

/// A resolved program only jumps to indices inside itself.
pub proof fn lemma_resolved_targets_in_bounds(s: Seq<Token>, out: Seq<Token>)
    requires
        resolution_of(s, out),
    ensures
        targets_in_bounds(out),
{
    assert forall|i: int|
        0 <= i < out.len() && (is_open(#[trigger] out[i]) || is_close(out[i])) implies 0 <= target(
        out[i],
    ) < out.len() by {
        assert(resolved_at(s, out, i));
        if is_open(s[i]) {
            assert(matches_forward(s, i, target(out[i])));
        } else if is_close(s[i]) {
            assert(matches_backward(s, i, target(out[i])));
        }
    }
}

/// The tape with a zero cell appended when the data pointer is just past its end.
pub open spec fn grown(m: MachineState) -> Seq<u8> {
    if m.dp < m.tape.len() {
        m.tape
    } else {
        m.tape.push(0)
    }
}

/// One step of execution: the next state and what the step did.  `input`
/// is the byte that an input instruction reads, `None` when none is available.
pub open spec fn step_spec(p: Seq<Token>, m: MachineState, input: Option<u8>) -> (
    MachineState,
    Result<Step, BfError>,
) {
    if m.ip >= p.len() {
        (m, Ok(Step::Halted))
    } else {
        let tape = grown(m);
        let cell = tape[m.dp as int];
        let next = m.ip + 1;
        let stay = MachineState { tape, dp: m.dp, ip: m.ip };
        match p[m.ip as int] {
            Token::MoveRight => (MachineState { tape, dp: m.dp + 1, ip: next }, Ok(Step::Running)),
            Token::MoveLeft => if m.dp == 0 {
                (stay, Err(BfError::PointerUnderflow))
            } else {
                (MachineState { tape, dp: (m.dp - 1) as nat, ip: next }, Ok(Step::Running))
            },
            Token::Increment => (
                MachineState {
                    tape: tape.update(m.dp as int, ((cell + 1) % 256) as u8),
                    dp: m.dp,
                    ip: next,
                },
                Ok(Step::Running),
            ),
            Token::Decrement => (
                MachineState {
                    tape: tape.update(m.dp as int, ((cell + 255) % 256) as u8),
                    dp: m.dp,
                    ip: next,
                },
                Ok(Step::Running),
            ),
            Token::Output => (MachineState { tape, dp: m.dp, ip: next }, Ok(Step::Output(cell))),
            Token::Input => match input {
                Some(b) => (
                    MachineState { tape: tape.update(m.dp as int, b), dp: m.dp, ip: next },
                    Ok(Step::Running),
                ),
                None => (stay, Err(BfError::InputExhausted)),
            },
            Token::LoopOpen(t) => (
                MachineState {
                    tape,
                    dp: m.dp,
                    ip: if cell == 0 {
                        (t + 1) as nat
                    } else {
                        next
                    },
                },
                Ok(Step::Running),
            ),
            Token::LoopClose(t) => (
                MachineState {
                    tape,
                    dp: m.dp,
                    ip: if cell != 0 {
                        (t + 1) as nat
                    } else {
                        next
                    },
                },
                Ok(Step::Running),
            ),
        }
    }
}

/// How a bounded run ended.
#[derive(Copy, Clone, Debug, PartialEq, Eq, Structural)]
pub enum RunStatus {
    /// The instruction pointer went past the end of the program.
    Halted,
    /// A fatal condition stopped the run.
    Failed(BfError),
    /// The step budget ran out first.
    OutOfFuel,
}

/// A bounded run from state `m` with the bytes `input` available to input
/// instructions, at most `fuel` steps: how it ended, the bytes written and
/// the number of input bytes read.
pub open spec fn run_spec(p: Seq<Token>, m: MachineState, input: Seq<u8>, fuel: nat) -> (
    RunStatus,
    Seq<u8>,
    nat,
)
    decreases fuel,
{
    if m.ip >= p.len() {
        (RunStatus::Halted, Seq::empty(), 0)
    } else if fuel == 0 {
        (RunStatus::OutOfFuel, Seq::empty(), 0)
    } else {
        let reads = p[m.ip as int] is Input;
        let byte = if reads && input.len() > 0 {
            Some(input[0])
        } else {
            None
        };
        let stepped = step_spec(p, m, byte);
        match stepped.1 {
            Err(e) => (RunStatus::Failed(e), Seq::empty(), 0),
            Ok(done) => {
                let rest = run_spec(
                    p,
                    stepped.0,
                    if reads {
                        input.drop_first()
                    } else {
                        input
                    },
                    (fuel - 1) as nat,
                );
                let written = match done {
                    Step::Output(b) => seq![b] + rest.1,
                    _ => rest.1,
                };
                (rest.0, written, if reads {
                    rest.2 + 1
                } else {
                    rest.2
                })
            },
        }
    }
}

/// The state at the start of a run.
pub open spec fn initial() -> MachineState {
    MachineState { tape: Seq::empty(), dp: 0, ip: 0 }
}

/// Moving the data pointer left from zero is fatal, wherever in the program
/// it happens and whatever the tape holds.
pub proof fn lemma_underflow_fatal(p: Seq<Token>, m: MachineState, input: Option<u8>)
    requires
        m.ip < p.len(),
        p[m.ip as int] == Token::MoveLeft,
        m.dp == 0,
    ensures
        step_spec(p, m, input).1 == Err::<Step, BfError>(BfError::PointerUnderflow),
{
}

/// The net count of increments over decrements in `p[k..]`.
pub open spec fn arith_count(p: Seq<Token>, k: int) -> int
    decreases p.len() - k,
{
    if k >= p.len() {
        0
    } else {
        (if p[k] == Token::Increment {
            1int
        } else {
            -1int
        }) + arith_count(p, k + 1)
    }
}

/// The instructions of `p` before `n` are all increments and decrements.
pub open spec fn only_arith(p: Seq<Token>, n: int) -> bool {
    forall|i: int| 0 <= i < n ==> #[trigger] p[i] == Token::Increment || p[i] == Token::Decrement
}

/// Cell arithmetic is modulo 256: a run of increments and decrements from
/// position `m.ip`, followed by one output instruction, writes the starting
/// cell plus the increments minus the decrements, modulo 256, and halts.
pub proof fn lemma_cell_arith_mod_256(p: Seq<Token>, m: MachineState, input: Seq<u8>, fuel: nat)
    requires
        p.len() > 0,
        p.last() == Token::Output,
        only_arith(p, p.len() - 1),
        m.ip <= p.len() - 1,
        m.dp <= m.tape.len(),
        fuel >= p.len() - m.ip,
    ensures
        run_spec(p, m, input, fuel) == (
            RunStatus::Halted,
            seq![((grown(m)[m.dp as int] + arith_count(p.drop_last(), m.ip as int)) % 256) as u8],
            0nat,
        ),
    decreases p.len() - m.ip,
{
    let q = p.drop_last();
    let c = grown(m)[m.dp as int] as int;
    let stepped = step_spec(p, m, None);
    let n = stepped.0;
    if m.ip == p.len() - 1 {
        assert(arith_count(q, m.ip as int) == 0);
        assert(c % 256 == c);
        let rest = run_spec(p, n, input, (fuel - 1) as nat);
        assert(rest.1 =~= Seq::<u8>::empty());
        assert(seq![c as u8] + rest.1 =~= seq![c as u8]);
    } else {
        assert(p[m.ip as int] == q[m.ip as int]);
        assert(grown(n) == n.tape);
        let d = arith_count(q, m.ip + 1int);
        lemma_cell_arith_mod_256(p, n, input, (fuel - 1) as nat);
        if p[m.ip as int] == Token::Increment {
            assert(n.tape[m.dp as int] == (c + 1) % 256);
            lemma_add_mod_noop_right(d, c + 1, 256);
        } else {
            assert(n.tape[m.dp as int] == (c + 255) % 256);
            lemma_add_mod_noop_right(d, c + 255, 256);
            lemma_mod_add_multiples_vanish(c - 1 + d, 256);
            assert(c + 255 + d == 256 + (c - 1 + d));
        }
    }
}

/// A text without any character of the language lexes to the empty
/// program, which halts at once, reads nothing and writes nothing.
pub proof fn lemma_no_language_text(s: Seq<char>, input: Seq<u8>, fuel: nat)
    requires
        forall|i: int| 0 <= i < s.len() ==> token_of(#[trigger] s[i]) is None,
    ensures
        lex_spec(s) == Seq::<Token>::empty(),
        run_spec(lex_spec(s), initial(), input, fuel) == (
            RunStatus::Halted,
            Seq::<u8>::empty(),
            0nat,
        ),
    decreases s.len(),
{
    if s.len() > 0 {
        let t = s.drop_last();
        assert forall|i: int| 0 <= i < t.len() implies token_of(#[trigger] t[i]) is None by {
            assert(t[i] == s[i]);
        }
        lemma_no_language_text(t, input, fuel);
        assert(token_of(s[s.len() - 1]) is None);
    }
}

/// The outcome of a bounded run.
pub struct RunResult {
    pub status: RunStatus,
    pub output: Vec<u8>,
    pub consumed: usize,
}

/// Run a program from the start for at most `fuel` steps, feeding input
/// instructions from `input` in order.
pub fn execute(program: &Vec<Token>, input: &Vec<u8>, fuel: usize) -> (r: RunResult)
    requires
        targets_in_bounds(program@),
    ensures
        run_spec(program@, initial(), input@, fuel as nat) == (r.status, r.output@, r.consumed as nat),
{
    let mut machine = Machine::new();
    let mut output: Vec<u8> = Vec::new();
    let mut pos: usize = 0;
    let mut left: usize = fuel;
    proof {
        let rest = run_spec(program@, initial(), input@, fuel as nat);
        assert(input@.skip(0) =~= input@);
        assert(output@ + rest.1 =~= rest.1);
    }
    loop
        invariant
            targets_in_bounds(program@),
            machine.wf(),
            pos <= input.len(),
            ({
                let total = run_spec(program@, initial(), input@, fuel as nat);
                let rest = run_spec(program@, machine@, input@.skip(pos as int), left as nat);
                total == (rest.0, output@ + rest.1, (pos + rest.2) as nat)
            }),
        decreases left,
    {
        let ghost out_before = output@;
        if machine.is_halted(program) {
            proof {
                assert(output@ + Seq::<u8>::empty() =~= output@);
            }
            return RunResult { status: RunStatus::Halted, output, consumed: pos };
        }
        if left == 0 {
            proof {
                assert(output@ + Seq::<u8>::empty() =~= output@);
            }
            return RunResult { status: RunStatus::OutOfFuel, output, consumed: pos };
        }
        let reads = machine.wants_input(program);
        let byte = if reads && pos < input.len() {
            Some(input[pos])
        } else {
            None
        };
        let ghost rest_in = input@.skip(pos as int);
        match machine.step(program, byte) {
            Err(e) => {
                proof {
                    assert(output@ + Seq::<u8>::empty() =~= output@);
                }
                return RunResult { status: RunStatus::Failed(e), output, consumed: pos };
            },
            Ok(done) => {
                if reads {
                    proof {
                        assert(rest_in.drop_first() =~= input@.skip(pos + 1));
                    }
                    pos = pos + 1;
                }
                left = left - 1;
                let ghost rest = run_spec(
                    program@,
                    machine@,
                    input@.skip(pos as int),
                    left as nat,
                );
                if let Step::Output(b) = done {
                    output.push(b);
                    proof {
                        assert(out_before + (seq![b] + rest.1) =~= output@ + rest.1);
                    }
                }
            },
        }
    }
}

/// Lex, resolve and run source text for at most `fuel` steps.  A bracket
/// without a partner stops everything before a single instruction runs.
pub fn run_source(source: &str, input: &Vec<u8>, fuel: usize) -> (r: Result<RunResult, BfError>)
    ensures
        r is Ok <==> all_matched(lex_spec(source@)),
        r matches Err(e) ==> first_unmatched(lex_spec(source@), e),
        r matches Ok(res) ==> exists|out: Seq<Token>|
            resolution_of(lex_spec(source@), out) && run_spec(out, initial(), input@, fuel as nat)
                == (res.status, res.output@, res.consumed as nat),
{
    let program = tokenize(source)?;
    proof {
        lemma_resolved_targets_in_bounds(lex_spec(source@), program@);
    }
    Ok(execute(&program, input, fuel))
}

/// The execution engine: a tape that grows on demand and two cursors.
pub struct Machine {
    tape: Vec<u8>,
    dp: usize,
    ip: usize,
}

impl View for Machine {
    type V = MachineState;

    closed spec fn view(&self) -> MachineState {
        MachineState { tape: self.tape@, dp: self.dp as nat, ip: self.ip as nat }
    }
}

impl Machine {
    /// The data pointer is at most one past the end of the tape.
    pub open spec fn wf(&self) -> bool {
        self@.dp <= self@.tape.len()
    }

    /// A machine at the start of a run: empty tape, both pointers at zero.
    pub fn new() -> (r: Machine)
        ensures
            r.wf(),
            r@ == (MachineState { tape: Seq::empty(), dp: 0, ip: 0 }),
    {
        Machine { tape: Vec::new(), dp: 0, ip: 0 }
    }

    /// The tape as it stands.
    pub fn tape(&self) -> (r: &Vec<u8>)
        ensures
            r@ == self@.tape,
    {
        &self.tape
    }

    pub fn data_pointer(&self) -> (r: usize)
        ensures
            r == self@.dp,
    {
        self.dp
    }

    pub fn instruction_pointer(&self) -> (r: usize)
        ensures
            r == self@.ip,
    {
        self.ip
    }

    /// The run is over: the instruction pointer is past the end of the program.
    pub fn is_halted(&self, program: &Vec<Token>) -> (r: bool)
        ensures
            r == (self@.ip >= program@.len()),
    {
        self.ip >= program.len()
    }

    /// The next step reads a byte of input.
    pub fn wants_input(&self, program: &Vec<Token>) -> (r: bool)
        ensures
            r == (self@.ip < program@.len() && program@[self@.ip as int] is Input),
    {
        self.ip < program.len() && matches!(program[self.ip], Token::Input)
    }

    /// Execute one instruction.  `input` is only read by an input instruction.
    pub fn step(&mut self, program: &Vec<Token>, input: Option<u8>) -> (r: Result<Step, BfError>)
        requires
            old(self).wf(),
            targets_in_bounds(program@),
        ensures
            final(self).wf(),
            (final(self)@, r) == step_spec(program@, old(self)@, input),
    {
        if self.ip >= program.len() {
            return Ok(Step::Halted);
        }
        if self.dp >= self.tape.len() {
            self.tape.push(0);
        }
        let len = self.tape.len();
        let cell = self.tape[self.dp];
        let next = self.ip + 1;
        match program[self.ip] {
            Token::MoveRight => {
                self.dp = self.dp + 1;
                self.ip = next;
                Ok(Step::Running)
            },
            Token::MoveLeft => {
                if self.dp == 0 {
                    Err(BfError::PointerUnderflow)
                } else {
                    self.dp = self.dp - 1;
                    self.ip = next;
                    Ok(Step::Running)
                }
            },
            Token::Increment => {
                let v: u8 = if cell == 255 {
                    0
                } else {
                    cell + 1
                };
                self.tape.set(self.dp, v);
                self.ip = next;
                Ok(Step::Running)
            },
            Token::Decrement => {
                let v: u8 = if cell == 0 {
                    255
                } else {
                    cell - 1
                };
                self.tape.set(self.dp, v);
                self.ip = next;
                Ok(Step::Running)
            },
            Token::Output => {
                self.ip = next;
                Ok(Step::Output(cell))
            },
            Token::Input => {
                match input {
                    Some(b) => {
                        self.tape.set(self.dp, b);
                        self.ip = next;
                        Ok(Step::Running)
                    },
                    None => Err(BfError::InputExhausted),
                }
            },
            Token::LoopOpen(t) => {
                self.ip = if cell == 0 {
                    t + 1
                } else {
                    next
                };
                Ok(Step::Running)
            },
            Token::LoopClose(t) => {
                self.ip = if cell != 0 {
                    t + 1
                } else {
                    next
                };
                Ok(Step::Running)
            },
        }
    }
}

} // verus!
