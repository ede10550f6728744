use vstd::prelude::*;
use crate::brackets::{match_brackets, matched, ins_balanced};
use crate::balance::fold_accepts_balanced;
use crate::fold::{fold, fold_spec, Instruction, RunError};
use crate::tape::{add_bytes, add_wrapping, byte_add, wrap, wrap_position, TAPE_LEN};

verus! {

/// What the machine asks of its host after a step.
#[derive(Debug, Clone, Copy, PartialEq, Eq)]
pub enum Action {
    /// An instruction ran; step again.
    Continue,
    /// The byte is to be written to the output.
    Output(u8),
    /// The current instruction reads a byte: hand it over with `supply`.
    Input,
    /// The program has ended.
    Halt,
}

/// The state of a run: program counter, data pointer and tape.
pub type MachineState = (int, int, Seq<u8>);

/// One step of the program `ins`, whose loops are paired by `t`, from `s`.
/// A read leaves the state as it is and asks for input; `MoveUntil` moves
/// once per step while the cell is not zero.
#[verifier::opaque]
pub open spec fn step_spec(ins: Seq<Instruction>, t: Seq<usize>, s: MachineState) -> (
    MachineState,
    Action,
) {
    let (pc, ptr, tape) = s;
    if pc < 0 || pc >= ins.len() {
        (s, Action::Halt)
    } else {
        match ins[pc] {
            Instruction::Add(d) => (
                (pc + 1, ptr, tape.update(ptr, byte_add(tape[ptr] as int, d as int) as u8)),
                Action::Continue,
            ),
            Instruction::Move(k) => ((pc + 1, wrap(ptr, k as int), tape), Action::Continue),
            Instruction::Output => ((pc + 1, ptr, tape), Action::Output(tape[ptr])),
            Instruction::Input => (s, Action::Input),
            Instruction::JumpRight => if tape[ptr] == 0 {
                ((t[pc] + 1, ptr, tape), Action::Continue)
            } else {
                ((pc + 1, ptr, tape), Action::Continue)
            },
            Instruction::JumpLeft => if tape[ptr] != 0 {
                ((t[pc] as int, ptr, tape), Action::Continue)
            } else {
                ((pc + 1, ptr, tape), Action::Continue)
            },
            Instruction::Clear => ((pc + 1, ptr, tape.update(ptr, 0)), Action::Continue),
            Instruction::AddTo(k) => {
                let d = wrap(ptr, k as int);
                (
                    (
                        pc + 1,
                        ptr,
                        tape.update(d, byte_add(tape[d] as int, tape[ptr] as int) as u8).update(
                            ptr,
                            0,
                        ),
                    ),
                    Action::Continue,
                )
            },
            Instruction::MoveUntil(k) => if tape[ptr] == 0 {
                ((pc + 1, ptr, tape), Action::Continue)
            } else {
                ((pc, wrap(ptr, k as int), tape), Action::Continue)
            },
        }
    }
}

proof fn lemma_step_waits(ins: Seq<Instruction>, t: Seq<usize>, s: MachineState)
    ensures
        step_spec(ins, t, s).1 is Halt ==> step_spec(ins, t, s).0 == s,
        step_spec(ins, t, s).1 is Input ==> step_spec(ins, t, s).0 == s && 0 <= s.0 < ins.len()
            && ins[s.0] is Input,
{
    reveal(step_spec);
}

/// The state after a read at `s` received `b`; end of input stores zero.
pub open spec fn supply_spec(s: MachineState, b: Option<u8>) -> MachineState {
    let v: u8 = match b {
        Some(x) => x,
        None => 0,
    };
    (s.0 + 1, s.1, s.2.update(s.1, v))
}

/// At most `fuel` steps from `s` with `input` as the bytes still to be read:
/// the state reached and the bytes written.
pub open spec fn run_spec(
    ins: Seq<Instruction>,
    t: Seq<usize>,
    s: MachineState,
    input: Seq<u8>,
    fuel: nat,
) -> (MachineState, Seq<u8>)
    decreases fuel,
{
    if fuel == 0 {
        (s, Seq::empty())
    } else {
        let (s1, a) = step_spec(ins, t, s);
        match a {
            Action::Halt => (s, Seq::empty()),
            Action::Continue => run_spec(ins, t, s1, input, (fuel - 1) as nat),
            Action::Output(b) => {
                let (f, out) = run_spec(ins, t, s1, input, (fuel - 1) as nat);
                (f, seq![b] + out)
            },
            Action::Input => if input.len() == 0 {
                run_spec(ins, t, supply_spec(s, None), input, (fuel - 1) as nat)
            } else {
                run_spec(
                    ins,
                    t,
                    supply_spec(s, Some(input[0])),
                    input.drop_first(),
                    (fuel - 1) as nat,
                )
            },
        }
    }
}

/// An interpreter over a folded instruction stream and a zeroed tape.
pub struct Machine {
    instructions: Vec<Instruction>,
    targets: Vec<usize>,
    pc: usize,
    ptr: usize,
    tape: Vec<u8>,
}

impl Machine {
    /// The program being run.
    pub closed spec fn program(&self) -> Seq<Instruction> {
        self.instructions@
    }

    /// The partner of each loop instruction.
    pub closed spec fn partners(&self) -> Seq<usize> {
        self.targets@
    }

    /// Program counter, data pointer and tape.
    pub closed spec fn state(&self) -> MachineState {
        (self.pc as int, self.ptr as int, self.tape@)
    }

    pub closed spec fn wf(&self) -> bool {
        &&& matched(self.instructions@, self.targets@)
        &&& self.pc <= self.instructions@.len()
        &&& self.ptr < TAPE_LEN
        &&& self.tape@.len() == TAPE_LEN
    }

    /// A machine at the start of `instructions`, or `None` when its loops are
    /// not balanced.
    pub fn new(instructions: Vec<Instruction>) -> (r: Option<Machine>)
        ensures
            r is Some <==> ins_balanced(instructions@),
            r matches Some(m) ==> m.wf() && m.program() == instructions@ && m.state() == (
            0int,
            0int,
            Seq::new(TAPE_LEN as nat, |i: int| 0u8),
            ) && matched(instructions@, m.partners()),
    {
        match match_brackets(&instructions) {
            Some(targets) => {
                let tape: Vec<u8> = vec![0u8; TAPE_LEN];
                let m = Machine { instructions, targets, pc: 0, ptr: 0, tape };
                assert(m.tape@ =~= Seq::new(TAPE_LEN as nat, |i: int| 0u8));
                Some(m)
            },
            None => None,
        }
    }

    /// Index of the cell under the data pointer.
    pub fn pointer(&self) -> (r: usize)
        requires
            self.wf(),
        ensures
            r == self.state().1,
            r < TAPE_LEN,
    {
        self.ptr
    }

    /// Value of the cell at `i`.
    pub fn cell(&self, i: usize) -> (r: u8)
        requires
            self.wf(),
            i < TAPE_LEN,
        ensures
            r == self.state().2[i as int],
    {
        self.tape[i]
    }

    /// Runs the next instruction, except a read, which is left to `supply`.
    pub fn step(&mut self) -> (r: Action)
        requires
            old(self).wf(),
        ensures
            final(self).wf(),
            final(self).program() == old(self).program(),
            final(self).partners() == old(self).partners(),
            (final(self).state(), r) == step_spec(old(self).program(), old(self).partners(), old(self).state()),
    {
        reveal(step_spec);
        let pc = self.pc;
        if pc >= self.instructions.len() {
            return Action::Halt;
        }
        let ptr = self.ptr;
        let cur = self.tape[ptr];
        match self.instructions[pc] {
            Instruction::Add(d) => {
                self.tape.set(ptr, add_wrapping(cur, d));
                self.pc = pc + 1;
                Action::Continue
            },
            Instruction::Move(k) => {
                self.ptr = wrap_position(ptr, k);
                self.pc = pc + 1;
                Action::Continue
            },
            Instruction::Output => {
                self.pc = pc + 1;
                Action::Output(cur)
            },
            Instruction::Input => Action::Input,
            Instruction::JumpRight => {
                if cur == 0 {
                    self.pc = self.targets[pc] + 1;
                } else {
                    self.pc = pc + 1;
                }
                Action::Continue
            },
            Instruction::JumpLeft => {
                if cur != 0 {
                    self.pc = self.targets[pc];
                } else {
                    self.pc = pc + 1;
                }
                Action::Continue
            },
            Instruction::Clear => {
                self.tape.set(ptr, 0);
                self.pc = pc + 1;
                Action::Continue
            },
            Instruction::AddTo(k) => {
                let d = wrap_position(ptr, k);
                let sum = add_bytes(self.tape[d], cur);
                self.tape.set(d, sum);
                self.tape.set(ptr, 0);
                self.pc = pc + 1;
                Action::Continue
            },
            Instruction::MoveUntil(k) => {
                if cur == 0 {
                    self.pc = pc + 1;
                } else {
                    self.ptr = wrap_position(ptr, k);
                }
                Action::Continue
            },
        }
    }

    /// Completes the read at the program counter with `b`, or with zero at
    /// the end of input.
    pub fn supply(&mut self, b: Option<u8>)
        requires
            old(self).wf(),
            old(self).state().0 < old(self).program().len(),
            old(self).program()[old(self).state().0] is Input,
        ensures
            final(self).wf(),
            final(self).program() == old(self).program(),
            final(self).partners() == old(self).partners(),
            final(self).state() == supply_spec(old(self).state(), b),
    {
        let v: u8 = match b {
            Some(x) => x,
            None => 0,
        };
        let pc = self.pc;
        let ptr = self.ptr;
        let n = self.instructions.len();
        assert(pc < n);
        self.tape.set(ptr, v);
        self.pc = pc + 1;
    }

    /// Runs at most `max_steps` steps, reading from `input` (zero once it is
    /// used up), and returns the bytes written.
    pub fn run(&mut self, input: &[u8], max_steps: usize) -> (out: Vec<u8>)
        requires
            old(self).wf(),
        ensures
            final(self).wf(),
            final(self).program() == old(self).program(),
            final(self).partners() == old(self).partners(),
            (final(self).state(), out@) == run_spec(
                old(self).program(),
                old(self).partners(),
                old(self).state(),
                input@,
                max_steps as nat,
            ),
    {
        let ghost p = self.program();
        let ghost t = self.partners();
        let ghost s0 = self.state();
        let mut out: Vec<u8> = Vec::new();
        let mut k: usize = 0;
        let mut left: usize = max_steps;
        proof {
            assert(input@.subrange(0, input@.len() as int) =~= input@);
            assert(p == old(self).program());
            assert(t == old(self).partners());
            let o = run_spec(p, t, s0, input@, max_steps as nat).1;
            assert(out@ + o =~= o);
        }
        loop
            invariant
                self.wf(),
                p == old(self).program(),
                s0 == old(self).state(),
                t == old(self).partners(),
                self.program() == p,
                self.partners() == t,
                k <= input@.len(),
                left <= max_steps,
                run_spec(p, t, s0, input@, max_steps as nat) == (
                    run_spec(p, t, self.state(), input@.subrange(k as int, input@.len() as int), left as nat).0,
                    out@ + run_spec(p, t, self.state(), input@.subrange(k as int, input@.len() as int), left as nat).1,
                ),
            decreases left,
        {
            let ghost rest = input@.subrange(k as int, input@.len() as int);
            let ghost cur = self.state();
            if left == 0 {
                assert(out@ + Seq::<u8>::empty() =~= out@);
                return out;
            }
            proof {
                lemma_step_waits(p, t, cur);
            }
            match self.step() {
                Action::Halt => {
                    assert(out@ + Seq::<u8>::empty() =~= out@);
                    return out;
                },
                Action::Continue => {},
                Action::Output(b) => {
                    let ghost before = out@;
                    out.push(b);
                    proof {
                        let o = run_spec(p, t, self.state(), rest, (left - 1) as nat).1;
                        assert(before + (seq![b] + o) =~= out@ + o);
                    }
                },
                Action::Input => {
                    if k < input.len() {
                        self.supply(Some(input[k]));
                        assert(input@.subrange(k + 1, input@.len() as int) =~= rest.drop_first());
                        k = k + 1;
                    } else {
                        self.supply(None);
                    }
                },
            }
            left = left - 1;
        }
    }
}

/// The state of a fresh run: first instruction, first cell, zeroed tape.
pub open spec fn initial_state() -> MachineState {
    (0, 0, Seq::new(30000, |i: int| 0u8))
}

/// Folds `source` with every idiom, `MoveUntil` included, and runs it for at
/// most `max_steps` steps on `input` (zero once it is used up); returns the
/// bytes written, or the bracket error. The pairing of loops that the run
/// follows is the only one there is (`partners_unique`).
pub fn interpret(source: &[u8], input: &[u8], max_steps: usize) -> (r: Result<Vec<u8>, RunError>)
    ensures
        fold_spec(source@, true) matches Err(e) ==> r == Err::<Vec<u8>, RunError>(e),
        fold_spec(source@, true) matches Ok(ins) ==> (r matches Ok(out) && exists|t: Seq<usize>|
            matched(ins, t) && #[trigger] run_spec(ins, t, initial_state(), input@, max_steps as nat).1
                == out@),
{
    let len = source.len();
    proof {
        assert(source@.len() == len);
        fold_accepts_balanced(source@, true);
    }
    match fold(source, true) {
        Ok(ins) => {
            let ghost ins_seq = ins@;
            match Machine::new(ins) {
                Some(mut m) => {
                    let ghost t = m.partners();
                    assert(m.state() =~= initial_state());
                    let out = m.run(input, max_steps);
                    assert(matched(ins_seq, t));
                    assert(run_spec(ins_seq, t, initial_state(), input@, max_steps as nat).1 == out@);
                    Ok(out)
                },
                None => Ok(Vec::new()),
            }
        },
        Err(e) => Err(e),
    }
}

} // verus!
