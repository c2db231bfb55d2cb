//! The instructions of the intermediate representation, and the machine
//! that gives them their meaning.

use vstd::prelude::*;
use vstd::slice::slice_to_vec;

verus! {

/// One instruction of the intermediate representation. Every offset is
/// relative to the cursor at the moment the instruction executes.
#[derive(Debug, PartialEq)]
pub enum Instruction {
    /// Add the byte, modulo 256, to the cell at the offset.
    Add(u8, isize),
    /// Displace the cursor.
    Move(isize),
    /// Run the body for as long as the cell under the cursor is not zero.
    Loop(Vec<Instruction>),
    /// Read one byte of input into the cell at the offset.
    Read(isize),
    /// Write the cell at the offset to the output.
    Write(isize),
    /// Store the byte in the cell at the offset.
    Assign(u8, isize),
}

/// The number of cells of the tape.
pub const MEMORY_SIZE: usize = 30000;

/// The mathematical model of an instruction: the same tree, with sequences
/// in place of vectors. Programs are compared and reasoned about as
/// `Seq<Op>`.
pub enum Op {
    Add(u8, isize),
    Move(isize),
    Loop(Seq<Op>),
    Read(isize),
    Write(isize),
    Assign(u8, isize),
}

/// The model of one instruction.
pub open spec fn op_of(i: Instruction) -> Op
    decreases i,
{
    match i {
        Instruction::Add(v, o) => Op::Add(v, o),
        Instruction::Move(o) => Op::Move(o),
        Instruction::Loop(body) => Op::Loop(
            Seq::new(
                body.len() as nat,
                |k: int|
                    if 0 <= k < body.len() {
                        op_of(body[k])
                    } else {
                        Op::Move(0)
                    },
            ),
        ),
        Instruction::Read(o) => Op::Read(o),
        Instruction::Write(o) => Op::Write(o),
        Instruction::Assign(v, o) => Op::Assign(v, o),
    }
}

impl DeepView for Instruction {
    type V = Op;

    open spec fn deep_view(&self) -> Op {
        op_of(*self)
    }
}

/// A loop's model is the loop of its body's model.
pub proof fn lemma_loop_model(body: Vec<Instruction>)
    ensures
        op_of(Instruction::Loop(body)) == Op::Loop(body.deep_view()),
{
    assert(op_of(Instruction::Loop(body))->Loop_0 =~= body.deep_view());
}

/// The number of loops in an instruction, nested ones included.
pub open spec fn op_loop_count(op: Op) -> nat
    decreases op,
{
    match op {
        Op::Loop(body) => 1 + loop_count(body),
        _ => 0,
    }
}

/// The number of loops in a program, nested ones included.
pub open spec fn loop_count(code: Seq<Op>) -> nat
    decreases code,
{
    if code.len() == 0 {
        0
    } else {
        loop_count(code.drop_last()) + op_loop_count(code.last())
    }
}

/// A deep copy of a program.
pub fn copy_of(code: &Vec<Instruction>) -> (copy: Vec<Instruction>)
    ensures
        copy.deep_view() == code.deep_view(),
    decreases code,
{
    let mut copy: Vec<Instruction> = Vec::new();
    let mut i: usize = 0;
    while i < code.len()
        invariant
            i <= code.len(),
            copy.len() == i,
            forall|j: int| 0 <= j < i ==> op_of(copy[j]) == op_of(code[j]),
        decreases code.len() - i,
    {
        let next = match &code[i] {
            Instruction::Add(v, o) => Instruction::Add(*v, *o),
            Instruction::Move(o) => Instruction::Move(*o),
            Instruction::Read(o) => Instruction::Read(*o),
            Instruction::Write(o) => Instruction::Write(*o),
            Instruction::Assign(v, o) => Instruction::Assign(*v, *o),
            Instruction::Loop(body) => {
                let inner = copy_of(body);
                proof {
                    lemma_loop_model(inner);
                    lemma_loop_model(*body);
                }
                Instruction::Loop(inner)
            },
        };
        copy.push(next);
        i += 1;
    }
    assert(copy.deep_view() =~= code.deep_view());
    copy
}

impl Clone for Instruction {
    fn clone(&self) -> (copy: Self)
        ensures
            copy.deep_view() == self.deep_view(),
    {
        match self {
            Instruction::Add(v, o) => Instruction::Add(*v, *o),
            Instruction::Move(o) => Instruction::Move(*o),
            Instruction::Read(o) => Instruction::Read(*o),
            Instruction::Write(o) => Instruction::Write(*o),
            Instruction::Assign(v, o) => Instruction::Assign(*v, *o),
            Instruction::Loop(body) => {
                let inner = copy_of(body);
                proof {
                    lemma_loop_model(inner);
                    lemma_loop_model(*body);
                }
                Instruction::Loop(inner)
            },
        }
    }
}

/// Structural equality of two programs.
pub fn same_code(a: &Vec<Instruction>, b: &Vec<Instruction>) -> (same: bool)
    ensures
        same == (a.deep_view() == b.deep_view()),
    decreases a,
{
    if a.len() != b.len() {
        assert(a.deep_view().len() != b.deep_view().len());
        return false;
    }
    let mut i: usize = 0;
    while i < a.len()
        invariant
            a.len() == b.len(),
            i <= a.len(),
            forall|j: int| 0 <= j < i ==> op_of(a[j]) == op_of(b[j]),
        decreases a.len() - i,
    {
        let same = match (&a[i], &b[i]) {
            (Instruction::Add(v, o), Instruction::Add(w, p)) => *v == *w && *o == *p,
            (Instruction::Assign(v, o), Instruction::Assign(w, p)) => *v == *w && *o == *p,
            (Instruction::Move(o), Instruction::Move(p)) => *o == *p,
            (Instruction::Read(o), Instruction::Read(p)) => *o == *p,
            (Instruction::Write(o), Instruction::Write(p)) => *o == *p,
            (Instruction::Loop(x), Instruction::Loop(y)) => {
                proof {
                    lemma_loop_model(*x);
                    lemma_loop_model(*y);
                }
                same_code(x, y)
            },
            _ => false,
        };
        if !same {
            assert(a.deep_view()[i as int] != b.deep_view()[i as int]);
            return false;
        }
        i += 1;
    }
    assert(a.deep_view() =~= b.deep_view());
    true
}

/// Why a run of the machine stopped short.
#[derive(Debug, Clone, Copy, PartialEq, Eq)]
pub enum RuntimeError {
    /// An instruction reached outside the tape.
    OutOfMemoryBounds,
    /// A loop went round more often than the caller allowed.
    LoopLimit,
}

/// The model of the machine: the tape, the cursor, the input not yet read
/// and the output written so far.
pub struct Machine {
    pub memory: Seq<u8>,
    pub cursor: int,
    pub input: Seq<u8>,
    pub output: Seq<u8>,
}

/// The sum of two bytes, modulo 256.
pub open spec fn byte_sum(a: u8, b: u8) -> u8 {
    ((a + b) % 256) as u8
}

/// The tape has its full length and the cursor stands on it.
pub open spec fn machine_wf(machine: Machine) -> bool {
    machine.memory.len() == MEMORY_SIZE && 0 <= machine.cursor < MEMORY_SIZE
}

/// The machine before a run: a tape of zeros, the cursor on its first cell,
/// all the input unread and nothing written.
pub open spec fn initial_machine(input: Seq<u8>) -> Machine {
    Machine {
        memory: Seq::new(MEMORY_SIZE as nat, |i: int| 0u8),
        cursor: 0,
        input,
        output: Seq::empty(),
    }
}

/// The cell at `offset` from the cursor, if it lies on the tape.
pub open spec fn located(machine: Machine, offset: isize) -> Result<int, RuntimeError> {
    let location = machine.cursor + offset;
    if 0 <= location < MEMORY_SIZE {
        Ok(location)
    } else {
        Err(RuntimeError::OutOfMemoryBounds)
    }
}

/// The machine after one instruction that is not a loop.
///
/// - `Add` adds to the cell, modulo 256; `Assign` overwrites it.
/// - `Move` displaces the cursor.
/// - `Write` appends the cell to the output.
/// - `Read` moves the next byte of the input into the cell; at the end of
///   the input it leaves the cell as it is.
///
/// Each of them fails where it reaches outside the tape.
pub open spec fn stepped(machine: Machine, op: Op) -> Result<Machine, RuntimeError> {
    match op {
        Op::Add(value, offset) => match located(machine, offset) {
            Ok(at) => Ok(
                Machine {
                    memory: machine.memory.update(at, byte_sum(value, machine.memory[at])),
                    ..machine
                },
            ),
            Err(error) => Err(error),
        },
        Op::Assign(value, offset) => match located(machine, offset) {
            Ok(at) => Ok(Machine { memory: machine.memory.update(at, value), ..machine }),
            Err(error) => Err(error),
        },
        Op::Move(offset) => match located(machine, offset) {
            Ok(at) => Ok(Machine { cursor: at, ..machine }),
            Err(error) => Err(error),
        },
        Op::Write(offset) => match located(machine, offset) {
            Ok(at) => Ok(Machine { output: machine.output.push(machine.memory[at]), ..machine }),
            Err(error) => Err(error),
        },
        Op::Read(offset) => match located(machine, offset) {
            Ok(at) => if machine.input.len() > 0 {
                Ok(
                    Machine {
                        memory: machine.memory.update(at, machine.input[0]),
                        input: machine.input.skip(1),
                        ..machine
                    },
                )
            } else {
                Ok(machine)
            },
            Err(error) => Err(error),
        },
        Op::Loop(_) => Ok(machine),
    }
}

/// The machine after a loop that has gone round `round` times already: the
/// body runs for as long as the cell under the cursor is not zero, and no
/// more than `limit` times in all.
pub open spec fn looped(body: Seq<Op>, machine: Machine, limit: nat, round: nat) -> Result<
    Machine,
    RuntimeError,
>
    decreases body, limit - round + 1,
{
    if machine.memory[machine.cursor] == 0 {
        Ok(machine)
    } else if round >= limit {
        Err(RuntimeError::LoopLimit)
    } else {
        match ran(body, machine, limit) {
            Ok(next) => looped(body, next, limit, round + 1),
            Err(error) => Err(error),
        }
    }
}

/// The machine after one instruction.
pub open spec fn performed(op: Op, machine: Machine, limit: nat) -> Result<Machine, RuntimeError>
    decreases op, 0nat,
{
    match op {
        Op::Loop(body) => looped(body, machine, limit, 0),
        _ => stepped(machine, op),
    }
}

/// The machine after a program, run from left to right until it ends or an
/// instruction fails. No loop may go round more than `limit` times.
pub open spec fn ran(code: Seq<Op>, machine: Machine, limit: nat) -> Result<Machine, RuntimeError>
    decreases code, 0nat,
{
    if code.len() == 0 {
        Ok(machine)
    } else {
        match ran(code.drop_last(), machine, limit) {
            Ok(next) => performed(code.last(), next, limit),
            Err(error) => Err(error),
        }
    }
}

/// What a finished run leaves: the cell under the cursor and the output.
pub open spec fn result_of(machine: Machine) -> (u8, Seq<u8>) {
    (machine.memory[machine.cursor], machine.output)
}

/// A tape of zeros.
fn blank_tape() -> (memory: Vec<u8>)
    ensures
        memory@ == initial_machine(Seq::empty()).memory,
{
    let mut memory: Vec<u8> = Vec::new();
    let mut i: usize = 0;
    while i < MEMORY_SIZE
        invariant
            i <= MEMORY_SIZE,
            memory.len() == i,
            forall|j: int| 0 <= j < i ==> memory[j] == 0,
        decreases MEMORY_SIZE - i,
    {
        memory.push(0);
        i += 1;
    }
    assert(memory@ =~= initial_machine(Seq::empty()).memory);
    memory
}

/// The machine that gives programs their meaning: a tape of 30000 cells
/// and a cursor, with the input that it reads from and the output that it
/// writes.
pub struct VM {
    pub memory: Vec<u8>,
    pub cursor: usize,
    pub input: Vec<u8>,
    pub consumed: usize,
    pub output: Vec<u8>,
}

impl View for VM {
    type V = Machine;

    open spec fn view(&self) -> Machine {
        Machine {
            memory: self.memory@,
            cursor: self.cursor as int,
            input: self.input@.skip(self.consumed as int),
            output: self.output@,
        }
    }
}

impl VM {
    /// The tape has its full length, the cursor stands on it, and no more
    /// input has been read than there is.
    pub open spec fn wf(&self) -> bool {
        machine_wf(self@) && self.consumed <= self.input.len()
    }

    /// The machine before a run, with nothing to read.
    pub fn new() -> (vm: Self)
        ensures
            vm.wf(),
            vm@ == initial_machine(Seq::empty()),
    {
        let vm = VM {
            memory: blank_tape(),
            cursor: 0,
            input: Vec::new(),
            consumed: 0,
            output: Vec::new(),
        };
        assert(vm@.input =~= Seq::<u8>::empty());
        vm
    }

    /// The machine before a run that reads the given input.
    pub fn with_input(input: &[u8]) -> (vm: Self)
        ensures
            vm.wf(),
            vm@ == initial_machine(input@),
    {
        let vm = VM {
            memory: blank_tape(),
            cursor: 0,
            input: slice_to_vec(input),
            consumed: 0,
            output: Vec::new(),
        };
        assert(vm@.input =~= input@);
        vm
    }

    /// The index of the cell at `offset` from the cursor, or the error if
    /// it lies outside the tape.
    pub fn compute_offset(&self, offset: isize) -> (outcome: Result<usize, RuntimeError>)
        requires
            self.wf(),
        ensures
            match located(self@, offset) {
                Ok(at) => outcome == Ok::<usize, RuntimeError>(at as usize),
                Err(error) => outcome == Err::<usize, RuntimeError>(error),
            },
    {
        let limit = MEMORY_SIZE as isize;
        match (self.cursor as isize).checked_add(offset) {
            Some(location) => {
                if location < 0 || location >= limit {
                    Err(RuntimeError::OutOfMemoryBounds)
                } else {
                    Ok(location as usize)
                }
            },
            None => Err(RuntimeError::OutOfMemoryBounds),
        }
    }

    /// Performs one instruction that is not a loop.
    fn step(&mut self, instruction: &Instruction) -> (outcome: Result<(), RuntimeError>)
        requires
            old(self).wf(),
            !(instruction.deep_view() is Loop),
        ensures
            final(self).wf(),
            match stepped(old(self)@, instruction.deep_view()) {
                Ok(next) => outcome is Ok && final(self)@ == next,
                Err(error) => outcome == Err::<(), RuntimeError>(error),
            },
    {
        match instruction {
            Instruction::Add(v, offset) => {
                let loc = self.compute_offset(*offset)?;
                let sum = v.wrapping_add(self.memory[loc]);
                self.memory.set(loc, sum);
            },
            Instruction::Move(offset) => {
                let loc = self.compute_offset(*offset)?;
                self.cursor = loc;
            },
            Instruction::Write(offset) => {
                let loc = self.compute_offset(*offset)?;
                self.output.push(self.memory[loc]);
            },
            Instruction::Read(offset) => {
                let loc = self.compute_offset(*offset)?;
                if self.consumed < self.input.len() {
                    let byte = self.input[self.consumed];
                    self.memory.set(loc, byte);
                    self.consumed = self.consumed + 1;
                    assert(self@.input =~= old(self)@.input.skip(1));
                }
            },
            Instruction::Assign(v, offset) => {
                let loc = self.compute_offset(*offset)?;
                self.memory.set(loc, *v);
            },
            Instruction::Loop(_) => {},
        }
        Ok(())
    }

    /// Runs a program on this machine.
    fn rec_run(&mut self, code: &Vec<Instruction>, limit: usize) -> (outcome: Result<
        (),
        RuntimeError,
    >)
        requires
            old(self).wf(),
        ensures
            final(self).wf(),
            match ran(code.deep_view(), old(self)@, limit as nat) {
                Ok(end) => outcome is Ok && final(self)@ == end,
                Err(error) => outcome == Err::<(), RuntimeError>(error),
            },
        decreases code,
    {
        let ghost ops = code.deep_view();
        let ghost start = self@;
        let mut i: usize = 0;
        assert(ops.take(0) =~= Seq::<Op>::empty());
        while i < code.len()
            invariant
                ops == code.deep_view(),
                start == old(self)@,
                i <= code.len(),
                self.wf(),
                ran(ops.take(i as int), start, limit as nat) == Ok::<Machine, RuntimeError>(self@),
            decreases code.len() - i,
        {
            proof {
                assert(ops.take(i + 1).drop_last() =~= ops.take(i as int));
                assert(ops.take(i + 1).last() == code[i as int].deep_view());
            }
            let ghost here = self@;
            match &code[i] {
                Instruction::Loop(inner_instr) => {
                    proof {
                        lemma_loop_model(*inner_instr);
                    }
                    let ghost body = inner_instr.deep_view();
                    let mut round: usize = 0;
                    assert(performed(ops[i as int], here, limit as nat) == looped(
                        body,
                        here,
                        limit as nat,
                        0,
                    ));
                    while self.memory[self.cursor] > 0
                        invariant
                            ops == code.deep_view(),
                            start == old(self)@,
                            i < code.len(),
                            code[i as int] == Instruction::Loop(*inner_instr),
                            body == inner_instr.deep_view(),
                            self.wf(),
                            round <= limit,
                            ran(ops.take(i + 1), start, limit as nat) == looped(
                                body,
                                self@,
                                limit as nat,
                                round as nat,
                            ),
                        decreases limit - round,
                    {
                        if round >= limit {
                            proof {
                                lemma_run_failure_stays(ops, i + 1, start, limit as nat);
                            }
                            return Err(RuntimeError::LoopLimit);
                        }
                        match self.rec_run(inner_instr, limit) {
                            Ok(()) => {},
                            Err(error) => {
                                proof {
                                    lemma_run_failure_stays(ops, i + 1, start, limit as nat);
                                }
                                return Err(error);
                            },
                        }
                        round += 1;
                    }
                },
                other => {
                    assert(performed(ops[i as int], here, limit as nat) == stepped(
                        here,
                        ops[i as int],
                    ));
                    match self.step(other) {
                        Ok(()) => {},
                        Err(error) => {
                            proof {
                                lemma_run_failure_stays(ops, i + 1, start, limit as nat);
                            }
                            return Err(error);
                        },
                    }
                },
            }
            i += 1;
        }
        assert(ops.take(code.len() as int) =~= ops);
        Ok(())
    }

    /// Runs a program from the initial machine on the given input. A run
    /// that ends gives the cell under the cursor and the output; one that
    /// reaches outside the tape, or in which a loop goes round more than
    /// `limit` times, gives the error.
    pub fn run(code: &Vec<Instruction>, input: &[u8], limit: usize) -> (outcome: Result<
        (u8, Vec<u8>),
        RuntimeError,
    >)
        ensures
            match ran(code.deep_view(), initial_machine(input@), limit as nat) {
                Ok(end) => outcome matches Ok((cell, output)) && (cell, output@) == result_of(end),
                Err(error) => outcome matches Err(e) && e == error,
            },
    {
        let mut vm = VM::with_input(input);
        match vm.rec_run(code, limit) {
            Ok(()) => Ok((vm.memory[vm.cursor], vm.output)),
            Err(error) => Err(error),
        }
    }
}

/// A run that has failed stays failed, whatever follows.
pub proof fn lemma_run_failure_stays(code: Seq<Op>, n: int, machine: Machine, limit: nat)
    requires
        0 <= n <= code.len(),
        ran(code.take(n), machine, limit) is Err,
    ensures
        ran(code, machine, limit) == ran(code.take(n), machine, limit),
    decreases code.len() - n,
{
    if n < code.len() {
        assert(code.take(n + 1).drop_last() =~= code.take(n));
        lemma_run_failure_stays(code, n + 1, machine, limit);
    } else {
        assert(code.take(n) =~= code);
    }
}

} // verus!
