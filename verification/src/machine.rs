//! The emulator: registers, memory, a program counter over instruction
//! slots, and the fetch-decode-execute cycle that drives them.

use vstd::prelude::*;
use crate::isa::{decode, decoding, Instruction, FLAG_REGISTER};

verus! {

/// The memory address whose writes are also emitted as output.
pub const OUTPUT_PORT: u8 = 0xFF;

/// Largest program, in bytes, that a machine accepts: 256 slots.
pub const PROGRAM_CAPACITY: usize = 512;

/// The state of a machine as a mathematical value: sixteen registers, 256
/// memory cells, and the slot the program counter points at.
pub struct MachineState {
    pub registers: Seq<u8>,
    pub memory: Seq<u8>,
    pub pc: nat,
}

/// What one turn of the fetch-decode-execute cycle did.
#[derive(Clone, Copy, Debug, PartialEq, Eq)]
pub enum Step {
    /// The program counter is at or past the end of the program; nothing
    /// changed.
    Halted,
    /// The two bytes at the program counter are no instruction; nothing
    /// changed.
    Fault,
    /// One instruction was executed. `output` is the byte it wrote to the
    /// output port, if it wrote there.
    Ran { output: Option<u8> },
}

/// Why a run ended.
#[derive(Clone, Copy, Debug, PartialEq, Eq)]
pub enum Stop {
    /// The program counter left the program.
    Halted,
    /// An unknown instruction was met.
    Fault,
    /// The allowed number of instructions was executed and the program has
    /// not ended.
    StepLimit,
}

/// A run as a mathematical value: the state it ended in, why it ended, and
/// the bytes written to the output port, in order.
pub struct RunView {
    pub state: MachineState,
    pub stop: Stop,
    pub output: Seq<u8>,
}

/// What a run reports: why it ended and the bytes written to the output
/// port, in order.
#[derive(Debug, PartialEq, Eq)]
pub struct Run {
    pub stop: Stop,
    pub output: Vec<u8>,
}

/// A program is too long to be loaded.
#[derive(Clone, Copy, Debug, PartialEq, Eq)]
pub struct ProgramTooLarge;

impl MachineState {
    /// The state has sixteen registers and 256 memory cells.
    pub open spec fn well_formed(self) -> bool {
        self.registers.len() == 16 && self.memory.len() == 256
    }

    /// The state a machine starts in: every register and memory cell zero,
    /// the program counter at slot zero.
    pub open spec fn initial() -> MachineState {
        MachineState {
            registers: Seq::new(16, |i: int| 0u8),
            memory: Seq::new(256, |i: int| 0u8),
            pc: 0,
        }
    }

    /// The state with register `x` set to `value`.
    pub open spec fn with_register(self, x: u8, value: u8) -> MachineState {
        MachineState { registers: self.registers.update(x as int, value), ..self }
    }

    /// The state with the program counter moved to `pc`.
    pub open spec fn at(self, pc: nat) -> MachineState {
        MachineState { pc, ..self }
    }
}

/// Number of whole instruction slots in a program; a trailing odd byte is
/// no slot.
pub open spec fn slot_count(program: Seq<u8>) -> nat {
    program.len() / 2
}

/// The two bytes of slot `pc`: those at offsets `2 * pc` and `2 * pc + 1`.
pub open spec fn fetched(program: Seq<u8>, pc: nat) -> (u8, u8) {
    let offset = 2 * (pc as int);
    (program[offset], program[offset + 1])
}

/// The low byte of a sum or difference computed without bounds.
pub open spec fn low_byte(value: int) -> u8 {
    (value % 256) as u8
}

/// The state after `instruction` has been executed in `state`, the program
/// counter included: a jump sets it, a conditional whose test holds moves it
/// two slots on, and everything else moves it one slot on.
pub open spec fn execute(state: MachineState, instruction: Instruction) -> MachineState {
    let r = state.registers;
    let next = state.pc + 1;
    match instruction {
        Instruction::Jump { target } => state.at(target as nat),
        Instruction::IfEq { x, y } => state.at(
            if r[x as int] == r[y as int] {
                next + 1
            } else {
                next
            },
        ),
        Instruction::IfNeq { x, y } => state.at(
            if r[x as int] != r[y as int] {
                next + 1
            } else {
                next
            },
        ),
        Instruction::IfLe { x, y } => state.at(
            if r[x as int] <= r[y as int] {
                next + 1
            } else {
                next
            },
        ),
        Instruction::SetRr { x, y } => state.with_register(x, r[y as int]).at(next),
        Instruction::SetRpc { x } => state.with_register(x, low_byte(state.pc as int)).at(next),
        Instruction::SetRm { x, addr } => state.with_register(x, state.memory[addr as int]).at(
            next,
        ),
        Instruction::SetRc { x, value } => state.with_register(x, value).at(next),
        Instruction::SetPcr { x } => state.at(r[x as int] as nat),
        Instruction::SetMr { x, addr } => MachineState {
            memory: state.memory.update(addr as int, r[x as int]),
            ..state
        }.at(next),
        Instruction::Add { x, y } => {
            let sum = r[x as int] + r[y as int];
            state.with_register(x, low_byte(sum)).with_register(
                FLAG_REGISTER,
                if sum > 255 {
                    1
                } else {
                    0
                },
            ).at(next)
        },
        Instruction::Sub { x, y } => {
            let difference = r[x as int] - r[y as int];
            state.with_register(x, low_byte(difference)).with_register(
                FLAG_REGISTER,
                if difference < 0 {
                    1
                } else {
                    0
                },
            ).at(next)
        },
        Instruction::And { x, y } => state.with_register(x, r[x as int] & r[y as int]).at(next),
        Instruction::Or { x, y } => state.with_register(x, r[x as int] | r[y as int]).at(next),
        Instruction::Xor { x, y } => state.with_register(x, r[x as int] ^ r[y as int]).at(next),
        Instruction::Not { x } => state.with_register(x, !r[x as int]).at(next),
    }
}

/// The byte that `instruction`, executed in `state`, sends to the output:
/// the stored register for a store to the output port, and nothing for
/// every other instruction and address.
pub open spec fn emitted(state: MachineState, instruction: Instruction) -> Option<u8> {
    match instruction {
        Instruction::SetMr { x, addr } => if addr == OUTPUT_PORT {
            Some(state.registers[x as int])
        } else {
            None
        },
        _ => None,
    }
}

/// One turn of the cycle on `state` with `program` loaded: the state after
/// it and what happened. Past the last slot the machine has halted; on two
/// bytes that are no instruction it faults; either way the state stays.
pub open spec fn step_of(state: MachineState, program: Seq<u8>) -> (MachineState, Step) {
    if state.pc >= slot_count(program) {
        (state, Step::Halted)
    } else {
        let (b0, b1) = fetched(program, state.pc);
        match decoding(b0, b1) {
            None => (state, Step::Fault),
            Some(instruction) => (
                execute(state, instruction),
                Step::Ran { output: emitted(state, instruction) },
            ),
        }
    }
}

/// The run that starts in `state` and executes at most `limit`
/// instructions.
pub open spec fn run_of(state: MachineState, program: Seq<u8>, limit: nat) -> RunView
    decreases limit,
{
    match step_of(state, program) {
        (_, Step::Halted) => RunView { state, stop: Stop::Halted, output: Seq::empty() },
        (_, Step::Fault) => RunView { state, stop: Stop::Fault, output: Seq::empty() },
        (next, Step::Ran { output }) => if limit == 0 {
            RunView { state, stop: Stop::StepLimit, output: Seq::empty() }
        } else {
            let rest = run_of(next, program, (limit - 1) as nat);
            RunView {
                output: match output {
                    Some(byte) => seq![byte] + rest.output,
                    None => rest.output,
                },
                ..rest
            }
        },
    }
}

/// A machine with a program loaded.
pub struct Machine {
    registers: [u8; 16],
    memory: [u8; 256],
    pc: u16,
    program: Vec<u8>,
}

impl View for Machine {
    type V = MachineState;

    closed spec fn view(&self) -> MachineState {
        MachineState { registers: self.registers@, memory: self.memory@, pc: self.pc as nat }
    }
}

impl Machine {
    #[verifier::type_invariant]
    spec fn fits(&self) -> bool {
        self.program@.len() <= PROGRAM_CAPACITY
    }

    /// The bytes of the loaded program.
    pub closed spec fn program(&self) -> Seq<u8> {
        self.program@
    }

    /// Loads `program` into a fresh machine. A program of more than 512
    /// bytes does not fit and is refused.
    pub fn new(program: Vec<u8>) -> (loaded: Result<Machine, ProgramTooLarge>)
        ensures
            program@.len() <= PROGRAM_CAPACITY <==> loaded is Ok,
            loaded matches Ok(machine) ==> machine@ == MachineState::initial()
                && machine.program() == program@,
    {
        if program.len() > PROGRAM_CAPACITY {
            return Err(ProgramTooLarge);
        }
        let machine = Machine { registers: [0u8; 16], memory: [0u8; 256], pc: 0, program };
        assert(machine@.registers =~= MachineState::initial().registers);
        assert(machine@.memory =~= MachineState::initial().memory);
        Ok(machine)
    }

    /// The registers, V0 first.
    pub fn registers(&self) -> (registers: &[u8; 16])
        ensures
            registers@ == self@.registers,
    {
        &self.registers
    }

    /// The memory cells, address zero first.
    pub fn memory(&self) -> (memory: &[u8; 256])
        ensures
            memory@ == self@.memory,
    {
        &self.memory
    }

    /// The slot the program counter points at.
    pub fn pc(&self) -> (pc: u16)
        ensures
            pc == self@.pc,
    {
        self.pc
    }

    /// Fetches the two bytes of the slot at the program counter, or `None`
    /// where the program counter is at or past the end of the program.
    pub fn fetch(&self) -> (bytes: Option<(u8, u8)>)
        ensures
            bytes == (if self@.pc >= slot_count(self.program()) {
                None
            } else {
                Some(fetched(self.program(), self@.pc))
            }),
            self@.well_formed(),
            bytes is Some ==> self@.pc < 256,
    {
        proof {
            use_type_invariant(self);
        }
        let slots = self.program.len() / 2;
        let pc = self.pc as usize;
        if pc >= slots {
            None
        } else {
            Some((self.program[2 * pc], self.program[2 * pc + 1]))
        }
    }

    /// Executes `instruction` and returns what it sent to the output.
    fn apply(&mut self, instruction: Instruction) -> (output: Option<u8>)
        requires
            instruction.well_formed(),
            old(self)@.pc < 256,
        ensures
            final(self)@ == execute(old(self)@, instruction),
            output == emitted(old(self)@, instruction),
            final(self).program() == old(self).program(),
    {
        proof {
            use_type_invariant(&*self);
        }
        let mut output: Option<u8> = None;
        let next: u16 = self.pc + 1;
        match instruction {
            Instruction::Jump { target } => {
                self.pc = target as u16;
            },
            Instruction::IfEq { x, y } => {
                self.pc = if self.registers[x as usize] == self.registers[y as usize] {
                    next + 1
                } else {
                    next
                };
            },
            Instruction::IfNeq { x, y } => {
                self.pc = if self.registers[x as usize] != self.registers[y as usize] {
                    next + 1
                } else {
                    next
                };
            },
            Instruction::IfLe { x, y } => {
                self.pc = if self.registers[x as usize] <= self.registers[y as usize] {
                    next + 1
                } else {
                    next
                };
            },
            Instruction::SetRr { x, y } => {
                self.registers[x as usize] = self.registers[y as usize];
                self.pc = next;
            },
            Instruction::SetRpc { x } => {
                self.registers[x as usize] = self.pc as u8;
                self.pc = next;
            },
            Instruction::SetRm { x, addr } => {
                self.registers[x as usize] = self.memory[addr as usize];
                self.pc = next;
            },
            Instruction::SetRc { x, value } => {
                self.registers[x as usize] = value;
                self.pc = next;
            },
            Instruction::SetPcr { x } => {
                self.pc = self.registers[x as usize] as u16;
            },
            Instruction::SetMr { x, addr } => {
                let value = self.registers[x as usize];
                if addr == OUTPUT_PORT {
                    output = Some(value);
                }
                self.memory[addr as usize] = value;
                self.pc = next;
            },
            Instruction::Add { x, y } => {
                let sum: u16 = self.registers[x as usize] as u16 + self.registers[y as usize] as u16;
                self.registers[x as usize] = (sum % 256) as u8;
                self.registers[FLAG_REGISTER as usize] = if sum > 0xFF {
                    1
                } else {
                    0
                };
                self.pc = next;
            },
            Instruction::Sub { x, y } => {
                let a = self.registers[x as usize];
                let b = self.registers[y as usize];
                if b > a {
                    self.registers[x as usize] = (256u16 + a as u16 - b as u16) as u8;
                    self.registers[FLAG_REGISTER as usize] = 1;
                } else {
                    self.registers[x as usize] = a - b;
                    self.registers[FLAG_REGISTER as usize] = 0;
                }
                self.pc = next;
            },
            Instruction::And { x, y } => {
                self.registers[x as usize] = self.registers[x as usize] & self.registers[y as usize];
                self.pc = next;
            },
            Instruction::Or { x, y } => {
                self.registers[x as usize] = self.registers[x as usize] | self.registers[y as usize];
                self.pc = next;
            },
            Instruction::Xor { x, y } => {
                self.registers[x as usize] = self.registers[x as usize] ^ self.registers[y as usize];
                self.pc = next;
            },
            Instruction::Not { x } => {
                self.registers[x as usize] = !self.registers[x as usize];
                self.pc = next;
            },
        }
        assert(self@.registers =~= execute(old(self)@, instruction).registers);
        assert(self@.memory =~= execute(old(self)@, instruction).memory);
        output
    }

    /// Runs one turn of the fetch-decode-execute cycle.
    pub fn step(&mut self) -> (step: Step)
        ensures
            (final(self)@, step) == step_of(old(self)@, old(self).program()),
            final(self).program() == old(self).program(),
    {
        let (b0, b1) = match self.fetch() {
            None => {
                return Step::Halted;
            },
            Some(bytes) => bytes,
        };
        match decode(b0, b1) {
            None => Step::Fault,
            Some(instruction) => {
                let output = self.apply(instruction);
                Step::Ran { output }
            },
        }
    }

    /// Runs the machine until the program ends, an unknown instruction is
    /// met, or `limit` instructions have been executed, and collects the
    /// output on the way.
    pub fn run_for(&mut self, limit: u64) -> (run: Run)
        ensures
            run_of(old(self)@, old(self).program(), limit as nat) == (RunView {
                state: final(self)@,
                stop: run.stop,
                output: run.output@,
            }),
            final(self).program() == old(self).program(),
    {
        let ghost whole = run_of(self@, self.program(), limit as nat);
        let mut output: Vec<u8> = Vec::new();
        let mut left: u64 = limit;
        loop
            invariant
                self.program() == old(self).program(),
                whole.state == run_of(self@, self.program(), left as nat).state,
                whole.stop == run_of(self@, self.program(), left as nat).stop,
                whole.output == output@ + run_of(self@, self.program(), left as nat).output,
                whole == run_of(old(self)@, old(self).program(), limit as nat),
            decreases left,
        {
            let (b0, b1) = match self.fetch() {
                None => {
                    assert(output@ + Seq::<u8>::empty() =~= output@);
                    return Run { stop: Stop::Halted, output };
                },
                Some(bytes) => bytes,
            };
            let instruction = match decode(b0, b1) {
                None => {
                    assert(output@ + Seq::<u8>::empty() =~= output@);
                    return Run { stop: Stop::Fault, output };
                },
                Some(instruction) => instruction,
            };
            if left == 0 {
                assert(output@ + Seq::<u8>::empty() =~= output@);
                return Run { stop: Stop::StepLimit, output };
            }
            let ghost before = self@;
            let ghost sent = output@;
            let emitted = self.apply(instruction);
            left = left - 1;
            match emitted {
                Some(byte) => {
                    output.push(byte);
                },
                None => {},
            }
            proof {
                let rest = run_of(self@, self.program(), left as nat);
                assert(run_of(before, self.program(), (left + 1) as nat).output == match emitted {
                    Some(byte) => seq![byte] + rest.output,
                    None => rest.output,
                });
                assert(whole.output =~= output@ + rest.output);
            }
        }
    }
}

/// The instruction that a machine in `state` is about to execute, if the
/// program counter is inside the program and the slot holds one.
pub open spec fn current_instruction(state: MachineState, program: Seq<u8>) -> Option<
    Instruction,
> {
    if state.pc >= slot_count(program) {
        None
    } else {
        decoding(fetched(program, state.pc).0, fetched(program, state.pc).1)
    }
}

/// Addition: after `add VX VY` with `a` in VX and `b` in VY, VF is 1 if
/// `a + b` exceeds 255 and 0 otherwise, and VX, unless it is VF itself,
/// holds `(a + b) mod 256`. Nothing else changes, nothing is emitted, and
/// the program counter moves one slot on.
pub proof fn lemma_add(state: MachineState, program: Seq<u8>, x: u8, y: u8)
    requires
        state.well_formed(),
        current_instruction(state, program) == Some(Instruction::Add { x, y }),
    ensures
        ({
            let a = state.registers[x as int];
            let b = state.registers[y as int];
            let (after, step) = step_of(state, program);
            &&& after.registers[15] == 1 <==> a + b > 255
            &&& after.registers[15] == 0 <==> a + b <= 255
            &&& x != 15 ==> after.registers[x as int] == (a + b) % 256
            &&& forall|i: int|
                0 <= i < 16 && i != x && i != 15 ==> after.registers[i] == state.registers[i]
            &&& after.memory == state.memory
            &&& after.pc == state.pc + 1
            &&& step == Step::Ran { output: None }
        }),
{
}

/// Subtraction: after `sub VX VY` with `a` in VX and `b` in VY, VF is 1 if
/// `b` exceeds `a` and 0 otherwise, and VX, unless it is VF itself, holds
/// `(a - b) mod 256`. Nothing else changes, nothing is emitted, and the
/// program counter moves one slot on.
pub proof fn lemma_sub(state: MachineState, program: Seq<u8>, x: u8, y: u8)
    requires
        state.well_formed(),
        current_instruction(state, program) == Some(Instruction::Sub { x, y }),
    ensures
        ({
            let a = state.registers[x as int];
            let b = state.registers[y as int];
            let (after, step) = step_of(state, program);
            &&& after.registers[15] == 1 <==> b > a
            &&& after.registers[15] == 0 <==> b <= a
            &&& x != 15 ==> after.registers[x as int] == (a - b) % 256
            &&& forall|i: int|
                0 <= i < 16 && i != x && i != 15 ==> after.registers[i] == state.registers[i]
            &&& after.memory == state.memory
            &&& after.pc == state.pc + 1
            &&& step == Step::Ran { output: None }
        }),
{
}

/// Whether the test of a conditional instruction holds in `state`; `None`
/// for an instruction that is no conditional.
pub open spec fn test_holds(state: MachineState, instruction: Instruction) -> Option<bool> {
    let r = state.registers;
    match instruction {
        Instruction::IfEq { x, y } => Some(r[x as int] == r[y as int]),
        Instruction::IfNeq { x, y } => Some(r[x as int] != r[y as int]),
        Instruction::IfLe { x, y } => Some(r[x as int] <= r[y as int]),
        _ => None,
    }
}

/// Conditionals: `ifeq`, `ifneq` and `ifle` move the program counter two
/// slots on where their test holds, skipping exactly one slot, and one slot
/// on where it does not. They change neither registers nor memory and emit
/// nothing.
pub proof fn lemma_conditional_skip(state: MachineState, program: Seq<u8>)
    requires
        state.well_formed(),
        current_instruction(state, program) matches Some(i) && test_holds(state, i) is Some,
    ensures
        ({
            let holds = test_holds(state, current_instruction(state, program)->0)->0;
            let (after, step) = step_of(state, program);
            &&& holds ==> after.pc == state.pc + 2
            &&& !holds ==> after.pc == state.pc + 1
            &&& after.registers == state.registers
            &&& after.memory == state.memory
            &&& step == Step::Ran { output: None }
        }),
{
}

/// The output port: `setmr` stores VX at its address, and emits the stored
/// byte, once, exactly when the address is 255. Every other memory cell and
/// every register stays.
pub proof fn lemma_store_emits_at_port(state: MachineState, program: Seq<u8>, x: u8, addr: u8)
    requires
        state.well_formed(),
        current_instruction(state, program) == Some(Instruction::SetMr { x, addr }),
    ensures
        ({
            let value = state.registers[x as int];
            let (after, step) = step_of(state, program);
            &&& after.memory[addr as int] == value
            &&& forall|i: int| 0 <= i < 256 && i != addr ==> after.memory[i] == state.memory[i]
            &&& after.registers == state.registers
            &&& after.pc == state.pc + 1
            &&& addr == 255 ==> step == Step::Ran { output: Some(value) }
            &&& addr != 255 ==> step == Step::Ran { output: None }
        }),
{
}

/// Only a store writes memory and only a store to the port emits: a turn
/// of the cycle that executes anything but `setmr` leaves memory as it was
/// and emits nothing, and so does a turn that halts or faults.
pub proof fn lemma_only_store_writes(state: MachineState, program: Seq<u8>)
    requires
        state.well_formed(),
        !(current_instruction(state, program) matches Some(Instruction::SetMr { .. })),
    ensures
        step_of(state, program).0.memory == state.memory,
        step_of(state, program).1 matches Step::Ran { output } ==> output is None,
{
}

/// The program counter after a turn: a jump sets it to its target and
/// `setpcr` to the value of its register, neither adding a slot; a
/// conditional moves it one or two slots on; every other instruction moves
/// it exactly one slot on; a turn that halts or faults leaves it.
pub proof fn lemma_program_counter(state: MachineState, program: Seq<u8>)
    requires
        state.well_formed(),
    ensures
        step_of(state, program).0.pc == (match current_instruction(state, program) {
            None => state.pc,
            Some(Instruction::Jump { target }) => target as nat,
            Some(Instruction::SetPcr { x }) => state.registers[x as int] as nat,
            Some(instruction) => match test_holds(state, instruction) {
                Some(true) => state.pc + 2,
                _ => state.pc + 1,
            },
        }),
{
}

/// The bitwise instructions write their first register and nothing else:
/// `and`, `or` and `xor` combine VX with VY into VX, `not` complements VX,
/// and every other register, the flag register among them, stays, as does
/// memory.
pub proof fn lemma_bitwise(state: MachineState, program: Seq<u8>)
    requires
        state.well_formed(),
        current_instruction(state, program) matches Some(i) && (i is And || i is Or || i is Xor
            || i is Not),
    ensures
        ({
            let r = state.registers;
            let (after, step) = step_of(state, program);
            &&& match current_instruction(state, program)->0 {
                Instruction::And { x, y } => after.registers == r.update(
                    x as int,
                    r[x as int] & r[y as int],
                ),
                Instruction::Or { x, y } => after.registers == r.update(
                    x as int,
                    r[x as int] | r[y as int],
                ),
                Instruction::Xor { x, y } => after.registers == r.update(
                    x as int,
                    r[x as int] ^ r[y as int],
                ),
                Instruction::Not { x } => after.registers == r.update(x as int, !r[x as int]),
                _ => true,
            }
            &&& after.memory == state.memory
            &&& step == Step::Ran { output: None }
        }),
{
}

/// A turn of the cycle keeps the shape of the state: sixteen registers and
/// 256 memory cells.
pub proof fn lemma_step_well_formed(state: MachineState, program: Seq<u8>)
    requires
        state.well_formed(),
    ensures
        step_of(state, program).0.well_formed(),
{
}

/// A run ends in a state of the same shape, and emits at most one byte for
/// each instruction that its limit lets it execute.
pub proof fn lemma_run_well_formed(state: MachineState, program: Seq<u8>, limit: nat)
    requires
        state.well_formed(),
    ensures
        run_of(state, program, limit).state.well_formed(),
        run_of(state, program, limit).output.len() <= limit,
    decreases limit,
{
    lemma_step_well_formed(state, program);
    if limit > 0 {
        lemma_run_well_formed(step_of(state, program).0, program, (limit - 1) as nat);
    }
}

} // verus!
