use vstd::prelude::*;

use crate::tokenizer::{
    folded, instruction_chars, lemma_folded_len, merge, mergeable, optimize, resolved_program,
    same_op, source_balanced, spells, tokenize_error, tokenizer, Token, TokenizerError,
};

verus! {

/// Number of memory cells of a machine.
pub const MEMORY_SIZE: usize = 4 * 1024 * 1024;

/// Declares std's `io::Error`, opaque, so that `VmError` can carry the failure
/// of a byte read or write that the driver reports; nothing is assumed of it.
#[verifier::external_type_specification]
#[verifier::external_body]
pub struct ExIoError(std::io::Error);

/// Why a program could not be built or run.
#[derive(Debug)]
pub enum VmError {
    /// The program has no instructions.
    InstructionIsNull,
    /// Reading or writing a byte failed.
    IO(std::io::Error),
    /// The source text is structurally invalid.
    Token(TokenizerError),
    /// The data pointer would leave the memory.
    PointerOverFlow,
}

/// What one step of the machine asks of its driver.
#[derive(Debug, Clone, Copy, PartialEq, Eq, Structural)]
pub enum Step {
    /// The program counter has passed the last instruction.
    Halted,
    /// An instruction ran; nothing is to be done outside.
    Ran,
    /// This byte is to be written to the output.
    Output(u8),
    /// The current instruction is `Input`: a byte is to be read and handed to
    /// `feed_input`.
    Input,
}

/// The state of a machine: its program, memory, program counter and data pointer.
pub struct Machine {
    pub program: Seq<Token>,
    pub memory: Seq<u8>,
    pub pc: int,
    pub pointer: int,
}

/// A program loaded into a fresh machine.
pub struct VM {
    inst_len: usize,
    inst: Vec<Token>,
    mem_len: usize,
    mem: Vec<u8>,
    pc: usize,
    point: usize,
}

/// The machine after the current instruction has been carried out, and what
/// that step reports; an `Input` instruction waits for its byte.
pub open spec fn step_spec(m: Machine) -> (Result<Step, VmError>, Machine) {
    if m.pc < 0 || m.pc >= m.program.len() {
        (Ok(Step::Halted), m)
    } else {
        let cell = m.memory[m.pointer];
        match m.program[m.pc] {
            Token::IncrementData(x) => (
                Ok(Step::Ran),
                Machine {
                    memory: m.memory.update(m.pointer, cell.wrapping_add(x)),
                    pc: m.pc + 1,
                    ..m
                },
            ),
            Token::DecrementData(x) => (
                Ok(Step::Ran),
                Machine {
                    memory: m.memory.update(m.pointer, cell.wrapping_sub(x)),
                    pc: m.pc + 1,
                    ..m
                },
            ),
            Token::IncrementPointer(x) => if m.pointer + x >= m.memory.len() {
                (Err(VmError::PointerOverFlow), m)
            } else {
                (Ok(Step::Ran), Machine { pointer: m.pointer + x, pc: m.pc + 1, ..m })
            },
            Token::DecrementPointer(x) => if x > m.pointer {
                (Err(VmError::PointerOverFlow), m)
            } else {
                (Ok(Step::Ran), Machine { pointer: m.pointer - x, pc: m.pc + 1, ..m })
            },
            Token::Output => (Ok(Step::Output(cell)), Machine { pc: m.pc + 1, ..m }),
            Token::Input => (Ok(Step::Input), m),
            Token::LoopStart(x) => if cell == 0 && x <= m.program.len() {
                (Ok(Step::Ran), Machine { pc: x + 1, ..m })
            } else {
                (Ok(Step::Ran), Machine { pc: m.pc + 1, ..m })
            },
            Token::LoopEnd(x) => if cell != 0 && x <= m.program.len() {
                (Ok(Step::Ran), Machine { pc: x + 1, ..m })
            } else {
                (Ok(Step::Ran), Machine { pc: m.pc + 1, ..m })
            },
        }
    }
}

/// The machine after the byte read for an `Input` instruction, if any, was
/// stored: without a byte the cell keeps its value.
pub open spec fn input_spec(m: Machine, byte: Option<u8>) -> Machine {
    Machine {
        memory: match byte {
            Some(b) => m.memory.update(m.pointer, b),
            None => m.memory,
        },
        pc: m.pc + 1,
        ..m
    }
}

/// A pointer move fails exactly when it would take the pointer below zero or
/// to or past the memory length, and a failing step leaves the machine
/// unchanged: no further instruction runs.
pub proof fn lemma_pointer_bounds(m: Machine)
    requires
        0 <= m.pc < m.program.len(),
        0 <= m.pointer < m.memory.len(),
    ensures
        m.program[m.pc] is IncrementPointer ==> (step_spec(m).0 is Err <==> m.pointer
            + m.program[m.pc]->IncrementPointer_0 >= m.memory.len()),
        m.program[m.pc] is DecrementPointer ==> (step_spec(m).0 is Err <==> m.pointer
            - m.program[m.pc]->DecrementPointer_0 < 0),
        step_spec(m).0 is Err ==> step_spec(m).0 == Err::<Step, VmError>(VmError::PointerOverFlow)
            && step_spec(m).1 == m,
        step_spec(m).1.pointer >= 0 && step_spec(m).1.pointer < m.memory.len(),
{
}

/// Reading at the end of the input leaves every cell as it was, and moves on
/// to the next instruction.
pub proof fn lemma_input_at_end(m: Machine)
    ensures
        input_spec(m, None).memory == m.memory,
        input_spec(m, None).pc == m.pc + 1,
{
}

/// The machine `m` about to run the one instruction `t`.
pub open spec fn running(m: Machine, t: Token) -> Machine {
    Machine { program: seq![t], pc: 0, ..m }
}

/// The machine `m` about to run `a` and then `b`.
pub open spec fn running_two(m: Machine, a: Token, b: Token) -> Machine {
    Machine { program: seq![a, b], pc: 0, ..m }
}

/// Folding two counted instructions into one keeps what a step does: the
/// merged instruction fails exactly when one of the two, run in turn, fails,
/// and otherwise leaves the same memory and pointer. Pointer counts are taken
/// to add up within a machine word.
pub proof fn lemma_merge_step(m: Machine, a: Token, b: Token)
    requires
        mergeable(a, b),
        0 <= m.pointer < m.memory.len(),
        a is IncrementPointer ==> a->IncrementPointer_0 + b->IncrementPointer_0 <= usize::MAX,
        a is DecrementPointer ==> a->DecrementPointer_0 + b->DecrementPointer_0 <= usize::MAX,
    ensures
        ({
            let first = step_spec(running_two(m, a, b));
            let second = step_spec(first.1);
            let merged = step_spec(running(m, merge(a, b)));
            &&& merged.0 is Ok <==> (first.0 is Ok && second.0 is Ok)
            &&& merged.0 is Ok ==> merged.1.memory == second.1.memory && merged.1.pointer
                == second.1.pointer
        }),
{
    let ma = running_two(m, a, b);
    let c = m.memory[m.pointer];
    assert(ma.program[0] == a);
    assert(ma.program[1] == b);
    match (a, b) {
        (Token::IncrementData(x), Token::IncrementData(y)) => {
            let s1 = step_spec(ma).1;
            assert(s1.memory[m.pointer] == c.wrapping_add(x));
            assert(c.wrapping_add(x).wrapping_add(y) == c.wrapping_add(x.wrapping_add(y)));
            assert(step_spec(s1).1.memory =~= m.memory.update(
                m.pointer,
                c.wrapping_add(x.wrapping_add(y)),
            ));
        },
        (Token::DecrementData(x), Token::DecrementData(y)) => {
            let s1 = step_spec(ma).1;
            assert(s1.memory[m.pointer] == c.wrapping_sub(x));
            assert(c.wrapping_sub(x).wrapping_sub(y) == c.wrapping_sub(x.wrapping_add(y)));
            assert(step_spec(s1).1.memory =~= m.memory.update(
                m.pointer,
                c.wrapping_sub(x.wrapping_add(y)),
            ));
        },
        _ => {},
    }
}

impl VM {
    /// The abstract state of the machine.
    pub closed spec fn view(&self) -> Machine {
        Machine { program: self.inst@, memory: self.mem@, pc: self.pc as int, pointer: self.point as int }
    }

    /// The machine's own bookkeeping is consistent.
    pub closed spec fn wf(&self) -> bool {
        &&& self.inst_len == self.inst@.len()
        &&& self.mem_len == self.mem@.len()
        &&& self.mem@.len() == MEMORY_SIZE
        &&& self.point < self.mem_len
        &&& self.pc <= self.inst_len + 1
        &&& self.inst_len < usize::MAX
    }

    /// Loads a program into a machine with zeroed memory; an empty program is
    /// refused.
    pub fn new(inst: Vec<Token>) -> (r: Result<Self, VmError>)
        requires
            inst@.len() < usize::MAX,
        ensures
            inst@.len() == 0 <==> r is Err,
            r is Err ==> r == Err::<Self, VmError>(VmError::InstructionIsNull),
            r is Ok ==> {
                let vm = r->Ok_0;
                &&& vm.wf()
                &&& vm.view().program == inst@
                &&& vm.view().memory == Seq::new(MEMORY_SIZE as nat, |i: int| 0u8)
                &&& vm.view().pc == 0
                &&& vm.view().pointer == 0
            },
    {
        if inst.len() == 0 {
            return Err(VmError::InstructionIsNull);
        }
        let mem: Vec<u8> = vec![0u8; MEMORY_SIZE];
        assert(mem@ == Seq::new(MEMORY_SIZE as nat, |i: int| 0u8));
        Ok(VM { mem_len: mem.len(), mem, inst_len: inst.len(), inst, pc: 0, point: 0 })
    }

    /// Resolves and compacts source text and loads the result into a fresh
    /// machine.
    pub fn build(src: &str) -> (r: Result<Self, VmError>)
        requires
            src@.len() < u32::MAX,
        ensures
            match r {
                Err(VmError::Token(e)) => !source_balanced(src@) && tokenize_error(src@, e),
                Err(VmError::InstructionIsNull) => source_balanced(src@) && instruction_chars(
                    src@,
                    src@.len() as int,
                ).len() == 0,
                Err(_) => false,
                Ok(vm) => {
                    let c = instruction_chars(src@, src@.len() as int);
                    &&& source_balanced(src@)
                    &&& c.len() > 0
                    &&& vm.wf()
                    &&& vm.view().memory == Seq::new(MEMORY_SIZE as nat, |i: int| 0u8)
                    &&& vm.view().pc == 0
                    &&& vm.view().pointer == 0
                    &&& resolved_program(vm.view().program)
                    &&& exists|t: Seq<Token>|
                        {
                            &&& t.len() == c.len()
                            &&& forall|i: int| 0 <= i < t.len() ==> spells(c[i], #[trigger] t[i])
                            &&& vm.view().program.len() == folded(t, t.len() as int).len()
                            &&& forall|i: int|
                                0 <= i < vm.view().program.len() ==> same_op(
                                    #[trigger] vm.view().program[i],
                                    folded(t, t.len() as int)[i],
                                )
                        }
                },
            },
    {
        let mut tokens = match tokenizer(src) {
            Ok(t) => t,
            Err(e) => return Err(VmError::Token(e)),
        };
        let ghost t = tokens@;
        optimize(&mut tokens);
        proof {
            lemma_folded_len(t, t.len() as int);
        }
        Self::new(tokens)
    }

    /// Carries out the current instruction. An error leaves the machine as it
    /// was; an `Input` instruction is left for `feed_input`.
    pub fn step(&mut self) -> (r: Result<Step, VmError>)
        requires
            old(self).wf(),
        ensures
            final(self).wf(),
            r == step_spec(old(self).view()).0,
            final(self).view() == step_spec(old(self).view()).1,
    {
        if self.pc >= self.inst_len {
            return Ok(Step::Halted);
        }
        let point = self.point;
        let cell = self.mem[point];
        match self.inst[self.pc] {
            Token::IncrementData(x) => {
                self.mem.set(point, cell.wrapping_add(x));
                self.pc = self.pc + 1;
                Ok(Step::Ran)
            },
            Token::DecrementData(x) => {
                self.mem.set(point, cell.wrapping_sub(x));
                self.pc = self.pc + 1;
                Ok(Step::Ran)
            },
            Token::IncrementPointer(x) => {
                if x >= self.mem_len - point {
                    return Err(VmError::PointerOverFlow);
                }
                self.point = point + x;
                self.pc = self.pc + 1;
                Ok(Step::Ran)
            },
            Token::DecrementPointer(x) => {
                if x > point {
                    return Err(VmError::PointerOverFlow);
                }
                self.point = point - x;
                self.pc = self.pc + 1;
                Ok(Step::Ran)
            },
            Token::Output => {
                self.pc = self.pc + 1;
                Ok(Step::Output(cell))
            },
            Token::Input => Ok(Step::Input),
            Token::LoopStart(x) => {
                if cell == 0 && (x as usize) <= self.inst_len {
                    self.pc = x as usize + 1;
                } else {
                    self.pc = self.pc + 1;
                }
                Ok(Step::Ran)
            },
            Token::LoopEnd(x) => {
                if cell != 0 && (x as usize) <= self.inst_len {
                    self.pc = x as usize + 1;
                } else {
                    self.pc = self.pc + 1;
                }
                Ok(Step::Ran)
            },
        }
    }

    /// Completes an `Input` instruction with the byte that was read, or with
    /// none at the end of the input, which leaves the cell unchanged.
    pub fn feed_input(&mut self, byte: Option<u8>)
        requires
            old(self).wf(),
            old(self).view().pc < old(self).view().program.len(),
            old(self).view().program[old(self).view().pc] is Input,
        ensures
            final(self).wf(),
            final(self).view() == input_spec(old(self).view(), byte),
    {
        if let Some(b) = byte {
            self.mem.set(self.point, b);
        }
        self.pc = self.pc + 1;
    }

    /// The index of the next instruction.
    pub fn pc(&self) -> (r: usize)
        ensures
            r == self.view().pc,
    {
        self.pc
    }

    /// The index of the current cell.
    pub fn pointer(&self) -> (r: usize)
        ensures
            r == self.view().pointer,
    {
        self.point
    }

    /// The value of cell `i`.
    pub fn cell(&self, i: usize) -> (r: u8)
        requires
            self.wf(),
            i < MEMORY_SIZE,
        ensures
            r == self.view().memory[i as int],
    {
        self.mem[i]
    }

    /// The loaded program.
    pub fn program(&self) -> (r: &Vec<Token>)
        ensures
            r@ == self.view().program,
    {
        &self.inst
    }

    /// The number of memory cells.
    pub fn memory_len(&self) -> (r: usize)
        requires
            self.wf(),
        ensures
            r == self.view().memory.len(),
    {
        self.mem_len
    }
}

} // verus!
