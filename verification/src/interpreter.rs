//! A step-by-step interpreter for opcode text.

use vstd::prelude::*;
use vstd::string::*;
use crate::machine::{dec_byte, inc_byte, matching_close};
use crate::text::{chars_of, push_char};

verus! {

/// What one call of `step` did.
#[derive(Clone, Copy, Debug, PartialEq, Eq, Structural)]
pub enum Step {
    /// The program has ended; nothing changed.
    Halted,
    /// One instruction ran.
    Ran,
    /// The next instruction reads a byte and none was given; nothing
    /// changed.
    NeedsInput,
    /// The next instruction cannot run: it moves left of cell 0 or is a
    /// bracket without partner; nothing changed.
    Stuck,
}

/// The interpreter.
pub struct Interpreter {
    memory: Vec<u8>,
    memory_ptr: usize,
    instructions: Vec<char>,
    instruction_ptr: usize,
    brackets: Vec<usize>,
    output: String,
}

/// The interpreter's state as plain data.
pub struct InterpState {
    /// The cells visited so far.
    pub memory: Seq<u8>,
    /// The selected cell.
    pub memory_ptr: int,
    /// The program.
    pub instructions: Seq<char>,
    /// The next instruction.
    pub instruction_ptr: int,
    /// Positions of the loops that are running, innermost last.
    pub brackets: Seq<int>,
    /// What the program has written.
    pub output: Seq<char>,
}

impl InterpState {
    /// The state in which `code` starts: one zero cell, nothing written.
    pub open spec fn start(code: Seq<char>) -> InterpState {
        InterpState {
            memory: seq![0u8],
            memory_ptr: 0,
            instructions: code,
            instruction_ptr: 0,
            brackets: Seq::empty(),
            output: Seq::empty(),
        }
    }

    /// The selected cell exists, the next instruction is in the program or
    /// at its end, and every running loop starts inside the program.
    pub open spec fn wf(self) -> bool {
        &&& 0 <= self.memory_ptr < self.memory.len()
        &&& 0 <= self.instruction_ptr <= self.instructions.len()
        &&& forall|k: int|
            0 <= k < self.brackets.len() ==> 0 <= #[trigger] self.brackets[k]
                < self.instructions.len()
    }

    /// The byte in the selected cell.
    pub open spec fn cur(self) -> u8 {
        self.memory[self.memory_ptr]
    }

    /// The state with the next instruction at `ip`.
    pub open spec fn goto(self, ip: int) -> InterpState {
        InterpState { instruction_ptr: ip, ..self }
    }

    /// The state with `v` in the selected cell.
    pub open spec fn put(self, v: u8) -> InterpState {
        InterpState { memory: self.memory.update(self.memory_ptr, v), ..self }
    }

    /// The state after one step and what the step did. `input` is the byte
    /// that a read instruction takes.
    pub open spec fn step(self, input: Option<u8>) -> (InterpState, Step) {
        let ip = self.instruction_ptr;
        let next = ip + 1;
        if ip >= self.instructions.len() {
            (self, Step::Halted)
        } else {
            let c = self.instructions[ip];
            if c == '>' {
                (
                    InterpState {
                        memory: if self.memory_ptr == self.memory.len() - 1 {
                            self.memory.push(0)
                        } else {
                            self.memory
                        },
                        memory_ptr: self.memory_ptr + 1,
                        ..self.goto(next)
                    },
                    Step::Ran,
                )
            } else if c == '<' {
                if self.memory_ptr == 0 {
                    (self, Step::Stuck)
                } else {
                    (InterpState { memory_ptr: self.memory_ptr - 1, ..self.goto(next) }, Step::Ran)
                }
            } else if c == '+' {
                (self.put(inc_byte(self.cur())).goto(next), Step::Ran)
            } else if c == '-' {
                (self.put(dec_byte(self.cur())).goto(next), Step::Ran)
            } else if c == ',' {
                match input {
                    Some(b) => (self.put(b).goto(next), Step::Ran),
                    None => (self, Step::NeedsInput),
                }
            } else if c == '.' {
                (
                    InterpState { output: self.output.push(self.cur() as char), ..self.goto(next) },
                    Step::Ran,
                )
            } else if c == '[' {
                if self.cur() != 0 {
                    (InterpState { brackets: self.brackets.push(ip), ..self.goto(next) }, Step::Ran)
                } else {
                    let close = matching_close(self.instructions, next, 0);
                    if close >= self.instructions.len() {
                        (self, Step::Stuck)
                    } else {
                        (self.goto(close + 1), Step::Ran)
                    }
                }
            } else if c == ']' {
                if self.cur() != 0 {
                    if self.brackets.len() == 0 {
                        (self, Step::Stuck)
                    } else {
                        (self.goto(self.brackets.last() + 1), Step::Ran)
                    }
                } else {
                    (
                        InterpState {
                            brackets: if self.brackets.len() == 0 {
                                self.brackets
                            } else {
                                self.brackets.drop_last()
                            },
                            ..self.goto(next)
                        },
                        Step::Ran,
                    )
                }
            } else {
                (self.goto(next), Step::Ran)
            }
        }
    }
}

impl View for Interpreter {
    type V = InterpState;

    closed spec fn view(&self) -> InterpState {
        InterpState {
            memory: self.memory@,
            memory_ptr: self.memory_ptr as int,
            instructions: self.instructions@,
            instruction_ptr: self.instruction_ptr as int,
            brackets: Seq::new(self.brackets@.len(), |k: int| self.brackets@[k] as int),
            output: self.output@,
        }
    }
}

impl Interpreter {
    /// An interpreter at the start of the program `code`.
    pub fn new(code: &str) -> (i: Interpreter)
        ensures
            i@ == InterpState::start(code@),
            i@.wf(),
    {
        let mut memory: Vec<u8> = Vec::new();
        memory.push(0);
        let i = Interpreter {
            memory,
            memory_ptr: 0,
            instructions: chars_of(code),
            instruction_ptr: 0,
            brackets: Vec::new(),
            output: String::new(),
        };
        proof {
            assert(i@.memory =~= seq![0u8]);
            assert(i@.brackets =~= Seq::<int>::empty());
        }
        i
    }

    /// The cells visited so far.
    pub fn memory(&self) -> (m: &Vec<u8>)
        ensures
            m@ == self@.memory,
    {
        &self.memory
    }

    /// The selected cell.
    pub fn memory_ptr(&self) -> (p: usize)
        ensures
            p == self@.memory_ptr,
    {
        self.memory_ptr
    }

    /// The program.
    pub fn instructions(&self) -> (p: &Vec<char>)
        ensures
            p@ == self@.instructions,
    {
        &self.instructions
    }

    /// The next instruction.
    pub fn instruction_ptr(&self) -> (p: usize)
        ensures
            p == self@.instruction_ptr,
    {
        self.instruction_ptr
    }

    /// What the program has written.
    pub fn output(&self) -> (s: &String)
        ensures
            s@ == self@.output,
    {
        &self.output
    }

    /// Position of the `]` that closes the loop opened before `from`, or
    /// the length of the program when there is none.
    fn find_close(&self, from: usize) -> (close: usize)
        requires
            from <= self@.instructions.len(),
        ensures
            close == matching_close(self@.instructions, from as int, 0),
            from <= close <= self@.instructions.len(),
    {
        let mut i: usize = from;
        let mut depth: usize = 0;
        while i < self.instructions.len()
            invariant_except_break
                matching_close(self@.instructions, from as int, 0) == matching_close(
                    self@.instructions,
                    i as int,
                    depth as nat,
                ),
            invariant
                from <= i <= self.instructions.len(),
                depth <= i - from,
            ensures
                i == matching_close(self@.instructions, from as int, 0),
            decreases self.instructions.len() - i,
        {
            let c = self.instructions[i];
            if c == ']' {
                if depth == 0 {
                    break ;
                } else {
                    depth -= 1;
                }
            } else if c == '[' {
                depth += 1;
            }
            i += 1;
        }
        i
    }

    /// Runs one instruction. `input` is the byte that a read instruction
    /// takes.
    #[verifier::rlimit(30)]
    pub fn step(&mut self, input: Option<u8>) -> (r: Step)
        requires
            old(self)@.wf(),
        ensures
            final(self)@ == old(self)@.step(input).0,
            r == old(self)@.step(input).1,
            final(self)@.wf(),
    {
        if self.instruction_ptr >= self.instructions.len() {
            return Step::Halted;
        }
        let ghost before = self@;
        let instruction = self.instructions[self.instruction_ptr];
        if instruction == '>' {
            if self.memory.len() - 1 == self.memory_ptr {
                self.memory.push(0);
            }
            self.memory_ptr += 1;
        } else if instruction == '<' {
            if self.memory_ptr == 0 {
                return Step::Stuck;
            }
            self.memory_ptr -= 1;
        } else if instruction == '+' {
            let v = self.memory[self.memory_ptr];
            self.memory.set(self.memory_ptr, v.wrapping_add(1));
        } else if instruction == '-' {
            let v = self.memory[self.memory_ptr];
            self.memory.set(self.memory_ptr, v.wrapping_sub(1));
        } else if instruction == ',' {
            match input {
                Some(b) => {
                    self.memory.set(self.memory_ptr, b);
                },
                None => {
                    return Step::NeedsInput;
                },
            }
        } else if instruction == '.' {
            push_char(&mut self.output, self.memory[self.memory_ptr] as char);
        } else if instruction == '[' {
            if self.memory[self.memory_ptr] != 0 {
                self.brackets.push(self.instruction_ptr);
                proof {
                    assert(self@.brackets =~= before.brackets.push(before.instruction_ptr));
                }
            } else {
                let close = self.find_close(self.instruction_ptr + 1);
                if close >= self.instructions.len() {
                    return Step::Stuck;
                }
                self.instruction_ptr = close;
            }
        } else if instruction == ']' {
            if self.memory[self.memory_ptr] != 0 {
                if self.brackets.len() == 0 {
                    return Step::Stuck;
                }
                self.instruction_ptr = self.brackets[self.brackets.len() - 1];
                proof {
                    assert(before.brackets.last() == self.brackets@[self.brackets@.len() - 1]);
                }
            } else {
                let _ = self.brackets.pop();
                proof {
                    if before.brackets.len() > 0 {
                        assert(self@.brackets =~= before.brackets.drop_last());
                    } else {
                        assert(self@.brackets =~= before.brackets);
                    }
                }
            }
        }
        self.instruction_ptr += 1;
        proof {
            assert(self@.brackets =~= old(self)@.step(input).0.brackets);
        }
        Step::Ran
    }
}

/// Cells shown on one line of the picture.
pub const CELLS_PER_LINE: usize = 18;

/// Instructions shown on one line of the picture.
pub const INSTRUCTIONS_PER_LINE: usize = 148;

/// The lowercase hexadecimal digit for `d` below 16.
pub open spec fn hex_digit(d: int) -> char {
    if d == 0 {
        '0'
    } else if d == 1 {
        '1'
    } else if d == 2 {
        '2'
    } else if d == 3 {
        '3'
    } else if d == 4 {
        '4'
    } else if d == 5 {
        '5'
    } else if d == 6 {
        '6'
    } else if d == 7 {
        '7'
    } else if d == 8 {
        '8'
    } else if d == 9 {
        '9'
    } else if d == 10 {
        'a'
    } else if d == 11 {
        'b'
    } else if d == 12 {
        'c'
    } else if d == 13 {
        'd'
    } else if d == 14 {
        'e'
    } else {
        'f'
    }
}

/// How cell `i` is shown: a line break before the first cell of a line, an
/// opening bracket before the selected cell, a closing bracket before the
/// cell behind it, a blank before any other, and the byte as two
/// hexadecimal digits.
pub open spec fn cell_picture(s: InterpState, i: int) -> Seq<char> {
    let lead = if i % (CELLS_PER_LINE as int) == 0 {
        seq!['\n']
    } else {
        Seq::<char>::empty()
    };
    let mark = if i == s.memory_ptr {
        '['
    } else if i == s.memory_ptr + 1 {
        ']'
    } else {
        ' '
    };
    lead.push(mark).push(hex_digit(s.memory[i] as int / 16)).push(hex_digit(s.memory[i] as int % 16))
}

/// The picture of the first `n` cells.
pub open spec fn memory_picture(s: InterpState, n: int) -> Seq<char>
    decreases n,
{
    if n <= 0 {
        Seq::empty()
    } else {
        memory_picture(s, n - 1) + cell_picture(s, n - 1)
    }
}

/// How instruction `i` is shown: before the first instruction of a line a
/// line break, and, on the line of the next instruction, a line with a
/// `v` above that instruction; then the instruction itself.
pub open spec fn instruction_picture(s: InterpState, i: int) -> Seq<char> {
    let width = INSTRUCTIONS_PER_LINE as int;
    let lead = if i % width == 0 {
        if i <= s.instruction_ptr < i + width {
            seq!['\n'] + crate::code::repeat(' ', s.instruction_ptr % width).push('v').push('\n')
        } else {
            seq!['\n']
        }
    } else {
        Seq::<char>::empty()
    };
    lead.push(s.instructions[i])
}

/// The picture of the first `n` instructions.
pub open spec fn program_picture(s: InterpState, n: int) -> Seq<char>
    decreases n,
{
    if n <= 0 {
        Seq::empty()
    } else {
        program_picture(s, n - 1) + instruction_picture(s, n - 1)
    }
}

/// The picture of an interpreter state: the cells, the program with a mark
/// above the next instruction, and the output.
pub open spec fn picture(s: InterpState) -> Seq<char> {
    "Memory:"@ + memory_picture(s, s.memory.len() as int) + (if s.memory_ptr == s.memory.len() - 1 {
        seq![']']
    } else {
        Seq::<char>::empty()
    }) + "\n\nInstructions:"@ + program_picture(s, s.instructions.len() as int)
        + "\n\nOutput:\n"@ + s.output
}

/// The lowercase hexadecimal digit for `d` below 16.
fn hex(d: u8) -> (c: char)
    requires
        d < 16,
    ensures
        c == hex_digit(d as int),
{
    if d == 0 {
        '0'
    } else if d == 1 {
        '1'
    } else if d == 2 {
        '2'
    } else if d == 3 {
        '3'
    } else if d == 4 {
        '4'
    } else if d == 5 {
        '5'
    } else if d == 6 {
        '6'
    } else if d == 7 {
        '7'
    } else if d == 8 {
        '8'
    } else if d == 9 {
        '9'
    } else if d == 10 {
        'a'
    } else if d == 11 {
        'b'
    } else if d == 12 {
        'c'
    } else if d == 13 {
        'd'
    } else if d == 14 {
        'e'
    } else {
        'f'
    }
}

impl Interpreter {
    /// A picture of the interpreter for the screen.
    #[verifier::rlimit(30)]
    pub fn render(&self) -> (text: String)
        requires
            self@.wf(),
        ensures
            text@ == picture(self@),
    {
        let ghost s = self@;
        let mut text = "Memory:".to_owned();
        let mut i: usize = 0;
        proof {
            assert(text@ + memory_picture(s, 0) =~= text@);
        }
        while i < self.memory.len()
            invariant
                i <= self.memory.len(),
                s == self@,
                text@ == "Memory:"@ + memory_picture(s, i as int),
            decreases self.memory.len() - i,
        {
            let ghost before = text@;
            if i % CELLS_PER_LINE == 0 {
                push_char(&mut text, '\n');
            }
            if i == self.memory_ptr {
                push_char(&mut text, '[');
            } else if self.memory_ptr < i && i - self.memory_ptr == 1 {
                push_char(&mut text, ']');
            } else {
                push_char(&mut text, ' ');
            }
            let byte = self.memory[i];
            push_char(&mut text, hex(byte / 16));
            push_char(&mut text, hex(byte % 16));
            proof {
                assert(text@ =~= before + cell_picture(s, i as int));
                assert("Memory:"@ + memory_picture(s, i as int) + cell_picture(s, i as int)
                    =~= "Memory:"@ + memory_picture(s, i as int + 1));
            }
            i += 1;
        }
        if self.memory_ptr == self.memory.len() - 1 {
            push_char(&mut text, ']');
        }
        let ghost upper = text@;
        proof {
            assert(upper =~= "Memory:"@ + memory_picture(s, s.memory.len() as int) + (
            if s.memory_ptr == s.memory.len() - 1 {
                seq![']']
            } else {
                Seq::<char>::empty()
            }));
        }
        text.append("\n\nInstructions:");
        let ghost middle = text@;
        let mut j: usize = 0;
        proof {
            assert(middle + program_picture(s, 0) =~= middle);
        }
        while j < self.instructions.len()
            invariant
                j <= self.instructions.len(),
                s == self@,
                s.wf(),
                text@ == middle + program_picture(s, j as int),
            decreases self.instructions.len() - j,
        {
            let ghost before = text@;
            if j % INSTRUCTIONS_PER_LINE == 0 {
                push_char(&mut text, '\n');
                if self.instruction_ptr >= j && self.instruction_ptr - j < INSTRUCTIONS_PER_LINE {
                    let pad = self.instruction_ptr % INSTRUCTIONS_PER_LINE;
                    let mut k: usize = 0;
                    let ghost lead = text@;
                    proof {
                        assert(lead + crate::code::repeat(' ', 0) =~= lead);
                    }
                    while k < pad
                        invariant
                            k <= pad,
                            text@ == lead + crate::code::repeat(' ', k as int),
                        decreases pad - k,
                    {
                        push_char(&mut text, ' ');
                        k += 1;
                        proof {
                            assert(lead + crate::code::repeat(' ', k as int - 1).push(' ') =~= lead
                                + crate::code::repeat(' ', k as int));
                        }
                    }
                    push_char(&mut text, 'v');
                    push_char(&mut text, '\n');
                }
            }
            push_char(&mut text, self.instructions[j]);
            proof {
                assert(text@ =~= before + instruction_picture(s, j as int));
                assert(middle + program_picture(s, j as int) + instruction_picture(s, j as int)
                    =~= middle + program_picture(s, j as int + 1));
            }
            j += 1;
        }
        text.append("\n\nOutput:\n");
        text.append(self.output.as_str());
        text
    }
}

} // verus!
