//! The code generator as a state transformer: what each operation does to
//! the simulated head, the stack top, the name tables and the emitted text.

use vstd::prelude::*;
use crate::code::{
    add_code, calloc_code, copy_code, dadd_code, dsub_code, gcf_code, gcf_head, move_code,
    mul_code, mv, set_code, sub_code,
};
use crate::symbols::Binding;

verus! {

/// The generator's state as plain data.
pub struct GenState {
    /// Simulated head position.
    pub head: int,
    /// Next free cell.
    pub top: int,
    /// Live variables and their cells.
    pub variables: Seq<Binding>,
    /// String literals laid out so far and their first cells.
    pub strings: Seq<Binding>,
    /// Opcodes emitted so far.
    pub output: Seq<char>,
}

/// Highest cell index the generator can address.
pub open spec fn cell_limit() -> int {
    isize::MAX as int
}

impl GenState {
    /// The state before anything was compiled.
    pub open spec fn start() -> GenState {
        GenState {
            head: 0,
            top: 0,
            variables: Seq::empty(),
            strings: Seq::empty(),
            output: Seq::empty(),
        }
    }

    /// Head and top are on the addressable tape, and so is every cell that a
    /// table names, together with the bytes of each string literal.
    pub open spec fn wf(self) -> bool {
        &&& 0 <= self.head <= cell_limit()
        &&& 0 <= self.top <= cell_limit()
        &&& forall|k: int|
            0 <= k < self.variables.len() ==> 0 <= (#[trigger] self.variables[k]).1 <= cell_limit()
        &&& forall|k: int|
            0 <= k < self.strings.len() ==> 0 <= (#[trigger] self.strings[k]).1 && self.strings[k].1
                + vstd::utf8::encode_utf8(self.strings[k].0).len() <= cell_limit()
    }

    /// Appends `text` to the output.
    pub open spec fn emit(self, text: Seq<char>) -> GenState {
        GenState { output: self.output + text, ..self }
    }

    /// Appends `text`, which leaves the head at cell `i`.
    pub open spec fn step(self, i: int, text: Seq<char>) -> GenState {
        GenState { head: i, output: self.output + text, ..self }
    }

    /// Moves the head by `offset` cells.
    pub open spec fn move_ptr(self, offset: int) -> GenState {
        self.step(self.head + offset, mv(self.head, self.head + offset))
    }

    /// Moves the head to cell `i`.
    pub open spec fn set_ptr(self, i: int) -> GenState {
        self.step(i, mv(self.head, i))
    }

    /// Stores `v` in cell `i`.
    pub open spec fn set(self, i: int, v: int) -> GenState {
        self.step(i, set_code(self.head, i, v))
    }

    /// Adds `v` to cell `i` by way of its integer square root, with cell
    /// `t` as counter.
    pub open spec fn set_with_gcf(self, i: int, t: int, v: int) -> GenState {
        self.step(gcf_head(i, t, v), gcf_code(self.head, i, t, v))
    }

    /// Reserves `n` cells at the top.
    pub open spec fn malloc(self, n: int) -> GenState {
        GenState { top: self.top + n, ..self }
    }

    /// Reserves `n` cells at the top and clears them.
    pub open spec fn calloc(self, n: int) -> GenState {
        GenState {
            top: self.top + n,
            head: if n > 0 {
                self.top + n - 1
            } else {
                self.head
            },
            output: self.output + calloc_code(self.head, self.top, n),
            ..self
        }
    }

    /// Gives the `n` topmost cells back.
    pub open spec fn dealloc(self, n: int) -> GenState {
        GenState { top: self.top - n, ..self }
    }

    /// Empties cell `s` into cell `d`, adding.
    pub open spec fn dadd(self, s: int, d: int) -> GenState {
        self.step(s, dadd_code(self.head, s, d))
    }

    /// Empties cell `s` into cell `d`, subtracting.
    pub open spec fn dsub(self, s: int, d: int) -> GenState {
        self.step(s, dsub_code(self.head, s, d))
    }

    /// Moves the value of cell `s` to cell `d`.
    pub open spec fn move_val(self, s: int, d: int) -> GenState {
        self.step(s, move_code(self.head, s, d))
    }

    /// Copies the value of cell `s` into each of `dests`.
    pub open spec fn copy_val(self, s: int, dests: Seq<int>) -> GenState {
        self.step(self.top, copy_code(self.head, self.top, s, dests))
    }

    /// Adds cell `s` to cell `d`, keeping `s`.
    pub open spec fn add(self, s: int, d: int) -> GenState {
        self.step(self.top, add_code(self.head, self.top, s, d))
    }

    /// Subtracts cell `s` from cell `d`, keeping `s`.
    pub open spec fn sub(self, s: int, d: int) -> GenState {
        self.step(self.top, sub_code(self.head, self.top, s, d))
    }

    /// Multiplies cell `d` by cell `s`, keeping `s`.
    pub open spec fn mul(self, s: int, d: int) -> GenState {
        self.step(self.top, mul_code(self.head, self.top, s, d))
    }
}

} // verus!
