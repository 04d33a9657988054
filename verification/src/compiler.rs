//! The code generator: a simulated head, a stack of tape cells, and the
//! primitives and lowerings that emit opcode text.

use vstd::prelude::*;
use vstd::string::*;
use crate::code::{
    add_code, calloc_code, clear, clear_all, copy_code, dadd_code, dsub_code, gcf_code, isqrt,
    last_or, move_code, mv, print_code, repeat, set_code, spread, sub_code,
};
use crate::machine::loop_of;
use crate::ast::{
    lemma_statements_view, names_view, statements_view, BinaryOp, Expr, SpecExpr, SpecStatement,
    Statement,
};
use crate::lower::{
    grown, kept, lemma_collect_stops, lemma_grown_chain, lemma_lowering_stops,
    lemma_string_cells_bounds, own_names, defined_names, msg_functions, msg_operator,
    lemma_lay_bytes_frame, msg_while, same_frame, Lowered,
};
use crate::grammar::spec_parse;
use crate::parser::parse;
use crate::literals::{law_compile_lays_out_what_it_prints, names_literal};
use crate::shape::{extends, law_compile_shape, well_formed};
use crate::state::{cell_limit, GenState};
use crate::tokenizer::{spec_tokenize, tokenize, Token};
use crate::symbols::{
    lemma_lookup_absent, lemma_lookup_member, lemma_lookup_present, lemma_owner_member,
    lemma_without_last, lookup, Table,
};
use vstd::utf8::encode_utf8;
use crate::text::{chars_of, message3, owned, string_of};

verus! {

/// The code generator.
pub struct Compiler {
    head: isize,
    top: usize,
    output: Vec<char>,
    variables: Table,
    strings: Table,
}

impl View for Compiler {
    type V = GenState;

    closed spec fn view(&self) -> GenState {
        GenState {
            head: self.head as int,
            top: self.top as int,
            variables: self.variables@,
            strings: self.strings@,
            output: self.output@,
        }
    }
}

/// The integer square root `s` of `n` and the rest `n - s * s`.
pub fn find_factors(n: u8) -> (f: (u8, u8))
    ensures
        f.0 == isqrt(n as int),
        f.1 == n - f.0 * f.0,
        f.0 * f.0 <= n < (f.0 + 1) * (f.0 + 1),
{
    let mut s: u8 = 0;
    let mut k: u8 = 0;
    while k < n
        invariant
            k <= n,
            s == isqrt(k as int),
            s * s <= k < (s + 1) * (s + 1),
            s <= 15,
        decreases n - k,
    {
        k += 1;
        assert(s * s <= 225 && (s + 1) * (s + 1) <= 256) by (nonlinear_arith)
            requires
                s <= 15,
        ;
        if (s as u16 + 1) * (s as u16 + 1) <= k as u16 {
            s += 1;
            assert(s <= 15) by (nonlinear_arith)
                requires
                    s * s <= 255,
                    s >= 0,
            ;
            assert(k < (s + 1) * (s + 1)) by (nonlinear_arith)
                requires
                    k - 1 < s * s,
                    s >= 0,
            ;
        }
    }
    assert(s * s <= 225) by (nonlinear_arith)
        requires
            s <= 15,
    ;
    (s, n - s * s)
}

impl Compiler {
    /// A generator that has emitted nothing.
    pub fn new() -> (c: Compiler)
        ensures
            c@ == GenState::start(),
    {
        Compiler {
            head: 0,
            top: 0,
            output: Vec::new(),
            variables: Table::new(),
            strings: Table::new(),
        }
    }

    /// The simulated head position.
    pub fn head(&self) -> (h: isize)
        ensures
            h == self@.head,
    {
        self.head
    }

    /// The next free cell.
    pub fn top(&self) -> (t: usize)
        ensures
            t == self@.top,
    {
        self.top
    }

    /// The opcodes emitted so far.
    pub fn code(&self) -> (s: String)
        ensures
            s@ == self@.output,
    {
        string_of(&self.output)
    }

    /// Appends `src` to the output.
    pub fn emit(&mut self, src: &str)
        ensures
            final(self)@ == old(self)@.emit(src@),
    {
        let chars = chars_of(src);
        let mut i: usize = 0;
        while i < chars.len()
            invariant
                i <= chars.len(),
                self@ == old(self)@.emit(chars@.take(i as int)),
            decreases chars.len() - i,
        {
            self.output.push(chars[i]);
            i += 1;
            assert(self@.output =~= old(self)@.output + chars@.take(i as int));
        }
        assert(chars@.take(i as int) =~= src@);
    }

    /// Appends `n` copies of `c` to the output.
    fn emit_repeat(&mut self, c: char, n: usize)
        ensures
            final(self)@ == old(self)@.emit(repeat(c, n as int)),
    {
        let mut i: usize = 0;
        while i < n
            invariant
                i <= n,
                self@ == old(self)@.emit(repeat(c, i as int)),
            decreases n - i,
        {
            self.output.push(c);
            i += 1;
            assert(self@.output =~= old(self)@.output + repeat(c, i as int));
        }
    }

    /// Moves the head by `offset` cells.
    pub fn move_ptr(&mut self, offset: isize)
        requires
            0 <= old(self)@.head + offset <= cell_limit(),
            0 <= old(self)@.head,
        ensures
            final(self)@ == old(self)@.move_ptr(offset as int),
    {
        if offset > 0 {
            self.emit_repeat('>', offset as usize);
        } else {
            self.emit_repeat('<', (-offset) as usize);
        }
        self.head = self.head + offset;
    }

    /// Moves the head to cell `index`.
    pub fn set_ptr(&mut self, index: usize)
        requires
            0 <= old(self)@.head,
            index <= cell_limit(),
        ensures
            final(self)@ == old(self)@.set_ptr(index as int),
    {
        let offset = index as isize - self.head;
        self.move_ptr(offset);
    }

    /// Stores `value` in cell `index`.
    pub fn set(&mut self, index: usize, value: u8)
        requires
            0 <= old(self)@.head,
            index <= cell_limit(),
        ensures
            final(self)@ == old(self)@.set(index as int, value as int),
    {
        self.set_ptr(index);
        self.emit("[-]");
        self.emit_repeat('+', value as usize);
        proof {
            reveal_strlit("[-]");
            assert("[-]"@ =~= clear());
            assert(self@.output =~= old(self)@.output + set_code(
                old(self)@.head,
                index as int,
                value as int,
            ));
        }
    }

    /// Adds `value` to cell `index` with a loop that counts down in cell
    /// `temp`; small values are stored directly.
    #[verifier::rlimit(30)]
    pub fn set_with_gcf(&mut self, index: usize, temp: usize, value: u8)
        requires
            0 <= old(self)@.head,
            index <= cell_limit(),
            temp <= cell_limit(),
        ensures
            final(self)@ == old(self)@.set_with_gcf(index as int, temp as int, value as int),
    {
        if value < 16 {
            self.set(index, value);
            return ;
        }
        let (sroot, rest) = find_factors(value);
        self.set_ptr(temp);
        self.emit_repeat('+', sroot as usize);
        self.emit("[-");
        self.set_ptr(index);
        self.emit_repeat('+', sroot as usize);
        self.set_ptr(temp);
        self.emit("]");
        if rest > 0 {
            self.set_ptr(index);
            self.emit_repeat('+', rest as usize);
        }
        proof {
            reveal_strlit("[-");
            reveal_strlit("]");
            assert("[-"@ =~= seq!['['] + seq!['-']);
            assert("]"@ =~= seq![']']);
            assert(self@.output =~= old(self)@.output + gcf_code(
                old(self)@.head,
                index as int,
                temp as int,
                value as int,
            ));
        }
    }

    /// Reserves `size` cells and returns the first; nothing is emitted.
    pub fn malloc(&mut self, size: usize) -> (index: usize)
        requires
            old(self)@.top + size <= cell_limit(),
        ensures
            index == old(self)@.top,
            final(self)@ == old(self)@.malloc(size as int),
    {
        let index = self.top;
        self.top = self.top + size;
        index
    }

    /// Reserves `size` cells, clears each, and returns the first.
    pub fn calloc(&mut self, size: usize) -> (index: usize)
        requires
            0 <= old(self)@.head,
            old(self)@.top + size <= cell_limit(),
        ensures
            index == old(self)@.top,
            final(self)@ == old(self)@.calloc(size as int),
    {
        let index = self.top;
        self.top = self.top + size;
        let mut i: usize = 0;
        while i < size
            invariant
                i <= size,
                index + size <= cell_limit(),
                index == old(self)@.top,
                0 <= old(self)@.head,
                self@ == (GenState { top: index + size, ..old(self)@.calloc(i as int) }),
            decreases size - i,
        {
            self.set(index + i, 0);
            i += 1;
            assert(self@.output =~= old(self)@.output + calloc_code(
                old(self)@.head,
                index as int,
                i as int,
            ));
        }
        index
    }

    /// Gives back the `size` cells allocated last.
    pub fn dealloc(&mut self, size: usize)
        requires
            size <= old(self)@.top,
        ensures
            final(self)@ == old(self)@.dealloc(size as int),
    {
        self.top = self.top - size;
    }

    /// Empties cell `src` into cell `dest`, adding.
    pub fn dadd(&mut self, src: usize, dest: usize)
        requires
            0 <= old(self)@.head,
            src <= cell_limit(),
            dest <= cell_limit(),
        ensures
            final(self)@ == old(self)@.dadd(src as int, dest as int),
    {
        self.set_ptr(src);
        self.emit("[-");
        self.set_ptr(dest);
        self.emit("+");
        self.set_ptr(src);
        self.emit("]");
        proof {
            reveal_strlit("[-");
            reveal_strlit("+");
            reveal_strlit("]");
            assert("[-"@ =~= seq!['['] + seq!['-']);
            assert("+"@ =~= seq!['+']);
            assert("]"@ =~= seq![']']);
            assert(self@.output =~= old(self)@.output + dadd_code(
                old(self)@.head,
                src as int,
                dest as int,
            ));
        }
    }

    /// Empties cell `src` into cell `dest`, subtracting.
    pub fn dsub(&mut self, src: usize, dest: usize)
        requires
            0 <= old(self)@.head,
            src <= cell_limit(),
            dest <= cell_limit(),
        ensures
            final(self)@ == old(self)@.dsub(src as int, dest as int),
    {
        self.set_ptr(src);
        self.emit("[-");
        self.set_ptr(dest);
        self.emit("-");
        self.set_ptr(src);
        self.emit("]");
        proof {
            reveal_strlit("[-");
            reveal_strlit("-");
            reveal_strlit("]");
            assert("[-"@ =~= seq!['['] + seq!['-']);
            assert("-"@ =~= seq!['-']);
            assert("]"@ =~= seq![']']);
            assert(self@.output =~= old(self)@.output + dsub_code(
                old(self)@.head,
                src as int,
                dest as int,
            ));
        }
    }

    /// Moves the value of cell `src` to cell `dest`, leaving `src` zero.
    pub fn move_val(&mut self, src: usize, dest: usize)
        requires
            0 <= old(self)@.head,
            src <= cell_limit(),
            dest <= cell_limit(),
        ensures
            final(self)@ == old(self)@.move_val(src as int, dest as int),
    {
        self.set(dest, 0);
        self.dadd(src, dest);
        assert(self@.output =~= old(self)@.output + move_code(
            old(self)@.head,
            src as int,
            dest as int,
        ));
    }

    /// Clears each cell of `dests` in order.
    fn clear_cells(&mut self, dests: &[usize])
        requires
            0 <= old(self)@.head,
            forall|k: int| 0 <= k < dests@.len() ==> dests@[k] <= cell_limit(),
        ensures
            final(self)@ == old(self)@.step(
                last_or(old(self)@.head, cells_of(dests@)),
                clear_all(old(self)@.head, cells_of(dests@)),
            ),
    {
        let ghost cells = cells_of(dests@);
        let ghost before = self@;
        let mut i: usize = 0;
        assert(self@.output =~= before.output + clear_all(before.head, cells.take(0)));
        while i < dests.len()
            invariant
                i <= dests.len(),
                cells == cells_of(dests@),
                0 <= before.head,
                forall|k: int| 0 <= k < dests@.len() ==> dests@[k] <= cell_limit(),
                self@ == before.step(
                    last_or(before.head, cells.take(i as int)),
                    clear_all(before.head, cells.take(i as int)),
                ),
            decreases dests.len() - i,
        {
            self.set(dests[i], 0);
            i += 1;
            proof {
                assert(cells.take(i as int).drop_last() =~= cells.take(i as int - 1));
                assert(self@.output =~= before.output + clear_all(
                    before.head,
                    cells.take(i as int),
                ));
            }
        }
        assert(cells.take(i as int) =~= cells);
    }

    /// Adds one to each cell of `dests` in order, starting from cell `src`.
    fn spread_into(&mut self, src: usize, dests: &[usize])
        requires
            old(self)@.head == src,
            src <= cell_limit(),
            forall|k: int| 0 <= k < dests@.len() ==> dests@[k] <= cell_limit(),
        ensures
            final(self)@ == old(self)@.step(
                last_or(src as int, cells_of(dests@)),
                spread(src as int, cells_of(dests@)),
            ),
    {
        let ghost cells = cells_of(dests@);
        let ghost before = self@;
        let mut j: usize = 0;
        assert(self@.output =~= before.output + spread(src as int, cells.take(0)));
        while j < dests.len()
            invariant
                j <= dests.len(),
                cells == cells_of(dests@),
                src <= cell_limit(),
                forall|k: int| 0 <= k < dests@.len() ==> dests@[k] <= cell_limit(),
                self@ == before.step(
                    last_or(src as int, cells.take(j as int)),
                    spread(src as int, cells.take(j as int)),
                ),
            decreases dests.len() - j,
        {
            self.set_ptr(dests[j]);
            self.emit("+");
            j += 1;
            proof {
                reveal_strlit("+");
                assert("+"@ =~= seq!['+']);
                assert(cells.take(j as int).drop_last() =~= cells.take(j as int - 1));
                assert(self@.output =~= before.output + spread(src as int, cells.take(j as int)));
            }
        }
        assert(cells.take(j as int) =~= cells);
    }

    /// Copies the value of cell `src` into every cell of `dests`, keeping
    /// `src`.
    #[verifier::rlimit(30)]
    pub fn copy_val(&mut self, src: usize, dests: &[usize])
        requires
            0 <= old(self)@.head,
            0 <= old(self)@.top,
            old(self)@.top + 1 <= cell_limit(),
            src <= cell_limit(),
            forall|k: int| 0 <= k < dests@.len() ==> dests@[k] <= cell_limit(),
        ensures
            final(self)@ == old(self)@.copy_val(src as int, cells_of(dests@)),
    {
        let ghost cells = cells_of(dests@);
        let ghost before = self@;
        self.clear_cells(dests);
        let tmp = self.calloc(1);
        proof {
            lemma_calloc_one(last_or(before.head, cells), before.top);
        }
        self.set_ptr(src);
        self.emit("[-");
        self.spread_into(src, dests);
        self.set_ptr(tmp);
        self.emit("+");
        self.set_ptr(src);
        self.emit("]");
        self.move_val(tmp, src);
        self.dealloc(1);
        proof {
            reveal_strlit("[-");
            reveal_strlit("+");
            reveal_strlit("]");
            assert("[-"@ =~= seq!['[', '-']);
            assert("+"@ =~= seq!['+']);
            assert("]"@ =~= seq![']']);
            lemma_copy_shape(
                before.output,
                clear_all(before.head, cells),
                set_code(last_or(before.head, cells), before.top, 0),
                mv(before.top, src as int),
                spread(src as int, cells),
                mv(last_or(src as int, cells), before.top),
                mv(before.top, src as int),
                move_code(src as int, before.top, src as int),
            );
        }
    }

    /// Adds cell `src` to cell `dest`, keeping `src`.
    #[verifier::rlimit(30)]
    pub fn add(&mut self, src: usize, dest: usize)
        requires
            0 <= old(self)@.head,
            0 <= old(self)@.top,
            old(self)@.top + 2 <= cell_limit(),
            src <= cell_limit(),
            dest <= cell_limit(),
        ensures
            final(self)@ == old(self)@.add(src as int, dest as int),
    {
        let ghost before = self@;
        let tmp = self.calloc(1);
        proof {
            lemma_calloc_one(before.head, before.top);
        }
        let dests = [tmp];
        self.copy_val(src, &dests);
        assert(cells_of(dests@) =~= seq![before.top]);
        self.dadd(tmp, dest);
        self.dealloc(1);
        assert(self@.output =~= before.output + add_code(
            before.head,
            before.top,
            src as int,
            dest as int,
        ));
    }

    /// Subtracts cell `src` from cell `dest`, keeping `src`.
    #[verifier::rlimit(30)]
    pub fn sub(&mut self, src: usize, dest: usize)
        requires
            0 <= old(self)@.head,
            0 <= old(self)@.top,
            old(self)@.top + 2 <= cell_limit(),
            src <= cell_limit(),
            dest <= cell_limit(),
        ensures
            final(self)@ == old(self)@.sub(src as int, dest as int),
    {
        let ghost before = self@;
        let tmp = self.calloc(1);
        proof {
            lemma_calloc_one(before.head, before.top);
        }
        let dests = [tmp];
        self.copy_val(src, &dests);
        assert(cells_of(dests@) =~= seq![before.top]);
        self.dsub(tmp, dest);
        self.dealloc(1);
        assert(self@.output =~= before.output + sub_code(
            before.head,
            before.top,
            src as int,
            dest as int,
        ));
    }

    /// Multiplies cell `dest` by cell `src`, keeping `src`.
    #[verifier::rlimit(30)]
    pub fn mul(&mut self, src: usize, dest: usize)
        requires
            0 <= old(self)@.head,
            0 <= old(self)@.top,
            old(self)@.top + 3 <= cell_limit(),
            src <= cell_limit(),
            dest <= cell_limit(),
        ensures
            final(self)@ == old(self)@.mul(src as int, dest as int),
    {
        let ghost before = self@;
        let count = self.calloc(1);
        proof {
            lemma_calloc_one(before.head, before.top);
        }
        let dests = [count];
        self.copy_val(dest, &dests);
        assert(cells_of(dests@) =~= seq![before.top]);
        self.set(dest, 0);
        self.set_ptr(count);
        self.emit("[-");
        self.add(src, dest);
        self.set_ptr(count);
        self.emit("]");
        self.dealloc(1);
        proof {
            reveal_strlit("[-");
            reveal_strlit("]");
            assert("[-"@ =~= seq!['[', '-']);
            assert("]"@ =~= seq![']']);
            lemma_mul_shape(
                before.output,
                set_code(before.head, before.top, 0),
                copy_code(before.top, before.top + 1, dest as int, seq![before.top]),
                set_code(before.top + 1, dest as int, 0),
                mv(dest as int, before.top),
                add_code(before.top, before.top + 1, src as int, dest as int),
                mv(before.top + 1, before.top),
            );
        }
    }

    /// Allocates a cleared cell for a new variable `name`.
    pub fn alloc_var(&mut self, name: &str) -> (r: Result<usize, String>)
        requires
            old(self)@.wf(),
        ensures
            agrees(r, old(self)@.alloc_var(name@), final(self)@),
            r matches Ok(index) ==> index == old(self)@.top,
            r is Err ==> final(self)@ == old(self)@,
    {
        if self.top >= isize::MAX as usize {
            return Err(owned("Out of tape cells"));
        }
        if self.variables.get(name).is_some() {
            return Err(message3("Variable ", name, " is already defined"));
        }
        let index = self.calloc(1);
        self.variables.insert(name, index);
        Ok(index)
    }

    /// Frees the cell of variable `name`, which must be the one allocated
    /// last.
    pub fn dealloc_var(&mut self, name: &str)
        requires
            lookup(old(self)@.variables, name@) is Some,
            old(self)@.top >= 1,
        ensures
            final(self)@ == old(self)@.dealloc_var(name@),
    {
        let _ = self.variables.remove(name);
        self.dealloc(1);
    }

    /// Lays out the bytes of `string` from cell `index` on, followed by a
    /// zero.
    pub fn write_str(&mut self, index: usize, string: &str)
        requires
            0 <= old(self)@.head,
            index + encode_utf8(string@).len() <= cell_limit(),
        ensures
            final(self)@ == old(self)@.write_str(index as int, encode_utf8(string@)),
    {
        let bytes = string.as_bytes();
        let mut i: usize = 0;
        while i < bytes.len()
            invariant
                i <= bytes.len(),
                bytes@ == encode_utf8(string@),
                index + bytes.len() <= cell_limit(),
                0 <= old(self)@.head,
                0 <= self@.head,
                self@ == old(self)@.lay_bytes(index as int, bytes@, i as int),
            decreases bytes.len() - i,
        {
            self.set_with_gcf(index + i, index + i + 1, bytes[i]);
            i += 1;
        }
        self.set(index + bytes.len(), 0);
    }

    /// Reserves cells for the string literal `string`, lays it out, and
    /// records where it starts.
    pub fn add_string_literal(&mut self, string: &str) -> (r: Result<usize, String>)
        requires
            old(self)@.wf(),
        ensures
            agrees(r, old(self)@.add_string_literal(string@), final(self)@),
            r matches Ok(index) ==> index == old(self)@.top,
            r is Err ==> final(self)@ == old(self)@,
    {
        let len = string.as_bytes().len();
        if len >= isize::MAX as usize - self.top {
            return Err(owned("Out of tape cells"));
        }
        let index = self.malloc(len + 1);
        self.write_str(index, string);
        self.strings.insert(string, index);
        Ok(index)
    }

    /// Prints the string literal that starts at cell `index`; does nothing
    /// when no literal starts there.
    pub fn print_str_at(&mut self, index: usize)
        requires
            old(self)@.wf(),
            index <= cell_limit(),
        ensures
            final(self)@ == old(self)@.print_str_at(index as int),
    {
        match self.strings.byte_len_at(index) {
            Some(len) => {
                proof {
                    lemma_owner_member(self@.strings, index as int);
                }
                self.set_ptr(index);
                self.emit("[.>]");
                self.head = self.head + len as isize;
                proof {
                    reveal_strlit("[.>]");
                    assert("[.>]"@ =~= seq!['[', '.', '>', ']']);
                    assert(self@.output =~= old(self)@.output + print_code(
                        old(self)@.head,
                        index as int,
                    ));
                }
            },
            None => {},
        }
    }

    /// Division has no lowering.
    pub fn div(&mut self, src: usize, dest: usize) -> (r: Result<(), String>)
        ensures
            r matches Err(e) && e@ == msg_operator(BinaryOp::Div),
            *final(self) == *old(self),
    {
        Err(owned("Division is not yet supported"))
    }

    /// Remainder has no lowering.
    pub fn modulo(&mut self, src: usize, dest: usize) -> (r: Result<(), String>)
        ensures
            r matches Err(e) && e@ == msg_operator(BinaryOp::Mod),
            *final(self) == *old(self),
    {
        Err(owned("Modulo is not yet supported"))
    }

    /// Equality has no lowering.
    pub fn eq(&mut self, src: usize, dest: usize) -> (r: Result<(), String>)
        ensures
            r matches Err(e) && e@ == msg_operator(BinaryOp::Eq),
            *final(self) == *old(self),
    {
        Err(owned("Equality is not yet supported"))
    }

    /// Inequality has no lowering.
    pub fn neq(&mut self, src: usize, dest: usize) -> (r: Result<(), String>)
        ensures
            r matches Err(e) && e@ == msg_operator(BinaryOp::Neq),
            *final(self) == *old(self),
    {
        Err(owned("Inequality is not yet supported"))
    }

    /// Less-than has no lowering.
    pub fn lt(&mut self, src: usize, dest: usize) -> (r: Result<(), String>)
        ensures
            r matches Err(e) && e@ == msg_operator(BinaryOp::Lt),
            *final(self) == *old(self),
    {
        Err(owned("Less than is not yet supported"))
    }

    /// Less-than-or-equal has no lowering.
    pub fn leq(&mut self, src: usize, dest: usize) -> (r: Result<(), String>)
        ensures
            r matches Err(e) && e@ == msg_operator(BinaryOp::Leq),
            *final(self) == *old(self),
    {
        Err(owned("Less than or equal is not yet supported"))
    }

    /// Greater-than has no lowering.
    pub fn gt(&mut self, src: usize, dest: usize) -> (r: Result<(), String>)
        ensures
            r matches Err(e) && e@ == msg_operator(BinaryOp::Gt),
            *final(self) == *old(self),
    {
        Err(owned("Greater than is not yet supported"))
    }

    /// Greater-than-or-equal has no lowering.
    pub fn geq(&mut self, src: usize, dest: usize) -> (r: Result<(), String>)
        ensures
            r matches Err(e) && e@ == msg_operator(BinaryOp::Geq),
            *final(self) == *old(self),
    {
        Err(owned("Greater than or equal is not yet supported"))
    }

    /// Logical and has no lowering.
    pub fn and(&mut self, src: usize, dest: usize) -> (r: Result<(), String>)
        ensures
            r matches Err(e) && e@ == msg_operator(BinaryOp::And),
            *final(self) == *old(self),
    {
        Err(owned("Logical and is not yet supported"))
    }

    /// Logical or has no lowering.
    pub fn or(&mut self, src: usize, dest: usize) -> (r: Result<(), String>)
        ensures
            r matches Err(e) && e@ == msg_operator(BinaryOp::Or),
            *final(self) == *old(self),
    {
        Err(owned("Logical or is not yet supported"))
    }

    /// Calls have no lowering: no function is ever defined.
    pub fn call(&self, callee: &Expr, args: &Vec<Expr>) -> (r: Result<(), String>)
        ensures
            r matches Err(e) && self@.call(callee@) == Err::<GenState, Seq<char>>(e@),
    {
        match callee {
            Expr::Identifier(name) => Err(message3("Function ", name.as_str(), " is not defined")),
            _ => Err(owned("Function calls are not yet supported")),
        }
    }

    /// Writes the value of `expr` into cell `dest`, which must hold zero, and
    /// returns the head to where it was. The stack top is left as it was.
    #[verifier::rlimit(30)]
    pub fn evaluate_expression(&mut self, expr: &Expr, dest: usize) -> (r: Result<usize, String>)
        requires
            old(self)@.wf(),
            dest <= cell_limit(),
        ensures
            agrees(r, old(self)@.evaluate_expression(expr@, dest as int), final(self)@),
            r matches Ok(d) ==> d == dest && same_frame(old(self)@, final(self)@),
        decreases expr,
    {
        let entry = self.head;
        match expr {
            Expr::Unary { .. } => {
                return Err(owned("Unary operators are not yet supported"));
            },
            Expr::Binary { lhs: lhs_expr, op, rhs: rhs_expr } => {
                if self.top > isize::MAX as usize - 5 {
                    return Err(owned("Out of tape cells"));
                }
                let lhs = self.calloc(1);
                let rhs = self.calloc(1);
                match self.evaluate_expression(lhs_expr, lhs) {
                    Err(e) => {
                        return Err(e);
                    },
                    Ok(_) => {},
                }
                match self.evaluate_expression(rhs_expr, rhs) {
                    Err(e) => {
                        return Err(e);
                    },
                    Ok(_) => {},
                }
                self.dadd(lhs, dest);
                let applied = match op {
                    BinaryOp::Add => {
                        self.dadd(rhs, dest);
                        Ok(())
                    },
                    BinaryOp::Sub => {
                        self.dsub(rhs, dest);
                        Ok(())
                    },
                    BinaryOp::Mul => {
                        self.mul(rhs, dest);
                        Ok(())
                    },
                    BinaryOp::Div => self.div(rhs, dest),
                    BinaryOp::Mod => self.modulo(rhs, dest),
                    BinaryOp::Eq => self.eq(rhs, dest),
                    BinaryOp::Neq => self.neq(rhs, dest),
                    BinaryOp::Lt => self.lt(rhs, dest),
                    BinaryOp::Leq => self.leq(rhs, dest),
                    BinaryOp::Gt => self.gt(rhs, dest),
                    BinaryOp::Geq => self.geq(rhs, dest),
                    BinaryOp::And => self.and(rhs, dest),
                    BinaryOp::Or => self.or(rhs, dest),
                };
                match applied {
                    Err(e) => {
                        return Err(e);
                    },
                    Ok(_) => {},
                }
                self.dealloc(2);
            },
            Expr::Number(n) => {
                self.set(dest, *n);
            },
            Expr::String(_) => {
                return Err(owned("Strings are not yet supported"));
            },
            Expr::Identifier(name) => {
                match self.variables.get(name.as_str()) {
                    Some(index) => {
                        if self.top >= isize::MAX as usize {
                            return Err(owned("Out of tape cells"));
                        }
                        proof {
                            lemma_lookup_member(self@.variables, name@);
                        }
                        let dests = [dest];
                        self.copy_val(index, &dests);
                        assert(cells_of(dests@) =~= seq![dest as int]);
                    },
                    None => {
                        return Err(message3("Variable ", name.as_str(), " is not defined"));
                    },
                }
            },
            Expr::Call { callee, args } => {
                match self.call(callee, args) {
                    Err(e) => {
                        return Err(e);
                    },
                    Ok(_) => {},
                }
            },
        }
        self.set_ptr(entry as usize);
        Ok(dest)
    }

    /// Function definitions have no lowering.
    pub fn function_declaration(&mut self, name: &str, params: &Vec<String>, body: &Statement) -> (r:
        Result<(), String>)
        ensures
            r matches Err(e) && e@ == msg_functions(),
            *final(self) == *old(self),
    {
        Err(owned("Function declarations are not yet supported"))
    }

    /// Loops have no lowering.
    pub fn while_statement(&mut self, condition: &Expr, body: &Statement) -> (r: Result<
        (),
        String,
    >)
        ensures
            r matches Err(e) && e@ == msg_while(),
            *final(self) == *old(self),
    {
        Err(owned("While statements are not yet supported"))
    }

    /// Defines variable `name` in a fresh cell and, if there is an
    /// initializer, stores its value there.
    #[verifier::rlimit(30)]
    pub fn variable_definition(&mut self, name: &str, initializer: Option<&Expr>) -> (r: Result<
        (),
        String,
    >)
        requires
            old(self)@.tidy(),
        ensures
            agrees(
                r,
                old(self)@.variable_definition(name@, expr_ref_view(initializer)),
                final(self)@,
            ),
            r is Ok ==> kept(old(self)@, final(self)@, seq![name@]),
            old(self)@.alloc_var(name@) is Err ==> final(self)@ == old(self)@,
    {
        let index = match self.alloc_var(name) {
            Err(e) => {
                return Err(e);
            },
            Ok(index) => index,
        };
        proof {
            lemma_lookup_absent(old(self)@.variables, name@);
            lemma_string_cells_bounds(self@.strings);
        }
        if let Some(init) = initializer {
            if self.top >= isize::MAX as usize {
                return Err(owned("Out of tape cells"));
            }
            let expr_index = self.calloc(1);
            match self.evaluate_expression(init, expr_index) {
                Err(e) => {
                    return Err(e);
                },
                Ok(_) => {},
            }
            self.move_val(expr_index, index);
            self.dealloc(1);
        }
        Ok(())
    }

    /// Stores the value of `value` in the cell of variable `name`.
    #[verifier::rlimit(30)]
    pub fn assignment(&mut self, name: &str, value: &Expr) -> (r: Result<(), String>)
        requires
            old(self)@.tidy(),
        ensures
            agrees(r, old(self)@.assignment(name@, value@), final(self)@),
            r is Ok ==> kept(old(self)@, final(self)@, Seq::empty()),
            lookup(old(self)@.variables, name@) is None || old(self)@.top + 1 > cell_limit()
                ==> final(self)@ == old(self)@,
    {
        let var = match self.variables.get(name) {
            Some(index) => index,
            None => {
                return Err(message3("Variable ", name, " is not defined"));
            },
        };
        if self.top >= isize::MAX as usize {
            return Err(owned("Out of tape cells"));
        }
        proof {
            lemma_lookup_member(self@.variables, name@);
        }
        let expr = self.calloc(1);
        match self.evaluate_expression(value, expr) {
            Err(e) => {
                return Err(e);
            },
            Ok(_) => {},
        }
        self.move_val(expr, var);
        self.dealloc(1);
        Ok(())
    }

    /// Lays out `text` unless it is laid out already.
    fn ensure_string(&mut self, text: &str) -> (r: Result<(), String>)
        requires
            old(self)@.tidy(),
        ensures
            agrees(r, old(self)@.ensure_string(text@), final(self)@),
            r is Ok ==> kept(old(self)@, final(self)@, Seq::empty()),
            r is Err ==> final(self)@ == old(self)@,
    {
        if self.strings.get(text).is_none() {
            match self.add_string_literal(text) {
                Err(e) => {
                    return Err(e);
                },
                Ok(_) => {},
            }
            proof {
                let bytes = encode_utf8(text@);
                let base = old(self)@.malloc(bytes.len() as int + 1);
                lemma_lay_bytes_frame(base, base.top - bytes.len() - 1, bytes, bytes.len() as int);
                assert(self@.strings.drop_last() =~= old(self)@.strings);
            }
        }
        Ok(())
    }

    /// Lays out the string literals of a statement that are not laid out
    /// yet, those of nested statements included.
    #[verifier::rlimit(30)]
    fn collect_statement(&mut self, stmt: &Statement) -> (r: Result<(), String>)
        requires
            old(self)@.tidy(),
        ensures
            agrees(r, old(self)@.collect_statement(stmt@), final(self)@),
            r is Ok ==> kept(old(self)@, final(self)@, Seq::empty()),
        decreases stmt, 0int,
    {
        let ghost before = self@;
        match stmt {
            Statement::VariableDefinition { initializer: Some(Expr::String(t)), .. } => {
                self.ensure_string(t.as_str())
            },
            Statement::Assignment { value: Expr::String(t), .. } => {
                self.ensure_string(t.as_str())
            },
            Statement::Print(Expr::String(t)) => self.ensure_string(t.as_str()),
            Statement::Return(_) => Err(owned("Return statements not implemented")),
            Statement::Block(statements) => {
                proof {
                    lemma_statements_view(statements@);
                }
                self.collect_strings(statements)
            },
            Statement::If { then_branch, else_branch, .. } => {
                match self.collect_statement(then_branch) {
                    Err(e) => {
                        return Err(e);
                    },
                    Ok(_) => {},
                }
                let ghost mid = self@;
                match else_branch {
                    Some(other) => {
                        match self.collect_statement(other) {
                            Err(e) => {
                                return Err(e);
                            },
                            Ok(_) => {},
                        }
                        proof {
                            lemma_grown_chain(
                                before.variables,
                                mid.variables,
                                self@.variables,
                                Seq::empty(),
                                Seq::empty(),
                            );
                            assert(Seq::<Seq<char>>::empty() + Seq::<Seq<char>>::empty()
                                =~= Seq::<Seq<char>>::empty());
                        }
                        Ok(())
                    },
                    None => Ok(()),
                }
            },
            _ => Ok(()),
        }
    }

    /// Lays out the string literals of the statements of the list, nested
    /// statements included.
    #[verifier::rlimit(30)]
    fn collect_strings(&mut self, statements: &Vec<Statement>) -> (r: Result<(), String>)
        requires
            old(self)@.tidy(),
        ensures
            agrees(
                r,
                old(self)@.collect_strings(
                    statements_view(statements@),
                    statements@.len() as int,
                ),
                final(self)@,
            ),
            r is Ok ==> kept(old(self)@, final(self)@, Seq::empty()),
        decreases statements, 1int,
    {
        let ghost sv = statements_view(statements@);
        let ghost before = self@;
        let mut i: usize = 0;
        proof {
            lemma_statements_view(statements@);
        }
        while i < statements.len()
            invariant
                i <= statements.len(),
                sv == statements_view(statements@),
                sv.len() == statements@.len(),
                forall|k: int| 0 <= k < statements@.len() ==> (#[trigger] sv[k]) == statements@[k]@,
                before == old(self)@,
                before.collect_strings(sv, i as int) == Ok::<GenState, Seq<char>>(self@),
                kept(before, self@, Seq::empty()),
            decreases statements.len() - i,
        {
            let ghost here = self@;
            proof {
                assert(sv[i as int] == statements@[i as int]@);
            }
            match self.collect_statement(&statements[i]) {
                Err(e) => {
                    proof {
                        assert(before.collect_strings(sv, i as int + 1) == Err::<
                            GenState,
                            Seq<char>,
                        >(e@));
                        lemma_collect_stops(before, sv, i as int + 1, statements@.len() as int);
                    }
                    return Err(e);
                },
                Ok(_) => {},
            }
            proof {
                lemma_grown_chain(
                    before.variables,
                    here.variables,
                    self@.variables,
                    Seq::empty(),
                    Seq::empty(),
                );
                assert(Seq::<Seq<char>>::empty() + Seq::<Seq<char>>::empty() =~= Seq::<
                    Seq<char>,
                >::empty());
            }
            i += 1;
        }
        Ok(())
    }

    /// Lowers the statements of the list in order.
    #[verifier::rlimit(30)]
    fn lower_all(&mut self, statements: &Vec<Statement>) -> (r: Result<(), String>)
        requires
            old(self)@.tidy(),
        ensures
            agrees(
                r,
                old(self)@.lower_prefix(statements_view(statements@), statements@.len() as int),
                final(self)@,
            ),
            r is Ok ==> kept(old(self)@, final(self)@, defined_names(statements_view(statements@))),
        decreases statements, 0int,
    {
        let ghost sv = statements_view(statements@);
        let ghost before = self@;
        let mut j: usize = 0;
        proof {
            lemma_statements_view(statements@);
            assert(sv.take(0) =~= Seq::<SpecStatement>::empty());
        }
        while j < statements.len()
            invariant
                j <= statements.len(),
                sv == statements_view(statements@),
                sv.len() == statements@.len(),
                forall|k: int| 0 <= k < statements@.len() ==> (#[trigger] sv[k]) == statements@[k]@,
                before == old(self)@,
                before.lower_prefix(sv, j as int) == Ok::<GenState, Seq<char>>(self@),
                kept(before, self@, defined_names(sv.take(j as int))),
            decreases statements.len() - j,
        {
            let ghost here = self@;
            proof {
                assert(sv[j as int] == statements@[j as int]@);
                assert(sv.take(j as int + 1).drop_last() =~= sv.take(j as int));
                assert(sv.take(j as int + 1).last() == sv[j as int]);
            }
            match self.evaluate_statement(&statements[j]) {
                Err(e) => {
                    proof {
                        assert(before.lower_prefix(sv, j as int + 1) == Err::<GenState, Seq<char>>(
                            e@,
                        ));
                        lemma_lowering_stops(before, sv, j as int + 1, statements@.len() as int);
                    }
                    return Err(e);
                },
                Ok(_) => {},
            }
            proof {
                lemma_grown_chain(
                    before.variables,
                    here.variables,
                    self@.variables,
                    defined_names(sv.take(j as int)),
                    own_names(sv[j as int]),
                );
                assert(defined_names(sv.take(j as int + 1)) =~= defined_names(sv.take(j as int))
                    + own_names(sv[j as int]));
            }
            j += 1;
        }
        proof {
            assert(sv.take(j as int) =~= sv);
        }
        Ok(())
    }

    /// Compiles a program: lays out every string literal of its statements,
    /// nested ones included, then lowers the statements in order. What is
    /// emitted is a program, and no print fails for want of its literal.
    pub fn compile(&mut self, statements: &Vec<Statement>) -> (r: Result<(), String>)
        requires
            old(self)@.tidy(),
        ensures
            agrees(r, old(self)@.compile(statements_view(statements@)), final(self)@),
            r is Ok ==> kept(old(self)@, final(self)@, defined_names(statements_view(statements@))),
            r is Ok ==> extends(old(self)@, final(self)@),
            r matches Err(e) ==> !names_literal(e@),
    {
        let ghost before = self@;
        proof {
            lemma_statements_view(statements@);
            law_compile_lays_out_what_it_prints(before, statements_view(statements@));
            if before.compile(statements_view(statements@)) is Ok {
                law_compile_shape(before, statements_view(statements@));
            }
        }
        match self.collect_strings(statements) {
            Err(e) => {
                return Err(e);
            },
            Ok(_) => {},
        }
        let ghost mid = self@;
        match self.lower_all(statements) {
            Err(e) => {
                return Err(e);
            },
            Ok(_) => {},
        }
        proof {
            lemma_grown_chain(
                before.variables,
                mid.variables,
                self@.variables,
                Seq::empty(),
                defined_names(statements_view(statements@)),
            );
            assert(Seq::<Seq<char>>::empty() + defined_names(statements_view(statements@))
                =~= defined_names(statements_view(statements@)));
        }
        Ok(())
    }

    /// Lowers the statements of a block in order and frees the variables
    /// that the block defined, last first.
    #[verifier::rlimit(30)]
    pub fn block(&mut self, statements: &Vec<Statement>) -> (r: Result<(), String>)
        requires
            old(self)@.tidy(),
        ensures
            agrees(r, old(self)@.block(statements_view(statements@)), final(self)@),
            r is Ok ==> kept(old(self)@, final(self)@, Seq::empty()),
        decreases statements, 2int,
    {
        let ghost sv = statements_view(statements@);
        let ghost before = self@;
        let mut varnames: Vec<String> = Vec::new();
        let mut i: usize = 0;
        proof {
            lemma_statements_view(statements@);
            assert(sv.take(0) =~= Seq::<SpecStatement>::empty());
            assert(names_view(varnames@) =~= defined_names(sv.take(0)));
        }
        while i < statements.len()
            invariant
                i <= statements.len(),
                sv == statements_view(statements@),
                sv.len() == statements@.len(),
                forall|k: int| 0 <= k < statements@.len() ==> (#[trigger] sv[k]) == statements@[k]@,
                names_view(varnames@) == defined_names(sv.take(i as int)),
            decreases statements.len() - i,
        {
            proof {
                assert(sv[i as int] == statements@[i as int]@);
                assert(sv.take(i as int + 1).drop_last() =~= sv.take(i as int));
                assert(sv.take(i as int + 1).last() == sv[i as int]);
            }
            match &statements[i] {
                Statement::VariableDefinition { name, .. } => {
                    let ghost earlier = varnames@;
                    varnames.push(name.clone());
                    proof {
                        assert(names_view(varnames@) =~= names_view(earlier).push(name@));
                    }
                },
                _ => {},
            }
            i += 1;
        }
        proof {
            assert(sv.take(i as int) =~= sv);
        }
        match self.lower_all(statements) {
            Err(e) => {
                return Err(e);
            },
            Ok(_) => {},
        }
        let ghost mid = self@;
        let ghost names = names_view(varnames@);
        let mut k: usize = varnames.len();
        proof {
            assert(names.take(k as int) =~= names);
        }
        while k > 0
            invariant
                k <= varnames.len(),
                names == names_view(varnames@),
                self@.tidy(),
                self@.slack() == before.slack(),
                grown(before.variables, self@.variables, names.take(k as int)),
                mid.release(names) == self@.release(names.take(k as int)),
            decreases k,
        {
            k -= 1;
            proof {
                let vars = self@.variables;
                assert(vars.last().0 == names[k as int]);
                lemma_lookup_present(vars, vars.len() - 1);
                lemma_without_last(vars);
                lemma_string_cells_bounds(self@.strings);
                assert(names.take(k as int + 1).drop_last() =~= names.take(k as int));
                assert(names.take(k as int + 1).last() == names[k as int]);
            }
            self.dealloc_var(varnames[k].as_str());
        }
        proof {
            assert(self@.variables =~= before.variables);
        }
        Ok(())
    }

    /// Lowers a branch of an `if` as a scope of its own: a variable that the
    /// branch defines directly is freed behind it.
    fn scoped(&mut self, stmt: &Statement) -> (r: Result<(), String>)
        requires
            old(self)@.tidy(),
        ensures
            agrees(r, old(self)@.scoped(stmt@), final(self)@),
            r is Ok ==> kept(old(self)@, final(self)@, Seq::empty()),
        decreases stmt, 2int,
    {
        match self.evaluate_statement(stmt) {
            Err(e) => {
                return Err(e);
            },
            Ok(_) => {},
        }
        match stmt {
            Statement::VariableDefinition { name, .. } => {
                proof {
                    let vars = self@.variables;
                    lemma_lookup_present(vars, vars.len() - 1);
                    lemma_without_last(vars);
                    lemma_string_cells_bounds(self@.strings);
                }
                self.dealloc_var(name.as_str());
                proof {
                    assert(self@.variables =~= old(self)@.variables);
                }
            },
            _ => {
                proof {
                    assert(self@.variables =~= old(self)@.variables);
                }
            },
        }
        Ok(())
    }

    /// Opens the then-branch on the condition cell `cond`.
    fn if_open(&mut self, cond: usize)
        requires
            0 <= old(self)@.head,
            cond <= cell_limit(),
        ensures
            final(self)@ == old(self)@.if_open(cond as int),
    {
        self.set_ptr(cond);
        self.emit("[[-]");
        proof {
            reveal_strlit("[[-]");
            assert("[[-]"@ =~= seq!['[', '[', '-', ']']);
        }
    }

    /// Closes the then-branch on the condition cell `cond`.
    fn if_close(&mut self, cond: usize)
        requires
            0 <= old(self)@.head,
            cond <= cell_limit(),
        ensures
            final(self)@ == old(self)@.if_close(cond as int),
    {
        self.set_ptr(cond);
        self.emit("]");
        proof {
            reveal_strlit("]");
            assert("]"@ =~= seq![']']);
        }
    }

    /// Allocates the flag cell of an else-branch and sets it to one.
    fn else_flag(&mut self) -> (aux: usize)
        requires
            0 <= old(self)@.head,
            old(self)@.top + 1 <= cell_limit(),
        ensures
            aux == old(self)@.top,
            final(self)@ == old(self)@.else_flag(),
    {
        let aux = self.calloc(1);
        self.emit("+");
        proof {
            reveal_strlit("+");
            assert("+"@ =~= seq!['+']);
        }
        aux
    }

    /// Opens the else-branch on the flag cell `aux`.
    fn else_open(&mut self, aux: usize)
        requires
            0 <= old(self)@.head,
            aux <= cell_limit(),
        ensures
            final(self)@ == old(self)@.else_open(aux as int),
    {
        self.set_ptr(aux);
        self.emit("[");
        proof {
            reveal_strlit("[");
            assert("["@ =~= seq!['[']);
        }
    }

    /// Closes the else-branch on the flag cell `aux`.
    fn else_close(&mut self, aux: usize)
        requires
            0 <= old(self)@.head,
            aux <= cell_limit(),
        ensures
            final(self)@ == old(self)@.else_close(aux as int),
    {
        self.set_ptr(aux);
        self.emit("[-]]");
        proof {
            reveal_strlit("[-]]");
            assert("[-]]"@ =~= seq!['[', '-', ']', ']']);
        }
    }

    /// Lowers an `if`: the then-branch runs when the condition is not zero,
    /// the else-branch, if there is one, when it is zero.
    #[verifier::rlimit(30)]
    pub fn if_statement(&mut self, stmt: &Statement) -> (r: Result<(), String>)
        requires
            old(self)@.tidy(),
            stmt is If,
        ensures
            agrees(r, old(self)@.evaluate_statement(stmt@), final(self)@),
            r is Ok ==> kept(old(self)@, final(self)@, Seq::empty()),
        decreases stmt, 0int,
    {
        let ghost before = self@;
        match stmt {
            Statement::If { condition, then_branch, else_branch } => {
                if self.top > isize::MAX as usize - 2 {
                    return Err(owned("Out of tape cells"));
                }
                proof {
                    lemma_string_cells_bounds(self@.strings);
                }
                let cond = self.calloc(1);
                match self.evaluate_expression(condition, cond) {
                    Err(e) => {
                        return Err(e);
                    },
                    Ok(_) => {},
                }
                match else_branch {
                    None => {
                        self.if_open(cond);
                        match self.scoped(then_branch) {
                            Err(e) => {
                                return Err(e);
                            },
                            Ok(_) => {},
                        }
                        proof {
                            lemma_string_cells_bounds(self@.strings);
                        }
                        self.if_close(cond);
                        self.dealloc(1);
                    },
                    Some(other) => {
                        let aux = self.else_flag();
                        self.if_open(cond);
                        self.set(aux, 0);
                        match self.scoped(then_branch) {
                            Err(e) => {
                                return Err(e);
                            },
                            Ok(_) => {},
                        }
                        self.if_close(cond);
                        self.else_open(aux);
                        match self.scoped(other) {
                            Err(e) => {
                                return Err(e);
                            },
                            Ok(_) => {},
                        }
                        proof {
                            lemma_string_cells_bounds(self@.strings);
                        }
                        self.else_close(aux);
                        self.dealloc(2);
                    },
                }
                proof {
                    assert(self@.variables =~= before.variables);
                }
                Ok(())
            },
            _ => Ok(()),
        }
    }

    /// Lowers one statement.
    #[verifier::rlimit(30)]
    pub fn evaluate_statement(&mut self, stmt: &Statement) -> (r: Result<(), String>)
        requires
            old(self)@.tidy(),
        ensures
            agrees(r, old(self)@.evaluate_statement(stmt@), final(self)@),
            r is Ok ==> kept(old(self)@, final(self)@, own_names(stmt@)),
            r is Err && (stmt@ is FunctionDefinition || stmt@ is Return || stmt@ is Print || stmt@
                is While) ==> final(self)@ == old(self)@,
        decreases stmt, 1int,
    {
        match stmt {
            Statement::FunctionDefinition { name, params, body } => {
                self.function_declaration(name.as_str(), params, body)
            },
            Statement::VariableDefinition { name, initializer } => {
                self.variable_definition(name.as_str(), initializer.as_ref())
            },
            Statement::Return(_) => Err(owned("Return statements are not yet supported")),
            Statement::Print(expr) => match expr {
                Expr::String(s) => match self.strings.get(s.as_str()) {
                    Some(index) => {
                        proof {
                            lemma_lookup_member(self@.strings, s@);
                        }
                        self.print_str_at(index);
                        proof {
                            assert(self@.variables =~= old(self)@.variables);
                        }
                        Ok(())
                    },
                    None => Err(message3("String literal ", s.as_str(), " is not laid out")),
                },
                _ => Err(
                    owned("Print statements that doesn't use string literals are not yet supported"),
                ),
            },
            Statement::Block(block_statements) => {

                self.block(block_statements)
            },
            Statement::If { .. } => self.if_statement(stmt),
            Statement::While { condition, body } => self.while_statement(condition, body),
            Statement::Assignment { name, value } => self.assignment(name.as_str(), value),
        }
    }
}

/// The outcome `r` of an operation is the one that `expected` names: on
/// success the generator is in the expected state, on failure the diagnostic
/// is the expected one.
pub open spec fn agrees<T>(r: Result<T, String>, expected: Lowered, after: GenState) -> bool {
    match r {
        Ok(_) => expected == Ok::<GenState, Seq<char>>(after),
        Err(e) => expected == Err::<GenState, Seq<char>>(e@),
    }
}

/// The model of an optional borrowed expression.
pub open spec fn expr_ref_view(e: Option<&Expr>) -> Option<SpecExpr> {
    match e {
        Some(e) => Some(e@),
        None => None,
    }
}

/// The cell indices of a slice as integers.
pub open spec fn cells_of(dests: Seq<usize>) -> Seq<int> {
    dests.map_values(|d: usize| d as int)
}

/// Regrouping of the pieces that `copy_val` emits one after the other.
proof fn lemma_copy_shape(
    b: Seq<char>,
    x1: Seq<char>,
    x2: Seq<char>,
    x3: Seq<char>,
    x4: Seq<char>,
    x5: Seq<char>,
    x6: Seq<char>,
    x7: Seq<char>,
)
    ensures
        b + x1 + x2 + x3 + seq!['[', '-'] + x4 + x5 + seq!['+'] + x6 + seq![']'] + x7 == b + (x1
            + x2 + x3 + loop_of(seq!['-'] + x4 + x5 + seq!['+'] + x6) + x7),
{
    assert(b + x1 + x2 + x3 + seq!['[', '-'] + x4 + x5 + seq!['+'] + x6 + seq![']'] + x7 =~= b + (
    x1 + x2 + x3 + loop_of(seq!['-'] + x4 + x5 + seq!['+'] + x6) + x7));
}

/// Regrouping of the pieces that `mul` emits one after the other.
proof fn lemma_mul_shape(
    b: Seq<char>,
    x1: Seq<char>,
    x2: Seq<char>,
    x3: Seq<char>,
    x4: Seq<char>,
    x5: Seq<char>,
    x6: Seq<char>,
)
    ensures
        b + x1 + x2 + x3 + x4 + seq!['[', '-'] + x5 + x6 + seq![']'] == b + (x1 + x2 + x3 + x4
            + loop_of(seq!['-'] + x5 + x6)),
{
    assert(b + x1 + x2 + x3 + x4 + seq!['[', '-'] + x5 + x6 + seq![']'] =~= b + (x1 + x2 + x3 + x4
        + loop_of(seq!['-'] + x5 + x6)));
}

/// Clearing one fresh cell is storing zero in it.
proof fn lemma_calloc_one(h: int, top: int)
    ensures
        calloc_code(h, top, 1) == set_code(h, top, 0),
{
    assert(calloc_code(h, top, 0) =~= Seq::<char>::empty());
    assert(calloc_code(h, top, 1) =~= set_code(h, top, 0));
}

/// The opcode text that compiling `src` gives, or the diagnostic that stops
/// the compilation: the source is split into tokens, parsed, and lowered
/// from the starting state.
pub open spec fn spec_compile(src: Seq<char>) -> Result<Seq<char>, Seq<char>> {
    match spec_parse(spec_tokenize(src)) {
        Err(m) => Err(m),
        Ok(stmts) => match GenState::start().compile(stmts) {
            Err(m) => Err(m),
            Ok(st) => Ok(st.output),
        },
    }
}

/// Compiles source text to opcode text. The text is made of opcodes only,
/// and every bracket in it has its partner.
pub fn compile(src: &str) -> (r: Result<String, String>)
    ensures
        match r {
            Ok(code) => spec_compile(src@) == Ok::<Seq<char>, Seq<char>>(code@),
            Err(m) => spec_compile(src@) == Err::<Seq<char>, Seq<char>>(m@),
        },
        r matches Ok(code) ==> well_formed(code@),
{
    let tokens: Vec<Token> = tokenize(src).collect();
    let program = match parse(tokens.as_slice()) {
        Err(e) => {
            return Err(e);
        },
        Ok(program) => program,
    };
    let mut compiler = Compiler::new();
    proof {
        if GenState::start().compile(program@) is Ok {
            law_compile_shape(GenState::start(), program@);
        }
    }
    match compiler.compile(&program.statements) {
        Err(e) => {
            return Err(e);
        },
        Ok(_) => {},
    }
    Ok(compiler.code())
}

} // verus!
