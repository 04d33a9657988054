//! The lowering of expressions and statements as a function from generator
//! state to generator state, or to the diagnostic that stops the compilation.

use vstd::prelude::*;
use vstd::utf8::encode_utf8;
use crate::ast::{BinaryOp, SpecExpr, SpecStatement};
use crate::code::print_code;
use crate::state::{cell_limit, GenState};
use crate::symbols::{lookup, owner, without, Binding};

verus! {

/// The outcome of a lowering: the state after it, or a diagnostic.
pub type Lowered = Result<GenState, Seq<char>>;

/// The diagnostic for a program that needs more cells than can be
/// addressed.
pub open spec fn msg_out_of_cells() -> Seq<char> {
    "Out of tape cells"@
}

/// The diagnostic for a second definition of a variable.
pub open spec fn msg_already_defined(name: Seq<char>) -> Seq<char> {
    "Variable "@ + name + " is already defined"@
}

/// The diagnostic for a variable that is not in scope.
pub open spec fn msg_not_defined(name: Seq<char>) -> Seq<char> {
    "Variable "@ + name + " is not defined"@
}

/// The diagnostic for a call of a function by name.
pub open spec fn msg_no_function(name: Seq<char>) -> Seq<char> {
    "Function "@ + name + " is not defined"@
}

/// The diagnostic for the print of a string literal that no statement
/// list has laid out.
pub open spec fn msg_no_string(text: Seq<char>) -> Seq<char> {
    "String literal "@ + text + " is not laid out"@
}

/// The diagnostic for a call of anything but a name.
pub open spec fn msg_calls() -> Seq<char> {
    "Function calls are not yet supported"@
}

/// The diagnostic for a unary operator.
pub open spec fn msg_unary() -> Seq<char> {
    "Unary operators are not yet supported"@
}

/// The diagnostic for a string literal where a value is needed.
pub open spec fn msg_strings() -> Seq<char> {
    "Strings are not yet supported"@
}

/// The diagnostic for a function definition.
pub open spec fn msg_functions() -> Seq<char> {
    "Function declarations are not yet supported"@
}

/// The diagnostic for a return statement that is lowered.
pub open spec fn msg_return() -> Seq<char> {
    "Return statements are not yet supported"@
}

/// The diagnostic for a return statement met while string literals are
/// gathered.
pub open spec fn msg_return_scan() -> Seq<char> {
    "Return statements not implemented"@
}

/// The diagnostic for the print of anything but a string literal.
pub open spec fn msg_print() -> Seq<char> {
    "Print statements that doesn't use string literals are not yet supported"@
}

/// The diagnostic for a loop.
pub open spec fn msg_while() -> Seq<char> {
    "While statements are not yet supported"@
}

/// The diagnostic for a binary operator that has no lowering.
pub open spec fn msg_operator(op: BinaryOp) -> Seq<char> {
    match op {
        BinaryOp::Div => "Division is not yet supported"@,
        BinaryOp::Mod => "Modulo is not yet supported"@,
        BinaryOp::Eq => "Equality is not yet supported"@,
        BinaryOp::Neq => "Inequality is not yet supported"@,
        BinaryOp::Lt => "Less than is not yet supported"@,
        BinaryOp::Leq => "Less than or equal is not yet supported"@,
        BinaryOp::Gt => "Greater than is not yet supported"@,
        BinaryOp::Geq => "Greater than or equal is not yet supported"@,
        BinaryOp::And => "Logical and is not yet supported"@,
        _ => "Logical or is not yet supported"@,
    }
}

/// Cells taken by a list of string literals: the bytes of each and one
/// terminator.
pub open spec fn string_cells(strings: Seq<Binding>) -> int
    decreases strings.len(),
{
    if strings.len() == 0 {
        0
    } else {
        string_cells(strings.drop_last()) + encode_utf8(strings.last().0).len() + 1
    }
}

/// No name is bound twice.
pub open spec fn distinct_names(vars: Seq<Binding>) -> bool {
    forall|i: int, j: int| 0 <= i < j < vars.len() ==> vars[i].0 != vars[j].0
}

/// The names that the statements of a list define directly, in order.
pub open spec fn defined_names(stmts: Seq<SpecStatement>) -> Seq<Seq<char>>
    decreases stmts.len(),
{
    if stmts.len() == 0 {
        Seq::empty()
    } else {
        match stmts.last() {
            SpecStatement::VariableDefinition { name, .. } => defined_names(
                stmts.drop_last(),
            ).push(name),
            _ => defined_names(stmts.drop_last()),
        }
    }
}

/// The string literal that a statement prints, assigns or defines with, if
/// it has one at its top.
pub open spec fn literal_of(s: SpecStatement) -> Option<Seq<char>> {
    match s {
        SpecStatement::VariableDefinition { initializer: Some(SpecExpr::String(t)), .. } => Some(
            t,
        ),
        SpecStatement::Assignment { value: SpecExpr::String(t), .. } => Some(t),
        SpecStatement::Print(SpecExpr::String(t)) => Some(t),
        _ => None,
    }
}

impl GenState {
    /// Cells allocated beyond those of live variables and string literals.
    pub open spec fn slack(self) -> int {
        self.top - string_cells(self.strings) - self.variables.len()
    }

    /// Well formed, with distinct variable names and every variable and
    /// string literal accounted for below the top.
    pub open spec fn tidy(self) -> bool {
        &&& self.wf()
        &&& distinct_names(self.variables)
        &&& self.slack() >= 0
    }

    /// Binds `name` to a fresh cleared cell at the top, unless the tape is
    /// full or the name is bound already.
    pub open spec fn alloc_var(self, name: Seq<char>) -> Lowered {
        if self.top + 1 > cell_limit() {
            Err(msg_out_of_cells())
        } else if lookup(self.variables, name) is Some {
            Err(msg_already_defined(name))
        } else {
            Ok(GenState { variables: self.variables.push((name, self.top)), ..self.calloc(1) })
        }
    }

    /// Unbinds `name` and gives one cell back.
    pub open spec fn dealloc_var(self, name: Seq<char>) -> GenState {
        GenState { variables: without(self.variables, name), ..self.dealloc(1) }
    }

    /// Lays out the first `n` of `bytes` from cell `index` on, each with the
    /// cell behind it as scratch.
    pub open spec fn lay_bytes(self, index: int, bytes: Seq<u8>, n: int) -> GenState
        decreases n,
    {
        if n <= 0 {
            self
        } else {
            self.lay_bytes(index, bytes, n - 1).set_with_gcf(
                index + n - 1,
                index + n,
                bytes[n - 1] as int,
            )
        }
    }

    /// Lays out `bytes` from cell `index` on and stores a zero behind them.
    pub open spec fn write_str(self, index: int, bytes: Seq<u8>) -> GenState {
        self.lay_bytes(index, bytes, bytes.len() as int).set(index + bytes.len(), 0)
    }

    /// Reserves a cell for each byte of `text` and one more, lays the bytes
    /// out there, and records the literal with its first cell.
    pub open spec fn add_string_literal(self, text: Seq<char>) -> Lowered {
        let bytes = encode_utf8(text);
        if self.top + bytes.len() + 1 > cell_limit() {
            Err(msg_out_of_cells())
        } else {
            let st = self.malloc(bytes.len() as int + 1).write_str(self.top, bytes);
            Ok(GenState { strings: st.strings.push((text, self.top)), ..st })
        }
    }

    /// Prints the string literal recorded last at cell `index`: the head
    /// ends behind its bytes. Without such a literal nothing happens.
    pub open spec fn print_str_at(self, index: int) -> GenState {
        match owner(self.strings, index) {
            Some(text) => self.step(
                index + encode_utf8(text).len(),
                print_code(self.head, index),
            ),
            None => self,
        }
    }

    /// Opens the then-branch: a loop on the condition cell `c` that clears
    /// `c` first, so that it runs at most once.
    pub open spec fn if_open(self, c: int) -> GenState {
        self.set_ptr(c).emit(seq!['[', '[', '-', ']'])
    }

    /// Closes the then-branch on the condition cell `c`.
    pub open spec fn if_close(self, c: int) -> GenState {
        self.set_ptr(c).emit(seq![']'])
    }

    /// Allocates the flag cell that tells the else-branch to run, and sets
    /// it to one.
    pub open spec fn else_flag(self) -> GenState {
        self.calloc(1).emit(seq!['+'])
    }

    /// Opens the else-branch: a loop on the flag cell `aux`.
    pub open spec fn else_open(self, aux: int) -> GenState {
        self.set_ptr(aux).emit(seq!['['])
    }

    /// Closes the else-branch: clears the flag cell `aux`, so that the
    /// branch runs once.
    pub open spec fn else_close(self, aux: int) -> GenState {
        self.set_ptr(aux).emit(seq!['[', '-', ']', ']'])
    }

    /// Applies a binary operator with cell `src` as its right operand to
    /// cell `dest`.
    pub open spec fn apply(self, op: BinaryOp, src: int, dest: int) -> Lowered {
        match op {
            BinaryOp::Add => Ok(self.dadd(src, dest)),
            BinaryOp::Sub => Ok(self.dsub(src, dest)),
            BinaryOp::Mul => Ok(self.mul(src, dest)),
            _ => Err(msg_operator(op)),
        }
    }

    /// A call: no function is ever defined, so this fails.
    pub open spec fn call(self, callee: SpecExpr) -> Lowered {
        match callee {
            SpecExpr::Identifier(name) => Err(msg_no_function(name)),
            _ => Err(msg_calls()),
        }
    }

    /// Writes the value of `e` into cell `dest` and returns the head to
    /// where it was.
    pub open spec fn evaluate_expression(self, e: SpecExpr, dest: int) -> Lowered
        decreases e,
    {
        match e {
            SpecExpr::Unary { .. } => Err(msg_unary()),
            SpecExpr::Binary { lhs, op, rhs } => {
                if self.top + 5 > cell_limit() {
                    Err(msg_out_of_cells())
                } else {
                    let l = self.top;
                    let r = self.top + 1;
                    match self.calloc(1).calloc(1).evaluate_expression(*lhs, l) {
                        Err(e) => Err(e),
                        Ok(st1) => match st1.evaluate_expression(*rhs, r) {
                            Err(e) => Err(e),
                            Ok(st2) => match st2.dadd(l, dest).apply(op, r, dest) {
                                Err(e) => Err(e),
                                Ok(st3) => Ok(st3.dealloc(2).set_ptr(self.head)),
                            },
                        },
                    }
                }
            },
            SpecExpr::Number(n) => Ok(self.set(dest, n as int).set_ptr(self.head)),
            SpecExpr::String(_) => Err(msg_strings()),
            SpecExpr::Identifier(name) => match lookup(self.variables, name) {
                None => Err(msg_not_defined(name)),
                Some(i) => if self.top + 1 > cell_limit() {
                    Err(msg_out_of_cells())
                } else {
                    Ok(self.copy_val(i, seq![dest]).set_ptr(self.head))
                },
            },
            SpecExpr::Call { callee, .. } => self.call(*callee),
        }
    }

    /// Defines a variable in a fresh cell and, if there is an initializer,
    /// evaluates it into a scratch cell and moves the value over.
    pub open spec fn variable_definition(
        self,
        name: Seq<char>,
        initializer: Option<SpecExpr>,
    ) -> Lowered {
        match self.alloc_var(name) {
            Err(e) => Err(e),
            Ok(st1) => match initializer {
                None => Ok(st1),
                Some(e) => if st1.top + 1 > cell_limit() {
                    Err(msg_out_of_cells())
                } else {
                    match st1.calloc(1).evaluate_expression(e, st1.top) {
                        Err(e) => Err(e),
                        Ok(st2) => Ok(st2.move_val(st1.top, self.top).dealloc(1)),
                    }
                },
            },
        }
    }

    /// Evaluates `value` into a scratch cell and moves it into the cell of
    /// variable `name`.
    pub open spec fn assignment(self, name: Seq<char>, value: SpecExpr) -> Lowered {
        match lookup(self.variables, name) {
            None => Err(msg_not_defined(name)),
            Some(var) => if self.top + 1 > cell_limit() {
                Err(msg_out_of_cells())
            } else {
                match self.calloc(1).evaluate_expression(value, self.top) {
                    Err(e) => Err(e),
                    Ok(st1) => Ok(st1.move_val(self.top, var).dealloc(1)),
                }
            },
        }
    }

    /// Frees the variables named by `names`, last first.
    pub open spec fn release(self, names: Seq<Seq<char>>) -> GenState
        decreases names.len(),
    {
        if names.len() == 0 {
            self
        } else {
            self.dealloc_var(names.last()).release(names.drop_last())
        }
    }

    /// Lays out `text` unless it is laid out already.
    pub open spec fn ensure_string(self, text: Seq<char>) -> Lowered {
        if lookup(self.strings, text) is None {
            self.add_string_literal(text)
        } else {
            Ok(self)
        }
    }

    /// Lays out the string literals of a statement that are not laid out
    /// yet: the one that the statement prints, assigns or defines with, and
    /// those of the statements of a block and of the branches of an `if`. A
    /// return statement stops the compilation.
    pub open spec fn collect_statement(self, s: SpecStatement) -> Lowered
        decreases s, 0int,
    {
        match s {
            SpecStatement::Return(_) => Err(msg_return_scan()),
            SpecStatement::Block(stmts) => self.collect_strings(stmts, stmts.len() as int),
            SpecStatement::If { then_branch, else_branch, .. } => match self.collect_statement(
                *then_branch,
            ) {
                Err(e) => Err(e),
                Ok(st) => match else_branch {
                    Some(other) => st.collect_statement(*other),
                    None => Ok(st),
                },
            },
            _ => match literal_of(s) {
                Some(text) => self.ensure_string(text),
                None => Ok(self),
            },
        }
    }

    /// Lays out the string literals of the first `n` statements of a list,
    /// nested statements included.
    pub open spec fn collect_strings(self, stmts: Seq<SpecStatement>, n: int) -> Lowered
        decreases stmts, n,
    {
        if n <= 0 || n > stmts.len() {
            Ok(self)
        } else {
            match self.collect_strings(stmts, n - 1) {
                Err(e) => Err(e),
                Ok(st) => st.collect_statement(stmts[n - 1]),
            }
        }
    }

    /// Lowers one statement. An `if` evaluates its condition into a fresh
    /// cell and wraps the then-branch in a loop on that cell which clears
    /// it first; with an else-branch, a flag cell set to one is cleared by
    /// the then-branch, and the else-branch is wrapped in a loop on the
    /// flag.
    pub open spec fn evaluate_statement(self, s: SpecStatement) -> Lowered
        decreases s, 0int,
    {
        match s {
            SpecStatement::FunctionDefinition { .. } => Err(msg_functions()),
            SpecStatement::VariableDefinition { name, initializer } => self.variable_definition(
                name,
                initializer,
            ),
            SpecStatement::Return(_) => Err(msg_return()),
            SpecStatement::Print(e) => match e {
                SpecExpr::String(text) => match lookup(self.strings, text) {
                    Some(i) => Ok(self.print_str_at(i)),
                    None => Err(msg_no_string(text)),
                },
                _ => Err(msg_print()),
            },
            SpecStatement::Block(stmts) => self.block(stmts),
            SpecStatement::If { condition, then_branch, else_branch } => {
                if self.top + 2 > cell_limit() {
                    Err(msg_out_of_cells())
                } else {
                    let c = self.top;
                    let aux = self.top + 1;
                    match self.calloc(1).evaluate_expression(condition, c) {
                        Err(e) => Err(e),
                        Ok(st1) => match else_branch {
                            None => match st1.if_open(c).scoped(*then_branch) {
                                Err(e) => Err(e),
                                Ok(st2) => Ok(st2.if_close(c).dealloc(1)),
                            },
                            Some(other) => match st1.else_flag().if_open(c).set(aux, 0).scoped(
                                *then_branch,
                            ) {
                                Err(e) => Err(e),
                                Ok(st2) => match st2.if_close(c).else_open(aux).scoped(*other) {
                                    Err(e) => Err(e),
                                    Ok(st3) => Ok(st3.else_close(aux).dealloc(2)),
                                },
                            },
                        },
                    }
                }
            },
            SpecStatement::While { .. } => Err(msg_while()),
            SpecStatement::Assignment { name, value } => self.assignment(name, value),
        }
    }

    /// Lowers a branch of an `if` as a scope of its own: a variable that the
    /// branch defines directly is freed behind it.
    pub open spec fn scoped(self, s: SpecStatement) -> Lowered
        decreases s, 1int,
    {
        match self.evaluate_statement(s) {
            Err(e) => Err(e),
            Ok(st) => match s {
                SpecStatement::VariableDefinition { name, .. } => Ok(st.dealloc_var(name)),
                _ => Ok(st),
            },
        }
    }

    /// Lowers the first `n` statements of a list, one after the other.
    pub open spec fn lower_prefix(self, stmts: Seq<SpecStatement>, n: int) -> Lowered
        decreases stmts, n,
    {
        if n <= 0 || n > stmts.len() {
            Ok(self)
        } else {
            match self.lower_prefix(stmts, n - 1) {
                Err(e) => Err(e),
                Ok(st) => st.evaluate_statement(stmts[n - 1]),
            }
        }
    }

    /// Compiles a program: lays out every string literal of its statements,
    /// nested ones included, then lowers the statements in order.
    pub open spec fn compile(self, stmts: Seq<SpecStatement>) -> Lowered {
        match self.collect_strings(stmts, stmts.len() as int) {
            Err(e) => Err(e),
            Ok(st) => st.lower_prefix(stmts, stmts.len() as int),
        }
    }

    /// Lowers the statements of a block in order and frees the variables
    /// that the block defined, last first.
    pub open spec fn block(self, stmts: Seq<SpecStatement>) -> Lowered
        decreases stmts, stmts.len() + 1,
    {
        match self.lower_prefix(stmts, stmts.len() as int) {
            Err(e) => Err(e),
            Ok(st) => Ok(st.release(defined_names(stmts))),
        }
    }
}

/// Laying out bytes moves the head and emits text, and changes nothing else.
pub proof fn lemma_lay_bytes_frame(st: GenState, index: int, bytes: Seq<u8>, n: int)
    ensures
        st.lay_bytes(index, bytes, n).top == st.top,
        st.lay_bytes(index, bytes, n).variables == st.variables,
        st.lay_bytes(index, bytes, n).strings == st.strings,
    decreases n,
{
    if n > 0 {
        lemma_lay_bytes_frame(st, index, bytes, n - 1);
    }
}

/// `after` differs from `before` in the emitted text at most.
pub open spec fn same_frame(before: GenState, after: GenState) -> bool {
    &&& after.head == before.head
    &&& after.top == before.top
    &&& after.variables == before.variables
    &&& after.strings == before.strings
}

/// `after` holds the bindings of `before`, in order, followed by one binding
/// for each of `names`.
pub open spec fn grown(before: Seq<Binding>, after: Seq<Binding>, names: Seq<Seq<char>>) -> bool {
    &&& after.len() == before.len() + names.len()
    &&& forall|k: int| 0 <= k < before.len() ==> #[trigger] after[k] == before[k]
    &&& forall|k: int|
        before.len() <= k < after.len() ==> (#[trigger] after[k]).0 == names[k - before.len()]
}

/// What every successful lowering of statements keeps: the state stays tidy,
/// no cell is allocated but for a variable or a string literal that stays,
/// and the variables grow by exactly `names`.
pub open spec fn kept(before: GenState, after: GenState, names: Seq<Seq<char>>) -> bool {
    &&& after.tidy()
    &&& after.slack() == before.slack()
    &&& grown(before.variables, after.variables, names)
}

/// String literals take no negative number of cells.
pub proof fn lemma_string_cells_bounds(strings: Seq<Binding>)
    ensures
        string_cells(strings) >= 0,
    decreases strings.len(),
{
    if strings.len() > 0 {
        lemma_string_cells_bounds(strings.drop_last());
    }
}

/// The name that a statement defines directly, if it defines one.
pub open spec fn own_names(s: SpecStatement) -> Seq<Seq<char>> {
    match s {
        SpecStatement::VariableDefinition { name, .. } => seq![name],
        _ => Seq::empty(),
    }
}

/// Growing twice is growing by both lists of names.
pub proof fn lemma_grown_chain(
    a: Seq<Binding>,
    b: Seq<Binding>,
    c: Seq<Binding>,
    first: Seq<Seq<char>>,
    second: Seq<Seq<char>>,
)
    requires
        grown(a, b, first),
        grown(b, c, second),
    ensures
        grown(a, c, first + second),
{
    assert forall|k: int| 0 <= k < a.len() implies #[trigger] c[k] == a[k] by {
        assert(b[k] == a[k]);
    }
    assert forall|k: int| a.len() <= k < c.len() implies (#[trigger] c[k]).0 == (first + second)[k
        - a.len()] by {
        if k < b.len() {
            assert(c[k] == b[k]);
        }
    }
}

/// Once the layout of string literals has failed, it stays failed.
pub proof fn lemma_collect_stops(st: GenState, stmts: Seq<SpecStatement>, i: int, n: int)
    requires
        st.collect_strings(stmts, i) is Err,
        i <= n <= stmts.len(),
    ensures
        st.collect_strings(stmts, n) == st.collect_strings(stmts, i),
    decreases n - i,
{
    if i < n {
        lemma_collect_stops(st, stmts, i, n - 1);
    }
}

/// Once the lowering of a statement list has failed, it stays failed.
pub proof fn lemma_lowering_stops(st: GenState, stmts: Seq<SpecStatement>, i: int, n: int)
    requires
        st.lower_prefix(stmts, i) is Err,
        i <= n <= stmts.len(),
    ensures
        st.lower_prefix(stmts, n) == st.lower_prefix(stmts, i),
    decreases n - i,
{
    if i < n {
        lemma_lowering_stops(st, stmts, i, n - 1);
    }
}

} // verus!
