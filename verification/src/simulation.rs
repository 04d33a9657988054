//! The interpreter does what the abstract machine does: a program that
//! halts on the machine runs to its end on the interpreter, in the same
//! state.

use vstd::prelude::*;
use crate::ast::SpecStatement;
use crate::interpreter::{InterpState, Step};
use crate::machine::{matching_close, reaches, run, step_op, Machine};
use crate::semantics::{law_program, printable_list};
use crate::source::exec_program;
use crate::state::GenState;
use crate::symbols::{lemma_lookup_member, lookup};

verus! {

/// The interpreter's output for the bytes that the machine wrote.
pub open spec fn as_chars(bytes: Seq<u8>) -> Seq<char> {
    Seq::new(bytes.len(), |i: int| bytes[i] as char)
}

/// The interpreter state `s` shows the machine `m`: same head, the cells
/// that the interpreter has visited hold what the machine holds there, the
/// machine's other cells from 0 on hold zero, and the output is the same.
pub open spec fn shows(s: InterpState, m: Machine) -> bool {
    &&& m.wf()
    &&& m.head == s.memory_ptr
    &&& forall|i: int| 0 <= i < s.memory.len() ==> #[trigger] m.cells[i] == s.memory[i]
    &&& forall|i: int| i >= s.memory.len() ==> #[trigger] m.cells[i] == 0
    &&& s.output == as_chars(m.output)
}

/// The byte to hand to the next step: the first byte of `input` when the
/// next instruction reads and a byte is left.
pub open spec fn feed(s: InterpState, input: Seq<u8>) -> Option<u8> {
    if 0 <= s.instruction_ptr < s.instructions.len() && s.instructions[s.instruction_ptr] == ','
        && input.len() > 0 {
        Some(input[0])
    } else {
        None
    }
}

/// What is left of `input` after the next step.
pub open spec fn unread(s: InterpState, input: Seq<u8>) -> Seq<u8> {
    if feed(s, input) is Some {
        input.skip(1)
    } else {
        input
    }
}

/// How far a run of the interpreter has come.
pub struct Progress {
    /// The interpreter's state.
    pub state: InterpState,
    /// The input that no step has read yet.
    pub unread: Seq<u8>,
}

/// The state after `n` steps that all ran an instruction, with the input
/// that is left; `None` when one of the steps did not run. A step that
/// reads is handed the next byte of `input`.
pub open spec fn run_steps(s: InterpState, n: nat, input: Seq<u8>) -> Option<Progress>
    decreases n,
{
    if n == 0 {
        Some(Progress { state: s, unread: input })
    } else {
        let (next, outcome) = s.step(feed(s, input));
        if outcome == Step::Ran {
            run_steps(next, (n - 1) as nat, unread(s, input))
        } else {
            None
        }
    }
}

/// Steps add up.
pub proof fn lemma_steps_add(s: InterpState, a: nat, b: nat, input: Seq<u8>)
    requires
        run_steps(s, a, input) is Some,
    ensures
        run_steps(s, a + b, input) == run_steps(
            run_steps(s, a, input)->0.state,
            b,
            run_steps(s, a, input)->0.unread,
        ),
    decreases a,
{
    if a > 0 {
        let (next, outcome) = s.step(feed(s, input));
        lemma_steps_add(next, (a - 1) as nat, b, unread(s, input));
    }
}

/// A closing bracket found inside a stretch of code is found at the same
/// place when the stretch stands among other code.
pub proof fn lemma_close_in_context(
    pre: Seq<char>,
    code: Seq<char>,
    suf: Seq<char>,
    i: int,
    d: nat,
)
    requires
        0 <= i,
        matching_close(code, i, d) < code.len(),
    ensures
        matching_close(pre + code + suf, pre.len() + i, d) == pre.len() + matching_close(
            code,
            i,
            d,
        ),
    decreases code.len() - i,
{
    let whole = pre + code + suf;
    if i < code.len() {
        assert(whole[pre.len() + i] == code[i]);
        if code[i] == ']' {
            if d != 0 {
                lemma_close_in_context(pre, code, suf, i + 1, (d - 1) as nat);
            }
        } else if code[i] == '[' {
            lemma_close_in_context(pre, code, suf, i + 1, d + 1);
        } else {
            lemma_close_in_context(pre, code, suf, i + 1, d);
        }
    }
}

/// One step of an instruction that is no bracket does to the interpreter
/// what it does to the machine.
pub proof fn lemma_step_op(s: InterpState, m: Machine)
    requires
        s.wf(),
        shows(s, m),
        s.instruction_ptr < s.instructions.len(),
        s.instructions[s.instruction_ptr] != '[',
        s.instructions[s.instruction_ptr] != ']',
        step_op(s.instructions[s.instruction_ptr], m) is Some,
    ensures
        s.step(feed(s, m.input)).1 == Step::Ran,
        s.step(feed(s, m.input)).0.wf(),
        shows(s.step(feed(s, m.input)).0, step_op(s.instructions[s.instruction_ptr], m)->0),
        s.step(feed(s, m.input)).0.instruction_ptr == s.instruction_ptr + 1,
        s.step(feed(s, m.input)).0.instructions == s.instructions,
        s.step(feed(s, m.input)).0.brackets == s.brackets,
        unread(s, m.input) == step_op(s.instructions[s.instruction_ptr], m)->0.input,
{
    let c = s.instructions[s.instruction_ptr];
    let s1 = s.step(feed(s, m.input)).0;
    let m1 = step_op(c, m)->0;
    if c == '.' {
        assert(s1.output =~= as_chars(m1.output));
    }
}

/// The interpreter follows the machine through `code`, which stands
/// between `pre` and `suf` in the interpreter's program: from the start of
/// `code` it runs to the end of `code`, with the loops that were running
/// still running, and has read what the machine has read.
#[verifier::rlimit(30)]
pub proof fn lemma_follows(
    pre: Seq<char>,
    code: Seq<char>,
    suf: Seq<char>,
    s: InterpState,
    m: Machine,
    fuel: nat,
) -> (n: nat)
    requires
        s.wf(),
        shows(s, m),
        s.instructions == pre + code + suf,
        s.instruction_ptr == pre.len(),
        run(code, m, fuel) is Some,
    ensures
        run_steps(s, n, m.input) is Some,
        run_steps(s, n, m.input)->0.state.wf(),
        run_steps(s, n, m.input)->0.state.instructions == s.instructions,
        run_steps(s, n, m.input)->0.state.instruction_ptr == pre.len() + code.len(),
        run_steps(s, n, m.input)->0.state.brackets == s.brackets,
        run_steps(s, n, m.input)->0.unread == run(code, m, fuel)->0.input,
        shows(run_steps(s, n, m.input)->0.state, run(code, m, fuel)->0),
    decreases fuel, code.len(), 1int,
{
    let whole = pre + code + suf;
    if code.len() == 0 {
        0
    } else {
        let c = code[0];
        assert(whole[pre.len() as int] == c);
        if c == '[' {
            let j = matching_close(code, 1, 0);
            lemma_close_in_context(pre, code, suf, 1, 0);
            let s1 = s.step(None).0;
            if m.cur() == 0 {
                let rest = code.skip(j + 1);
                let before = pre + code.take(j + 1);
                assert(whole =~= before + rest + suf);
                let n1 = lemma_follows(before, rest, suf, s1, m, fuel);
                (n1 + 1) as nat
            } else {
                let body = code.subrange(1, j);
                let m1 = run(body, m, (fuel - 1) as nat)->0;
                assert(whole =~= pre.push('[') + body + (code.skip(j) + suf));
                let n1 = lemma_follows(
                    pre.push('['),
                    body,
                    code.skip(j) + suf,
                    s1,
                    m,
                    (fuel - 1) as nat,
                );
                let s2 = run_steps(s1, n1, m.input)->0.state;
                assert(s2.brackets.last() == pre.len());
                assert(s2.brackets.drop_last() =~= s.brackets);
                let n2 = lemma_follows_on(pre, code, suf, s2, m1, (fuel - 1) as nat);
                lemma_steps_add(s1, n1, n2, m.input);
                (n1 + n2 + 1) as nat
            }
        } else {
            let m1 = step_op(c, m)->0;
            lemma_step_op(s, m);
            let s1 = s.step(feed(s, m.input)).0;
            assert(whole =~= pre.push(c) + code.skip(1) + suf);
            let n1 = lemma_follows(pre.push(c), code.skip(1), suf, s1, m1, fuel);
            (n1 + 1) as nat
        }
    }
}

/// As `lemma_follows`, from the closing bracket of the loop that `code`
/// begins with, when the loop's body has just run.
#[verifier::rlimit(30)]
pub proof fn lemma_follows_on(
    pre: Seq<char>,
    code: Seq<char>,
    suf: Seq<char>,
    s: InterpState,
    m: Machine,
    fuel: nat,
) -> (n: nat)
    requires
        s.wf(),
        shows(s, m),
        s.instructions == pre + code + suf,
        code.len() > 0,
        code[0] == '[',
        1 <= matching_close(code, 1, 0) < code.len(),
        s.instruction_ptr == pre.len() + matching_close(code, 1, 0),
        s.brackets.len() > 0,
        s.brackets.last() == pre.len(),
        run(code, m, fuel) is Some,
    ensures
        run_steps(s, n, m.input) is Some,
        run_steps(s, n, m.input)->0.state.wf(),
        run_steps(s, n, m.input)->0.state.instructions == s.instructions,
        run_steps(s, n, m.input)->0.state.instruction_ptr == pre.len() + code.len(),
        run_steps(s, n, m.input)->0.state.brackets == s.brackets.drop_last(),
        run_steps(s, n, m.input)->0.unread == run(code, m, fuel)->0.input,
        shows(run_steps(s, n, m.input)->0.state, run(code, m, fuel)->0),
    decreases fuel, code.len(), 0int,
{
    let whole = pre + code + suf;
    let j = matching_close(code, 1, 0);
    lemma_close_is_bracket(code, 1, 0);
    assert(whole[pre.len() + j] == code[j]);
    let s1 = s.step(None).0;
    if m.cur() == 0 {
        let rest = code.skip(j + 1);
        let before = pre + code.take(j + 1);
        assert(whole =~= before + rest + suf);
        let n1 = lemma_follows(before, rest, suf, s1, m, fuel);
        (n1 + 1) as nat
    } else {
        let body = code.subrange(1, j);
        let m1 = run(body, m, (fuel - 1) as nat)->0;
        assert(whole =~= pre.push('[') + body + (code.skip(j) + suf));
        let n1 = lemma_follows(pre.push('['), body, code.skip(j) + suf, s1, m, (fuel - 1) as nat);
        let s2 = run_steps(s1, n1, m.input)->0.state;
        let n2 = lemma_follows_on(pre, code, suf, s2, m1, (fuel - 1) as nat);
        lemma_steps_add(s1, n1, n2, m.input);
        (n1 + n2 + 1) as nat
    }
}

/// Where the search for a closing bracket ends inside the code, there is a
/// closing bracket.
pub proof fn lemma_close_is_bracket(code: Seq<char>, i: int, d: nat)
    requires
        0 <= i,
        matching_close(code, i, d) < code.len(),
    ensures
        i <= matching_close(code, i, d),
        code[matching_close(code, i, d)] == ']',
    decreases code.len() - i,
{
    if i < code.len() {
        if code[i] == ']' {
            if d != 0 {
                lemma_close_is_bracket(code, i + 1, (d - 1) as nat);
            }
        } else if code[i] == '[' {
            lemma_close_is_bracket(code, i + 1, d + 1);
        } else {
            lemma_close_is_bracket(code, i + 1, d);
        }
    }
}

/// A program that halts on the machine started blank runs to its end on
/// the interpreter, step by step, where every step that reads is handed
/// the next byte of the input. The interpreter then shows the state in
/// which the machine halted and has read what the machine has read.
pub proof fn law_interpreter_follows_machine(code: Seq<char>, input: Seq<u8>, end: Machine) -> (n:
    nat)
    requires
        reaches(code, Machine::blank(input), end),
    ensures
        run_steps(InterpState::start(code), n, input) is Some,
        run_steps(InterpState::start(code), n, input)->0.state.instruction_ptr == code.len(),
        run_steps(InterpState::start(code), n, input)->0.state.step(None).1 == Step::Halted,
        run_steps(InterpState::start(code), n, input)->0.unread == end.input,
        shows(run_steps(InterpState::start(code), n, input)->0.state, end),
{
    let fuel = choose|fuel: nat| run(code, Machine::blank(input), fuel) == Some(end);
    let s = InterpState::start(code);
    let m = Machine::blank(input);
    assert(s.instructions =~= Seq::<char>::empty() + code + Seq::<char>::empty());
    assert(s.output =~= as_chars(m.output));
    lemma_follows(Seq::empty(), code, Seq::empty(), s, m, fuel)
}

/// The interpreter, run on the code of a compiled program, halts having
/// written what the program prints, with the values of the program's
/// variables in the cells that the generator gave them. This holds of
/// every program that compiles and whose string literals hold no zero byte.
pub proof fn law_compiled_program_runs(stmts: Seq<SpecStatement>, input: Seq<u8>) -> (n: nat)
    requires
        GenState::start().compile(stmts) is Ok,
        printable_list(stmts, stmts.len() as int),
    ensures
        ({
            let st = GenState::start().compile(stmts)->Ok_0;
            let end = run_steps(InterpState::start(st.output), n, input);
            &&& end is Some
            &&& end->0.state.step(None).1 == Step::Halted
            &&& end->0.state.memory_ptr == st.head
            &&& end->0.state.output == as_chars(exec_program(stmts).out)
            &&& end->0.unread == input
            &&& forall|name: Seq<char>| #[trigger]
                lookup(st.variables, name) is Some ==> {
                    let cell = lookup(st.variables, name)->0;
                    let value = exec_program(stmts).env[name];
                    if cell < end->0.state.memory.len() {
                        end->0.state.memory[cell] == value
                    } else {
                        value == 0
                    }
                }
        }),
{
    let st = GenState::start().compile(stmts)->Ok_0;
    let m = law_program(stmts, input);
    let n = law_interpreter_follows_machine(st.output, input, m);
    let end = run_steps(InterpState::start(st.output), n, input)->0;
    assert forall|name: Seq<char>| #[trigger] lookup(st.variables, name) is Some implies {
        let cell = lookup(st.variables, name)->0;
        let value = exec_program(stmts).env[name];
        if cell < end.state.memory.len() {
            end.state.memory[cell] == value
        } else {
            value == 0
        }
    } by {
        lemma_lookup_member(st.variables, name);
        let cell = lookup(st.variables, name)->0;
        assert(exec_program(stmts).env[name] == m.cells[cell]);
    }
    n
}

} // verus!
