//! The shape of the emitted text: whatever is compiled, every character is
//! an opcode and every bracket has its partner.

use vstd::prelude::*;
use vstd::utf8::encode_utf8;
use crate::ast::{BinaryOp, SpecExpr, SpecStatement};
use crate::code::{
    add_code, calloc_code, clear, copy_code, dadd_code, dsub_code, gcf_code, isqrt, move_code,
    mul_code, mv, print_code, repeat, set_code, sub_code,
};
use crate::laws::{
    drain_body, gcf_body, lemma_closed_mv, lemma_closed_op, lemma_copy_one_shape, mul_body,
    split_body,
};
use crate::lower::literal_of;
use crate::machine::{closed, lemma_closed_concat, lemma_closed_loop, loop_of};
use crate::state::GenState;
use crate::symbols::{lookup, owner};

verus! {

/// The eight opcodes.
pub open spec fn is_opcode(c: char) -> bool {
    c == '>' || c == '<' || c == '+' || c == '-' || c == '[' || c == ']' || c == '.' || c == ','
}

/// Every character of the text is an opcode.
pub open spec fn opcodes(code: Seq<char>) -> bool {
    forall|i: int| 0 <= i < code.len() ==> is_opcode(#[trigger] code[i])
}

/// The text is a program: opcodes only, and every bracket has its partner.
pub open spec fn well_formed(code: Seq<char>) -> bool {
    closed(code) && opcodes(code)
}

/// Programs in a row are a program.
pub proof fn lemma_wf_concat(a: Seq<char>, b: Seq<char>)
    requires
        well_formed(a),
        well_formed(b),
    ensures
        well_formed(a + b),
{
    lemma_closed_concat(a, b);
    assert forall|i: int| 0 <= i < (a + b).len() implies is_opcode(#[trigger] (a + b)[i]) by {
        if i < a.len() {
            assert((a + b)[i] == a[i]);
        } else {
            assert((a + b)[i] == b[i - a.len()]);
        }
    }
}

/// A loop around a program is a program.
pub proof fn lemma_wf_loop(body: Seq<char>)
    requires
        well_formed(body),
    ensures
        well_formed(loop_of(body)),
{
    lemma_closed_loop(body);
    let code = loop_of(body);
    assert forall|i: int| 0 <= i < code.len() implies is_opcode(#[trigger] code[i]) by {
        if 0 < i && i <= body.len() {
            assert(code[i] == body[i - 1]);
        }
    }
}

/// Head movements, increments and the clearing of a cell are programs.
pub proof fn lemma_wf_basic(from: int, to: int, n: int)
    ensures
        well_formed(mv(from, to)),
        well_formed(repeat('+', n)),
        well_formed(clear()),
        well_formed(seq!['+']),
        well_formed(seq!['-']),
        well_formed(seq!['.', '>']),
{
    lemma_closed_mv(from, to);
    crate::laws::lemma_closed_repeat('+', n);
    crate::laws::lemma_closed_clear();
    lemma_closed_op('+');
    lemma_closed_op('-');
    lemma_closed_op('.');
    lemma_closed_op('>');
    lemma_closed_concat(seq!['.'], seq!['>']);
    assert(seq!['.', '>'] =~= seq!['.'] + seq!['>']);
}

/// The code of `set` is a program.
pub proof fn lemma_wf_set(h: int, i: int, v: int)
    ensures
        well_formed(set_code(h, i, v)),
{
    lemma_wf_basic(h, i, v);
    lemma_wf_concat(mv(h, i), clear());
    lemma_wf_concat(mv(h, i) + clear(), repeat('+', v));
}

/// The code of `set_with_gcf` is a program.
pub proof fn lemma_wf_gcf(h: int, i: int, t: int, v: int)
    ensures
        well_formed(gcf_code(h, i, t, v)),
{
    if v < 16 {
        lemma_wf_set(h, i, v);
    } else {
        let s = isqrt(v);
        let r = v - s * s;
        lemma_wf_basic(h, t, s);
        lemma_wf_basic(t, i, r);
        lemma_wf_basic(i, t, 0);
        lemma_wf_concat(seq!['-'], mv(t, i));
        lemma_wf_concat(seq!['-'] + mv(t, i), repeat('+', s));
        lemma_wf_concat(seq!['-'] + mv(t, i) + repeat('+', s), mv(i, t));
        lemma_wf_loop(gcf_body(i, t, s));
        lemma_wf_concat(mv(h, t), repeat('+', s));
        lemma_wf_concat(mv(h, t) + repeat('+', s), loop_of(gcf_body(i, t, s)));
        let front = mv(h, t) + repeat('+', s) + loop_of(gcf_body(i, t, s));
        if r > 0 {
            lemma_wf_concat(mv(t, i), repeat('+', r));
            lemma_wf_concat(front, mv(t, i) + repeat('+', r));
        } else {
            assert(front + Seq::<char>::empty() =~= front);
        }
    }
}

/// The code of `dadd` and of `dsub` is a program.
pub proof fn lemma_wf_drain(h: int, s: int, d: int)
    ensures
        well_formed(dadd_code(h, s, d)),
        well_formed(dsub_code(h, s, d)),
{
    lemma_wf_basic(h, s, 0);
    lemma_wf_basic(s, d, 0);
    lemma_wf_basic(d, s, 0);
    lemma_wf_concat(seq!['-'], mv(s, d));
    lemma_wf_concat(seq!['-'] + mv(s, d), seq!['+']);
    lemma_wf_concat(seq!['-'] + mv(s, d) + seq!['+'], mv(d, s));
    lemma_wf_concat(seq!['-'] + mv(s, d), seq!['-']);
    lemma_wf_concat(seq!['-'] + mv(s, d) + seq!['-'], mv(d, s));
    lemma_wf_loop(drain_body(s, d, '+'));
    lemma_wf_loop(drain_body(s, d, '-'));
    lemma_wf_concat(mv(h, s), loop_of(drain_body(s, d, '+')));
    lemma_wf_concat(mv(h, s), loop_of(drain_body(s, d, '-')));
}

/// The code of `move_val` is a program.
pub proof fn lemma_wf_move(h: int, s: int, d: int)
    ensures
        well_formed(move_code(h, s, d)),
{
    lemma_wf_set(h, d, 0);
    lemma_wf_drain(d, s, d);
    lemma_wf_concat(set_code(h, d, 0), dadd_code(d, s, d));
}

/// The code of `copy_val` into one cell is a program.
pub proof fn lemma_wf_copy_one(h: int, top: int, s: int, d: int)
    ensures
        well_formed(copy_code(h, top, s, seq![d])),
{
    lemma_copy_one_shape(h, top, s, d);
    lemma_wf_set(h, d, 0);
    lemma_wf_set(d, top, 0);
    lemma_wf_basic(top, s, 0);
    lemma_wf_basic(s, d, 0);
    lemma_wf_basic(d, top, 0);
    lemma_wf_concat(seq!['-'], mv(s, d));
    lemma_wf_concat(seq!['-'] + mv(s, d), seq!['+']);
    lemma_wf_concat(seq!['-'] + mv(s, d) + seq!['+'], mv(d, top));
    lemma_wf_concat(seq!['-'] + mv(s, d) + seq!['+'] + mv(d, top), seq!['+']);
    lemma_wf_concat(seq!['-'] + mv(s, d) + seq!['+'] + mv(d, top) + seq!['+'], mv(top, s));
    lemma_wf_loop(split_body(s, d, top));
    lemma_wf_move(s, top, s);
    lemma_wf_concat(set_code(h, d, 0), set_code(d, top, 0));
    lemma_wf_concat(set_code(h, d, 0) + set_code(d, top, 0), mv(top, s));
    lemma_wf_concat(
        set_code(h, d, 0) + set_code(d, top, 0) + mv(top, s),
        loop_of(split_body(s, d, top)),
    );
    lemma_wf_concat(
        set_code(h, d, 0) + set_code(d, top, 0) + mv(top, s) + loop_of(split_body(s, d, top)),
        move_code(s, top, s),
    );
}

/// The code of `add` and of `sub` is a program.
pub proof fn lemma_wf_add(h: int, top: int, s: int, d: int)
    ensures
        well_formed(add_code(h, top, s, d)),
        well_formed(sub_code(h, top, s, d)),
{
    lemma_wf_set(h, top, 0);
    lemma_wf_copy_one(top, top + 1, s, top);
    lemma_wf_drain(top + 1, top, d);
    lemma_wf_concat(set_code(h, top, 0), copy_code(top, top + 1, s, seq![top]));
    lemma_wf_concat(
        set_code(h, top, 0) + copy_code(top, top + 1, s, seq![top]),
        dadd_code(top + 1, top, d),
    );
    lemma_wf_concat(
        set_code(h, top, 0) + copy_code(top, top + 1, s, seq![top]),
        dsub_code(top + 1, top, d),
    );
}

/// The code of `mul` is a program.
pub proof fn lemma_wf_mul(h: int, top: int, s: int, d: int)
    ensures
        well_formed(mul_code(h, top, s, d)),
{
    lemma_wf_set(h, top, 0);
    lemma_wf_copy_one(top, top + 1, d, top);
    lemma_wf_set(top + 1, d, 0);
    lemma_wf_basic(d, top, 0);
    lemma_wf_basic(top + 1, top, 0);
    lemma_wf_add(top, top + 1, s, d);
    lemma_wf_concat(seq!['-'], add_code(top, top + 1, s, d));
    lemma_wf_concat(seq!['-'] + add_code(top, top + 1, s, d), mv(top + 1, top));
    lemma_wf_loop(mul_body(top, s, d));
    lemma_wf_concat(set_code(h, top, 0), copy_code(top, top + 1, d, seq![top]));
    lemma_wf_concat(
        set_code(h, top, 0) + copy_code(top, top + 1, d, seq![top]),
        set_code(top + 1, d, 0),
    );
    lemma_wf_concat(
        set_code(h, top, 0) + copy_code(top, top + 1, d, seq![top]) + set_code(top + 1, d, 0),
        mv(d, top),
    );
    lemma_wf_concat(
        set_code(h, top, 0) + copy_code(top, top + 1, d, seq![top]) + set_code(top + 1, d, 0)
            + mv(d, top),
        loop_of(mul_body(top, s, d)),
    );
}

/// The code of `print_str_at` is a program.
pub proof fn lemma_wf_print(h: int, i: int)
    ensures
        well_formed(print_code(h, i)),
{
    lemma_wf_basic(h, i, 0);
    lemma_wf_loop(seq!['.', '>']);
    lemma_wf_concat(mv(h, i), loop_of(seq!['.', '>']));
    assert(print_code(h, i) =~= mv(h, i) + loop_of(seq!['.', '>']));
}

/// `after` has emitted what `before` had emitted and, behind it, a program.
pub open spec fn extends(before: GenState, after: GenState) -> bool {
    &&& before.output.len() <= after.output.len()
    &&& after.output.take(before.output.len() as int) == before.output
    &&& well_formed(after.output.skip(before.output.len() as int))
}

/// A state extends itself.
pub proof fn lemma_extends_self(st: GenState)
    ensures
        extends(st, st),
{
    assert(st.output.take(st.output.len() as int) =~= st.output);
    assert(st.output.skip(st.output.len() as int) =~= Seq::<char>::empty());
}

/// Extending twice is extending.
pub proof fn lemma_extends_chain(a: GenState, b: GenState, c: GenState)
    requires
        extends(a, b),
        extends(b, c),
    ensures
        extends(a, c),
{
    let n = a.output.len() as int;
    let k = b.output.len() as int;
    assert(c.output.take(n) =~= c.output.take(k).take(n));
    lemma_wf_concat(b.output.skip(n), c.output.skip(k));
    assert(c.output.skip(n) =~= b.output.skip(n) + c.output.skip(k)) by {
        assert(c.output.take(k) == b.output);
        assert forall|i: int| 0 <= i < c.output.len() - n implies c.output.skip(n)[i] == (
        b.output.skip(n) + c.output.skip(k))[i] by {
            if i < k - n {
                assert(c.output.take(k)[n + i] == b.output[n + i]);
            }
        }
    }
}

/// A state that differs from `st` in having emitted the program `text`
/// behind what `st` had emitted extends `st`.
pub proof fn lemma_extends_by(st: GenState, after: GenState, text: Seq<char>)
    requires
        after.output == st.output + text,
        well_formed(text),
    ensures
        extends(st, after),
{
    assert((st.output + text).take(st.output.len() as int) =~= st.output);
    assert((st.output + text).skip(st.output.len() as int) =~= text);
}

/// What a state has emitted since `before`.
pub open spec fn since(before: GenState, after: GenState) -> Seq<char> {
    after.output.skip(before.output.len() as int)
}

/// The text of a state that extends another is that other's text and what
/// was emitted since.
proof fn lemma_extends_split(before: GenState, after: GenState)
    requires
        extends(before, after),
    ensures
        after.output == before.output + since(before, after),
{
    let n = before.output.len() as int;
    assert(after.output =~= after.output.take(n) + after.output.skip(n));
}

/// Clearing one fresh cell emits a program.
proof fn lemma_calloc_shape(st: GenState)
    ensures
        extends(st, st.calloc(1)),
{
    assert(calloc_code(st.head, st.top, 0) =~= Seq::<char>::empty());
    assert(calloc_code(st.head, st.top, 1) =~= set_code(st.head, st.top, 0));
    lemma_wf_set(st.head, st.top, 0);
    lemma_extends_by(st, st.calloc(1), set_code(st.head, st.top, 0));
}

/// Lowering an expression emits a program.
#[verifier::rlimit(30)]
pub proof fn law_expression_shape(st: GenState, e: SpecExpr, dest: int)
    requires
        st.evaluate_expression(e, dest) is Ok,
    ensures
        extends(st, st.evaluate_expression(e, dest)->Ok_0),
    decreases e,
{
    let h = st.head;
    let t = st.top;
    let st2 = st.evaluate_expression(e, dest)->Ok_0;
    match e {
        SpecExpr::Number(n) => {
            let s1 = st.set(dest, n as int);
            lemma_wf_set(h, dest, n as int);
            lemma_wf_basic(dest, h, 0);
            lemma_extends_by(st, s1, set_code(h, dest, n as int));
            lemma_extends_by(s1, st2, mv(dest, h));
            lemma_extends_chain(st, s1, st2);
        },
        SpecExpr::Identifier(name) => {
            let i = lookup(st.variables, name)->0;
            let s1 = st.copy_val(i, seq![dest]);
            lemma_wf_copy_one(h, t, i, dest);
            lemma_wf_basic(t, h, 0);
            lemma_extends_by(st, s1, copy_code(h, t, i, seq![dest]));
            lemma_extends_by(s1, st2, mv(t, h));
            lemma_extends_chain(st, s1, st2);
        },
        SpecExpr::Binary { lhs, op, rhs } => {
            let s1 = st.calloc(1);
            let sa = s1.calloc(1);
            let sb = sa.evaluate_expression(*lhs, t)->Ok_0;
            let sc = sb.evaluate_expression(*rhs, t + 1)->Ok_0;
            let sd = sc.dadd(t, dest);
            let se = sd.apply(op, t + 1, dest)->Ok_0;
            lemma_calloc_shape(st);
            lemma_calloc_shape(s1);
            law_expression_shape(sa, *lhs, t);
            law_expression_shape(sb, *rhs, t + 1);
            lemma_wf_drain(sc.head, t, dest);
            lemma_extends_by(sc, sd, dadd_code(sc.head, t, dest));
            lemma_wf_drain(sd.head, t + 1, dest);
            lemma_wf_mul(sd.head, sd.top, t + 1, dest);
            if op == BinaryOp::Add {
                lemma_extends_by(sd, se, dadd_code(sd.head, t + 1, dest));
            } else if op == BinaryOp::Sub {
                lemma_extends_by(sd, se, dsub_code(sd.head, t + 1, dest));
            } else {
                lemma_extends_by(sd, se, mul_code(sd.head, sd.top, t + 1, dest));
            }
            lemma_wf_basic(se.head, h, 0);
            lemma_extends_by(se, st2, mv(se.head, h));
            lemma_extends_chain(st, s1, sa);
            lemma_extends_chain(st, sa, sb);
            lemma_extends_chain(st, sb, sc);
            lemma_extends_chain(st, sc, sd);
            lemma_extends_chain(st, sd, se);
            lemma_extends_chain(st, se, st2);
        },
        _ => {},
    }
}

/// Regrouping of the text of an `if` without else-branch.
proof fn lemma_then_shape(b: Seq<char>, go: Seq<char>, inner: Seq<char>, back: Seq<char>)
    requires
        well_formed(go),
        well_formed(inner),
        well_formed(back),
    ensures
        b + go + seq!['[', '[', '-', ']'] + inner + back + seq![']'] == b + (go + loop_of(
            clear() + inner + back,
        )),
        well_formed(go + loop_of(clear() + inner + back)),
{
    assert(b + go + seq!['[', '[', '-', ']'] + inner + back + seq![']'] =~= b + (go + loop_of(
        clear() + inner + back,
    )));
    lemma_wf_basic(0, 0, 0);
    lemma_wf_concat(clear(), inner);
    lemma_wf_concat(clear() + inner, back);
    lemma_wf_loop(clear() + inner + back);
    lemma_wf_concat(go, loop_of(clear() + inner + back));
}

/// Regrouping of the text of an `if` with else-branch, from the flag cell
/// on.
proof fn lemma_else_shape(
    b: Seq<char>,
    f: Seq<char>,
    go1: Seq<char>,
    first: Seq<char>,
    inner1: Seq<char>,
    back1: Seq<char>,
    go2: Seq<char>,
    inner2: Seq<char>,
    back2: Seq<char>,
)
    requires
        well_formed(f),
        well_formed(go1),
        well_formed(first),
        well_formed(inner1),
        well_formed(back1),
        well_formed(go2),
        well_formed(inner2),
        well_formed(back2),
    ensures
        b + f + seq!['+'] + go1 + seq!['[', '[', '-', ']'] + first + inner1 + back1 + seq![']']
            + go2 + seq!['['] + inner2 + back2 + seq!['[', '-', ']', ']'] == b + (f + seq!['+']
            + go1 + loop_of(clear() + first + inner1 + back1) + go2 + loop_of(
            inner2 + back2 + clear(),
        )),
        well_formed(
            f + seq!['+'] + go1 + loop_of(clear() + first + inner1 + back1) + go2 + loop_of(
                inner2 + back2 + clear(),
            ),
        ),
{
    assert(b + f + seq!['+'] + go1 + seq!['[', '[', '-', ']'] + first + inner1 + back1 + seq![']']
        + go2 + seq!['['] + inner2 + back2 + seq!['[', '-', ']', ']'] =~= b + (f + seq!['+'] + go1
        + loop_of(clear() + first + inner1 + back1) + go2 + loop_of(inner2 + back2 + clear())));
    lemma_wf_basic(0, 0, 0);
    lemma_wf_concat(clear(), first);
    lemma_wf_concat(clear() + first, inner1);
    lemma_wf_concat(clear() + first + inner1, back1);
    lemma_wf_loop(clear() + first + inner1 + back1);
    lemma_wf_concat(inner2, back2);
    lemma_wf_concat(inner2 + back2, clear());
    lemma_wf_loop(inner2 + back2 + clear());
    lemma_wf_concat(f, seq!['+']);
    lemma_wf_concat(f + seq!['+'], go1);
    lemma_wf_concat(f + seq!['+'] + go1, loop_of(clear() + first + inner1 + back1));
    lemma_wf_concat(f + seq!['+'] + go1 + loop_of(clear() + first + inner1 + back1), go2);
    lemma_wf_concat(
        f + seq!['+'] + go1 + loop_of(clear() + first + inner1 + back1) + go2,
        loop_of(inner2 + back2 + clear()),
    );
}

/// Lowering a statement emits a program.
#[verifier::rlimit(60)]
pub proof fn law_statement_shape(st: GenState, s: SpecStatement)
    requires
        st.evaluate_statement(s) is Ok,
    ensures
        extends(st, st.evaluate_statement(s)->Ok_0),
    decreases s, 0int,
{
    let st2 = st.evaluate_statement(s)->Ok_0;
    let t = st.top;
    match s {
        SpecStatement::VariableDefinition { name, initializer } => {
            let sa = st.alloc_var(name)->Ok_0;
            assert(calloc_code(st.head, st.top, 0) =~= Seq::<char>::empty());
            assert(calloc_code(st.head, st.top, 1) =~= set_code(st.head, st.top, 0));
            lemma_wf_set(st.head, st.top, 0);
            lemma_extends_by(st, sa, set_code(st.head, st.top, 0));
            match initializer {
                None => {},
                Some(e) => {
                    let sb = sa.calloc(1);
                    let sc = sb.evaluate_expression(e, sa.top)->Ok_0;
                    let sd = sc.move_val(sa.top, t);
                    lemma_calloc_shape(sa);
                    law_expression_shape(sb, e, sa.top);
                    lemma_wf_move(sc.head, sa.top, t);
                    lemma_extends_by(sc, sd, move_code(sc.head, sa.top, t));
                    lemma_extends_by(sd, st2, Seq::empty());
                    lemma_extends_chain(st, sa, sb);
                    lemma_extends_chain(st, sb, sc);
                    lemma_extends_chain(st, sc, sd);
                    lemma_extends_chain(st, sd, st2);
                },
            }
        },
        SpecStatement::Assignment { name, value } => {
            let var = lookup(st.variables, name)->0;
            let sa = st.calloc(1);
            let sb = sa.evaluate_expression(value, t)->Ok_0;
            let sc = sb.move_val(t, var);
            lemma_calloc_shape(st);
            law_expression_shape(sa, value, t);
            lemma_wf_move(sb.head, t, var);
            lemma_extends_by(sb, sc, move_code(sb.head, t, var));
            lemma_extends_by(sc, st2, Seq::empty());
            lemma_extends_chain(st, sa, sb);
            lemma_extends_chain(st, sb, sc);
            lemma_extends_chain(st, sc, st2);
        },
        SpecStatement::Print(e) => {
            let i = lookup(st.strings, e->String_0)->0;
            if owner(st.strings, i) is Some {
                lemma_wf_print(st.head, i);
                lemma_extends_by(st, st2, print_code(st.head, i));
            } else {
                lemma_extends_self(st);
            }
        },
        SpecStatement::Block(stmts) => {
            law_block_shape(st, stmts);
        },
        SpecStatement::If { condition, then_branch, else_branch } => {
            let sa = st.calloc(1);
            let sb = sa.evaluate_expression(condition, t)->Ok_0;
            lemma_calloc_shape(st);
            law_expression_shape(sa, condition, t);
            lemma_extends_chain(st, sa, sb);
            match else_branch {
                None => {
                    let sc = sb.if_open(t);
                    let sd = sc.scoped(*then_branch)->Ok_0;
                    law_scoped_shape(sc, *then_branch);
                    lemma_extends_split(sc, sd);
                    let go = mv(sb.head, t);
                    let back = mv(sd.head, t);
                    lemma_wf_basic(sb.head, t, 0);
                    lemma_wf_basic(sd.head, t, 0);
                    lemma_then_shape(sb.output, go, since(sc, sd), back);
                    lemma_extends_by(sb, st2, go + loop_of(clear() + since(sc, sd) + back));
                    lemma_extends_chain(st, sb, st2);
                },
                Some(other) => {
                    let aux = t + 1;
                    let sf = sb.calloc(1);
                    let stn = sb.else_flag().if_open(t).set(aux, 0);
                    let sd = stn.scoped(*then_branch)->Ok_0;
                    let se = sd.if_close(t).else_open(aux);
                    let sh = se.scoped(*other)->Ok_0;
                    law_scoped_shape(stn, *then_branch);
                    law_scoped_shape(se, *other);
                    lemma_extends_split(stn, sd);
                    lemma_extends_split(se, sh);
                    assert(calloc_code(sb.head, sb.top, 0) =~= Seq::<char>::empty());
                    assert(calloc_code(sb.head, sb.top, 1) =~= set_code(sb.head, sb.top, 0));
                    let f = set_code(sb.head, sb.top, 0);
                    let go1 = mv(sf.head, t);
                    let first = set_code(t, aux, 0);
                    let back1 = mv(sd.head, t);
                    let go2 = mv(t, aux);
                    let back2 = mv(sh.head, aux);
                    lemma_wf_set(sb.head, sb.top, 0);
                    lemma_wf_set(t, aux, 0);
                    lemma_wf_basic(sf.head, t, 0);
                    lemma_wf_basic(sd.head, t, 0);
                    lemma_wf_basic(t, aux, 0);
                    lemma_wf_basic(sh.head, aux, 0);
                    lemma_else_shape(
                        sb.output,
                        f,
                        go1,
                        first,
                        since(stn, sd),
                        back1,
                        go2,
                        since(se, sh),
                        back2,
                    );
                    lemma_extends_by(
                        sb,
                        st2,
                        f + seq!['+'] + go1 + loop_of(clear() + first + since(stn, sd) + back1)
                            + go2 + loop_of(since(se, sh) + back2 + clear()),
                    );
                    lemma_extends_chain(st, sb, st2);
                },
            }
        },
        _ => {},
    }
}

/// Lowering a branch as a scope of its own emits a program.
pub proof fn law_scoped_shape(st: GenState, s: SpecStatement)
    requires
        st.scoped(s) is Ok,
    ensures
        extends(st, st.scoped(s)->Ok_0),
    decreases s, 1int,
{
    law_statement_shape(st, s);
    let s1 = st.evaluate_statement(s)->Ok_0;
    lemma_extends_by(s1, st.scoped(s)->Ok_0, Seq::empty());
    lemma_extends_chain(st, s1, st.scoped(s)->Ok_0);
}

/// Lowering the first `n` statements of a list emits a program.
pub proof fn law_prefix_shape(st: GenState, stmts: Seq<SpecStatement>, n: int)
    requires
        0 <= n <= stmts.len(),
        st.lower_prefix(stmts, n) is Ok,
    ensures
        extends(st, st.lower_prefix(stmts, n)->Ok_0),
    decreases stmts, n,
{
    if n == 0 {
        lemma_extends_self(st);
    } else {
        law_prefix_shape(st, stmts, n - 1);
        let s1 = st.lower_prefix(stmts, n - 1)->Ok_0;
        law_statement_shape(s1, stmts[n - 1]);
        lemma_extends_chain(st, s1, st.lower_prefix(stmts, n)->Ok_0);
    }
}

/// Freeing variables emits nothing.
proof fn lemma_release_output(st: GenState, names: Seq<Seq<char>>)
    ensures
        st.release(names).output == st.output,
    decreases names.len(),
{
    if names.len() > 0 {
        lemma_release_output(st.dealloc_var(names.last()), names.drop_last());
    }
}

/// Lowering a block emits a program.
pub proof fn law_block_shape(st: GenState, stmts: Seq<SpecStatement>)
    requires
        st.block(stmts) is Ok,
    ensures
        extends(st, st.block(stmts)->Ok_0),
    decreases stmts, stmts.len() + 1,
{
    let n = stmts.len() as int;
    law_prefix_shape(st, stmts, n);
    let s1 = st.lower_prefix(stmts, n)->Ok_0;
    lemma_release_output(s1, crate::lower::defined_names(stmts));
    lemma_extends_by(s1, st.block(stmts)->Ok_0, Seq::empty());
    lemma_extends_chain(st, s1, st.block(stmts)->Ok_0);
}

/// Laying out bytes emits a program.
proof fn lemma_lay_bytes_shape(st: GenState, index: int, bytes: Seq<u8>, n: int)
    ensures
        extends(st, st.lay_bytes(index, bytes, n)),
    decreases n,
{
    if n <= 0 {
        lemma_extends_self(st);
    } else {
        lemma_lay_bytes_shape(st, index, bytes, n - 1);
        let s1 = st.lay_bytes(index, bytes, n - 1);
        let s2 = st.lay_bytes(index, bytes, n);
        lemma_wf_gcf(s1.head, index + n - 1, index + n, bytes[n - 1] as int);
        lemma_extends_by(
            s1,
            s2,
            gcf_code(s1.head, index + n - 1, index + n, bytes[n - 1] as int),
        );
        lemma_extends_chain(st, s1, s2);
    }
}

/// Laying out the string literals of a statement emits a program.
pub proof fn law_collect_statement_shape(st: GenState, s: SpecStatement)
    requires
        st.collect_statement(s) is Ok,
    ensures
        extends(st, st.collect_statement(s)->Ok_0),
    decreases s, 0int,
{
    let st2 = st.collect_statement(s)->Ok_0;
    match s {
        SpecStatement::Block(stmts) => {
            law_collect_strings_shape(st, stmts, stmts.len() as int);
        },
        SpecStatement::If { then_branch, else_branch, .. } => {
            law_collect_statement_shape(st, *then_branch);
            let s1 = st.collect_statement(*then_branch)->Ok_0;
            match else_branch {
                Some(other) => {
                    law_collect_statement_shape(s1, *other);
                    lemma_extends_chain(st, s1, st2);
                },
                None => {},
            }
        },
        _ => {
            match literal_of(s) {
                Some(text) => {
                    if lookup(st.strings, text) is None {
                        let bytes = encode_utf8(text);
                        let n = bytes.len() as int;
                        let s0 = st.malloc(n + 1);
                        let s1 = s0.lay_bytes(st.top, bytes, n);
                        let s2 = s1.set(st.top + n, 0);
                        lemma_extends_by(st, s0, Seq::empty());
                        lemma_lay_bytes_shape(s0, st.top, bytes, n);
                        lemma_wf_set(s1.head, st.top + n, 0);
                        lemma_extends_by(s1, s2, set_code(s1.head, st.top + n, 0));
                        lemma_extends_by(s2, st2, Seq::empty());
                        lemma_extends_chain(st, s0, s1);
                        lemma_extends_chain(st, s1, s2);
                        lemma_extends_chain(st, s2, st2);
                    } else {
                        lemma_extends_self(st);
                    }
                },
                None => {
                    lemma_extends_self(st);
                },
            }
        },
    }
}

/// Laying out the string literals of the first `n` statements of a list
/// emits a program.
pub proof fn law_collect_strings_shape(st: GenState, stmts: Seq<SpecStatement>, n: int)
    requires
        0 <= n <= stmts.len(),
        st.collect_strings(stmts, n) is Ok,
    ensures
        extends(st, st.collect_strings(stmts, n)->Ok_0),
    decreases stmts, n,
{
    if n == 0 {
        lemma_extends_self(st);
    } else {
        law_collect_strings_shape(st, stmts, n - 1);
        let s1 = st.collect_strings(stmts, n - 1)->Ok_0;
        law_collect_statement_shape(s1, stmts[n - 1]);
        lemma_extends_chain(st, s1, st.collect_strings(stmts, n)->Ok_0);
    }
}

/// Whatever program compiles, the text that compiling it emits is made of
/// opcodes only, and every bracket in it has its partner.
pub proof fn law_compile_shape(st: GenState, stmts: Seq<SpecStatement>)
    requires
        st.compile(stmts) is Ok,
    ensures
        extends(st, st.compile(stmts)->Ok_0),
        st.output.len() == 0 ==> well_formed(st.compile(stmts)->Ok_0.output),
{
    let n = stmts.len() as int;
    law_collect_strings_shape(st, stmts, n);
    let s1 = st.collect_strings(stmts, n)->Ok_0;
    law_prefix_shape(s1, stmts, n);
    let st2 = st.compile(stmts)->Ok_0;
    lemma_extends_chain(st, s1, st2);
    if st.output.len() == 0 {
        assert(st2.output.skip(0) =~= st2.output);
    }
}

} // verus!
