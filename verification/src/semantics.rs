//! What the lowered code computes: the value of an expression arrives in
//! its destination cell, and statements change the cells of the variables
//! as the source program says.

use vstd::prelude::*;
use crate::ast::{BinaryOp, SpecExpr, SpecStatement};
use crate::code::{
    calloc_code, clear, copy_code, dadd_code, dsub_code, gcf_code, gcf_head, move_code, mul_code,
    mv, print_code, set_code,
};
use crate::laws::{
    law_copy_val, law_dadd, law_dsub, law_move_val, law_mul, law_set, law_set_with_gcf,
    lemma_closed_gcf, lemma_chain3, lemma_chain4,
    lemma_closed_copy_one, lemma_closed_dadd, lemma_closed_move, lemma_closed_mul,
    lemma_clear, lemma_closed4, lemma_closed_clear, lemma_closed_mv, lemma_closed_op,
    lemma_closed_set, lemma_loop_once, lemma_mv,
};
use crate::lower::{
    defined_names, distinct_names, grown, kept, lemma_grown_chain, lemma_lay_bytes_frame,
    lemma_string_cells_bounds, literal_of, own_names, same_frame,
};
use crate::source::{
    calm, calm_expr, calm_list, calm_scoped, zero_at,
    empty_store, eval, exec, exec_list, exec_program, exec_scoped, forget, Env, Store,
};
use vstd::utf8::encode_utf8;
use crate::machine::{
    closed, lemma_closed_concat, lemma_closed_loop, lemma_reaches_concat, lemma_reaches_empty,
    lemma_reaches_loop_exit,
    lemma_reaches_loop_iter, lemma_reaches_op, loop_of, reaches, wrap, Machine,
};
use crate::state::{cell_limit, GenState};
use crate::symbols::{
    lemma_lookup_own, lemma_lookup_push,
    lemma_lookup_absent, lemma_lookup_member, lemma_owner_member, lemma_owner_present,
    lemma_without_last, lookup, owner, Binding,
};

verus! {

/// The value of an expression when the variables hold what `cells` holds
/// at their cells. Arithmetic is modulo 256.
pub open spec fn value_of(e: SpecExpr, vars: Seq<Binding>, cells: Map<int, u8>) -> u8
    decreases e,
{
    match e {
        SpecExpr::Number(n) => n,
        SpecExpr::Identifier(name) => match lookup(vars, name) {
            Some(i) => cells[i],
            None => 0,
        },
        SpecExpr::Binary { lhs, op, rhs } => {
            let l = value_of(*lhs, vars, cells);
            let r = value_of(*rhs, vars, cells);
            match op {
                BinaryOp::Add => wrap(l + r),
                BinaryOp::Sub => wrap(l - r),
                BinaryOp::Mul => wrap(l * r),
                _ => 0,
            }
        },
        _ => 0,
    }
}

/// The expression leaves no value behind in the cells it used: wherever it
/// multiplies, the right operand is zero.
pub open spec fn settles(e: SpecExpr, vars: Seq<Binding>, cells: Map<int, u8>) -> bool
    decreases e,
{
    match e {
        SpecExpr::Binary { lhs, op, rhs } => settles(*lhs, vars, cells) && settles(
            *rhs,
            vars,
            cells,
        ) && (op == BinaryOp::Mul ==> value_of(*rhs, vars, cells) == 0),
        _ => true,
    }
}

/// Every cell from `top` upwards holds zero.
pub open spec fn clean(m: Machine, top: int) -> bool {
    forall|c: int| c >= top ==> #[trigger] m.cells[c] == 0
}

/// `b` holds what `a` holds in every cell below `top` but `except`.
pub open spec fn agree_below(a: Machine, b: Machine, top: int, except: int) -> bool {
    forall|c: int| 0 <= c < top && c != except ==> #[trigger] b.cells[c] == a.cells[c]
}

/// Every variable lives in a cell below `top` other than `except`.
pub open spec fn vars_below(vars: Seq<Binding>, top: int, except: int) -> bool {
    forall|k: int|
        0 <= k < vars.len() ==> 0 <= (#[trigger] vars[k]).1 < top && vars[k].1 != except
}

/// The value of an expression depends on the cells of the variables only.
pub proof fn lemma_value_frame(
    e: SpecExpr,
    vars: Seq<Binding>,
    a: Map<int, u8>,
    b: Map<int, u8>,
)
    requires
        forall|k: int| 0 <= k < vars.len() ==> a[(#[trigger] vars[k]).1] == b[vars[k].1],
    ensures
        value_of(e, vars, a) == value_of(e, vars, b),
        settles(e, vars, a) == settles(e, vars, b),
    decreases e,
{
    match e {
        SpecExpr::Identifier(name) => {
            if lookup(vars, name) is Some {
                lemma_lookup_member(vars, name);
            }
        },
        SpecExpr::Binary { lhs, op, rhs } => {
            lemma_value_frame(*lhs, vars, a, b);
            lemma_value_frame(*rhs, vars, a, b);
        },
        _ => {},
    }
}

/// Allocating the two operand cells of a binary expression clears them and
/// leaves the head on the second.
proof fn lemma_operand_cells(st: GenState, m: Machine) -> (r: (Seq<char>, Machine))
    requires
        st.wf(),
        m.wf(),
        m.head == st.head,
    ensures
        st.calloc(1).calloc(1).output == st.output + r.0,
        closed(r.0),
        reaches(r.0, m, r.1),
        r.1 == m.with_cell(st.top, 0).with_cell(st.top + 1, 0).at(st.top + 1),
{
    let t = st.top;
    let c1 = set_code(st.head, t, 0);
    let c2 = set_code(t, t + 1, 0);
    let m1 = m.with_cell(t, 0).at(t);
    let m2 = m1.with_cell(t + 1, 0).at(t + 1);
    assert(calloc_code(st.head, t, 1) == c1) by {
        assert(calloc_code(st.head, t, 0) =~= Seq::<char>::empty());
        assert(calloc_code(st.head, t, 1) =~= c1);
    }
    assert(calloc_code(t, t + 1, 1) == c2) by {
        assert(calloc_code(t, t + 1, 0) =~= Seq::<char>::empty());
        assert(calloc_code(t, t + 1, 1) =~= c2);
    }
    law_set(m, t, 0);
    law_set(m1, t + 1, 0);
    lemma_reaches_concat(c1, c2, m, m1, m2);
    lemma_closed_set(st.head, t, 0);
    lemma_closed_set(t, t + 1, 0);
    lemma_closed_concat(c1, c2);
    assert(st.calloc(1).calloc(1).output =~= st.output + (c1 + c2));
    (c1 + c2, m2)
}

/// The byte that a binary operator gives.
pub open spec fn combine(op: BinaryOp, l: u8, r: u8) -> u8 {
    match op {
        BinaryOp::Add => wrap(l + r),
        BinaryOp::Sub => wrap(l - r),
        BinaryOp::Mul => wrap(l * r),
        _ => 0,
    }
}

/// Regrouping of three pieces appended one after the other.
proof fn lemma_regroup3(b: Seq<char>, x1: Seq<char>, x2: Seq<char>, x3: Seq<char>)
    ensures
        b + x1 + x2 + x3 == b + (x1 + x2 + x3),
{
    assert(b + x1 + x2 + x3 =~= b + (x1 + x2 + x3));
}

/// The machine after the operand cells `l` and `l + 1` were combined into
/// `dest` by addition or subtraction: both operand cells are zero.
pub open spec fn combined(m: Machine, op: BinaryOp, l: int, dest: int, home: int) -> Machine {
    m.with_cell(dest, combine(op, m.cells[l], m.cells[l + 1])).with_cell(l, 0).with_cell(
        l + 1,
        0,
    ).at(home)
}

/// Adding or subtracting the operand cells into the destination.
#[verifier::rlimit(30)]
proof fn lemma_combine_drain(
    h: int,
    op: BinaryOp,
    l: int,
    dest: int,
    home: int,
    m: Machine,
) -> (code: Seq<char>)
    requires
        m.wf(),
        m.head == h,
        home >= 0,
        0 <= dest < l,
        m.cells[dest] == 0,
        op == BinaryOp::Add || op == BinaryOp::Sub,
    ensures
        code == dadd_code(h, l, dest) + (if op == BinaryOp::Add {
            dadd_code(l, l + 1, dest)
        } else {
            dsub_code(l, l + 1, dest)
        }) + mv(l + 1, home),
        closed(code),
        reaches(code, m, combined(m, op, l, dest, home)),
{
    let rr = l + 1;
    let c3 = dadd_code(h, l, dest);
    let m3 = m.with_cell(dest, wrap(m.cells[dest] + m.cells[l])).with_cell(l, 0).at(l);
    law_dadd(m, l, dest);
    lemma_closed_dadd(h, l, dest);
    lemma_closed_dadd(l, rr, dest);
    lemma_closed_mv(rr, home);
    let c5 = mv(rr, home);
    if op == BinaryOp::Add {
        let c4 = dadd_code(l, rr, dest);
        let m4 = m3.with_cell(dest, wrap(m3.cells[dest] + m3.cells[rr])).with_cell(rr, 0).at(rr);
        law_dadd(m3, rr, dest);
        lemma_mv(m4, home);
        lemma_chain3(c3, c4, c5, m, m3, m4, m4.at(home));
        lemma_closed_concat(c3, c4);
        lemma_closed_concat(c3 + c4, c5);
        assert(m4.at(home).cells =~= combined(m, op, l, dest, home).cells);
        assert(m4.at(home) == combined(m, op, l, dest, home));
        c3 + c4 + c5
    } else {
        let c4 = dsub_code(l, rr, dest);
        let m4 = m3.with_cell(dest, wrap(m3.cells[dest] - m3.cells[rr])).with_cell(rr, 0).at(rr);
        law_dsub(m3, rr, dest);
        lemma_mv(m4, home);
        lemma_chain3(c3, c4, c5, m, m3, m4, m4.at(home));
        lemma_closed_concat(c3, c4);
        lemma_closed_concat(c3 + c4, c5);
        assert(m4.at(home).cells =~= combined(m, op, l, dest, home).cells);
        assert(m4.at(home) == combined(m, op, l, dest, home));
        c3 + c4 + c5
    }
}

/// Multiplying the operand cells into the destination.
#[verifier::rlimit(30)]
proof fn lemma_combine_mul(h: int, l: int, dest: int, home: int, m: Machine) -> (r: (
    Seq<char>,
    Machine,
))
    requires
        m.wf(),
        m.head == h,
        home >= 0,
        0 <= dest < l,
        m.cells[dest] == 0,
    ensures
        r.0 == dadd_code(h, l, dest) + mul_code(l, l + 2, l + 1, dest) + mv(l + 2, home),
        closed(r.0),
        reaches(r.0, m, r.1),
        r.1.wf(),
        r.1.head == home,
        r.1.input == m.input,
        r.1.output == m.output,
        r.1.cells[dest] == wrap(m.cells[l] * m.cells[l + 1]),
        agree_below(m, r.1, l, dest),
        m.cells[l + 1] == 0 && clean(m, l + 2) ==> clean(r.1, l),
{
    let rr = l + 1;
    let t = l + 2;
    let c3 = dadd_code(h, l, dest);
    let m3 = m.with_cell(dest, wrap(m.cells[dest] + m.cells[l])).with_cell(l, 0).at(l);
    law_dadd(m, l, dest);
    lemma_closed_dadd(h, l, dest);
    let c4 = mul_code(l, t, rr, dest);
    let m4 = m3.with_cell(
        t + 2,
        if m3.cells[dest] == 0 {
            m3.cells[t + 2]
        } else {
            0
        },
    ).with_cell(t + 1, 0).with_cell(dest, wrap(m3.cells[dest] * m3.cells[rr])).with_cell(t, 0).at(
        t,
    );
    let c5 = mv(t, home);
    law_mul(m3, t, rr, dest);
    lemma_mv(m4, home);
    lemma_chain3(c3, c4, c5, m, m3, m4, m4.at(home));
    lemma_closed_mul(l, t, rr, dest);
    lemma_closed_mv(t, home);
    lemma_closed_concat(c3, c4);
    lemma_closed_concat(c3 + c4, c5);
    (c3 + c4 + c5, m4.at(home))
}

/// Combining the two operand cells into the destination and returning the
/// head to `home`.
proof fn lemma_combine(st: GenState, op: BinaryOp, dest: int, home: int, m: Machine) -> (r: (
    Seq<char>,
    Machine,
))
    requires
        st.top >= 2,
        m.wf(),
        m.head == st.head,
        home >= 0,
        0 <= dest < st.top - 2,
        m.cells[dest] == 0,
        st.dadd(st.top - 2, dest).apply(op, st.top - 1, dest) is Ok,
    ensures
        st.dadd(st.top - 2, dest).apply(op, st.top - 1, dest)->Ok_0.dealloc(2).set_ptr(home).output
            == st.output + r.0,
        closed(r.0),
        reaches(r.0, m, r.1),
        r.1.wf(),
        r.1.head == home,
        r.1.input == m.input,
        r.1.output == m.output,
        r.1.cells[dest] == combine(op, m.cells[st.top - 2], m.cells[st.top - 1]),
        agree_below(m, r.1, st.top - 2, dest),
        (op != BinaryOp::Mul || m.cells[st.top - 1] == 0) && clean(m, st.top) ==> clean(
            r.1,
            st.top - 2,
        ),
{
    let l = st.top - 2;
    if op == BinaryOp::Mul {
        let (code, end) = lemma_combine_mul(st.head, l, dest, home, m);
        lemma_regroup3(
            st.output,
            dadd_code(st.head, l, dest),
            mul_code(l, l + 2, l + 1, dest),
            mv(l + 2, home),
        );
        (code, end)
    } else {
        let code = lemma_combine_drain(st.head, op, l, dest, home, m);
        lemma_regroup3(
            st.output,
            dadd_code(st.head, l, dest),
            if op == BinaryOp::Add {
                dadd_code(l, l + 1, dest)
            } else {
                dsub_code(l, l + 1, dest)
            },
            mv(l + 1, home),
        );
        (code, combined(m, op, l, dest, home))
    }
}

/// Lowering an expression emits code that leaves the value of the
/// expression in the destination cell, which held zero, and returns the
/// head to where it was. The generator's head, top and tables are as
/// before. No cell below the top changes but the destination, and cells
/// from the top upwards that all held zero hold zero again unless the
/// expression multiplies.
#[verifier::rlimit(30)]
pub proof fn law_evaluate_expression(st: GenState, e: SpecExpr, dest: int, m: Machine) -> (r: (
    Seq<char>,
    Machine,
))
    requires
        st.wf(),
        m.wf(),
        m.head == st.head,
        st.evaluate_expression(e, dest) is Ok,
        0 <= dest < st.top,
        m.cells[dest] == 0,
        vars_below(st.variables, st.top, dest),
    ensures
        st.evaluate_expression(e, dest)->Ok_0.output == st.output + r.0,
        same_frame(st, st.evaluate_expression(e, dest)->Ok_0),
        closed(r.0),
        reaches(r.0, m, r.1),
        r.1.wf(),
        r.1.head == m.head,
        r.1.input == m.input,
        r.1.output == m.output,
        r.1.cells[dest] == value_of(e, st.variables, m.cells),
        agree_below(m, r.1, st.top, dest),
        settles(e, st.variables, m.cells) && clean(m, st.top) ==> clean(r.1, st.top),
    decreases e,
{
    let h = st.head;
    let t = st.top;
    match e {
        SpecExpr::Number(n) => {
            let c1 = set_code(h, dest, n as int);
            let c2 = mv(dest, h);
            let m1 = m.with_cell(dest, n).at(dest);
            law_set(m, dest, n as int);
            lemma_mv(m1, h);
            lemma_reaches_concat(c1, c2, m, m1, m1.at(h));
            lemma_closed_set(h, dest, n as int);
            lemma_closed_mv(dest, h);
            lemma_closed_concat(c1, c2);
            assert(st.set(dest, n as int).set_ptr(h).output =~= st.output + (c1 + c2));
            (c1 + c2, m1.at(h))
        },
        SpecExpr::Identifier(name) => {
            let i = lookup(st.variables, name)->0;
            lemma_lookup_member(st.variables, name);
            let c1 = copy_code(h, t, i, seq![dest]);
            let c2 = mv(t, h);
            let m1 = m.with_cell(dest, m.cells[i]).with_cell(t, 0).at(t);
            law_copy_val(m, t, i, dest);
            lemma_mv(m1, h);
            lemma_reaches_concat(c1, c2, m, m1, m1.at(h));
            lemma_closed_copy_one(h, t, i, dest);
            lemma_closed_mv(t, h);
            lemma_closed_concat(c1, c2);
            assert(st.copy_val(i, seq![dest]).set_ptr(h).output =~= st.output + (c1 + c2));
            (c1 + c2, m1.at(h))
        },
        SpecExpr::Binary { lhs, op, rhs } => {
            let sa = st.calloc(1).calloc(1);
            let (c12, ma) = lemma_operand_cells(st, m);
            let sb = sa.evaluate_expression(*lhs, t)->Ok_0;
            let (cl, mb) = law_evaluate_expression(sa, *lhs, t, ma);
            let sc = sb.evaluate_expression(*rhs, t + 1)->Ok_0;
            let (cr, mc) = law_evaluate_expression(sb, *rhs, t + 1, mb);
            lemma_value_frame(*lhs, st.variables, ma.cells, m.cells);
            lemma_value_frame(*rhs, st.variables, mb.cells, m.cells);
            let (c3, md) = lemma_combine(sc, op, dest, h, mc);
            lemma_chain4(c12, cl, cr, c3, m, ma, mb, mc, md);
            lemma_closed_concat(c12, cl);
            lemma_closed_concat(c12 + cl, cr);
            lemma_closed_concat(c12 + cl + cr, c3);
            lemma_regroup4(st.output, c12, cl, cr, c3);
            (c12 + cl + cr + c3, md)
        },
        _ => (Seq::empty(), m),
    }
}

/// Regrouping of four pieces appended one after the other.
proof fn lemma_regroup4(b: Seq<char>, x1: Seq<char>, x2: Seq<char>, x3: Seq<char>, x4: Seq<char>)
    ensures
        b + x1 + x2 + x3 + x4 == b + (x1 + x2 + x3 + x4),
{
    assert(b + x1 + x2 + x3 + x4 =~= b + (x1 + x2 + x3 + x4));
}

/// The cells of the variables hold the values that `env` gives them, and
/// `env` knows exactly the variables in scope.
pub open spec fn holds(vars: Seq<Binding>, cells: Map<int, u8>, env: Env) -> bool {
    forall|name: Seq<char>|
        #![trigger lookup(vars, name)]
        #![trigger env.dom().contains(name)]
        (env.dom().contains(name) <==> lookup(vars, name) is Some) && (lookup(vars, name)
            is Some ==> env[name] == cells[lookup(vars, name)->0])
}

/// Variables defined later live in higher cells.
pub open spec fn ascending(vars: Seq<Binding>) -> bool {
    forall|j: int, k: int| 0 <= j < k < vars.len() ==> vars[j].1 < vars[k].1
}

/// No variable lives in cell `c`.
pub open spec fn free_cell(vars: Seq<Binding>, c: int) -> bool {
    forall|k: int| 0 <= k < vars.len() ==> (#[trigger] vars[k]).1 != c
}

/// The generator and the machine fit together: the generator is tidy, the
/// heads agree, and the variables live in distinct cells below the top.
pub open spec fn sound(st: GenState, m: Machine) -> bool {
    &&& st.tidy()
    &&& m.wf()
    &&& m.head == st.head
    &&& vars_below(st.variables, st.top, -1)
    &&& ascending(st.variables)
}

/// What a lowering of statements did, as seen from the generator and the
/// machine at once: `code` is the text it emitted, running it takes `m` to
/// `m2`, the generator and the machine still fit together, and no cell
/// below the old top changed but those of variables. The string literals
/// are those of before and the variables grew by `names`.
pub open spec fn lowered(
    st: GenState,
    st2: GenState,
    code: Seq<char>,
    m: Machine,
    m2: Machine,
    names: Seq<Seq<char>>,
) -> bool {
    &&& st2.output == st.output + code
    &&& closed(code)
    &&& reaches(code, m, m2)
    &&& sound(st2, m2)
    &&& m2.input == m.input
    &&& kept(st, st2, names)
    &&& st2.strings == st.strings
    &&& forall|c: int|
        0 <= c < st.top && free_cell(st.variables, c) ==> #[trigger] m2.cells[c] == m.cells[c]
}

/// The value that the cells give an expression is the value that the
/// environment gives it.
pub proof fn lemma_value_is_eval(e: SpecExpr, vars: Seq<Binding>, cells: Map<int, u8>, env: Env)
    requires
        holds(vars, cells, env),
    ensures
        value_of(e, vars, cells) == eval(e, env),
        settles(e, vars, cells) == calm_expr(e, env),
    decreases e,
{
    match e {
        SpecExpr::Identifier(name) => {
            assert(env.dom().contains(name) <==> lookup(vars, name) is Some);
        },
        SpecExpr::Binary { lhs, op, rhs } => {
            lemma_value_is_eval(*lhs, vars, cells, env);
            lemma_value_is_eval(*rhs, vars, cells, env);
        },
        _ => {},
    }
}

/// A new variable in a fresh cell: the cells hold the environment with the
/// variable added.
pub proof fn lemma_holds_push(
    vars: Seq<Binding>,
    cells: Map<int, u8>,
    env: Env,
    name: Seq<char>,
    cell: int,
    after: Map<int, u8>,
)
    requires
        holds(vars, cells, env),
        lookup(vars, name) is None,
        forall|k: int| 0 <= k < vars.len() ==> after[(#[trigger] vars[k]).1] == cells[vars[k].1],
    ensures
        holds(vars.push((name, cell)), after, env.insert(name, after[cell])),
{
    let vars2 = vars.push((name, cell));
    let env2 = env.insert(name, after[cell]);
    assert forall|other: Seq<char>|
        #![trigger lookup(vars2, other)]
        #![trigger env2.dom().contains(other)]
        (env2.dom().contains(other) <==> lookup(vars2, other) is Some) && (lookup(vars2, other)
            is Some ==> env2[other] == after[lookup(vars2, other)->0]) by {
        lemma_lookup_push(vars, (name, cell), other);
        assert(env.dom().contains(other) <==> lookup(vars, other) is Some);
        if lookup(vars, other) is Some {
            lemma_lookup_member(vars, other);
        }
    }
}

/// Names that differ are bound to cells that differ.
pub proof fn lemma_distinct_cells(vars: Seq<Binding>, a: Seq<char>, b: Seq<char>)
    requires
        ascending(vars),
        lookup(vars, a) is Some,
        lookup(vars, b) is Some,
        a != b,
    ensures
        lookup(vars, a)->0 != lookup(vars, b)->0,
{
    lemma_lookup_member(vars, a);
    lemma_lookup_member(vars, b);
    let j = choose|j: int| 0 <= j < vars.len() && vars[j] == (a, lookup(vars, a)->0);
    let k = choose|k: int| 0 <= k < vars.len() && vars[k] == (b, lookup(vars, b)->0);
    if j < k {
        assert(vars[j].1 < vars[k].1);
    } else if k < j {
        assert(vars[k].1 < vars[j].1);
    }
}

/// A variable gets a new value: the cells hold the environment with that
/// value.
pub proof fn lemma_holds_update(
    vars: Seq<Binding>,
    cells: Map<int, u8>,
    env: Env,
    name: Seq<char>,
    after: Map<int, u8>,
)
    requires
        holds(vars, cells, env),
        ascending(vars),
        lookup(vars, name) is Some,
        forall|k: int|
            0 <= k < vars.len() && (#[trigger] vars[k]).1 != lookup(vars, name)->0 ==> after[vars[k].1]
                == cells[vars[k].1],
    ensures
        holds(vars, after, env.insert(name, after[lookup(vars, name)->0])),
{
    let env2 = env.insert(name, after[lookup(vars, name)->0]);
    assert forall|other: Seq<char>|
        #![trigger lookup(vars, other)]
        #![trigger env2.dom().contains(other)]
        (env2.dom().contains(other) <==> lookup(vars, other) is Some) && (lookup(vars, other)
            is Some ==> env2[other] == after[lookup(vars, other)->0]) by {
        assert(env.dom().contains(other) <==> lookup(vars, other) is Some);
        if lookup(vars, other) is Some && other != name {
            lemma_distinct_cells(vars, name, other);
            lemma_lookup_member(vars, other);
        }
    }
}

/// Cells that agree on the variables hold the same environment.
pub proof fn lemma_holds_frame(vars: Seq<Binding>, cells: Map<int, u8>, env: Env, after: Map<int, u8>)
    requires
        holds(vars, cells, env),
        forall|k: int| 0 <= k < vars.len() ==> after[(#[trigger] vars[k]).1] == cells[vars[k].1],
    ensures
        holds(vars, after, env),
{
    assert forall|other: Seq<char>|
        #![trigger lookup(vars, other)]
        #![trigger env.dom().contains(other)]
        (env.dom().contains(other) <==> lookup(vars, other) is Some) && (lookup(vars, other)
            is Some ==> env[other] == after[lookup(vars, other)->0]) by {
        assert(env.dom().contains(other) <==> lookup(vars, other) is Some);
        if lookup(vars, other) is Some {
            lemma_lookup_member(vars, other);
        }
    }
}

/// The machine holds the store: the cells of the variables hold their
/// values, and what the machine has written is what the program printed.
pub open spec fn models(st: GenState, m: Machine, w: Store) -> bool {
    &&& holds(st.variables, m.cells, w.env)
    &&& m.output == w.out
}

/// Clearing one fresh cell at the top.
proof fn lemma_one_cell(st: GenState, m: Machine)
    requires
        st.wf(),
        m.wf(),
        m.head == st.head,
    ensures
        st.calloc(1).output == st.output + set_code(st.head, st.top, 0),
        closed(set_code(st.head, st.top, 0)),
        reaches(set_code(st.head, st.top, 0), m, m.with_cell(st.top, 0).at(st.top)),
{
    assert(calloc_code(st.head, st.top, 0) =~= Seq::<char>::empty());
    assert(calloc_code(st.head, st.top, 1) =~= set_code(st.head, st.top, 0));
    law_set(m, st.top, 0);
    lemma_closed_set(st.head, st.top, 0);
}

/// Lowering a definition emits code that clears a fresh cell for the
/// variable and stores the value of the initializer there.
#[verifier::rlimit(30)]
pub proof fn law_variable_definition(
    st: GenState,
    name: Seq<char>,
    init: Option<SpecExpr>,
    m: Machine,
    w: Store,
) -> (r: (Seq<char>, Machine))
    requires
        sound(st, m),
        models(st, m, w),
        st.variable_definition(name, init) is Ok,
    ensures
        lowered(st, st.variable_definition(name, init)->Ok_0, r.0, m, r.1, seq![name]),
        models(
            st.variable_definition(name, init)->Ok_0,
            r.1,
            exec(SpecStatement::VariableDefinition { name, initializer: init }, w),
        ),
        calm(SpecStatement::VariableDefinition { name, initializer: init }, w) && clean(
            m,
            st.top,
        ) ==> clean(r.1, st.variable_definition(name, init)->Ok_0.top),
        st.variable_definition(name, init)->Ok_0.variables == st.variables.push((name, st.top)),
{
    let t = st.top;
    let h = st.head;
    let vars2 = st.variables.push((name, t));
    let sa = st.alloc_var(name)->Ok_0;
    let c1 = set_code(h, t, 0);
    let ma = m.with_cell(t, 0).at(t);
    lemma_one_cell(st, m);
    lemma_lookup_absent(st.variables, name);
    lemma_string_cells_bounds(st.strings);
    lemma_holds_push(st.variables, m.cells, w.env, name, t, ma.cells);
    assert(vars2.drop_last() =~= st.variables);
    match init {
        None => {
            assert(sa.output == st.output + c1);
            (c1, ma)
        },
        Some(e) => {
            let sb = sa.calloc(1);
            let c2 = set_code(t, t + 1, 0);
            let mb = ma.with_cell(t + 1, 0).at(t + 1);
            lemma_one_cell(sa, ma);
            lemma_holds_frame(vars2, ma.cells, w.env.insert(name, 0), mb.cells);
            let (ce, mc) = law_evaluate_expression(sb, e, t + 1, mb);
            let sc = sb.evaluate_expression(e, t + 1)->Ok_0;
            lemma_value_is_eval(e, vars2, mb.cells, w.env.insert(name, 0));
            let c3 = move_code(t + 1, t + 1, t);
            let md = mc.with_cell(t, mc.cells[t + 1]).with_cell(t + 1, 0).at(t + 1);
            law_move_val(mc, t + 1, t);
            lemma_closed_move(t + 1, t + 1, t);
            lemma_chain4(c1, c2, ce, c3, m, ma, mb, mc, md);
            lemma_closed_concat(c1, c2);
            lemma_closed_concat(c1 + c2, ce);
            lemma_closed_concat(c1 + c2 + ce, c3);
            lemma_regroup4(st.output, c1, c2, ce, c3);
            lemma_lookup_push(st.variables, (name, t), name);
            lemma_holds_update(vars2, mb.cells, w.env.insert(name, 0), name, md.cells);
            assert(w.env.insert(name, 0).insert(name, md.cells[t]) =~= w.env.insert(
                name,
                md.cells[t],
            ));
            (c1 + c2 + ce + c3, md)
        },
    }
}

/// Lowering an assignment emits code that stores the value of the
/// expression in the variable's cell.
#[verifier::rlimit(30)]
pub proof fn law_assignment(st: GenState, name: Seq<char>, value: SpecExpr, m: Machine, w: Store) -> (r:
    (Seq<char>, Machine))
    requires
        sound(st, m),
        models(st, m, w),
        st.assignment(name, value) is Ok,
    ensures
        lowered(st, st.assignment(name, value)->Ok_0, r.0, m, r.1, Seq::empty()),
        models(
            st.assignment(name, value)->Ok_0,
            r.1,
            exec(SpecStatement::Assignment { name, value }, w),
        ),
        calm_expr(value, w.env) && clean(m, st.top) ==> clean(r.1, st.top),
{
    let t = st.top;
    let h = st.head;
    let var = lookup(st.variables, name)->0;
    lemma_lookup_member(st.variables, name);
    lemma_string_cells_bounds(st.strings);
    let sa = st.calloc(1);
    let c1 = set_code(h, t, 0);
    let ma = m.with_cell(t, 0).at(t);
    lemma_one_cell(st, m);
    lemma_holds_frame(st.variables, m.cells, w.env, ma.cells);
    let (ce, mb) = law_evaluate_expression(sa, value, t, ma);
    lemma_value_is_eval(value, st.variables, ma.cells, w.env);
    let c3 = move_code(t, t, var);
    let mc = mb.with_cell(var, mb.cells[t]).with_cell(t, 0).at(t);
    law_move_val(mb, t, var);
    lemma_closed_move(t, t, var);
    lemma_chain3(c1, ce, c3, m, ma, mb, mc);
    lemma_closed_concat(c1, ce);
    lemma_closed_concat(c1 + ce, c3);
    lemma_regroup3(st.output, c1, ce, c3);
    lemma_holds_update(st.variables, m.cells, w.env, name, mc.cells);
    let st2 = st.assignment(name, value)->Ok_0;
    assert(st2.variables =~= st.variables);
    assert forall|c: int| 0 <= c < st.top && free_cell(st.variables, c) implies #[trigger] mc.cells[c]
        == m.cells[c] by {
        let k = choose|k: int|
            0 <= k < st.variables.len() && st.variables[k] == (name, lookup(st.variables, name)->0);
        assert(st.variables[k].1 != c);
    }
    (c1 + ce + c3, mc)
}

/// The bytes from index `k` on of a string literal are in the cells from
/// `i + k` on, none of them zero, and a zero cell follows the last.
pub open spec fn bytes_at(cells: Map<int, u8>, i: int, bytes: Seq<u8>, k: int) -> bool {
    &&& forall|c: int|
        i + k <= c < i + bytes.len() ==> #[trigger] cells[c] == bytes[c - i] && bytes[c - i] != 0
    &&& cells[i + bytes.len()] == 0
}

/// The print loop, entered `k` bytes into a string literal that starts at
/// cell `i`, writes the rest of the bytes and stops on the zero behind
/// them.
pub proof fn lemma_print_loop(m: Machine, i: int, bytes: Seq<u8>, k: int)
    requires
        m.wf(),
        0 <= i,
        0 <= k <= bytes.len(),
        m.head == i + k,
        bytes_at(m.cells, i, bytes, k),
    ensures
        reaches(
            loop_of(seq!['.', '>']),
            m,
            Machine {
                head: i + bytes.len(),
                output: m.output + bytes.subrange(k, bytes.len() as int),
                ..m
            },
        ),
    decreases bytes.len() - k,
{
    let body = seq!['.', '>'];
    let goal = Machine {
        head: i + bytes.len(),
        output: m.output + bytes.subrange(k, bytes.len() as int),
        ..m
    };
    lemma_closed_op('.');
    lemma_closed_op('>');
    lemma_closed_concat(seq!['.'], seq!['>']);
    assert(body =~= seq!['.'] + seq!['>']);
    if k == bytes.len() {
        lemma_reaches_loop_exit(body, m);
        assert(goal.output =~= m.output);
        assert(goal == m);
    } else {
        assert(m.cells[i + k] == bytes[(i + k) - i] && bytes[(i + k) - i] != 0);
        let m1 = Machine { output: m.output.push(m.cur()), ..m };
        let m2 = m1.at(m.head + 1);
        lemma_reaches_op('.', m);
        lemma_reaches_op('>', m1);
        lemma_reaches_concat(seq!['.'], seq!['>'], m, m1, m2);
        lemma_print_loop(m2, i, bytes, k + 1);
        assert(m2.output + bytes.subrange(k + 1, bytes.len() as int) =~= m.output + bytes.subrange(
            k,
            bytes.len() as int,
        ));
        lemma_reaches_loop_iter(body, m, m2, goal);
    }
}

/// `print_str_at(i)` writes the bytes of the string literal that lies at
/// cell `i`, none of them zero, and leaves the head on the zero behind
/// them.
pub proof fn law_print(m: Machine, i: int, bytes: Seq<u8>)
    requires
        m.wf(),
        0 <= i,
        bytes_at(m.cells, i, bytes, 0),
    ensures
        reaches(
            print_code(m.head, i),
            m,
            Machine { head: i + bytes.len(), output: m.output + bytes, ..m },
        ),
        closed(print_code(m.head, i)),
{
    lemma_mv(m, i);
    lemma_print_loop(m.at(i), i, bytes, 0);
    assert(bytes.subrange(0, bytes.len() as int) =~= bytes);
    assert(print_code(m.head, i) =~= mv(m.head, i) + loop_of(seq!['.', '>']));
    lemma_reaches_concat(
        mv(m.head, i),
        loop_of(seq!['.', '>']),
        m,
        m.at(i),
        Machine { head: i + bytes.len(), output: m.output + bytes, ..m },
    );
    lemma_closed_mv(m.head, i);
    lemma_closed_op('.');
    lemma_closed_op('>');
    lemma_closed_concat(seq!['.'], seq!['>']);
    assert(seq!['.', '>'] =~= seq!['.'] + seq!['>']);
    lemma_closed_loop(seq!['.', '>']);
    lemma_closed_concat(mv(m.head, i), loop_of(seq!['.', '>']));
}

/// Every string literal of the table lies in the cells where the table has
/// it: its bytes, none of them zero, and a zero behind them, all below the
/// top and in cells of no variable.
pub open spec fn texts_ok(st: GenState, m: Machine) -> bool {
    forall|k: int|
        0 <= k < st.strings.len() ==> {
            let text = (#[trigger] st.strings[k]).0;
            let i = st.strings[k].1;
            let bytes = encode_utf8(text);
            &&& 0 <= i
            &&& i + bytes.len() < st.top
            &&& bytes_at(m.cells, i, bytes, 0)
            &&& forall|c: int| i <= c <= i + bytes.len() ==> #[trigger] free_cell(st.variables, c)
        }
}

/// The bindings that `after` has more than `before` are in the cells from
/// `top` on, one after the other.
pub open spec fn stacked(before: Seq<Binding>, after: Seq<Binding>, top: int) -> bool {
    forall|k: int|
        before.len() <= k < after.len() ==> (#[trigger] after[k]).1 == top + (k - before.len())
}

/// The bindings that `after` has more than `before` are in cells from
/// `top` upwards.
pub open spec fn fresh(before: Seq<Binding>, after: Seq<Binding>, top: int) -> bool {
    forall|k: int| before.len() <= k < after.len() ==> (#[trigger] after[k]).1 >= top
}

/// Two lowerings in a row are one lowering.
#[verifier::rlimit(30)]
pub proof fn lemma_lowered_chain(
    st: GenState,
    st1: GenState,
    st2: GenState,
    c1: Seq<char>,
    c2: Seq<char>,
    m: Machine,
    m1: Machine,
    m2: Machine,
    first: Seq<Seq<char>>,
    second: Seq<Seq<char>>,
)
    requires
        lowered(st, st1, c1, m, m1, first),
        lowered(st1, st2, c2, m1, m2, second),
        fresh(st.variables, st1.variables, st.top),
        st.top <= st1.top,
    ensures
        lowered(st, st2, c1 + c2, m, m2, first + second),
{
    lemma_reaches_concat(c1, c2, m, m1, m2);
    lemma_closed_concat(c1, c2);
    lemma_grown_chain(st.variables, st1.variables, st2.variables, first, second);
    assert(st.output + c1 + c2 =~= st.output + (c1 + c2));
    assert forall|c: int| 0 <= c < st.top && free_cell(st.variables, c) implies #[trigger] m2.cells[c]
        == m.cells[c] by {
        assert forall|k: int| 0 <= k < st1.variables.len() implies (#[trigger] st1.variables[k]).1
            != c by {
            if k < st.variables.len() {
                assert(st1.variables[k] == st.variables[k]);
            }
        }
        assert(free_cell(st1.variables, c));
        assert(m1.cells[c] == m.cells[c]);
    }
}

/// The environment without the newest variable is held by the cells of the
/// variables without the newest.
pub proof fn lemma_holds_pop(vars: Seq<Binding>, cells: Map<int, u8>, env: Env)
    requires
        vars.len() > 0,
        holds(vars, cells, env),
        distinct_names(vars),
    ensures
        holds(vars.drop_last(), cells, env.remove(vars.last().0)),
{
    let rest = vars.drop_last();
    let gone = vars.last().0;
    let env2 = env.remove(gone);
    assert(vars =~= rest.push(vars.last()));
    assert forall|other: Seq<char>|
        #![trigger lookup(rest, other)]
        #![trigger env2.dom().contains(other)]
        (env2.dom().contains(other) <==> lookup(rest, other) is Some) && (lookup(rest, other)
            is Some ==> env2[other] == cells[lookup(rest, other)->0]) by {
        lemma_lookup_push(rest, vars.last(), other);
        assert(env.dom().contains(other) <==> lookup(vars, other) is Some);
        if lookup(rest, other) is Some {
            lemma_lookup_member(rest, other);
            let k = choose|k: int|
                0 <= k < rest.len() && rest[k] == (other, lookup(rest, other)->0);
            assert(vars[k].0 != vars[vars.len() - 1].0);
        }
    }
}

/// Freeing the variables that a scope defined restores the variables of
/// before, and the cells hold the store without the freed names.
pub proof fn lemma_release(
    st: GenState,
    base: Seq<Binding>,
    names: Seq<Seq<char>>,
    cells: Map<int, u8>,
    w: Store,
)
    requires
        grown(base, st.variables, names),
        distinct_names(st.variables),
        holds(st.variables, cells, w.env),
    ensures
        st.release(names).variables == base,
        st.release(names).top == st.top - names.len(),
        st.release(names).head == st.head,
        st.release(names).strings == st.strings,
        st.release(names).output == st.output,
        holds(base, cells, forget(w, names).env),
        forget(w, names).out == w.out,
    decreases names.len(),
{
    if names.len() == 0 {
        assert(st.variables =~= base);
    } else {
        let vars = st.variables;
        assert(vars.last().0 == names.last());
        lemma_without_last(vars);
        lemma_holds_pop(vars, cells, w.env);
        let next = st.dealloc_var(names.last());
        let w2 = Store { env: w.env.remove(names.last()), ..w };
        assert(grown(base, next.variables, names.drop_last()));
        lemma_release(next, base, names.drop_last(), cells, w2);
    }
}

/// The generator, the machine and the store fit together.
pub open spec fn ready(st: GenState, m: Machine, w: Store) -> bool {
    &&& sound(st, m)
    &&& models(st, m, w)
    &&& texts_ok(st, m)
}

/// A lowering did what the source program says: besides what `lowered`
/// tells, the machine holds the store `w2`, the string literals still lie
/// in their cells, new variables live from the old top upwards, and, where
/// the statements are calm, cells from the top upwards that all held zero
/// hold zero again.
pub open spec fn correct(
    st: GenState,
    st2: GenState,
    code: Seq<char>,
    m: Machine,
    m2: Machine,
    names: Seq<Seq<char>>,
    w2: Store,
    calm: bool,
) -> bool {
    &&& lowered(st, st2, code, m, m2, names)
    &&& models(st2, m2, w2)
    &&& texts_ok(st2, m2)
    &&& fresh(st.variables, st2.variables, st.top)
    &&& stacked(st.variables, st2.variables, st.top)
    &&& st2.top == st.top + st2.variables.len() - st.variables.len()
    &&& (calm && clean(m, st.top) ==> clean(m2, st2.top))
}

/// Two string literals that lie at the same cell have the same length.
pub proof fn lemma_same_length(cells: Map<int, u8>, i: int, a: Seq<u8>, b: Seq<u8>)
    requires
        bytes_at(cells, i, a, 0),
        bytes_at(cells, i, b, 0),
    ensures
        a.len() == b.len(),
{
    if a.len() < b.len() {
        let c = i + a.len();
        assert(cells[c] == b[c - i] && b[c - i] != 0);
    } else if b.len() < a.len() {
        let c = i + b.len();
        assert(cells[c] == a[c - i] && a[c - i] != 0);
    }
}

/// Lowering the print of a string literal that is laid out emits code that
/// writes its bytes.
#[verifier::rlimit(30)]
pub proof fn law_print_statement(st: GenState, text: Seq<char>, m: Machine, w: Store) -> (r: (
    Seq<char>,
    Machine,
))
    requires
        ready(st, m, w),
        lookup(st.strings, text) is Some,
    ensures
        correct(
            st,
            st.print_str_at(lookup(st.strings, text)->0),
            r.0,
            m,
            r.1,
            Seq::empty(),
            Store { out: w.out + encode_utf8(text), ..w },
            true,
        ),
{
    let i = lookup(st.strings, text)->0;
    let bytes = encode_utf8(text);
    lemma_lookup_member(st.strings, text);
    let k = choose|k: int| 0 <= k < st.strings.len() && st.strings[k] == (text, i);
    assert(st.strings[k].0 == text && st.strings[k].1 == i);
    lemma_owner_present(st.strings, k);
    lemma_owner_member(st.strings, i);
    let text2 = owner(st.strings, i)->0;
    let k2 = choose|k2: int| 0 <= k2 < st.strings.len() && st.strings[k2] == (text2, i);
    assert(st.strings[k2].0 == text2 && st.strings[k2].1 == i);
    lemma_same_length(m.cells, i, bytes, encode_utf8(text2));
    law_print(m, i, bytes);
    let st2 = st.print_str_at(i);
    let m2 = Machine { head: i + bytes.len(), output: m.output + bytes, ..m };
    assert(st2.variables =~= st.variables);
    (print_code(st.head, i), m2)
}

/// The string literals stay where they lie when only cells of variables
/// and cells from the old top upwards change.
#[verifier::rlimit(30)]
pub proof fn lemma_texts_kept(st: GenState, st2: GenState, m: Machine, m2: Machine)
    requires
        texts_ok(st, m),
        st2.strings == st.strings,
        st.top <= st2.top,
        st2.variables.len() >= st.variables.len(),
        forall|k: int| 0 <= k < st.variables.len() ==> #[trigger] st2.variables[k] == st.variables[k],
        fresh(st.variables, st2.variables, st.top),
        forall|c: int|
            0 <= c < st.top && free_cell(st.variables, c) ==> #[trigger] m2.cells[c] == m.cells[c],
    ensures
        texts_ok(st2, m2),
{
    assert forall|k: int| 0 <= k < st2.strings.len() implies {
        let text = (#[trigger] st2.strings[k]).0;
        let i = st2.strings[k].1;
        let bytes = encode_utf8(text);
        &&& 0 <= i
        &&& i + bytes.len() < st2.top
        &&& bytes_at(m2.cells, i, bytes, 0)
        &&& forall|c: int| i <= c <= i + bytes.len() ==> #[trigger] free_cell(st2.variables, c)
    } by {
        let text = st.strings[k].0;
        let i = st.strings[k].1;
        let bytes = encode_utf8(text);
        assert(bytes_at(m.cells, i, bytes, 0));
        assert forall|c: int| i <= c <= i + bytes.len() implies #[trigger] free_cell(
            st2.variables,
            c,
        ) by {
            assert(free_cell(st.variables, c));
            assert forall|v: int| 0 <= v < st2.variables.len() implies (#[trigger] st2.variables[v]).1
                != c by {
                if v < st.variables.len() {
                    assert(st2.variables[v] == st.variables[v]);
                }
            }
        }
        assert forall|c: int| i <= c < i + bytes.len() implies #[trigger] m2.cells[c] == bytes[c
            - i] && bytes[c - i] != 0 by {
            assert(free_cell(st.variables, c));
            assert(m.cells[c] == bytes[c - i] && bytes[c - i] != 0);
            assert(m2.cells[c] == m.cells[c]);
        }
        assert(free_cell(st.variables, i + bytes.len()));
        assert(m2.cells[i + bytes.len()] == m.cells[i + bytes.len()]);
    }
}

/// Clearing a fresh cell for a condition and evaluating the condition
/// into it.
proof fn lemma_condition(st: GenState, cond: SpecExpr, m: Machine, w: Store) -> (r: (
    Seq<char>,
    Machine,
))
    requires
        ready(st, m, w),
        st.top + 1 <= cell_limit(),
        st.calloc(1).evaluate_expression(cond, st.top) is Ok,
    ensures
        st.calloc(1).evaluate_expression(cond, st.top)->Ok_0.output == st.output + r.0,
        same_frame(st.calloc(1), st.calloc(1).evaluate_expression(cond, st.top)->Ok_0),
        closed(r.0),
        reaches(r.0, m, r.1),
        r.1.wf(),
        r.1.head == st.top,
        r.1.input == m.input,
        r.1.output == m.output,
        r.1.cells[st.top] == eval(cond, w.env),
        agree_below(m, r.1, st.top, -1),
        calm_expr(cond, w.env) && clean(m, st.top) ==> clean(r.1, st.top + 1),
{
    let t = st.top;
    let sa = st.calloc(1);
    let c1 = set_code(st.head, t, 0);
    let ma = m.with_cell(t, 0).at(t);
    lemma_one_cell(st, m);
    lemma_holds_frame(st.variables, m.cells, w.env, ma.cells);
    let (ce, mb) = law_evaluate_expression(sa, cond, t, ma);
    lemma_value_is_eval(cond, st.variables, ma.cells, w.env);
    lemma_reaches_concat(c1, ce, m, ma, mb);
    lemma_closed_concat(c1, ce);
    assert(st.output + c1 + ce =~= st.output + (c1 + ce));
    (c1 + ce, mb)
}

/// Regrouping of the text of a branch into a loop.
proof fn lemma_branch_shape(
    b: Seq<char>,
    go: Seq<char>,
    first: Seq<char>,
    inner: Seq<char>,
    back: Seq<char>,
)
    ensures
        b + go + seq!['[', '[', '-', ']'] + first + inner + back + seq![']'] == b + (go + loop_of(
            clear() + first + inner + back,
        )),
{
    assert(b + go + seq!['[', '[', '-', ']'] + first + inner + back + seq![']'] =~= b + (go
        + loop_of(clear() + first + inner + back)));
}

/// The loop around a then-branch, entered with the head on the condition
/// cell `c`: on a condition that is not zero it clears the cell, runs
/// `first` and the branch, and returns; on zero it does nothing.
proof fn lemma_then_loop(
    c: int,
    first: Seq<char>,
    inner: Seq<char>,
    back: Seq<char>,
    m: Machine,
    m1: Machine,
    m2: Machine,
    m3: Machine,
)
    requires
        m.wf(),
        m.head == c,
        closed(first),
        closed(inner),
        closed(back),
        reaches(first, m.put(0), m1),
        reaches(inner, m1, m2),
        reaches(back, m2, m3),
        m3.head == c,
        m3.cells[c] == 0,
    ensures
        closed(loop_of(clear() + first + inner + back)),
        reaches(
            loop_of(clear() + first + inner + back),
            m,
            if m.cells[c] != 0 {
                m3
            } else {
                m
            },
        ),
{
    let body = clear() + first + inner + back;
    lemma_closed_clear();
    lemma_closed4(clear(), first, inner, back);
    lemma_closed_loop(body);
    if m.cells[c] != 0 {
        lemma_clear(m);
        lemma_chain4(clear(), first, inner, back, m, m.put(0), m1, m2, m3);
        lemma_loop_once(body, m, m3);
    } else {
        lemma_reaches_loop_exit(body, m);
    }
}

/// The loop around an else-branch, entered with the head on the flag cell
/// `aux`: on a flag that is not zero it runs the branch, returns and clears
/// the flag; on zero it does nothing.
proof fn lemma_else_loop(
    aux: int,
    inner: Seq<char>,
    back: Seq<char>,
    m: Machine,
    m1: Machine,
    m2: Machine,
)
    requires
        m.wf(),
        m.head == aux,
        closed(inner),
        closed(back),
        reaches(inner, m, m1),
        reaches(back, m1, m2),
        m2.wf(),
        m2.head == aux,
    ensures
        closed(loop_of(inner + back + clear())),
        reaches(
            loop_of(inner + back + clear()),
            m,
            if m.cells[aux] != 0 {
                m2.put(0)
            } else {
                m
            },
        ),
{
    let body = inner + back + clear();
    lemma_closed_clear();
    lemma_closed_concat(inner, back);
    lemma_closed_concat(inner + back, clear());
    lemma_closed_loop(body);
    if m.cells[aux] != 0 {
        lemma_clear(m2);
        lemma_chain3(inner, back, clear(), m, m1, m2, m2.put(0));
        lemma_loop_once(body, m, m2.put(0));
    } else {
        lemma_reaches_loop_exit(body, m);
    }
}

/// Regrouping of the text of an `if` with both branches.
proof fn lemma_if_else_shape(
    b: Seq<char>,
    p: Seq<char>,
    f: Seq<char>,
    go1: Seq<char>,
    first: Seq<char>,
    inner1: Seq<char>,
    back1: Seq<char>,
    go2: Seq<char>,
    inner2: Seq<char>,
    back2: Seq<char>,
)
    ensures
        b + p + f + seq!['+'] + go1 + seq!['[', '[', '-', ']'] + first + inner1 + back1 + seq![']']
            + go2 + seq!['['] + inner2 + back2 + seq!['[', '-', ']', ']'] == b + (p + (f + seq![
            '+',
        ]) + go1 + loop_of(clear() + first + inner1 + back1) + go2 + loop_of(
            inner2 + back2 + clear(),
        )),
{
    assert(b + p + f + seq!['+'] + go1 + seq!['[', '[', '-', ']'] + first + inner1 + back1 + seq![
        ']',
    ] + go2 + seq!['['] + inner2 + back2 + seq!['[', '-', ']', ']'] =~= b + (p + (f + seq!['+'])
        + go1 + loop_of(clear() + first + inner1 + back1) + go2 + loop_of(
        inner2 + back2 + clear(),
    )));
}

/// Sequencing of six pieces of code, each closed.
proof fn lemma_chain6(
    a: Seq<char>,
    b: Seq<char>,
    c: Seq<char>,
    d: Seq<char>,
    e: Seq<char>,
    f: Seq<char>,
    m0: Machine,
    m1: Machine,
    m2: Machine,
    m3: Machine,
    m4: Machine,
    m5: Machine,
    m6: Machine,
)
    requires
        reaches(a, m0, m1),
        reaches(b, m1, m2),
        reaches(c, m2, m3),
        reaches(d, m3, m4),
        reaches(e, m4, m5),
        reaches(f, m5, m6),
        closed(a),
        closed(b),
        closed(c),
        closed(d),
        closed(e),
        closed(f),
    ensures
        reaches(a + b + c + d + e + f, m0, m6),
        closed(a + b + c + d + e + f),
{
    lemma_chain4(a, b, c, d, m0, m1, m2, m3, m4);
    lemma_chain3(a + b + c + d, e, f, m0, m4, m5, m6);
    lemma_closed4(a, b, c, d);
    lemma_closed_concat(a + b + c + d, e);
    lemma_closed_concat(a + b + c + d + e, f);
}

/// Where the variables that a scope defined all hold zero, the cells that
/// the scope gives back hold zero.
proof fn lemma_freed_cells_zero(
    st: GenState,
    st1: GenState,
    names: Seq<Seq<char>>,
    m2: Machine,
    w1: Store,
)
    requires
        grown(st.variables, st1.variables, names),
        stacked(st.variables, st1.variables, st.top),
        distinct_names(st1.variables),
        holds(st1.variables, m2.cells, w1.env),
        zero_at(w1, names),
        st1.top == st.top + names.len(),
        clean(m2, st1.top),
    ensures
        clean(m2, st.top),
{
    assert forall|c: int| c >= st.top implies #[trigger] m2.cells[c] == 0 by {
        if c < st1.top {
            let j = c - st.top;
            let k = st.variables.len() + j;
            let vars = st1.variables;
            assert(vars[k].1 == c);
            assert(vars[k].0 == names[j]);
            lemma_lookup_own(vars, k);
            assert(lookup(vars, names[j]) == Some(c));
            assert(w1.env.dom().contains(names[j]) && w1.env[names[j]] == 0);
            assert(w1.env[names[j]] == m2.cells[lookup(vars, names[j])->0]);
        }
    }
}

/// Bytes that lie in cells still lie there when those cells are as before.
proof fn lemma_bytes_kept(a: Map<int, u8>, b: Map<int, u8>, i: int, bytes: Seq<u8>)
    requires
        bytes_at(a, i, bytes, 0),
        forall|c: int| i <= c <= i + bytes.len() ==> #[trigger] b[c] == a[c],
    ensures
        bytes_at(b, i, bytes, 0),
{
    assert forall|c: int| i + 0 <= c < i + bytes.len() implies #[trigger] b[c] == bytes[c - i]
        && bytes[c - i] != 0 by {
        assert(b[c] == a[c]);
        assert(a[c] == bytes[c - i] && bytes[c - i] != 0);
    }
    assert(b[i + bytes.len()] == a[i + bytes.len()]);
}

/// Lowering a statement emits code that does to the machine what the
/// statement does to the store: afterwards the cells of the variables hold
/// their new values and the machine has written what the statement
/// printed. The generator's head is where the machine's head is, no cell
/// below the old top changed but those of variables, and every temporary
/// cell was given back. After a calm statement the cells from the top
/// upwards hold zero again if they did before.
#[verifier::rlimit(30)]
pub proof fn law_statement(st: GenState, s: SpecStatement, m: Machine, w: Store) -> (r: (
    Seq<char>,
    Machine,
))
    requires
        ready(st, m, w),
        st.evaluate_statement(s) is Ok,
    ensures
        correct(
            st,
            st.evaluate_statement(s)->Ok_0,
            r.0,
            m,
            r.1,
            own_names(s),
            exec(s, w),
            calm(s, w),
        ),
    decreases s, 2int,
{
    match s {
        SpecStatement::VariableDefinition { name, initializer } => {
            let r = law_variable_definition(st, name, initializer, m, w);
            let st2 = st.variable_definition(name, initializer)->Ok_0;
            lemma_texts_kept(st, st2, m, r.1);
            r
        },
        SpecStatement::Assignment { name, value } => {
            let r = law_assignment(st, name, value, m, w);
            let st2 = st.assignment(name, value)->Ok_0;
            lemma_texts_kept(st, st2, m, r.1);
            r
        },
        SpecStatement::Print(e) => {
            let text = e->String_0;
            law_print_statement(st, text, m, w)
        },
        SpecStatement::Block(stmts) => law_block(st, stmts, m, w),
        SpecStatement::If { condition, then_branch, else_branch } => {
            if else_branch is None {
                law_if_then(st, s, m, w)
            } else {
                law_if_else(st, s, m, w)
            }
        },
        _ => (Seq::empty(), m),
    }
}

/// Lowering a branch as a scope of its own: as `law_statement`, and the
/// variable that the branch defined is out of scope again.
#[verifier::rlimit(30)]
pub proof fn law_scoped(st: GenState, s: SpecStatement, m: Machine, w: Store) -> (r: (
    Seq<char>,
    Machine,
))
    requires
        ready(st, m, w),
        st.scoped(s) is Ok,
    ensures
        correct(
            st,
            st.scoped(s)->Ok_0,
            r.0,
            m,
            r.1,
            Seq::empty(),
            exec_scoped(s, w),
            calm_scoped(s, w),
        ),
        st.scoped(s)->Ok_0.top == st.top,
    decreases s, 3int,
{
    let (code, m2) = law_statement(st, s, m, w);
    let st1 = st.evaluate_statement(s)->Ok_0;
    lemma_release(st1, st.variables, own_names(s), m2.cells, exec(s, w));
    lemma_string_cells_bounds(st.strings);
    match s {
        SpecStatement::VariableDefinition { name, .. } => {
            assert(own_names(s) =~= seq![name]);
            assert(own_names(s).drop_last() =~= Seq::<Seq<char>>::empty());
            let st2 = st1.dealloc_var(name);
            assert(st2.release(Seq::<Seq<char>>::empty()) == st2);
            assert(st1.release(own_names(s)) == st2);
            lemma_texts_kept(st, st2, m, m2);
            if calm_scoped(s, w) && clean(m, st.top) {
                lemma_freed_cells_zero(st, st1, own_names(s), m2, exec(s, w));
            }
        },
        _ => {
            assert(own_names(s) =~= Seq::<Seq<char>>::empty());
            assert(st1.release(own_names(s)) == st1);
        },
    }
    (code, m2)
}

/// Lowering an `if` without else-branch.
#[verifier::rlimit(60)]
pub proof fn law_if_then(st: GenState, s: SpecStatement, m: Machine, w: Store) -> (r: (
    Seq<char>,
    Machine,
))
    requires
        ready(st, m, w),
        st.evaluate_statement(s) is Ok,
        s is If,
        s->else_branch is None,
    ensures
        correct(
            st,
            st.evaluate_statement(s)->Ok_0,
            r.0,
            m,
            r.1,
            Seq::empty(),
            exec(s, w),
            calm(s, w),
        ),
    decreases s, 1int,
{
    let cond = s->If_condition;
    let then_branch = *s->then_branch;
    let t = st.top;
    lemma_string_cells_bounds(st.strings);
    let (cp, mb) = lemma_condition(st, cond, m, w);
    let sb = st.calloc(1).evaluate_expression(cond, t)->Ok_0;
    let sc = sb.if_open(t);
    let mc = mb.put(0);
    let go = mv(t, t);
    lemma_mv(mb, t);
    lemma_closed_mv(t, t);
    assert(mb.at(t) == mb);
    lemma_holds_frame(st.variables, m.cells, w.env, mc.cells);
    lemma_texts_kept(st, sc, m, mc);
    lemma_reaches_empty(mc);
    let (ct, md) = law_scoped(sc, then_branch, mc, w);
    let sd = sc.scoped(then_branch)->Ok_0;
    let back = mv(sd.head, t);
    lemma_mv(md, t);
    lemma_closed_mv(sd.head, t);
    assert(free_cell(sc.variables, t));
    lemma_closed_empty();
    lemma_then_loop(t, Seq::empty(), ct, back, mb, mc, md, md.at(t));
    let looped = loop_of(clear() + Seq::<char>::empty() + ct + back);
    let end = if mb.cells[t] != 0 {
        md.at(t)
    } else {
        mb
    };
    lemma_chain3(cp, go, looped, m, mb, mb, end);
    lemma_closed_concat(cp, go);
    lemma_closed_concat(cp + go, looped);
    lemma_branch_shape(sb.output, go, Seq::empty(), ct, back);
    let st2 = st.evaluate_statement(s)->Ok_0;
    assert(st2.output == st.output + (cp + go + looped)) by {
        assert(sb.output + (go + looped) =~= st.output + (cp + go + looped));
        assert(sd.output =~= sb.output + go + seq!['[', '[', '-', ']'] + Seq::<char>::empty() + ct);
    }
    assert(st2.variables =~= st.variables);
    lemma_holds_frame(st.variables, m.cells, w.env, mb.cells);
    lemma_texts_kept(st, st2, m, end);
    (cp + go + looped, end)
}

/// Lowering an `if` with else-branch.
#[verifier::rlimit(60)]
pub proof fn law_if_else(st: GenState, s: SpecStatement, m: Machine, w: Store) -> (r: (
    Seq<char>,
    Machine,
))
    requires
        ready(st, m, w),
        st.evaluate_statement(s) is Ok,
        s is If,
        s->else_branch is Some,
    ensures
        correct(
            st,
            st.evaluate_statement(s)->Ok_0,
            r.0,
            m,
            r.1,
            Seq::empty(),
            exec(s, w),
            calm(s, w),
        ),
    decreases s, 1int,
{
    let cond = s->If_condition;
    let then_branch = *s->then_branch;
    let other = *s->else_branch->0;
    let t = st.top;
    let aux = t + 1;
    lemma_string_cells_bounds(st.strings);
    let (cp, mb) = lemma_condition(st, cond, m, w);
    let sb = st.calloc(1).evaluate_expression(cond, t)->Ok_0;
    // The flag cell.
    let sf = sb.else_flag();
    let f = set_code(t, aux, 0);
    lemma_one_cell(sb, mb);
    let mf0 = mb.with_cell(aux, 0).at(aux);
    lemma_reaches_op('+', mf0);
    let mf = mf0.put(1);
    lemma_reaches_concat(f, seq!['+'], mb, mf0, mf);
    lemma_closed_op('+');
    lemma_closed_concat(f, seq!['+']);
    // The then-branch.
    let go1 = mv(aux, t);
    let mg = mf.at(t);
    lemma_mv(mf, t);
    lemma_closed_mv(aux, t);
    let so = sf.if_open(t);
    let first = set_code(t, aux, 0);
    let stn = so.set(aux, 0);
    let m1 = mg.put(0).with_cell(aux, 0).at(aux);
    law_set(mg.put(0), aux, 0);
    lemma_closed_set(t, aux, 0);
    lemma_holds_frame(st.variables, m.cells, w.env, m1.cells);
    lemma_texts_kept(st, stn, m, m1);
    let (ct, md) = law_scoped(stn, then_branch, m1, w);
    let sd = stn.scoped(then_branch)->Ok_0;
    let back1 = mv(sd.head, t);
    lemma_mv(md, t);
    lemma_closed_mv(sd.head, t);
    assert(free_cell(stn.variables, t));
    assert(free_cell(stn.variables, aux));
    lemma_then_loop(t, first, ct, back1, mg, m1, md, md.at(t));
    let loop1 = loop_of(clear() + first + ct + back1);
    let mj = if mb.cells[t] != 0 {
        md.at(t)
    } else {
        mg
    };
    let wj = if mb.cells[t] != 0 {
        exec_scoped(then_branch, w)
    } else {
        w
    };
    // The else-branch.
    let go2 = mv(t, aux);
    let mk = mj.at(aux);
    lemma_mv(mj, aux);
    lemma_closed_mv(t, aux);
    let se = sd.if_close(t).else_open(aux);
    lemma_holds_frame(st.variables, m.cells, w.env, mg.cells);
    assert(se.variables =~= st.variables);
    lemma_texts_kept(st, se, m, mk);
    let (cel, mh) = law_scoped(se, other, mk, wj);
    let sh = se.scoped(other)->Ok_0;
    let back2 = mv(sh.head, aux);
    lemma_mv(mh, aux);
    lemma_closed_mv(sh.head, aux);
    lemma_else_loop(aux, cel, back2, mk, mh, mh.at(aux));
    let loop2 = loop_of(cel + back2 + clear());
    let end = if mk.cells[aux] != 0 {
        mh.at(aux).put(0)
    } else {
        mk
    };
    lemma_chain6(cp, f + seq!['+'], go1, loop1, go2, loop2, m, mb, mf, mg, mj, mk, end);
    lemma_if_else_shape(st.output, cp, f, go1, first, ct, back1, go2, cel, back2);
    let st2 = st.evaluate_statement(s)->Ok_0;
    let code = cp + (f + seq!['+']) + go1 + loop1 + go2 + loop2;
    assert(st2.output == st.output + code) by {
        assert(sb.output == st.output + cp);
        assert(stn.output =~= sb.output + f + seq!['+'] + go1 + seq!['[', '[', '-', ']'] + first);
        assert(se.output =~= sd.output + back1 + seq![']'] + go2 + seq!['[']);
        assert(st2.output =~= sh.output + back2 + seq!['[', '-', ']', ']']);
    }
    assert(st2.variables =~= st.variables);
    assert(free_cell(se.variables, t));
    assert(free_cell(se.variables, aux));
    lemma_texts_kept(st, st2, m, end);
    (code, end)
}

/// Lowering the first `n` statements of a list: as `law_statement`, one
/// statement after the other.
#[verifier::rlimit(30)]
pub proof fn law_prefix(st: GenState, stmts: Seq<SpecStatement>, n: int, m: Machine, w: Store) -> (r:
    (Seq<char>, Machine))
    requires
        ready(st, m, w),
        0 <= n <= stmts.len(),
        st.lower_prefix(stmts, n) is Ok,
    ensures
        correct(
            st,
            st.lower_prefix(stmts, n)->Ok_0,
            r.0,
            m,
            r.1,
            defined_names(stmts.take(n)),
            exec_list(stmts, n, w),
            calm_list(stmts, n, w),
        ),
    decreases stmts, n,
{
    if n == 0 {
        assert(stmts.take(0) =~= Seq::<SpecStatement>::empty());
        lemma_reaches_empty(m);
        lemma_closed_empty();
        assert(st.output + Seq::<char>::empty() =~= st.output);
        (Seq::empty(), m)
    } else {
        let st1 = st.lower_prefix(stmts, n - 1)->Ok_0;
        let (c1, m1) = law_prefix(st, stmts, n - 1, m, w);
        let w1 = exec_list(stmts, n - 1, w);
        let s = stmts[n - 1];
        let (c2, m2) = law_statement(st1, s, m1, w1);
        let st2 = st1.evaluate_statement(s)->Ok_0;
        assert(stmts.take(n).drop_last() =~= stmts.take(n - 1));
        assert(stmts.take(n).last() == s);
        assert(defined_names(stmts.take(n)) =~= defined_names(stmts.take(n - 1)) + own_names(s));
        lemma_lowered_chain(
            st,
            st1,
            st2,
            c1,
            c2,
            m,
            m1,
            m2,
            defined_names(stmts.take(n - 1)),
            own_names(s),
        );
        assert forall|k: int| st.variables.len() <= k < st2.variables.len() implies (
        #[trigger] st2.variables[k]).1 >= st.top by {
            if k < st1.variables.len() {
                assert(st2.variables[k] == st1.variables[k]);
            }
        }
        (c1 + c2, m2)
    }
}

/// Lowering a block: its statements in order, and the variables it defined
/// out of scope again.
#[verifier::rlimit(30)]
pub proof fn law_block(st: GenState, stmts: Seq<SpecStatement>, m: Machine, w: Store) -> (r: (
    Seq<char>,
    Machine,
))
    requires
        ready(st, m, w),
        st.block(stmts) is Ok,
    ensures
        correct(
            st,
            st.block(stmts)->Ok_0,
            r.0,
            m,
            r.1,
            Seq::empty(),
            exec(SpecStatement::Block(stmts), w),
            calm(SpecStatement::Block(stmts), w),
        ),
    decreases stmts, stmts.len() + 1,
{
    let n = stmts.len() as int;
    let (code, m2) = law_prefix(st, stmts, n, m, w);
    let st1 = st.lower_prefix(stmts, n)->Ok_0;
    assert(stmts.take(n) =~= stmts);
    let names = defined_names(stmts);
    lemma_release(st1, st.variables, names, m2.cells, exec_list(stmts, n, w));
    lemma_string_cells_bounds(st.strings);
    let st2 = st1.release(names);
    lemma_texts_kept(st, st2, m, m2);
    if calm(SpecStatement::Block(stmts), w) && clean(m, st.top) {
        lemma_freed_cells_zero(st, st1, names, m2, exec_list(stmts, n, w));
    }
    (code, m2)
}

/// The empty text is closed code.
pub proof fn lemma_closed_empty()
    ensures
        closed(Seq::<char>::empty()),
{
}

/// No byte of the text is zero.
pub open spec fn printable(text: Seq<char>) -> bool {
    forall|j: int| 0 <= j < encode_utf8(text).len() ==> #[trigger] encode_utf8(text)[j] != 0
}

/// The first `n` of `bytes` are in the cells from `i` on, and the cells
/// behind them hold zero.
pub open spec fn laid_bytes(cells: Map<int, u8>, i: int, bytes: Seq<u8>, n: int) -> bool {
    &&& forall|c: int| i <= c < i + n ==> #[trigger] cells[c] == bytes[c - i]
    &&& forall|c: int| c >= i + n ==> #[trigger] cells[c] == 0
}

/// Laying out the first `n` bytes of a string literal on cells that hold
/// zero puts the bytes into the cells from `index` on and leaves every
/// other cell as it was.
#[verifier::rlimit(30)]
pub proof fn law_lay_bytes(st: GenState, index: int, bytes: Seq<u8>, n: int, m: Machine) -> (r: (
    Seq<char>,
    Machine,
))
    requires
        m.wf(),
        m.head == st.head,
        0 <= index,
        0 <= n <= bytes.len(),
        clean(m, index),
    ensures
        st.lay_bytes(index, bytes, n).output == st.output + r.0,
        closed(r.0),
        reaches(r.0, m, r.1),
        r.1.wf(),
        r.1.head == st.lay_bytes(index, bytes, n).head,
        r.1.head >= 0,
        r.1.input == m.input,
        r.1.output == m.output,
        laid_bytes(r.1.cells, index, bytes, n),
        forall|c: int| c < index ==> #[trigger] r.1.cells[c] == m.cells[c],
    decreases n,
{
    if n == 0 {
        lemma_reaches_empty(m);
        lemma_closed_empty();
        assert(st.output + Seq::<char>::empty() =~= st.output);
        (Seq::empty(), m)
    } else {
        let (c1, m1) = law_lay_bytes(st, index, bytes, n - 1, m);
        let s1 = st.lay_bytes(index, bytes, n - 1);
        let i = index + n - 1;
        let v = bytes[n - 1] as int;
        let c2 = gcf_code(s1.head, i, i + 1, v);
        let m2 = m1.with_cell(i, v as u8).at(gcf_head(i, i + 1, v));
        assert(m1.cells[i] == 0);
        assert(m1.cells[i + 1] == 0);
        law_set_with_gcf(m1, i, i + 1, v);
        lemma_closed_gcf(s1.head, i, i + 1, v);
        lemma_reaches_concat(c1, c2, m, m1, m2);
        lemma_closed_concat(c1, c2);
        assert(st.output + c1 + c2 =~= st.output + (c1 + c2));
        assert forall|c: int| index <= c < index + n implies #[trigger] m2.cells[c] == bytes[c
            - index] by {
            if c < index + n - 1 {
                assert(m1.cells[c] == bytes[c - index]);
            }
        }
        (c1 + c2, m2)
    }
}

/// Laying out a string literal on cells that hold zero: afterwards the
/// literal lies in its cells with a zero behind it, the head is on that
/// zero, and the cells behind it still hold zero.
#[verifier::rlimit(30)]
pub proof fn law_add_string_literal(st: GenState, text: Seq<char>, m: Machine, w: Store) -> (r: (
    Seq<char>,
    Machine,
))
    requires
        ready(st, m, w),
        clean(m, st.top),
        printable(text),
        st.add_string_literal(text) is Ok,
    ensures
        collected(st, st.add_string_literal(text)->Ok_0, r.0, m, r.1, w),
{
    let t = st.top;
    let bytes = encode_utf8(text);
    let n = bytes.len() as int;
    let s0 = st.malloc(n + 1);
    let (c1, m1) = law_lay_bytes(s0, t, bytes, n, m);
    let s1 = s0.lay_bytes(t, bytes, n);
    lemma_lay_bytes_frame(s0, t, bytes, n);
    let c2 = set_code(s1.head, t + n, 0);
    let m2 = m1.with_cell(t + n, 0).at(t + n);
    law_set(m1, t + n, 0);
    lemma_closed_set(s1.head, t + n, 0);
    lemma_reaches_concat(c1, c2, m, m1, m2);
    lemma_closed_concat(c1, c2);
    let s2 = s1.set(t + n, 0);
    let st2 = st.add_string_literal(text)->Ok_0;
    assert(st2.output == st.output + (c1 + c2)) by {
        assert(s2.output =~= st.output + (c1 + c2));
    }
    assert(st2.strings.drop_last() =~= st.strings);
    lemma_string_cells_bounds(st.strings);
    lemma_holds_frame(st.variables, m.cells, w.env, m2.cells);
    assert forall|k: int| 0 <= k < st2.strings.len() implies {
        let text = (#[trigger] st2.strings[k]).0;
        let i = st2.strings[k].1;
        let bytes = encode_utf8(text);
        &&& 0 <= i
        &&& i + bytes.len() < st2.top
        &&& bytes_at(m2.cells, i, bytes, 0)
        &&& forall|c: int| i <= c <= i + bytes.len() ==> #[trigger] free_cell(st2.variables, c)
    } by {
        if k < st.strings.len() {
            let old_text = st.strings[k].0;
            let i = st.strings[k].1;
            let old_bytes = encode_utf8(old_text);
            assert(st2.strings[k] == st.strings[k]);
            assert(i + old_bytes.len() < st.top);
            assert(bytes_at(m.cells, i, old_bytes, 0));
            lemma_bytes_kept(m.cells, m2.cells, i, old_bytes);
            assert forall|c: int| i <= c <= i + old_bytes.len() implies #[trigger] free_cell(
                st2.variables,
                c,
            ) by {
                assert(free_cell(st.variables, c));
            }
        } else {
            assert(st2.strings[k] == (text, t));
            assert forall|c: int| t <= c < t + bytes.len() implies #[trigger] m2.cells[c] == bytes[c
                - t] && bytes[c - t] != 0 by {
                assert(m1.cells[c] == bytes[c - t]);
                assert(encode_utf8(text)[c - t] != 0);
            }
            assert forall|c: int| t <= c <= t + bytes.len() implies #[trigger] free_cell(
                st2.variables,
                c,
            ) by {
                assert forall|v: int| 0 <= v < st2.variables.len() implies (
                #[trigger] st2.variables[v]).1 != c by {}
            }
        }
    }
    (c1 + c2, m2)
}

/// Every string literal of the statement, nested statements included, is
/// printable.
pub open spec fn printable_statement(s: SpecStatement) -> bool
    decreases s, 0int,
{
    match s {
        SpecStatement::Block(stmts) => printable_list(stmts, stmts.len() as int),
        SpecStatement::If { then_branch, else_branch, .. } => printable_statement(*then_branch)
            && (else_branch matches Some(other) ==> printable_statement(*other)),
        _ => match literal_of(s) {
            Some(text) => printable(text),
            None => true,
        },
    }
}

/// Every string literal of the first `n` statements, nested statements
/// included, is printable.
pub open spec fn printable_list(stmts: Seq<SpecStatement>, n: int) -> bool
    decreases stmts, n,
{
    n <= 0 || n > stmts.len() || (printable_list(stmts, n - 1) && printable_statement(
        stmts[n - 1],
    ))
}

/// What laying out string literals did: `code` is the text it emitted,
/// running it takes `m` to `m2`, every literal of the table lies in its
/// cells, the cells from the top upwards still hold zero, and the variables
/// are those of before.
pub open spec fn collected(
    st: GenState,
    st2: GenState,
    code: Seq<char>,
    m: Machine,
    m2: Machine,
    w: Store,
) -> bool {
    &&& st2.output == st.output + code
    &&& closed(code)
    &&& reaches(code, m, m2)
    &&& ready(st2, m2, w)
    &&& clean(m2, st2.top)
    &&& m2.input == m.input
    &&& st2.variables == st.variables
    &&& st2.top >= st.top
    &&& st2.slack() == st.slack()
}

/// Two layouts in a row are one layout.
proof fn lemma_collected_chain(
    st: GenState,
    st1: GenState,
    st2: GenState,
    c1: Seq<char>,
    c2: Seq<char>,
    m: Machine,
    m1: Machine,
    m2: Machine,
    w: Store,
)
    requires
        collected(st, st1, c1, m, m1, w),
        collected(st1, st2, c2, m1, m2, w),
    ensures
        collected(st, st2, c1 + c2, m, m2, w),
{
    lemma_reaches_concat(c1, c2, m, m1, m2);
    lemma_closed_concat(c1, c2);
    assert(st.output + c1 + c2 =~= st.output + (c1 + c2));
}

/// Laying out nothing.
proof fn lemma_collected_nothing(st: GenState, m: Machine, w: Store)
    requires
        ready(st, m, w),
        clean(m, st.top),
    ensures
        collected(st, st, Seq::empty(), m, m, w),
{
    lemma_reaches_empty(m);
    lemma_closed_empty();
    assert(st.output + Seq::<char>::empty() =~= st.output);
}

/// Laying out the string literals of a statement, nested statements
/// included, on cells that hold zero: afterwards every literal of the table
/// lies in its cells, and the cells from the top upwards still hold zero.
#[verifier::rlimit(30)]
pub proof fn law_collect_statement(st: GenState, s: SpecStatement, m: Machine, w: Store) -> (r: (
    Seq<char>,
    Machine,
))
    requires
        ready(st, m, w),
        clean(m, st.top),
        printable_statement(s),
        st.collect_statement(s) is Ok,
    ensures
        collected(st, st.collect_statement(s)->Ok_0, r.0, m, r.1, w),
    decreases s, 0int,
{
    match s {
        SpecStatement::Block(stmts) => law_collect_strings(st, stmts, stmts.len() as int, m, w),
        SpecStatement::If { then_branch, else_branch, .. } => {
            let (c1, m1) = law_collect_statement(st, *then_branch, m, w);
            let st1 = st.collect_statement(*then_branch)->Ok_0;
            match else_branch {
                Some(other) => {
                    let (c2, m2) = law_collect_statement(st1, *other, m1, w);
                    let st2 = st1.collect_statement(*other)->Ok_0;
                    lemma_collected_chain(st, st1, st2, c1, c2, m, m1, m2, w);
                    (c1 + c2, m2)
                },
                None => (c1, m1),
            }
        },
        _ => {
            match literal_of(s) {
                Some(text) => {
                    if lookup(st.strings, text) is None {
                        law_add_string_literal(st, text, m, w)
                    } else {
                        lemma_collected_nothing(st, m, w);
                        (Seq::empty(), m)
                    }
                },
                None => {
                    lemma_collected_nothing(st, m, w);
                    (Seq::empty(), m)
                },
            }
        },
    }
}

/// Laying out the string literals of the first `n` statements of a list:
/// as `law_collect_statement`, one statement after the other.
#[verifier::rlimit(30)]
pub proof fn law_collect_strings(
    st: GenState,
    stmts: Seq<SpecStatement>,
    n: int,
    m: Machine,
    w: Store,
) -> (r: (Seq<char>, Machine))
    requires
        ready(st, m, w),
        clean(m, st.top),
        0 <= n <= stmts.len(),
        printable_list(stmts, n),
        st.collect_strings(stmts, n) is Ok,
    ensures
        collected(st, st.collect_strings(stmts, n)->Ok_0, r.0, m, r.1, w),
    decreases stmts, n,
{
    if n == 0 {
        lemma_collected_nothing(st, m, w);
        (Seq::empty(), m)
    } else {
        let (c1, m1) = law_collect_strings(st, stmts, n - 1, m, w);
        let st1 = st.collect_strings(stmts, n - 1)->Ok_0;
        let s = stmts[n - 1];
        let (c2, m2) = law_collect_statement(st1, s, m1, w);
        let st2 = st1.collect_statement(s)->Ok_0;
        lemma_collected_chain(st, st1, st2, c1, c2, m, m1, m2, w);
        (c1 + c2, m2)
    }
}

/// Compiling a program and running the code on a blank machine does what
/// the program says: the machine writes what the program prints and halts
/// with the values of the variables in their cells and its head where the
/// generator's head is. This holds of every program that compiles and
/// whose string literals hold no zero byte. After a program of calm
/// statements every cell from the top upwards holds zero.
#[verifier::rlimit(30)]
pub proof fn law_program(stmts: Seq<SpecStatement>, input: Seq<u8>) -> (r: Machine)
    requires
        GenState::start().compile(stmts) is Ok,
        printable_list(stmts, stmts.len() as int),
    ensures
        reaches(GenState::start().compile(stmts)->Ok_0.output, Machine::blank(input), r),
        closed(GenState::start().compile(stmts)->Ok_0.output),
        ready(GenState::start().compile(stmts)->Ok_0, r, exec_program(stmts)),
        GenState::start().compile(stmts)->Ok_0.slack() == 0,
        r.input == input,
        calm_list(stmts, stmts.len() as int, empty_store()) ==> clean(
            r,
            GenState::start().compile(stmts)->Ok_0.top,
        ),
{
    let st = GenState::start();
    let m = Machine::blank(input);
    let w = empty_store();
    let n = stmts.len() as int;
    assert(holds(st.variables, m.cells, w.env)) by {
        assert forall|name: Seq<char>|
            #![trigger lookup(st.variables, name)]
            #![trigger w.env.dom().contains(name)]
            (w.env.dom().contains(name) <==> lookup(st.variables, name) is Some) && (lookup(
                st.variables,
                name,
            ) is Some ==> w.env[name] == m.cells[lookup(st.variables, name)->0]) by {}
    }
    let (c1, m1) = law_collect_strings(st, stmts, n, m, w);
    let st1 = st.collect_strings(stmts, n)->Ok_0;
    let (c2, m2) = law_prefix(st1, stmts, n, m1, w);
    let st2 = st1.lower_prefix(stmts, n)->Ok_0;
    lemma_reaches_concat(c1, c2, m, m1, m2);
    lemma_closed_concat(c1, c2);
    assert(st2.output =~= c1 + c2);
    m2
}

} // verus!
