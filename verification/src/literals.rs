//! String literals are laid out before they are printed: compiling a
//! program records every literal that its statements print, nested ones
//! included, and lowering leaves the record as it is.

use vstd::prelude::*;
use crate::ast::{BinaryOp, SpecExpr, SpecStatement};
use crate::lower::{
    lemma_lay_bytes_frame, literal_of, msg_already_defined, msg_calls, msg_functions,
    msg_no_function, msg_not_defined, msg_operator, msg_out_of_cells, msg_print, msg_return,
    msg_return_scan, msg_strings, msg_unary, msg_while, Lowered,
};
use crate::state::GenState;
use crate::symbols::{lemma_lookup_push, lookup, Binding};

verus! {

/// Every string literal that the statement prints, nested statements
/// included, is in the table.
pub open spec fn recorded(s: SpecStatement, strings: Seq<Binding>) -> bool
    decreases s, 0int,
{
    match s {
        SpecStatement::Print(SpecExpr::String(text)) => lookup(strings, text) is Some,
        SpecStatement::Block(stmts) => recorded_list(stmts, stmts.len() as int, strings),
        SpecStatement::If { then_branch, else_branch, .. } => recorded(*then_branch, strings) && (
        else_branch matches Some(other) ==> recorded(*other, strings)),
        _ => true,
    }
}

/// Every string literal that the first `n` statements print is in the
/// table.
pub open spec fn recorded_list(stmts: Seq<SpecStatement>, n: int, strings: Seq<Binding>) -> bool
    decreases stmts, n,
{
    n <= 0 || n > stmts.len() || (recorded_list(stmts, n - 1, strings) && recorded(
        stmts[n - 1],
        strings,
    ))
}

/// Every text that table `a` has, table `b` has.
pub open spec fn keeps(a: Seq<Binding>, b: Seq<Binding>) -> bool {
    forall|text: Seq<char>| #[trigger] lookup(a, text) is Some ==> lookup(b, text) is Some
}

/// What is recorded stays recorded in a table that keeps every text.
pub proof fn lemma_recorded_keeps(s: SpecStatement, a: Seq<Binding>, b: Seq<Binding>)
    requires
        recorded(s, a),
        keeps(a, b),
    ensures
        recorded(s, b),
    decreases s, 0int,
{
    match s {
        SpecStatement::Print(SpecExpr::String(text)) => {
            assert(lookup(a, text) is Some);
        },
        SpecStatement::Block(stmts) => {
            lemma_recorded_list_keeps(stmts, stmts.len() as int, a, b);
        },
        SpecStatement::If { then_branch, else_branch, .. } => {
            lemma_recorded_keeps(*then_branch, a, b);
            match else_branch {
                Some(other) => {
                    lemma_recorded_keeps(*other, a, b);
                },
                None => {},
            }
        },
        _ => {},
    }
}

/// What is recorded stays recorded in a table that keeps every text.
pub proof fn lemma_recorded_list_keeps(
    stmts: Seq<SpecStatement>,
    n: int,
    a: Seq<Binding>,
    b: Seq<Binding>,
)
    requires
        recorded_list(stmts, n, a),
        keeps(a, b),
    ensures
        recorded_list(stmts, n, b),
    decreases stmts, n,
{
    if 0 < n <= stmts.len() {
        lemma_recorded_list_keeps(stmts, n - 1, a, b);
        lemma_recorded_keeps(stmts[n - 1], a, b);
    }
}

/// Laying out a literal unless it is laid out keeps every text and has the
/// literal.
proof fn lemma_ensure_records(st: GenState, text: Seq<char>)
    requires
        st.ensure_string(text) is Ok,
    ensures
        keeps(st.strings, st.ensure_string(text)->Ok_0.strings),
        lookup(st.ensure_string(text)->Ok_0.strings, text) is Some,
{
    if lookup(st.strings, text) is None {
        let bytes = vstd::utf8::encode_utf8(text);
        let base = st.malloc(bytes.len() as int + 1);
        lemma_lay_bytes_frame(base, st.top, bytes, bytes.len() as int);
        let after = st.ensure_string(text)->Ok_0.strings;
        assert(after == st.strings.push((text, st.top)));
        assert forall|other: Seq<char>| #[trigger] lookup(st.strings, other) is Some implies lookup(
            after,
            other,
        ) is Some by {
            lemma_lookup_push(st.strings, (text, st.top), other);
        }
        lemma_lookup_push(st.strings, (text, st.top), text);
    }
}

/// After the string literals of a statement were laid out, every literal
/// that the statement prints is in the table, and so is every text that
/// was in it before.
pub proof fn law_collect_records(st: GenState, s: SpecStatement)
    requires
        st.collect_statement(s) is Ok,
    ensures
        keeps(st.strings, st.collect_statement(s)->Ok_0.strings),
        recorded(s, st.collect_statement(s)->Ok_0.strings),
    decreases s, 0int,
{
    match s {
        SpecStatement::Block(stmts) => {
            law_collect_list_records(st, stmts, stmts.len() as int);
        },
        SpecStatement::If { then_branch, else_branch, .. } => {
            law_collect_records(st, *then_branch);
            let s1 = st.collect_statement(*then_branch)->Ok_0;
            match else_branch {
                Some(other) => {
                    law_collect_records(s1, *other);
                    let s2 = s1.collect_statement(*other)->Ok_0;
                    lemma_recorded_keeps(*then_branch, s1.strings, s2.strings);
                    assert forall|text: Seq<char>| #[trigger]
                        lookup(st.strings, text) is Some implies lookup(s2.strings, text)
                        is Some by {
                        assert(lookup(s1.strings, text) is Some);
                    }
                },
                None => {},
            }
        },
        _ => {
            match literal_of(s) {
                Some(text) => {
                    lemma_ensure_records(st, text);
                },
                None => {},
            }
        },
    }
}

/// As `law_collect_records`, for the first `n` statements of a list.
pub proof fn law_collect_list_records(st: GenState, stmts: Seq<SpecStatement>, n: int)
    requires
        0 <= n <= stmts.len(),
        st.collect_strings(stmts, n) is Ok,
    ensures
        keeps(st.strings, st.collect_strings(stmts, n)->Ok_0.strings),
        recorded_list(stmts, n, st.collect_strings(stmts, n)->Ok_0.strings),
    decreases stmts, n,
{
    if n > 0 {
        law_collect_list_records(st, stmts, n - 1);
        let s1 = st.collect_strings(stmts, n - 1)->Ok_0;
        law_collect_records(s1, stmts[n - 1]);
        let s2 = s1.collect_statement(stmts[n - 1])->Ok_0;
        lemma_recorded_list_keeps(stmts, n - 1, s1.strings, s2.strings);
        assert forall|text: Seq<char>| #[trigger] lookup(st.strings, text) is Some implies lookup(
            s2.strings,
            text,
        ) is Some by {
            assert(lookup(s1.strings, text) is Some);
        }
    }
}

/// Lowering an expression leaves the table of string literals as it is.
pub proof fn law_expression_keeps_strings(st: GenState, e: SpecExpr, dest: int)
    requires
        st.evaluate_expression(e, dest) is Ok,
    ensures
        st.evaluate_expression(e, dest)->Ok_0.strings == st.strings,
    decreases e,
{
    match e {
        SpecExpr::Binary { lhs, op, rhs } => {
            let sa = st.calloc(1).calloc(1);
            law_expression_keeps_strings(sa, *lhs, st.top);
            let sb = sa.evaluate_expression(*lhs, st.top)->Ok_0;
            law_expression_keeps_strings(sb, *rhs, st.top + 1);
        },
        _ => {},
    }
}

/// Freeing variables leaves the table of string literals as it is.
proof fn lemma_release_keeps_strings(st: GenState, names: Seq<Seq<char>>)
    ensures
        st.release(names).strings == st.strings,
    decreases names.len(),
{
    if names.len() > 0 {
        lemma_release_keeps_strings(st.dealloc_var(names.last()), names.drop_last());
    }
}

/// Lowering a statement leaves the table of string literals as it is, and
/// succeeds only where every literal that the statement prints is recorded.
pub proof fn law_statement_keeps_strings(st: GenState, s: SpecStatement)
    requires
        st.evaluate_statement(s) is Ok,
    ensures
        st.evaluate_statement(s)->Ok_0.strings == st.strings,
        recorded(s, st.strings),
    decreases s, 0int,
{
    match s {
        SpecStatement::VariableDefinition { name, initializer } => {
            match initializer {
                Some(e) => {
                    let sa = st.alloc_var(name)->Ok_0;
                    law_expression_keeps_strings(sa.calloc(1), e, sa.top);
                },
                None => {},
            }
        },
        SpecStatement::Assignment { name, value } => {
            law_expression_keeps_strings(st.calloc(1), value, st.top);
        },
        SpecStatement::Block(stmts) => {
            let n = stmts.len() as int;
            law_prefix_keeps_strings(st, stmts, n);
            lemma_release_keeps_strings(
                st.lower_prefix(stmts, n)->Ok_0,
                crate::lower::defined_names(stmts),
            );
        },
        SpecStatement::If { condition, then_branch, else_branch } => {
            let t = st.top;
            let sa = st.calloc(1);
            law_expression_keeps_strings(sa, condition, t);
            let sb = sa.evaluate_expression(condition, t)->Ok_0;
            match else_branch {
                None => {
                    law_scoped_keeps_strings(sb.if_open(t), *then_branch);
                },
                Some(other) => {
                    let stn = sb.else_flag().if_open(t).set(t + 1, 0);
                    law_scoped_keeps_strings(stn, *then_branch);
                    let sd = stn.scoped(*then_branch)->Ok_0;
                    law_scoped_keeps_strings(sd.if_close(t).else_open(t + 1), *other);
                },
            }
        },
        _ => {},
    }
}

/// As `law_statement_keeps_strings`, for a branch lowered as a scope of
/// its own.
pub proof fn law_scoped_keeps_strings(st: GenState, s: SpecStatement)
    requires
        st.scoped(s) is Ok,
    ensures
        st.scoped(s)->Ok_0.strings == st.strings,
        recorded(s, st.strings),
    decreases s, 1int,
{
    law_statement_keeps_strings(st, s);
}

/// As `law_statement_keeps_strings`, for the first `n` statements of a
/// list.
pub proof fn law_prefix_keeps_strings(st: GenState, stmts: Seq<SpecStatement>, n: int)
    requires
        0 <= n <= stmts.len(),
        st.lower_prefix(stmts, n) is Ok,
    ensures
        st.lower_prefix(stmts, n)->Ok_0.strings == st.strings,
        recorded_list(stmts, n, st.strings),
    decreases stmts, n,
{
    if n > 0 {
        law_prefix_keeps_strings(st, stmts, n - 1);
        law_statement_keeps_strings(st.lower_prefix(stmts, n - 1)->Ok_0, stmts[n - 1]);
    }
}

/// The diagnostic is the one for a string literal that is not laid out: it
/// begins with `S` and has a blank in the seventh place, as no other
/// diagnostic of the generator has.
pub open spec fn names_literal(e: Seq<char>) -> bool {
    e.len() >= 7 && e[0] == 'S' && e[6] == ' '
}

/// The outcome is the failure for a string literal that is not laid out.
pub open spec fn unlaid(r: Lowered) -> bool {
    r matches Err(e) && names_literal(e)
}

/// The diagnostic for a string literal that is not laid out is told from
/// every other diagnostic of the generator.
pub proof fn lemma_other_diagnostics(name: Seq<char>, op: BinaryOp)
    ensures
        names_literal(crate::lower::msg_no_string(name)),
        !names_literal(msg_out_of_cells()),
        !names_literal(msg_already_defined(name)),
        !names_literal(msg_not_defined(name)),
        !names_literal(msg_no_function(name)),
        !names_literal(msg_calls()),
        !names_literal(msg_unary()),
        !names_literal(msg_strings()),
        !names_literal(msg_functions()),
        !names_literal(msg_return()),
        !names_literal(msg_return_scan()),
        !names_literal(msg_print()),
        !names_literal(msg_while()),
        !names_literal(msg_operator(op)),
{
    reveal_strlit("String literal ");
    reveal_strlit("Out of tape cells");
    reveal_strlit("Variable ");
    reveal_strlit("Function ");
    reveal_strlit("Function calls are not yet supported");
    reveal_strlit("Unary operators are not yet supported");
    reveal_strlit("Strings are not yet supported");
    reveal_strlit("Function declarations are not yet supported");
    reveal_strlit("Return statements are not yet supported");
    reveal_strlit("Return statements not implemented");
    reveal_strlit("Print statements that doesn't use string literals are not yet supported");
    reveal_strlit("While statements are not yet supported");
    reveal_strlit("Division is not yet supported");
    reveal_strlit("Modulo is not yet supported");
    reveal_strlit("Equality is not yet supported");
    reveal_strlit("Inequality is not yet supported");
    reveal_strlit("Less than is not yet supported");
    reveal_strlit("Less than or equal is not yet supported");
    reveal_strlit("Greater than is not yet supported");
    reveal_strlit("Greater than or equal is not yet supported");
    reveal_strlit("Logical and is not yet supported");
    reveal_strlit("Logical or is not yet supported");
    assert(crate::lower::msg_no_string(name)[0] == 'S');
    assert(crate::lower::msg_no_string(name)[6] == ' ');
    assert(msg_already_defined(name)[0] == 'V');
    assert(msg_not_defined(name)[0] == 'V');
    assert(msg_no_function(name)[0] == 'F');
}

/// Lowering an expression never fails for a string literal that is not
/// laid out.
pub proof fn law_expression_never_unlaid(st: GenState, e: SpecExpr, dest: int)
    ensures
        !unlaid(st.evaluate_expression(e, dest)),
    decreases e,
{
    match e {
        SpecExpr::Binary { lhs, op, rhs } => {
            lemma_other_diagnostics(Seq::empty(), op);
            let sa = st.calloc(1).calloc(1);
            law_expression_never_unlaid(sa, *lhs, st.top);
            if sa.evaluate_expression(*lhs, st.top) is Ok {
                let sb = sa.evaluate_expression(*lhs, st.top)->Ok_0;
                law_expression_never_unlaid(sb, *rhs, st.top + 1);
            }
        },
        SpecExpr::Identifier(name) => {
            lemma_other_diagnostics(name, BinaryOp::Add);
        },
        SpecExpr::Call { callee, .. } => {
            match *callee {
                SpecExpr::Identifier(name) => {
                    lemma_other_diagnostics(name, BinaryOp::Add);
                },
                _ => {
                    lemma_other_diagnostics(Seq::empty(), BinaryOp::Add);
                },
            }
        },
        _ => {
            lemma_other_diagnostics(Seq::empty(), BinaryOp::Add);
        },
    }
}

/// Lowering a statement whose literals are recorded never fails for a
/// string literal that is not laid out.
#[verifier::rlimit(30)]
pub proof fn law_statement_never_unlaid(st: GenState, s: SpecStatement)
    requires
        recorded(s, st.strings),
    ensures
        !unlaid(st.evaluate_statement(s)),
    decreases s, 0int,
{
    match s {
        SpecStatement::VariableDefinition { name, initializer } => {
            lemma_other_diagnostics(name, BinaryOp::Add);
            if st.alloc_var(name) is Ok {
                let sa = st.alloc_var(name)->Ok_0;
                match initializer {
                    Some(e) => {
                        law_expression_never_unlaid(sa.calloc(1), e, sa.top);
                    },
                    None => {},
                }
            }
        },
        SpecStatement::Assignment { name, value } => {
            lemma_other_diagnostics(name, BinaryOp::Add);
            law_expression_never_unlaid(st.calloc(1), value, st.top);
        },
        SpecStatement::Block(stmts) => {
            law_prefix_never_unlaid(st, stmts, stmts.len() as int);
        },
        SpecStatement::If { condition, then_branch, else_branch } => {
            lemma_other_diagnostics(Seq::empty(), BinaryOp::Add);
            let t = st.top;
            let sa = st.calloc(1);
            law_expression_never_unlaid(sa, condition, t);
            if st.top + 2 <= crate::state::cell_limit() && sa.evaluate_expression(condition, t)
                is Ok {
                law_expression_keeps_strings(sa, condition, t);
                let sb = sa.evaluate_expression(condition, t)->Ok_0;
                match else_branch {
                    None => {
                        law_scoped_never_unlaid(sb.if_open(t), *then_branch);
                    },
                    Some(other) => {
                        let stn = sb.else_flag().if_open(t).set(t + 1, 0);
                        law_scoped_never_unlaid(stn, *then_branch);
                        if stn.scoped(*then_branch) is Ok {
                            law_scoped_keeps_strings(stn, *then_branch);
                            let sd = stn.scoped(*then_branch)->Ok_0;
                            law_scoped_never_unlaid(sd.if_close(t).else_open(t + 1), *other);
                        }
                    },
                }
            }
        },
        _ => {
            lemma_other_diagnostics(Seq::empty(), BinaryOp::Add);
        },
    }
}

/// As `law_statement_never_unlaid`, for a branch lowered as a scope of its
/// own.
pub proof fn law_scoped_never_unlaid(st: GenState, s: SpecStatement)
    requires
        recorded(s, st.strings),
    ensures
        !unlaid(st.scoped(s)),
    decreases s, 1int,
{
    law_statement_never_unlaid(st, s);
}

/// As `law_statement_never_unlaid`, for the first `n` statements of a
/// list.
pub proof fn law_prefix_never_unlaid(st: GenState, stmts: Seq<SpecStatement>, n: int)
    requires
        0 <= n <= stmts.len(),
        recorded_list(stmts, n, st.strings),
    ensures
        !unlaid(st.lower_prefix(stmts, n)),
    decreases stmts, n,
{
    if n > 0 {
        law_prefix_never_unlaid(st, stmts, n - 1);
        if st.lower_prefix(stmts, n - 1) is Ok {
            law_prefix_keeps_strings(st, stmts, n - 1);
            law_statement_never_unlaid(st.lower_prefix(stmts, n - 1)->Ok_0, stmts[n - 1]);
        }
    }
}

/// Laying out string literals never fails for a string literal that is not
/// laid out.
proof fn lemma_collect_never_unlaid(st: GenState, stmts: Seq<SpecStatement>, n: int)
    requires
        0 <= n <= stmts.len(),
    ensures
        !unlaid(st.collect_strings(stmts, n)),
    decreases stmts, n,
{
    if n > 0 {
        lemma_collect_never_unlaid(st, stmts, n - 1);
        if st.collect_strings(stmts, n - 1) is Ok {
            lemma_collect_statement_never_unlaid(
                st.collect_strings(stmts, n - 1)->Ok_0,
                stmts[n - 1],
            );
        }
    }
}

/// Laying out the string literals of a statement never fails for a string
/// literal that is not laid out.
proof fn lemma_collect_statement_never_unlaid(st: GenState, s: SpecStatement)
    ensures
        !unlaid(st.collect_statement(s)),
    decreases s, 0int,
{
    lemma_other_diagnostics(Seq::empty(), BinaryOp::Add);
    match s {
        SpecStatement::Block(stmts) => {
            lemma_collect_never_unlaid(st, stmts, stmts.len() as int);
        },
        SpecStatement::If { then_branch, else_branch, .. } => {
            lemma_collect_statement_never_unlaid(st, *then_branch);
            if st.collect_statement(*then_branch) is Ok {
                match else_branch {
                    Some(other) => {
                        lemma_collect_statement_never_unlaid(
                            st.collect_statement(*then_branch)->Ok_0,
                            *other,
                        );
                    },
                    None => {},
                }
            }
        },
        _ => {},
    }
}

/// Compiling a program never fails for a string literal that is not laid
/// out: every literal that a statement prints, at whatever depth, was laid
/// out before the first statement was lowered.
pub proof fn law_compile_lays_out_what_it_prints(st: GenState, stmts: Seq<SpecStatement>)
    ensures
        !unlaid(st.compile(stmts)),
{
    let n = stmts.len() as int;
    lemma_collect_never_unlaid(st, stmts, n);
    if st.collect_strings(stmts, n) is Ok {
        law_collect_list_records(st, stmts, n);
        law_prefix_never_unlaid(st.collect_strings(stmts, n)->Ok_0, stmts, n);
    }
}

} // verus!
