//! What a program of the surface language means: the values of its
//! variables and the bytes it prints.

use vstd::prelude::*;
use vstd::utf8::encode_utf8;
use crate::ast::{BinaryOp, SpecExpr, SpecStatement};
use crate::lower::{defined_names, own_names};
use crate::machine::wrap;

verus! {

/// The values of the variables in scope, by name.
pub type Env = Map<Seq<char>, u8>;

/// The state of a running program: its variables and what it has printed.
pub struct Store {
    pub env: Env,
    pub out: Seq<u8>,
}

/// The value of an expression. Arithmetic is modulo 256; a name that is
/// not in scope counts as zero.
pub open spec fn eval(e: SpecExpr, env: Env) -> u8
    decreases e,
{
    match e {
        SpecExpr::Number(n) => n,
        SpecExpr::Identifier(name) => if env.dom().contains(name) {
            env[name]
        } else {
            0
        },
        SpecExpr::Binary { lhs, op, rhs } => {
            let l = eval(*lhs, env);
            let r = eval(*rhs, env);
            match op {
                BinaryOp::Add => wrap(l + r),
                BinaryOp::Sub => wrap(l - r),
                BinaryOp::Mul => wrap(l * r),
                _ => 0,
            }
        },
        _ => 0,
    }
}

/// The store without the variables `names`.
pub open spec fn forget(w: Store, names: Seq<Seq<char>>) -> Store
    decreases names.len(),
{
    if names.len() == 0 {
        w
    } else {
        forget(Store { env: w.env.remove(names.last()), ..w }, names.drop_last())
    }
}

/// The store after a statement ran. A definition brings its variable into
/// scope with value zero before its initializer is evaluated; a block and
/// a branch of an `if` take the variables they defined out of scope again;
/// a condition counts as true when it is not zero.
pub open spec fn exec(s: SpecStatement, w: Store) -> Store
    decreases s, 0int,
{
    match s {
        SpecStatement::VariableDefinition { name, initializer } => match initializer {
            None => Store { env: w.env.insert(name, 0), ..w },
            Some(e) => Store { env: w.env.insert(name, eval(e, w.env.insert(name, 0))), ..w },
        },
        SpecStatement::Assignment { name, value } => Store {
            env: w.env.insert(name, eval(value, w.env)),
            ..w
        },
        SpecStatement::Print(SpecExpr::String(text)) => Store {
            out: w.out + encode_utf8(text),
            ..w
        },
        SpecStatement::Block(stmts) => forget(
            exec_list(stmts, stmts.len() as int, w),
            defined_names(stmts),
        ),
        SpecStatement::If { condition, then_branch, else_branch } => {
            if eval(condition, w.env) != 0 {
                exec_scoped(*then_branch, w)
            } else {
                match else_branch {
                    Some(other) => exec_scoped(*other, w),
                    None => w,
                }
            }
        },
        _ => w,
    }
}

/// The store after a statement ran as a scope of its own.
pub open spec fn exec_scoped(s: SpecStatement, w: Store) -> Store
    decreases s, 1int,
{
    forget(exec(s, w), own_names(s))
}

/// The store after the first `n` statements of a list ran.
pub open spec fn exec_list(stmts: Seq<SpecStatement>, n: int, w: Store) -> Store
    decreases stmts, n,
{
    if n <= 0 || n > stmts.len() {
        w
    } else {
        exec(stmts[n - 1], exec_list(stmts, n - 1, w))
    }
}

/// The expression leaves no value behind in the cells it used: wherever it
/// multiplies, the right operand is zero. (A product keeps its right
/// operand in a cell that is then given back.)
pub open spec fn calm_expr(e: SpecExpr, env: Env) -> bool
    decreases e,
{
    match e {
        SpecExpr::Binary { lhs, op, rhs } => calm_expr(*lhs, env) && calm_expr(*rhs, env) && (op
            == BinaryOp::Mul ==> eval(*rhs, env) == 0),
        _ => true,
    }
}

/// Each of the variables `names` is in scope and holds zero.
pub open spec fn zero_at(w: Store, names: Seq<Seq<char>>) -> bool {
    forall|k: int|
        0 <= k < names.len() ==> w.env.dom().contains(#[trigger] names[k]) && w.env[names[k]] == 0
}

/// The statement, run in store `w`, leaves no value behind in cells that it
/// gives back: its expressions are calm, the variables of a block hold zero
/// when the block ends, and so does a variable that the branch taken by an
/// `if` defines.
pub open spec fn calm(s: SpecStatement, w: Store) -> bool
    decreases s, 0int,
{
    match s {
        SpecStatement::VariableDefinition { name, initializer } => match initializer {
            Some(e) => calm_expr(e, w.env.insert(name, 0)),
            None => true,
        },
        SpecStatement::Assignment { value, .. } => calm_expr(value, w.env),
        SpecStatement::Block(stmts) => calm_list(stmts, stmts.len() as int, w) && zero_at(
            exec_list(stmts, stmts.len() as int, w),
            defined_names(stmts),
        ),
        SpecStatement::If { condition, then_branch, else_branch } => calm_expr(condition, w.env)
            && if eval(condition, w.env) != 0 {
            calm_scoped(*then_branch, w)
        } else {
            match else_branch {
                Some(other) => calm_scoped(*other, w),
                None => true,
            }
        },
        _ => true,
    }
}

/// The statement is calm as a scope of its own: the variable it defines
/// holds zero behind it.
pub open spec fn calm_scoped(s: SpecStatement, w: Store) -> bool
    decreases s, 1int,
{
    calm(s, w) && zero_at(exec(s, w), own_names(s))
}

/// Each of the first `n` statements of a list is calm in the store in which
/// it runs.
pub open spec fn calm_list(stmts: Seq<SpecStatement>, n: int, w: Store) -> bool
    decreases stmts, n,
{
    n <= 0 || n > stmts.len() || (calm_list(stmts, n - 1, w) && calm(
        stmts[n - 1],
        exec_list(stmts, n - 1, w),
    ))
}

/// The store in which a program starts.
pub open spec fn empty_store() -> Store {
    Store { env: Map::empty(), out: Seq::empty() }
}

/// The store after a whole program ran.
pub open spec fn exec_program(stmts: Seq<SpecStatement>) -> Store {
    exec_list(stmts, stmts.len() as int, empty_store())
}

/// No multiplication occurs in the expression.
pub open spec fn mul_free(e: SpecExpr) -> bool
    decreases e,
{
    match e {
        SpecExpr::Binary { lhs, op, rhs } => op != BinaryOp::Mul && mul_free(*lhs) && mul_free(
            *rhs,
        ),
        _ => true,
    }
}

/// A statement that is calm whatever the store: it multiplies nowhere, and
/// its blocks and branches define no variables.
pub open spec fn neat(s: SpecStatement) -> bool
    decreases s, 0int,
{
    match s {
        SpecStatement::VariableDefinition { initializer, .. } => match initializer {
            Some(e) => mul_free(e),
            None => true,
        },
        SpecStatement::Assignment { value, .. } => mul_free(value),
        SpecStatement::Block(stmts) => quiet_list(stmts, stmts.len() as int),
        SpecStatement::If { condition, then_branch, else_branch } => mul_free(condition) && quiet(
            *then_branch,
        ) && (else_branch matches Some(other) ==> quiet(*other)),
        _ => true,
    }
}

/// A neat statement that defines no variable.
pub open spec fn quiet(s: SpecStatement) -> bool
    decreases s, 1int,
{
    neat(s) && !(s is VariableDefinition)
}

/// The first `n` statements of the list are quiet.
pub open spec fn quiet_list(stmts: Seq<SpecStatement>, n: int) -> bool
    decreases stmts, n,
{
    n <= 0 || n > stmts.len() || (quiet_list(stmts, n - 1) && quiet(stmts[n - 1]))
}

/// The first `n` statements of the list are neat.
pub open spec fn neat_list(stmts: Seq<SpecStatement>, n: int) -> bool
    decreases stmts, n,
{
    n <= 0 || n > stmts.len() || (neat_list(stmts, n - 1) && neat(stmts[n - 1]))
}

/// An expression without multiplication is calm.
pub proof fn lemma_mul_free_is_calm(e: SpecExpr, env: Env)
    requires
        mul_free(e),
    ensures
        calm_expr(e, env),
    decreases e,
{
    match e {
        SpecExpr::Binary { lhs, op, rhs } => {
            lemma_mul_free_is_calm(*lhs, env);
            lemma_mul_free_is_calm(*rhs, env);
        },
        _ => {},
    }
}

/// A neat statement is calm in every store.
pub proof fn law_neat_is_calm(s: SpecStatement, w: Store)
    requires
        neat(s),
    ensures
        calm(s, w),
        quiet(s) ==> calm_scoped(s, w),
    decreases s, 0int,
{
    match s {
        SpecStatement::VariableDefinition { name, initializer } => {
            match initializer {
                Some(e) => {
                    lemma_mul_free_is_calm(e, w.env.insert(name, 0));
                },
                None => {},
            }
        },
        SpecStatement::Assignment { value, .. } => {
            lemma_mul_free_is_calm(value, w.env);
        },
        SpecStatement::Block(stmts) => {
            law_quiet_list_is_calm(stmts, stmts.len() as int, w);
            assert(stmts.take(stmts.len() as int) =~= stmts);
        },
        SpecStatement::If { condition, then_branch, else_branch } => {
            lemma_mul_free_is_calm(condition, w.env);
            law_neat_is_calm(*then_branch, w);
            match else_branch {
                Some(other) => {
                    law_neat_is_calm(*other, w);
                },
                None => {},
            }
        },
        _ => {},
    }
}

/// A list of quiet statements is calm in every store and defines no
/// variable.
pub proof fn law_quiet_list_is_calm(stmts: Seq<SpecStatement>, n: int, w: Store)
    requires
        0 <= n <= stmts.len(),
        quiet_list(stmts, n),
    ensures
        calm_list(stmts, n, w),
        defined_names(stmts.take(n)).len() == 0,
    decreases stmts, n,
{
    if n == 0 {
        assert(stmts.take(0) =~= Seq::<SpecStatement>::empty());
    } else {
        law_quiet_list_is_calm(stmts, n - 1, w);
        assert(quiet(stmts[n - 1]));
        law_neat_is_calm(stmts[n - 1], exec_list(stmts, n - 1, w));
        assert(stmts.take(n).drop_last() =~= stmts.take(n - 1));
        assert(stmts.take(n).last() == stmts[n - 1]);
    }
}

/// A list of neat statements is calm in every store.
pub proof fn law_neat_list_is_calm(stmts: Seq<SpecStatement>, n: int, w: Store)
    requires
        0 <= n <= stmts.len(),
        neat_list(stmts, n),
    ensures
        calm_list(stmts, n, w),
    decreases stmts, n,
{
    if n > 0 {
        law_neat_list_is_calm(stmts, n - 1, w);
        law_neat_is_calm(stmts[n - 1], exec_list(stmts, n - 1, w));
    }
}

} // verus!
