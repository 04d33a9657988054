//! The grammar of the surface language, as a function from token sequences
//! to syntax trees or diagnostics.

use vstd::prelude::*;
use crate::ast::{BinaryOp, SpecExpr, SpecStatement, UnaryOp};
use crate::tokenizer::{is_binary_op, token_debug, SpecToken};

verus! {

/// What a parsing step yields: a value or a diagnostic, and the position at
/// which the parser stands afterwards.
pub struct Parsed<T> {
    pub result: Result<T, Seq<char>>,
    pub pos: int,
}

/// A step that yielded `value` and left the parser at `pos`.
pub open spec fn done<T>(value: T, pos: int) -> Parsed<T> {
    Parsed { result: Ok(value), pos }
}

/// A step that failed with `message` and left the parser at `pos`.
pub open spec fn failed<T>(message: Seq<char>, pos: int) -> Parsed<T> {
    Parsed { result: Err(message), pos }
}

/// The token at `pos`; the end-of-input token behind the last token.
pub open spec fn peek_at(tokens: Seq<SpecToken>, pos: int) -> SpecToken {
    if 0 <= pos < tokens.len() {
        tokens[pos]
    } else {
        SpecToken::Eof
    }
}

/// The position behind the token at `pos`; `pos` itself behind the last
/// token.
pub open spec fn advance(tokens: Seq<SpecToken>, pos: int) -> int {
    if 0 <= pos < tokens.len() {
        pos + 1
    } else {
        pos
    }
}

/// Whether the parser has reached the end-of-input token or the end of the
/// tokens.
pub open spec fn at_end(tokens: Seq<SpecToken>, pos: int) -> bool {
    peek_at(tokens, pos) is Eof || pos >= tokens.len()
}

/// `p`, which lies behind `pos` wherever the grammar uses this function
/// (`lemma_expression_moves` and `lemma_statement_moves` show that it does).
pub open spec fn forward(pos: int, p: int) -> int {
    if p > pos {
        p
    } else {
        pos + 1
    }
}

/// The diagnostic for a token that is not the one wanted.
pub open spec fn msg_expected(wanted: SpecToken, found: SpecToken) -> Seq<char> {
    "Expected "@ + token_debug(wanted) + ", found "@ + token_debug(found)
}

/// The diagnostic for a token that starts no statement.
pub open spec fn msg_expected_statement(found: SpecToken) -> Seq<char> {
    "Expected statement, found "@ + token_debug(found)
}

/// The diagnostic for a token that starts no expression.
pub open spec fn msg_expected_expression() -> Seq<char> {
    "Expected expression"@
}

/// The diagnostic for a missing variable name.
pub open spec fn msg_expected_variable() -> Seq<char> {
    "Expected variable name"@
}

/// The diagnostic for a missing function name.
pub open spec fn msg_expected_function() -> Seq<char> {
    "Expected function name"@
}

/// The diagnostic for a missing parameter name.
pub open spec fn msg_expected_parameter() -> Seq<char> {
    "Expected parameter name"@
}

/// Takes the token `wanted`, or fails without moving.
pub open spec fn expect_at(tokens: Seq<SpecToken>, pos: int, wanted: SpecToken) -> Parsed<
    SpecToken,
> {
    if peek_at(tokens, pos) == wanted {
        done(wanted, advance(tokens, pos))
    } else {
        failed(msg_expected(wanted, peek_at(tokens, pos)), pos)
    }
}

/// The operator that a binary-operator token denotes.
pub open spec fn binary_op_of(t: SpecToken) -> BinaryOp {
    match t {
        SpecToken::Plus => BinaryOp::Add,
        SpecToken::Minus => BinaryOp::Sub,
        SpecToken::Star => BinaryOp::Mul,
        SpecToken::Slash => BinaryOp::Div,
        SpecToken::Percent => BinaryOp::Mod,
        SpecToken::EqualEqual => BinaryOp::Eq,
        SpecToken::NotEqual => BinaryOp::Neq,
        SpecToken::Less => BinaryOp::Lt,
        SpecToken::LessEqual => BinaryOp::Leq,
        SpecToken::Greater => BinaryOp::Gt,
        SpecToken::GreaterEqual => BinaryOp::Geq,
        SpecToken::And => BinaryOp::And,
        _ => BinaryOp::Or,
    }
}

/// The operator that a unary-operator token denotes.
pub open spec fn unary_op_of(t: SpecToken) -> UnaryOp {
    match t {
        SpecToken::Minus => UnaryOp::Neg,
        _ => UnaryOp::Not,
    }
}

/// The operand that starts at `pos`: a literal, a name, a call, an
/// expression in parentheses, or a unary operator and its expression.
pub open spec fn parse_operand(tokens: Seq<SpecToken>, pos: int) -> Parsed<SpecExpr>
    decreases tokens.len() - pos, 2int,
{
    let next = pos + 1;
    if pos < 0 || pos >= tokens.len() {
        failed(msg_expected_expression(), pos)
    } else {
        match tokens[pos] {
            SpecToken::Number(n) => done(SpecExpr::Number(n), next),
            SpecToken::String(s) => done(SpecExpr::String(s), next),
            SpecToken::Identifier(name) => if peek_at(tokens, next) is LeftParen {
                if peek_at(tokens, next + 1) is RightParen {
                    done(
                        SpecExpr::Call {
                            callee: Box::new(SpecExpr::Identifier(name)),
                            args: Seq::empty(),
                        },
                        next + 2,
                    )
                } else {
                    let args = parse_args(tokens, next + 1, Seq::empty());
                    match args.result {
                        Err(m) => failed(m, args.pos),
                        Ok(list) => {
                            let close = expect_at(tokens, args.pos, SpecToken::RightParen);
                            match close.result {
                                Err(m) => failed(m, close.pos),
                                Ok(_) => done(
                                    SpecExpr::Call {
                                        callee: Box::new(SpecExpr::Identifier(name)),
                                        args: list,
                                    },
                                    close.pos,
                                ),
                            }
                        },
                    }
                }
            } else {
                done(SpecExpr::Identifier(name), next)
            },
            SpecToken::LeftParen => {
                let inner = parse_expression(tokens, next);
                match inner.result {
                    Err(m) => failed(m, inner.pos),
                    Ok(e) => {
                        let close = expect_at(tokens, inner.pos, SpecToken::RightParen);
                        match close.result {
                            Err(m) => failed(m, close.pos),
                            Ok(_) => done(e, close.pos),
                        }
                    },
                }
            },
            SpecToken::Minus => {
                let inner = parse_expression(tokens, next);
                match inner.result {
                    Err(m) => failed(m, inner.pos),
                    Ok(e) => done(
                        SpecExpr::Unary { op: UnaryOp::Neg, rhs: Box::new(e) },
                        inner.pos,
                    ),
                }
            },
            SpecToken::Not => {
                let inner = parse_expression(tokens, next);
                match inner.result {
                    Err(m) => failed(m, inner.pos),
                    Ok(e) => done(
                        SpecExpr::Unary { op: UnaryOp::Not, rhs: Box::new(e) },
                        inner.pos,
                    ),
                }
            },
            _ => failed(msg_expected_expression(), next),
        }
    }
}

/// An expression that starts at `pos`: an operand and, if a binary operator
/// follows it, that operator and the expression behind it.
pub open spec fn parse_expression(tokens: Seq<SpecToken>, pos: int) -> Parsed<SpecExpr>
    decreases tokens.len() - pos, 3int,
{
    let operand = parse_operand(tokens, pos);
    match operand.result {
        Err(m) => failed(m, operand.pos),
        Ok(e) => parse_binary(tokens, pos, e, operand.pos),
    }
}

/// The expression whose left operand `lhs` started at `start` and ended
/// before `p`.
pub open spec fn parse_binary(tokens: Seq<SpecToken>, start: int, lhs: SpecExpr, p: int) -> Parsed<
    SpecExpr,
>
    decreases tokens.len() - start, 1int,
{
    let at = forward(start, p);
    if start >= 0 && is_binary_op(peek_at(tokens, at)) {
        let rhs = parse_expression(tokens, at + 1);
        match rhs.result {
            Err(m) => failed(m, rhs.pos),
            Ok(e) => done(
                SpecExpr::Binary {
                    lhs: Box::new(lhs),
                    op: binary_op_of(peek_at(tokens, at)),
                    rhs: Box::new(e),
                },
                rhs.pos,
            ),
        }
    } else {
        done(lhs, p)
    }
}

/// The arguments of a call from `pos` on, behind those in `sofar`, up to
/// but not including the closing parenthesis.
pub open spec fn parse_args(tokens: Seq<SpecToken>, pos: int, sofar: Seq<SpecExpr>) -> Parsed<
    Seq<SpecExpr>,
>
    decreases tokens.len() - pos, 4int,
{
    if pos < 0 || pos >= tokens.len() {
        failed(msg_expected_expression(), pos)
    } else {
        let arg = parse_expression(tokens, pos);
        match arg.result {
            Err(m) => failed(m, arg.pos),
            Ok(e) => {
                let at = forward(pos, arg.pos);
                if peek_at(tokens, at) is RightParen {
                    done(sofar.push(e), arg.pos)
                } else {
                    let comma = expect_at(tokens, at, SpecToken::Comma);
                    match comma.result {
                        Err(m) => failed(m, comma.pos),
                        Ok(_) => parse_args(tokens, comma.pos, sofar.push(e)),
                    }
                }
            },
        }
    }
}

/// Where an operand ends: behind its start and inside the tokens.
#[verifier::rlimit(30)]
pub proof fn lemma_operand_moves(tokens: Seq<SpecToken>, pos: int)
    requires
        0 <= pos <= tokens.len(),
    ensures
        pos <= parse_operand(tokens, pos).pos <= tokens.len(),
        parse_operand(tokens, pos).result is Ok ==> pos < parse_operand(tokens, pos).pos,
    decreases tokens.len() - pos, 2int,
{
    let next = pos + 1;
    if pos < tokens.len() {
        match tokens[pos] {
            SpecToken::Identifier(name) => {
                if peek_at(tokens, next) is LeftParen && !(peek_at(tokens, next + 1) is RightParen) {
                    lemma_args_moves(tokens, next + 1, Seq::empty());
                }
            },
            SpecToken::LeftParen => {
                lemma_expression_moves(tokens, next);
            },
            SpecToken::Minus => {
                lemma_expression_moves(tokens, next);
            },
            SpecToken::Not => {
                lemma_expression_moves(tokens, next);
            },
            _ => {},
        }
    }
}

/// Where an expression ends: behind its start, inside the tokens, and, when
/// it was parsed, before a token that is no binary operator.
pub proof fn lemma_expression_moves(tokens: Seq<SpecToken>, pos: int)
    requires
        0 <= pos <= tokens.len(),
    ensures
        pos <= parse_expression(tokens, pos).pos <= tokens.len(),
        parse_expression(tokens, pos).result is Ok ==> pos < parse_expression(tokens, pos).pos
            && !is_binary_op(peek_at(tokens, parse_expression(tokens, pos).pos)),
    decreases tokens.len() - pos, 3int,
{
    lemma_operand_moves(tokens, pos);
    let operand = parse_operand(tokens, pos);
    if operand.result is Ok {
        lemma_binary_moves(tokens, pos, operand.result->Ok_0, operand.pos);
    }
}

/// Where the expression behind a left operand ends.
pub proof fn lemma_binary_moves(tokens: Seq<SpecToken>, start: int, lhs: SpecExpr, p: int)
    requires
        0 <= start < p <= tokens.len(),
    ensures
        p <= parse_binary(tokens, start, lhs, p).pos <= tokens.len(),
        parse_binary(tokens, start, lhs, p).result is Ok ==> !is_binary_op(
            peek_at(tokens, parse_binary(tokens, start, lhs, p).pos),
        ),
    decreases tokens.len() - start, 1int,
{
    if is_binary_op(peek_at(tokens, p)) {
        lemma_expression_moves(tokens, p + 1);
    }
}

/// Where an argument list ends: before the closing parenthesis.
pub proof fn lemma_args_moves(tokens: Seq<SpecToken>, pos: int, sofar: Seq<SpecExpr>)
    requires
        0 <= pos <= tokens.len(),
    ensures
        pos <= parse_args(tokens, pos, sofar).pos <= tokens.len(),
        parse_args(tokens, pos, sofar).result is Ok ==> pos < parse_args(tokens, pos, sofar).pos
            && peek_at(tokens, parse_args(tokens, pos, sofar).pos) is RightParen,
    decreases tokens.len() - pos, 4int,
{
    if pos < tokens.len() {
        lemma_expression_moves(tokens, pos);
        let arg = parse_expression(tokens, pos);
        if arg.result is Ok {
            if !(peek_at(tokens, arg.pos) is RightParen) {
                let comma = expect_at(tokens, arg.pos, SpecToken::Comma);
                if comma.result is Ok {
                    lemma_args_moves(tokens, comma.pos, sofar.push(arg.result->Ok_0));
                }
            }
        }
    }
}

/// Tokens left from `pos` on.
pub open spec fn room(tokens: Seq<SpecToken>, pos: int) -> nat {
    if 0 <= pos < tokens.len() {
        (tokens.len() - pos) as nat
    } else {
        0
    }
}

/// The name of an identifier token.
pub open spec fn name_of(t: SpecToken) -> Seq<char> {
    match t {
        SpecToken::Identifier(name) => name,
        _ => Seq::empty(),
    }
}

/// `let` name, optionally `=` and an expression, `;`.
pub open spec fn parse_variable_definition(tokens: Seq<SpecToken>, pos: int) -> Parsed<
    SpecStatement,
> {
    let head = expect_at(tokens, pos, SpecToken::Let);
    let name = peek_at(tokens, head.pos);
    let after = advance(tokens, head.pos);
    if head.result is Err {
        failed(head.result->Err_0, head.pos)
    } else if !(name is Identifier) {
        failed(msg_expected_variable(), after)
    } else if peek_at(tokens, after) is Equal {
        let init = parse_expression(tokens, after + 1);
        let semi = expect_at(tokens, init.pos, SpecToken::Semicolon);
        if init.result is Err {
            failed(init.result->Err_0, init.pos)
        } else if semi.result is Err {
            failed(semi.result->Err_0, semi.pos)
        } else {
            done(
                SpecStatement::VariableDefinition {
                    name: name_of(name),
                    initializer: Some(init.result->Ok_0),
                },
                semi.pos,
            )
        }
    } else {
        let semi = expect_at(tokens, after, SpecToken::Semicolon);
        if semi.result is Err {
            failed(semi.result->Err_0, semi.pos)
        } else {
            done(
                SpecStatement::VariableDefinition { name: name_of(name), initializer: None },
                semi.pos,
            )
        }
    }
}

/// `print` `(` expression `)` `;`.
pub open spec fn parse_print(tokens: Seq<SpecToken>, pos: int) -> Parsed<SpecStatement> {
    let head = expect_at(tokens, pos, SpecToken::Print);
    let open = expect_at(tokens, head.pos, SpecToken::LeftParen);
    let value = parse_expression(tokens, open.pos);
    let close = expect_at(tokens, value.pos, SpecToken::RightParen);
    let semi = expect_at(tokens, close.pos, SpecToken::Semicolon);
    if head.result is Err {
        failed(head.result->Err_0, head.pos)
    } else if open.result is Err {
        failed(open.result->Err_0, open.pos)
    } else if value.result is Err {
        failed(value.result->Err_0, value.pos)
    } else if close.result is Err {
        failed(close.result->Err_0, close.pos)
    } else if semi.result is Err {
        failed(semi.result->Err_0, semi.pos)
    } else {
        done(SpecStatement::Print(value.result->Ok_0), semi.pos)
    }
}

/// `return`, optionally an expression, `;`.
pub open spec fn parse_return(tokens: Seq<SpecToken>, pos: int) -> Parsed<SpecStatement> {
    let head = expect_at(tokens, pos, SpecToken::Return);
    if head.result is Err {
        failed(head.result->Err_0, head.pos)
    } else if peek_at(tokens, head.pos) is Semicolon {
        done(SpecStatement::Return(None), advance(tokens, head.pos))
    } else {
        let value = parse_expression(tokens, head.pos);
        let semi = expect_at(tokens, value.pos, SpecToken::Semicolon);
        if value.result is Err {
            failed(value.result->Err_0, value.pos)
        } else if semi.result is Err {
            failed(semi.result->Err_0, semi.pos)
        } else {
            done(SpecStatement::Return(Some(value.result->Ok_0)), semi.pos)
        }
    }
}

/// Name `=` expression `;`.
pub open spec fn parse_assignment(tokens: Seq<SpecToken>, pos: int) -> Parsed<SpecStatement> {
    let name = peek_at(tokens, pos);
    let next = advance(tokens, pos);
    let eq = expect_at(tokens, next, SpecToken::Equal);
    let value = parse_expression(tokens, eq.pos);
    let semi = expect_at(tokens, value.pos, SpecToken::Semicolon);
    if !(name is Identifier) {
        failed(msg_expected_variable(), next)
    } else if eq.result is Err {
        failed(eq.result->Err_0, eq.pos)
    } else if value.result is Err {
        failed(value.result->Err_0, value.pos)
    } else if semi.result is Err {
        failed(semi.result->Err_0, semi.pos)
    } else {
        done(SpecStatement::Assignment { name: name_of(name), value: value.result->Ok_0 }, semi.pos)
    }
}

/// The parameter names of a function from `pos` on, behind those in
/// `sofar`, up to but not including the closing parenthesis.
pub open spec fn parse_params(tokens: Seq<SpecToken>, pos: int, sofar: Seq<Seq<char>>) -> Parsed<
    Seq<Seq<char>>,
>
    decreases room(tokens, pos),
{
    let name = peek_at(tokens, pos);
    let next = advance(tokens, pos);
    if !(name is Identifier) {
        failed(msg_expected_parameter(), next)
    } else if peek_at(tokens, next) is RightParen {
        done(sofar.push(name_of(name)), next)
    } else {
        let comma = expect_at(tokens, next, SpecToken::Comma);
        if comma.result is Err {
            failed(comma.result->Err_0, comma.pos)
        } else {
            parse_params(tokens, comma.pos, sofar.push(name_of(name)))
        }
    }
}

/// One statement that starts at `pos`.
pub open spec fn parse_statement(tokens: Seq<SpecToken>, pos: int) -> Parsed<SpecStatement>
    decreases room(tokens, pos), 5int,
{
    match peek_at(tokens, pos) {
        SpecToken::Let => parse_variable_definition(tokens, pos),
        SpecToken::Print => parse_print(tokens, pos),
        SpecToken::Return => parse_return(tokens, pos),
        SpecToken::LeftBrace => parse_block(tokens, pos),
        SpecToken::If => parse_if(tokens, pos),
        SpecToken::While => parse_while(tokens, pos),
        SpecToken::Identifier(_) => parse_assignment(tokens, pos),
        SpecToken::Function => parse_function(tokens, pos),
        other => failed(msg_expected_statement(other), advance(tokens, pos)),
    }
}

/// The statements of a block from `pos` on, behind those in `sofar`, up to
/// the closing brace or the end of input. A statement that fails to parse
/// is left out.
pub open spec fn block_items(tokens: Seq<SpecToken>, pos: int, sofar: Seq<SpecStatement>) -> Parsed<
    Seq<SpecStatement>,
>
    decreases room(tokens, pos), 6int,
{
    if peek_at(tokens, pos) is RightBrace || at_end(tokens, pos) || pos < 0 {
        done(sofar, pos)
    } else {
        let item = parse_statement(tokens, pos);
        block_items(
            tokens,
            forward(pos, item.pos),
            match item.result {
                Ok(s) => sofar.push(s),
                Err(_) => sofar,
            },
        )
    }
}

/// `{` statements `}`.
pub open spec fn parse_block(tokens: Seq<SpecToken>, pos: int) -> Parsed<SpecStatement>
    decreases room(tokens, pos), 4int,
{
    let open = expect_at(tokens, pos, SpecToken::LeftBrace);
    if open.result is Err {
        failed(open.result->Err_0, open.pos)
    } else {
        let items = block_items(tokens, open.pos, Seq::empty());
        let close = expect_at(tokens, items.pos, SpecToken::RightBrace);
        if close.result is Err {
            failed(close.result->Err_0, close.pos)
        } else {
            done(SpecStatement::Block(items.result->Ok_0), close.pos)
        }
    }
}

/// `if` expression statement, optionally `else` statement.
pub open spec fn parse_if(tokens: Seq<SpecToken>, pos: int) -> Parsed<SpecStatement>
    decreases room(tokens, pos), 4int,
{
    let head = expect_at(tokens, pos, SpecToken::If);
    if head.result is Err {
        failed(head.result->Err_0, head.pos)
    } else {
        let condition = parse_expression(tokens, head.pos);
        if condition.result is Err {
            failed(condition.result->Err_0, condition.pos)
        } else {
            proof {
                lemma_expression_moves(tokens, head.pos);
            }
            let then_branch = parse_statement(tokens, condition.pos);
            let at = forward(pos, then_branch.pos);
            if then_branch.result is Err {
                failed(then_branch.result->Err_0, then_branch.pos)
            } else if peek_at(tokens, at) is Else {
                let else_branch = parse_statement(tokens, at + 1);
                if else_branch.result is Err {
                    failed(else_branch.result->Err_0, else_branch.pos)
                } else {
                    done(
                        SpecStatement::If {
                            condition: condition.result->Ok_0,
                            then_branch: Box::new(then_branch.result->Ok_0),
                            else_branch: Some(Box::new(else_branch.result->Ok_0)),
                        },
                        else_branch.pos,
                    )
                }
            } else {
                done(
                    SpecStatement::If {
                        condition: condition.result->Ok_0,
                        then_branch: Box::new(then_branch.result->Ok_0),
                        else_branch: None,
                    },
                    then_branch.pos,
                )
            }
        }
    }
}

/// `while` expression statement.
pub open spec fn parse_while(tokens: Seq<SpecToken>, pos: int) -> Parsed<SpecStatement>
    decreases room(tokens, pos), 4int,
{
    let head = expect_at(tokens, pos, SpecToken::While);
    if head.result is Err {
        failed(head.result->Err_0, head.pos)
    } else {
        let condition = parse_expression(tokens, head.pos);
        if condition.result is Err {
            failed(condition.result->Err_0, condition.pos)
        } else {
            proof {
                lemma_expression_moves(tokens, head.pos);
            }
            let body = parse_statement(tokens, condition.pos);
            if body.result is Err {
                failed(body.result->Err_0, body.pos)
            } else {
                done(
                    SpecStatement::While {
                        condition: condition.result->Ok_0,
                        body: Box::new(body.result->Ok_0),
                    },
                    body.pos,
                )
            }
        }
    }
}

/// `fn` name `(` parameters `)` `{` block.
pub open spec fn parse_function(tokens: Seq<SpecToken>, pos: int) -> Parsed<SpecStatement>
    decreases room(tokens, pos), 4int,
{
    let head = expect_at(tokens, pos, SpecToken::Function);
    let name = peek_at(tokens, head.pos);
    let after = advance(tokens, head.pos);
    let open = expect_at(tokens, after, SpecToken::LeftParen);
    if head.result is Err {
        failed(head.result->Err_0, head.pos)
    } else if !(name is Identifier) {
        failed(msg_expected_function(), after)
    } else if open.result is Err {
        failed(open.result->Err_0, open.pos)
    } else {
        let params = if peek_at(tokens, open.pos) is RightParen {
            done(Seq::empty(), open.pos)
        } else {
            parse_params(tokens, open.pos, Seq::empty())
        };
        let close = expect_at(tokens, params.pos, SpecToken::RightParen);
        let brace = expect_at(tokens, close.pos, SpecToken::LeftBrace);
        if params.result is Err {
            failed(params.result->Err_0, params.pos)
        } else if close.result is Err {
            failed(close.result->Err_0, close.pos)
        } else if brace.result is Err {
            failed(brace.result->Err_0, brace.pos)
        } else {
            let body = parse_block(tokens, forward(pos, brace.pos));
            if body.result is Err {
                failed(body.result->Err_0, body.pos)
            } else {
                done(
                    SpecStatement::FunctionDefinition {
                        name: name_of(name),
                        params: params.result->Ok_0,
                        body: Box::new(body.result->Ok_0),
                    },
                    body.pos,
                )
            }
        }
    }
}

/// Where parameters end.
pub proof fn lemma_params_move(tokens: Seq<SpecToken>, pos: int, sofar: Seq<Seq<char>>)
    requires
        0 <= pos <= tokens.len(),
    ensures
        pos <= parse_params(tokens, pos, sofar).pos <= tokens.len(),
    decreases room(tokens, pos),
{
    let name = peek_at(tokens, pos);
    let next = advance(tokens, pos);
    if name is Identifier && !(peek_at(tokens, next) is RightParen) {
        let comma = expect_at(tokens, next, SpecToken::Comma);
        if comma.result is Ok {
            lemma_params_move(tokens, comma.pos, sofar.push(name_of(name)));
        }
    }
}

/// Where a statement ends: inside the tokens and, unless it started behind
/// the last token, behind its start. A statement that was parsed ends
/// behind its start.
#[verifier::rlimit(30)]
pub proof fn lemma_statement_moves(tokens: Seq<SpecToken>, pos: int)
    requires
        0 <= pos <= tokens.len(),
    ensures
        pos <= parse_statement(tokens, pos).pos <= tokens.len(),
        pos < tokens.len() ==> pos < parse_statement(tokens, pos).pos,
    decreases room(tokens, pos), 5int,
{
    match peek_at(tokens, pos) {
        SpecToken::Let => {
            lemma_expression_moves(tokens, pos + 1);
            if pos + 3 <= tokens.len() {
                lemma_expression_moves(tokens, pos + 3);
            }
        },
        SpecToken::Print => {
            let open = expect_at(tokens, pos + 1, SpecToken::LeftParen);
            lemma_expression_moves(tokens, open.pos);
        },
        SpecToken::Return => {
            lemma_expression_moves(tokens, pos + 1);
        },
        SpecToken::LeftBrace => {
            lemma_block_moves(tokens, pos);
        },
        SpecToken::If => {
            lemma_if_moves(tokens, pos);
        },
        SpecToken::While => {
            lemma_while_moves(tokens, pos);
        },
        SpecToken::Identifier(_) => {
            let eq = expect_at(tokens, pos + 1, SpecToken::Equal);
            lemma_expression_moves(tokens, eq.pos);
        },
        SpecToken::Function => {
            lemma_function_moves(tokens, pos);
        },
        _ => {},
    }
}

/// Where the statements of a block end.
pub proof fn lemma_items_move(tokens: Seq<SpecToken>, pos: int, sofar: Seq<SpecStatement>)
    requires
        0 <= pos <= tokens.len(),
    ensures
        pos <= block_items(tokens, pos, sofar).pos <= tokens.len(),
        block_items(tokens, pos, sofar).result is Ok,
    decreases room(tokens, pos), 6int,
{
    if !(peek_at(tokens, pos) is RightBrace || at_end(tokens, pos)) {
        lemma_statement_moves(tokens, pos);
        let item = parse_statement(tokens, pos);
        lemma_items_move(
            tokens,
            item.pos,
            match item.result {
                Ok(s) => sofar.push(s),
                Err(_) => sofar,
            },
        );
    }
}

/// Where a block ends.
pub proof fn lemma_block_moves(tokens: Seq<SpecToken>, pos: int)
    requires
        0 <= pos <= tokens.len(),
    ensures
        pos <= parse_block(tokens, pos).pos <= tokens.len(),
        peek_at(tokens, pos) is LeftBrace ==> pos < parse_block(tokens, pos).pos,
    decreases room(tokens, pos), 4int,
{
    if peek_at(tokens, pos) is LeftBrace {
        lemma_items_move(tokens, pos + 1, Seq::empty());
    }
}

/// Where an `if` ends.
pub proof fn lemma_if_moves(tokens: Seq<SpecToken>, pos: int)
    requires
        0 <= pos <= tokens.len(),
    ensures
        pos <= parse_if(tokens, pos).pos <= tokens.len(),
        peek_at(tokens, pos) is If ==> pos < parse_if(tokens, pos).pos,
    decreases room(tokens, pos), 4int,
{
    if peek_at(tokens, pos) is If {
        lemma_expression_moves(tokens, pos + 1);
        let condition = parse_expression(tokens, pos + 1);
        if condition.result is Ok {
            lemma_statement_moves(tokens, condition.pos);
            let then_branch = parse_statement(tokens, condition.pos);
            if then_branch.result is Ok && peek_at(tokens, then_branch.pos) is Else {
                lemma_statement_moves(tokens, then_branch.pos + 1);
            }
        }
    }
}

/// Where a `while` ends.
pub proof fn lemma_while_moves(tokens: Seq<SpecToken>, pos: int)
    requires
        0 <= pos <= tokens.len(),
    ensures
        pos <= parse_while(tokens, pos).pos <= tokens.len(),
        peek_at(tokens, pos) is While ==> pos < parse_while(tokens, pos).pos,
    decreases room(tokens, pos), 4int,
{
    if peek_at(tokens, pos) is While {
        lemma_expression_moves(tokens, pos + 1);
        let condition = parse_expression(tokens, pos + 1);
        if condition.result is Ok {
            lemma_statement_moves(tokens, condition.pos);
        }
    }
}

/// Where a function definition ends.
#[verifier::rlimit(30)]
pub proof fn lemma_function_moves(tokens: Seq<SpecToken>, pos: int)
    requires
        0 <= pos <= tokens.len(),
    ensures
        pos <= parse_function(tokens, pos).pos <= tokens.len(),
        peek_at(tokens, pos) is Function ==> pos < parse_function(tokens, pos).pos,
    decreases room(tokens, pos), 4int,
{
    if peek_at(tokens, pos) is Function {
        let after = advance(tokens, pos + 1);
        let open = expect_at(tokens, after, SpecToken::LeftParen);
        if peek_at(tokens, pos + 1) is Identifier && open.result is Ok {
            if !(peek_at(tokens, open.pos) is RightParen) {
                lemma_params_move(tokens, open.pos, Seq::empty());
            }
            let params = if peek_at(tokens, open.pos) is RightParen {
                done(Seq::empty(), open.pos)
            } else {
                parse_params(tokens, open.pos, Seq::empty())
            };
            let close = expect_at(tokens, params.pos, SpecToken::RightParen);
            let brace = expect_at(tokens, close.pos, SpecToken::LeftBrace);
            if params.result is Ok && close.result is Ok && brace.result is Ok {
                lemma_block_moves(tokens, brace.pos);
            }
        }
    }
}

/// The statements and diagnostics of a program from `pos` on, behind those
/// gathered so far.
pub open spec fn program_items(
    tokens: Seq<SpecToken>,
    pos: int,
    stmts: Seq<SpecStatement>,
    errors: Seq<Seq<char>>,
) -> (Seq<SpecStatement>, Seq<Seq<char>>)
    decreases room(tokens, pos),
{
    if at_end(tokens, pos) || pos < 0 {
        (stmts, errors)
    } else {
        proof {
            lemma_statement_moves(tokens, pos);
        }
        let item = parse_statement(tokens, pos);
        match item.result {
            Ok(s) => program_items(tokens, item.pos, stmts.push(s), errors),
            Err(e) => program_items(tokens, item.pos, stmts, errors.push(e)),
        }
    }
}

/// The diagnostics, one per line.
pub open spec fn join_lines(errors: Seq<Seq<char>>) -> Seq<char>
    decreases errors.len(),
{
    if errors.len() == 0 {
        Seq::empty()
    } else if errors.len() == 1 {
        errors[0]
    } else {
        join_lines(errors.drop_last()) + seq!['\n'] + errors.last()
    }
}

/// The tokens without the comments.
pub open spec fn without_comments(tokens: Seq<SpecToken>) -> Seq<SpecToken>
    decreases tokens.len(),
{
    if tokens.len() == 0 {
        Seq::empty()
    } else if tokens.last() is Comment {
        without_comments(tokens.drop_last())
    } else {
        without_comments(tokens.drop_last()).push(tokens.last())
    }
}

/// The program that a token sequence denotes, or the diagnostics of all the
/// statements outside blocks that failed to parse.
pub open spec fn spec_parse(tokens: Seq<SpecToken>) -> Result<Seq<SpecStatement>, Seq<char>> {
    let found = program_items(without_comments(tokens), 0, Seq::empty(), Seq::empty());
    if found.1.len() == 0 {
        Ok(found.0)
    } else {
        Err(join_lines(found.1))
    }
}

} // verus!
