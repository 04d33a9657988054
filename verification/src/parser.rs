//! Syntactic analysis: from tokens to the syntax tree.

use vstd::prelude::*;
use vstd::string::*;
use crate::ast::{
    exprs_view, names_view, statements_view, BinaryOp, Expr, Program, SpecExpr, SpecStatement,
    Statement, UnaryOp,
};
use crate::grammar::{
    advance, at_end, binary_op_of, block_items, expect_at, join_lines, lemma_expression_moves,
    lemma_operand_moves, lemma_params_move, parse_operand, lemma_statement_moves, parse_args,
    parse_assignment, parse_block, parse_expression, parse_function, parse_if, parse_params,
    parse_print, parse_return, parse_statement, parse_variable_definition, parse_while, peek_at,
    program_items, spec_parse, unary_op_of, without_comments, Parsed,
};
use crate::text::owned;
use crate::tokenizer::{debug_text, is_binary_op, tokens_view, SpecToken, Token};

verus! {

impl BinaryOp {
    /// The operator that a binary-operator token denotes.
    pub fn from_token(token: &Token) -> (op: BinaryOp)
        requires
            is_binary_op(token@),
        ensures
            op == binary_op_of(token@),
    {
        match token {
            Token::Plus => BinaryOp::Add,
            Token::Minus => BinaryOp::Sub,
            Token::Star => BinaryOp::Mul,
            Token::Slash => BinaryOp::Div,
            Token::Percent => BinaryOp::Mod,
            Token::EqualEqual => BinaryOp::Eq,
            Token::NotEqual => BinaryOp::Neq,
            Token::Less => BinaryOp::Lt,
            Token::LessEqual => BinaryOp::Leq,
            Token::Greater => BinaryOp::Gt,
            Token::GreaterEqual => BinaryOp::Geq,
            Token::And => BinaryOp::And,
            _ => BinaryOp::Or,
        }
    }
}

impl UnaryOp {
    /// The operator that a unary-operator token denotes.
    pub fn from_token(token: &Token) -> (op: UnaryOp)
        requires
            token@ is Minus || token@ is Not,
        ensures
            op == unary_op_of(token@),
    {
        match token {
            Token::Minus => UnaryOp::Neg,
            _ => UnaryOp::Not,
        }
    }
}

/// The outcome `r` of a parsing step that left the parser at `pos` is the
/// one that `expected` names.
pub open spec fn expr_parsed(r: Result<Expr, String>, pos: int, expected: Parsed<SpecExpr>) -> bool {
    &&& pos == expected.pos
    &&& match r {
        Ok(e) => expected.result == Ok::<SpecExpr, Seq<char>>(e@),
        Err(m) => expected.result == Err::<SpecExpr, Seq<char>>(m@),
    }
}

/// The outcome `r` of a parsing step that left the parser at `pos` is the
/// one that `expected` names.
pub open spec fn stmt_parsed(r: Result<Statement, String>, pos: int, expected: Parsed<
    SpecStatement,
>) -> bool {
    &&& pos == expected.pos
    &&& match r {
        Ok(s) => expected.result == Ok::<SpecStatement, Seq<char>>(s@),
        Err(m) => expected.result == Err::<SpecStatement, Seq<char>>(m@),
    }
}

/// A recursive-descent parser over a token list without comments.
pub struct Parser {
    tokens: Vec<Token>,
    current: usize,
}

impl Parser {
    /// The tokens as plain data.
    pub closed spec fn toks(&self) -> Seq<SpecToken> {
        tokens_view(self.tokens@)
    }

    /// The position of the next token.
    pub closed spec fn pos(&self) -> int {
        self.current as int
    }

    /// The position is inside the tokens or at their end.
    pub closed spec fn wf(&self) -> bool {
        self.current <= self.tokens@.len()
    }

    /// A parser at the start of `tokens` without their comments.
    pub fn new(tokens: &[Token]) -> (p: Parser)
        ensures
            p.wf(),
            p.pos() == 0,
            p.toks() == without_comments(tokens_view(tokens@)),
    {
        let mut kept: Vec<Token> = Vec::new();
        let mut i: usize = 0;
        proof {
            assert(tokens_view(tokens@).take(0) =~= Seq::<SpecToken>::empty());
            assert(tokens_view(kept@) =~= Seq::<SpecToken>::empty());
        }
        while i < tokens.len()
            invariant
                i <= tokens.len(),
                tokens_view(kept@) == without_comments(tokens_view(tokens@).take(i as int)),
            decreases tokens.len() - i,
        {
            let ghost before = kept@;
            proof {
                let longer = tokens_view(tokens@).take(i as int + 1);
                assert(longer.drop_last() =~= tokens_view(tokens@).take(i as int));
                assert(longer.last() == tokens@[i as int]@);
            }
            if !tokens[i].is_ignorable() {
                kept.push(tokens[i].duplicate());
                proof {
                    assert(tokens_view(kept@) =~= tokens_view(before).push(tokens@[i as int]@));
                }
            }
            i += 1;
        }
        proof {
            assert(tokens_view(tokens@).take(i as int) =~= tokens_view(tokens@));
        }
        Parser { tokens: kept, current: 0 }
    }

    /// The next token; the end-of-input token behind the last one.
    pub fn peek(&self) -> (t: Token)
        requires
            self.wf(),
        ensures
            t@ == peek_at(self.toks(), self.pos()),
    {
        if self.current < self.tokens.len() {
            self.tokens[self.current].duplicate()
        } else {
            Token::Eof
        }
    }

    /// Takes the next token.
    pub fn consume(&mut self) -> (t: Token)
        requires
            old(self).wf(),
        ensures
            final(self).wf(),
            final(self).toks() == old(self).toks(),
            t@ == peek_at(old(self).toks(), old(self).pos()),
            final(self).pos() == advance(old(self).toks(), old(self).pos()),
    {
        let token = self.peek();
        if self.current < self.tokens.len() {
            self.current += 1;
        }
        token
    }

    /// Whether the next token ends the input.
    pub fn is_at_end(&self) -> (b: bool)
        requires
            self.wf(),
        ensures
            b == at_end(self.toks(), self.pos()),
    {
        self.peek() == Token::Eof || self.current >= self.tokens.len()
    }

    /// Takes the next token if it is `token`, and fails without moving if it
    /// is not.
    pub fn expect(&mut self, token: Token) -> (r: Result<Token, String>)
        requires
            old(self).wf(),
        ensures
            final(self).wf(),
            final(self).toks() == old(self).toks(),
            final(self).pos() == expect_at(old(self).toks(), old(self).pos(), token@).pos,
            match r {
                Ok(t) => expect_at(old(self).toks(), old(self).pos(), token@).result == Ok::<
                    SpecToken,
                    Seq<char>,
                >(t@),
                Err(m) => expect_at(old(self).toks(), old(self).pos(), token@).result == Err::<
                    SpecToken,
                    Seq<char>,
                >(m@),
            },
    {
        let found = self.peek();
        if found == token {
            Ok(self.consume())
        } else {
            let mut message = "Expected ".to_owned();
            message.append(debug_text(&token).as_str());
            message.append(", found ");
            message.append(debug_text(&found).as_str());
            Err(message)
        }
    }

    /// The arguments of a call, up to but not including the closing
    /// parenthesis.
    #[verifier::rlimit(30)]
    fn arguments(&mut self) -> (r: Result<Vec<Expr>, String>)
        requires
            old(self).wf(),
        ensures
            final(self).wf(),
            final(self).toks() == old(self).toks(),
            final(self).pos() == parse_args(old(self).toks(), old(self).pos(), Seq::empty()).pos,
            match r {
                Ok(v) => parse_args(old(self).toks(), old(self).pos(), Seq::empty()).result == Ok::<
                    Seq<SpecExpr>,
                    Seq<char>,
                >(exprs_view(v@)),
                Err(m) => parse_args(old(self).toks(), old(self).pos(), Seq::empty()).result
                    == Err::<Seq<SpecExpr>, Seq<char>>(m@),
            },
        decreases old(self).toks().len() - old(self).pos(), 4int,
    {
        let ghost toks = self.toks();
        let ghost start = self.pos();
        let mut args: Vec<Expr> = Vec::new();
        proof {
            assert(exprs_view(args@) =~= Seq::<SpecExpr>::empty());
        }
        loop
            invariant
                self.wf(),
                self.toks() == toks,
                toks == old(self).toks(),
                start == old(self).pos(),
                start <= self.pos(),
                parse_args(toks, start, Seq::empty()) == parse_args(
                    toks,
                    self.pos(),
                    exprs_view(args@),
                ),
            decreases self.tokens@.len() - self.current,
        {
            let ghost here = self.pos();
            let ghost sofar = args@;
            proof {
                lemma_expression_moves(toks, here);
            }
            match self.expression() {
                Err(e) => {
                    return Err(e);
                },
                Ok(a) => {
                    args.push(a);
                },
            }
            proof {
                assert(args@.drop_last() =~= sofar);
                assert(exprs_view(args@) =~= exprs_view(sofar).push(args@.last()@));
            }
            if self.peek() == Token::RightParen {
                return Ok(args);
            }
            match self.expect(Token::Comma) {
                Err(e) => {
                    return Err(e);
                },
                Ok(_) => {},
            }
        }
    }

    /// An operand: a literal, a name, a call, an expression in parentheses,
    /// or a unary operator and its expression.
    #[verifier::rlimit(30)]
    fn operand(&mut self) -> (r: Result<Expr, String>)
        requires
            old(self).wf(),
        ensures
            final(self).wf(),
            final(self).toks() == old(self).toks(),
            expr_parsed(r, final(self).pos(), parse_operand(old(self).toks(), old(self).pos())),
        decreases old(self).toks().len() - old(self).pos(), 2int,
    {
        let ghost toks = self.toks();
        let ghost start = self.pos();
        let first = self.consume();
        match first {
            Token::Number(n) => Ok(Expr::Number(n)),
            Token::String(s) => Ok(Expr::String(s)),
            Token::Identifier(name) => {
                match self.peek() {
                    Token::LeftParen => {
                        match self.expect(Token::LeftParen) {
                            Err(e) => {
                                return Err(e);
                            },
                            Ok(_) => {},
                        }
                        let args = if !(self.peek() == Token::RightParen) {
                            match self.arguments() {
                                Err(e) => {
                                    return Err(e);
                                },
                                Ok(args) => args,
                            }
                        } else {
                            let none: Vec<Expr> = Vec::new();
                            proof {
                                assert(exprs_view(none@) =~= Seq::<SpecExpr>::empty());
                            }
                            none
                        };
                        match self.expect(Token::RightParen) {
                            Err(e) => {
                                return Err(e);
                            },
                            Ok(_) => {},
                        }
                        let callee = Expr::Identifier(name);
                        assert(callee@ is Identifier);
                        Ok(Expr::Call { callee: Box::new(callee), args })
                    },
                    _ => Ok(Expr::Identifier(name)),
                }
            },
            Token::LeftParen => {
                let inner = match self.expression() {
                    Err(e) => {
                        return Err(e);
                    },
                    Ok(e) => e,
                };
                match self.expect(Token::RightParen) {
                    Err(e) => {
                        return Err(e);
                    },
                    Ok(_) => {},
                }
                Ok(inner)
            },
            Token::Minus => {
                let inner = match self.expression() {
                    Err(e) => {
                        return Err(e);
                    },
                    Ok(e) => e,
                };
                Ok(Expr::Unary { op: UnaryOp::Neg, rhs: Box::new(inner) })
            },
            Token::Not => {
                let inner = match self.expression() {
                    Err(e) => {
                        return Err(e);
                    },
                    Ok(e) => e,
                };
                Ok(Expr::Unary { op: UnaryOp::Not, rhs: Box::new(inner) })
            },
            _ => Err(owned("Expected expression")),
        }
    }

    /// An expression: an operand and, if a binary operator follows it, that
    /// operator and the expression behind it.
    #[verifier::rlimit(30)]
    pub fn expression(&mut self) -> (r: Result<Expr, String>)
        requires
            old(self).wf(),
        ensures
            final(self).wf(),
            final(self).toks() == old(self).toks(),
            expr_parsed(
                r,
                final(self).pos(),
                parse_expression(old(self).toks(), old(self).pos()),
            ),
        decreases old(self).toks().len() - old(self).pos(), 3int,
    {
        let ghost toks = self.toks();
        let ghost start = self.pos();
        proof {
            lemma_operand_moves(toks, start);
        }
        let expr = match self.operand() {
            Err(e) => {
                return Err(e);
            },
            Ok(e) => e,
        };
        let ghost operand = expr@;
        let ghost mid = self.pos();
        if self.peek().is_binary_op() {
            let mut lhs = expr;
            let mut op = BinaryOp::from_token(&self.consume());
            proof {
                lemma_expression_moves(toks, mid + 1);
            }
            let mut rhs = match self.expression() {
                Err(e) => {
                    return Err(e);
                },
                Ok(e) => e,
            };
            let ghost right = rhs@;
            let ghost operator = op;
            let ghost end = self.pos();
            while self.peek().is_binary_op() && op.precedence() < BinaryOp::from_token(
                &self.peek(),
            ).precedence()
                invariant
                    self.wf(),
                    self.toks() == toks,
                    self.pos() == end,
                    !is_binary_op(peek_at(toks, end)),
                    lhs@ == operand,
                    rhs@ == right,
                    op == operator,
                decreases self.toks().len() - self.pos(),
            {
                let next_op = BinaryOp::from_token(&self.consume());
                let next_rhs = match self.expression() {
                    Err(e) => {
                        return Err(e);
                    },
                    Ok(e) => e,
                };
                lhs = Expr::Binary { lhs: Box::new(lhs), op, rhs: Box::new(rhs) };
                op = next_op;
                rhs = next_rhs;
            }
            Ok(Expr::Binary { lhs: Box::new(lhs), op, rhs: Box::new(rhs) })
        } else {
            Ok(expr)
        }
    }

    /// `let` name, optionally `=` and an expression, `;`.
    #[verifier::rlimit(30)]
    pub fn variable_definition(&mut self) -> (r: Result<Statement, String>)
        requires
            old(self).wf(),
        ensures
            final(self).wf(),
            final(self).toks() == old(self).toks(),
            stmt_parsed(
                r,
                final(self).pos(),
                parse_variable_definition(old(self).toks(), old(self).pos()),
            ),
    {
        match self.expect(Token::Let) {
            Err(e) => {
                return Err(e);
            },
            Ok(_) => {},
        }
        let name = match self.consume() {
            Token::Identifier(name) => name,
            _ => {
                return Err(owned("Expected variable name"));
            },
        };
        let initializer = if self.peek() == Token::Equal {
            self.consume();
            match self.expression() {
                Err(e) => {
                    return Err(e);
                },
                Ok(e) => Some(e),
            }
        } else {
            None
        };
        match self.expect(Token::Semicolon) {
            Err(e) => {
                return Err(e);
            },
            Ok(_) => {},
        }
        Ok(Statement::VariableDefinition { name, initializer })
    }

    /// `print` `(` expression `)` `;`.
    pub fn print(&mut self) -> (r: Result<Statement, String>)
        requires
            old(self).wf(),
        ensures
            final(self).wf(),
            final(self).toks() == old(self).toks(),
            stmt_parsed(r, final(self).pos(), parse_print(old(self).toks(), old(self).pos())),
    {
        match self.expect(Token::Print) {
            Err(e) => {
                return Err(e);
            },
            Ok(_) => {},
        }
        match self.expect(Token::LeftParen) {
            Err(e) => {
                return Err(e);
            },
            Ok(_) => {},
        }
        let expr = match self.expression() {
            Err(e) => {
                return Err(e);
            },
            Ok(e) => e,
        };
        match self.expect(Token::RightParen) {
            Err(e) => {
                return Err(e);
            },
            Ok(_) => {},
        }
        match self.expect(Token::Semicolon) {
            Err(e) => {
                return Err(e);
            },
            Ok(_) => {},
        }
        Ok(Statement::Print(expr))
    }

    /// `return`, optionally an expression, `;`.
    pub fn return_statement(&mut self) -> (r: Result<Statement, String>)
        requires
            old(self).wf(),
        ensures
            final(self).wf(),
            final(self).toks() == old(self).toks(),
            stmt_parsed(r, final(self).pos(), parse_return(old(self).toks(), old(self).pos())),
    {
        match self.expect(Token::Return) {
            Err(e) => {
                return Err(e);
            },
            Ok(_) => {},
        }
        let expr = if !(self.peek() == Token::Semicolon) {
            match self.expression() {
                Err(e) => {
                    return Err(e);
                },
                Ok(e) => Some(e),
            }
        } else {
            None
        };
        match self.expect(Token::Semicolon) {
            Err(e) => {
                return Err(e);
            },
            Ok(_) => {},
        }
        Ok(Statement::Return(expr))
    }

    /// Name `=` expression `;`.
    pub fn assignment(&mut self) -> (r: Result<Statement, String>)
        requires
            old(self).wf(),
        ensures
            final(self).wf(),
            final(self).toks() == old(self).toks(),
            stmt_parsed(r, final(self).pos(), parse_assignment(old(self).toks(), old(self).pos())),
    {
        let name = match self.consume() {
            Token::Identifier(name) => name,
            _ => {
                return Err(owned("Expected variable name"));
            },
        };
        match self.expect(Token::Equal) {
            Err(e) => {
                return Err(e);
            },
            Ok(_) => {},
        }
        let value = match self.expression() {
            Err(e) => {
                return Err(e);
            },
            Ok(e) => e,
        };
        match self.expect(Token::Semicolon) {
            Err(e) => {
                return Err(e);
            },
            Ok(_) => {},
        }
        Ok(Statement::Assignment { name, value })
    }

    /// The parameter names of a function, up to but not including the
    /// closing parenthesis.
    fn parameters(&mut self) -> (r: Result<Vec<String>, String>)
        requires
            old(self).wf(),
        ensures
            final(self).wf(),
            final(self).toks() == old(self).toks(),
            final(self).pos() == parse_params(old(self).toks(), old(self).pos(), Seq::empty()).pos,
            match r {
                Ok(v) => parse_params(old(self).toks(), old(self).pos(), Seq::empty()).result
                    == Ok::<Seq<Seq<char>>, Seq<char>>(names_view(v@)),
                Err(m) => parse_params(old(self).toks(), old(self).pos(), Seq::empty()).result
                    == Err::<Seq<Seq<char>>, Seq<char>>(m@),
            },
    {
        let ghost toks = self.toks();
        let ghost start = self.pos();
        let mut params: Vec<String> = Vec::new();
        proof {
            assert(names_view(params@) =~= Seq::<Seq<char>>::empty());
        }
        loop
            invariant
                self.wf(),
                self.toks() == toks,
                toks == old(self).toks(),
                start == old(self).pos(),
                parse_params(toks, start, Seq::empty()) == parse_params(
                    toks,
                    self.pos(),
                    names_view(params@),
                ),
            decreases self.toks().len() - self.pos(),
        {
            let ghost sofar = params@;
            match self.consume() {
                Token::Identifier(param) => {
                    params.push(param);
                },
                _ => {
                    return Err(owned("Expected parameter name"));
                },
            }
            proof {
                assert(names_view(params@) =~= names_view(sofar).push(params@.last()@));
            }
            if self.peek() == Token::RightParen {
                return Ok(params);
            }
            match self.expect(Token::Comma) {
                Err(e) => {
                    return Err(e);
                },
                Ok(_) => {},
            }
        }
    }

    /// `fn` name `(` parameters `)` `{` block.
    #[verifier::rlimit(30)]
    pub fn function_declaration(&mut self) -> (r: Result<Statement, String>)
        requires
            old(self).wf(),
        ensures
            final(self).wf(),
            final(self).toks() == old(self).toks(),
            stmt_parsed(r, final(self).pos(), parse_function(old(self).toks(), old(self).pos())),
        decreases old(self).toks().len() - old(self).pos(), 4int,
    {
        let ghost toks = self.toks();
        let ghost start = self.pos();
        match self.expect(Token::Function) {
            Err(e) => {
                return Err(e);
            },
            Ok(_) => {},
        }
        let name = match self.consume() {
            Token::Identifier(name) => name,
            _ => {
                return Err(owned("Expected function name"));
            },
        };
        match self.expect(Token::LeftParen) {
            Err(e) => {
                return Err(e);
            },
            Ok(_) => {},
        }
        let ghost open = self.pos();
        let params = if !(self.peek() == Token::RightParen) {
            proof {
                lemma_params_move(toks, open, Seq::empty());
            }
            match self.parameters() {
                Err(e) => {
                    return Err(e);
                },
                Ok(params) => params,
            }
        } else {
            let none: Vec<String> = Vec::new();
            proof {
                assert(names_view(none@) =~= Seq::<Seq<char>>::empty());
            }
            none
        };
        match self.expect(Token::RightParen) {
            Err(e) => {
                return Err(e);
            },
            Ok(_) => {},
        }
        match self.expect(Token::LeftBrace) {
            Err(e) => {
                return Err(e);
            },
            Ok(_) => {},
        }
        let body = match self.block() {
            Err(e) => {
                return Err(e);
            },
            Ok(body) => body,
        };
        Ok(Statement::FunctionDefinition { name, params, body: Box::new(body) })
    }

    /// `{` statements `}`. A statement that fails to parse is left out.
    #[verifier::rlimit(30)]
    pub fn block(&mut self) -> (r: Result<Statement, String>)
        requires
            old(self).wf(),
        ensures
            final(self).wf(),
            final(self).toks() == old(self).toks(),
            stmt_parsed(r, final(self).pos(), parse_block(old(self).toks(), old(self).pos())),
        decreases old(self).toks().len() - old(self).pos(), 4int,
    {
        let ghost toks = self.toks();
        let ghost start = self.pos();
        let mut statements: Vec<Statement> = Vec::new();
        match self.expect(Token::LeftBrace) {
            Err(e) => {
                return Err(e);
            },
            Ok(_) => {},
        }
        let ghost open = self.pos();
        proof {
            assert(statements_view(statements@) =~= Seq::<SpecStatement>::empty());
        }
        while !(self.peek() == Token::RightBrace) && !self.is_at_end()
            invariant
                self.wf(),
                self.toks() == toks,
                toks == old(self).toks(),
                start == old(self).pos(),
                start < self.pos(),
                block_items(toks, open, Seq::empty()) == block_items(
                    toks,
                    self.pos(),
                    statements_view(statements@),
                ),
            decreases self.toks().len() - self.pos(),
        {
            let ghost sofar = statements@;
            proof {
                lemma_statement_moves(toks, self.pos());
            }
            match self.statement() {
                Ok(statement) => {
                    statements.push(statement);
                    proof {
                        assert(statements@.drop_last() =~= sofar);
                        assert(statements_view(statements@) =~= statements_view(sofar).push(
                            statements@.last()@,
                        ));
                    }
                },
                Err(_) => {},
            }
        }
        match self.expect(Token::RightBrace) {
            Err(e) => {
                return Err(e);
            },
            Ok(_) => {},
        }
        Ok(Statement::Block(statements))
    }

    /// `if` expression statement, optionally `else` statement.
    #[verifier::rlimit(30)]
    pub fn if_statement(&mut self) -> (r: Result<Statement, String>)
        requires
            old(self).wf(),
        ensures
            final(self).wf(),
            final(self).toks() == old(self).toks(),
            stmt_parsed(r, final(self).pos(), parse_if(old(self).toks(), old(self).pos())),
        decreases old(self).toks().len() - old(self).pos(), 4int,
    {
        let ghost toks = self.toks();
        let ghost start = self.pos();
        match self.expect(Token::If) {
            Err(e) => {
                return Err(e);
            },
            Ok(_) => {},
        }
        proof {
            lemma_expression_moves(toks, self.pos());
        }
        let condition = match self.expression() {
            Err(e) => {
                return Err(e);
            },
            Ok(e) => e,
        };
        proof {
            lemma_statement_moves(toks, self.pos());
        }
        let then_branch = match self.statement() {
            Err(e) => {
                return Err(e);
            },
            Ok(s) => Box::new(s),
        };
        let else_branch = if self.peek() == Token::Else {
            self.consume();
            match self.statement() {
                Err(e) => {
                    return Err(e);
                },
                Ok(s) => Some(Box::new(s)),
            }
        } else {
            None
        };
        Ok(Statement::If { condition, then_branch, else_branch })
    }

    /// `while` expression statement.
    pub fn while_statement(&mut self) -> (r: Result<Statement, String>)
        requires
            old(self).wf(),
        ensures
            final(self).wf(),
            final(self).toks() == old(self).toks(),
            stmt_parsed(r, final(self).pos(), parse_while(old(self).toks(), old(self).pos())),
        decreases old(self).toks().len() - old(self).pos(), 4int,
    {
        let ghost toks = self.toks();
        match self.expect(Token::While) {
            Err(e) => {
                return Err(e);
            },
            Ok(_) => {},
        }
        proof {
            lemma_expression_moves(toks, self.pos());
        }
        let condition = match self.expression() {
            Err(e) => {
                return Err(e);
            },
            Ok(e) => e,
        };
        let body = match self.statement() {
            Err(e) => {
                return Err(e);
            },
            Ok(s) => Box::new(s),
        };
        Ok(Statement::While { condition, body })
    }

    /// One statement, chosen by its first token.
    #[verifier::rlimit(30)]
    pub fn statement(&mut self) -> (r: Result<Statement, String>)
        requires
            old(self).wf(),
        ensures
            final(self).wf(),
            final(self).toks() == old(self).toks(),
            stmt_parsed(r, final(self).pos(), parse_statement(old(self).toks(), old(self).pos())),
        decreases old(self).toks().len() - old(self).pos(), 5int,
    {
        match self.peek() {
            Token::Let => self.variable_definition(),
            Token::Print => self.print(),
            Token::Return => self.return_statement(),
            Token::LeftBrace => self.block(),
            Token::If => self.if_statement(),
            Token::While => self.while_statement(),
            Token::Identifier(_) => self.assignment(),
            Token::Function => self.function_declaration(),
            _ => {
                let found = self.consume();
                let mut message = owned("Expected statement, found ");
                message.append(debug_text(&found).as_str());
                Err(message)
            },
        }
    }

    /// All the statements up to the end of input, or the diagnostics of
    /// those that failed to parse, one per line.
    #[verifier::rlimit(30)]
    pub fn program(&mut self) -> (r: Result<Program, String>)
        requires
            old(self).wf(),
        ensures
            final(self).wf(),
            final(self).toks() == old(self).toks(),
            ({
                let found = program_items(
                    old(self).toks(),
                    old(self).pos(),
                    Seq::empty(),
                    Seq::empty(),
                );
                match r {
                    Ok(p) => found.1.len() == 0 && p@ == found.0,
                    Err(m) => found.1.len() > 0 && m@ == join_lines(found.1),
                }
            }),
    {
        let ghost toks = self.toks();
        let ghost start = self.pos();
        let mut statements: Vec<Statement> = Vec::new();
        let mut errors: Vec<String> = Vec::new();
        proof {
            assert(statements_view(statements@) =~= Seq::<SpecStatement>::empty());
            assert(names_view(errors@) =~= Seq::<Seq<char>>::empty());
        }
        while !self.is_at_end()
            invariant
                self.wf(),
                self.toks() == toks,
                program_items(toks, start, Seq::empty(), Seq::empty()) == program_items(
                    toks,
                    self.pos(),
                    statements_view(statements@),
                    names_view(errors@),
                ),
            decreases self.toks().len() - self.pos(),
        {
            let ghost sofar = statements@;
            let ghost failures = errors@;
            proof {
                lemma_statement_moves(toks, self.pos());
            }
            match self.statement() {
                Ok(statement) => {
                    statements.push(statement);
                    proof {
                        assert(statements@.drop_last() =~= sofar);
                        assert(statements_view(statements@) =~= statements_view(sofar).push(
                            statements@.last()@,
                        ));
                    }
                },
                Err(error) => {
                    errors.push(error);
                    proof {
                        assert(names_view(errors@) =~= names_view(failures).push(errors@.last()@));
                    }
                },
            }
        }
        if errors.len() == 0 {
            Ok(Program::new(statements))
        } else {
            Err(lines(&errors))
        }
    }
}

/// The strings of `errors`, one per line.
pub fn lines(errors: &Vec<String>) -> (text: String)
    ensures
        text@ == join_lines(names_view(errors@)),
{
    let mut text = String::new();
    let mut i: usize = 0;
    proof {
        assert(names_view(errors@).take(0) =~= Seq::<Seq<char>>::empty());
    }
    while i < errors.len()
        invariant
            i <= errors.len(),
            text@ == join_lines(names_view(errors@).take(i as int)),
        decreases errors.len() - i,
    {
        proof {
            let longer = names_view(errors@).take(i as int + 1);
            assert(longer.drop_last() =~= names_view(errors@).take(i as int));
            assert(longer.last() == errors@[i as int]@);
            reveal_strlit("\n");
            assert("\n"@ =~= seq!['\n']);
            if i == 0 {
                assert(Seq::<char>::empty() + errors@[i as int]@ =~= errors@[i as int]@);
            }
        }
        if i > 0 {
            text.append("\n");
        }
        text.append(errors[i].as_str());
        i += 1;
    }
    proof {
        assert(names_view(errors@).take(i as int) =~= names_view(errors@));
    }
    text
}

/// Parses a token list into a program. Comments are skipped.
pub fn parse(tokens: &[Token]) -> (r: Result<Program, String>)
    ensures
        match r {
            Ok(p) => spec_parse(tokens_view(tokens@)) == Ok::<Seq<SpecStatement>, Seq<char>>(p@),
            Err(m) => spec_parse(tokens_view(tokens@)) == Err::<Seq<SpecStatement>, Seq<char>>(m@),
        },
{
    let mut parser = Parser::new(tokens);
    parser.program()
}

} // verus!
