//! Recursive-descent parser from tokens to statements.
//!
//! The grammar is stated as spec functions over the token views and a
//! position; every function of [`Parser`] is proved to give the result those
//! functions give. A position that does not move forward where the grammar
//! consumed a token is reported as `SParseError::Stuck`, which a token
//! sequence ending with `Eof` never reaches: the parser returns a
//! `ParseError` whose view equals the spec result, and no `ParseError` views
//! as `Stuck`.
use vstd::prelude::*;
use crate::lexer::{
    CharClass, Lexer, is_digit, is_ident_start, is_space, lemma_span_len, lemma_string_body_len,
    single_token, span, spec_lex, spec_string_body,
};
use crate::syntax::{
    Expr, Op, ParseError, SExpr, SParseError, SStmt, SToken, SValue, Stmt, Token, Value,
    exprs_view, fields_view, fieldless, lemma_expr_views, lemma_same_tag, lemma_stmt_views,
    stmts_view, strings_view, tokens_view,
};

verus! {

/// The token at `p`; past either end the sequence reads as `Eof`.
pub open spec fn tok(t: Seq<SToken>, p: int) -> SToken {
    if 0 <= p < t.len() { t[p] } else { SToken::Eof }
}

/// The position after reading the token at `p`: the parser stays on the last
/// token once it gets there.
pub open spec fn next(t: Seq<SToken>, p: int) -> int {
    if p + 1 < t.len() { p + 1 } else { p }
}

/// Whether `q` lies strictly after `p` and inside the tokens.
pub open spec fn ahead(t: Seq<SToken>, p: int, q: int) -> bool {
    p < q < t.len()
}

/// Reading an expected token.
pub open spec fn sp_expect(t: Seq<SToken>, p: int, want: SToken) -> Result<int, SParseError> {
    if tok(t, p) == want { Ok(next(t, p)) } else { Err(SParseError::Expected(want, tok(t, p))) }
}

/// Puts the items read so far in front of the result of reading the rest.
pub open spec fn join_front<A>(acc: Seq<A>, r: Result<(Seq<A>, int), SParseError>) -> Result<(Seq<A>, int), SParseError> {
    match r {
        Ok((xs, q)) => Ok((acc + xs, q)),
        Err(e) => Err(e),
    }
}

/// The binary operator of the equality level at a token.
pub open spec fn equality_op(x: SToken) -> Option<Op> {
    match x {
        SToken::EqualEqual => Some(Op::Eq),
        SToken::BangEqual => Some(Op::Ne),
        _ => None,
    }
}

/// The binary operator of the comparison level at a token.
pub open spec fn compare_op(x: SToken) -> Option<Op> {
    match x {
        SToken::Greater => Some(Op::Gt),
        SToken::GreaterEqual => Some(Op::Ge),
        SToken::Less => Some(Op::Lt),
        SToken::LessEqual => Some(Op::Le),
        _ => None,
    }
}

/// The binary operator of the additive level at a token.
pub open spec fn term_op(x: SToken) -> Option<Op> {
    match x {
        SToken::Plus => Some(Op::Add),
        SToken::Minus => Some(Op::Sub),
        _ => None,
    }
}

/// The binary operator of the multiplicative level at a token.
pub open spec fn factor_op(x: SToken) -> Option<Op> {
    match x {
        SToken::Star => Some(Op::Mul),
        SToken::Slash => Some(Op::Div),
        _ => None,
    }
}

/// The four levels of binary operators, loosest first.
#[derive(Clone, Copy, PartialEq, Eq, Structural)]
pub enum Level {
    Equality,
    Compare,
    Term,
    Factor,
}

pub open spec fn level_op(l: Level, x: SToken) -> Option<Op> {
    match l {
        Level::Equality => equality_op(x),
        Level::Compare => compare_op(x),
        Level::Term => term_op(x),
        Level::Factor => factor_op(x),
    }
}

/// A whole program: statements up to `Eof`.
pub open spec fn sp_program(t: Seq<SToken>, p: int) -> Result<(Seq<SStmt>, int), SParseError>
    decreases t.len() - p, 14int,
{
    if tok(t, p) == SToken::Eof {
        Ok((Seq::empty(), p))
    } else {
        match sp_statement(t, p) {
            Err(e) => Err(e),
            Ok((s, q)) => if !ahead(t, p, q) { Err(SParseError::Stuck) } else {
                join_front(seq![s], sp_program(t, q))
            },
        }
    }
}

/// The statements of a block after its `{`, with the position after `}`.
pub open spec fn sp_block_rest(t: Seq<SToken>, p: int) -> Result<(Seq<SStmt>, int), SParseError>
    decreases t.len() - p, 14int,
{
    if tok(t, p) == SToken::RightBrace {
        Ok((Seq::empty(), next(t, p)))
    } else if tok(t, p) == SToken::Eof {
        Err(SParseError::UnterminatedBlock)
    } else {
        match sp_statement(t, p) {
            Err(e) => Err(e),
            Ok((s, q)) => if !ahead(t, p, q) { Err(SParseError::Stuck) } else {
                join_front(seq![s], sp_block_rest(t, q))
            },
        }
    }
}

/// A block: `{`, statements, `}`.
pub open spec fn sp_block(t: Seq<SToken>, p: int) -> Result<(Seq<SStmt>, int), SParseError>
    decreases t.len() - p, 1int,
{
    match sp_expect(t, p, SToken::LeftBrace) {
        Err(e) => Err(e),
        Ok(q) => if !ahead(t, p, q) { Err(SParseError::Stuck) } else { sp_block_rest(t, q) },
    }
}

/// One statement.
pub open spec fn sp_statement(t: Seq<SToken>, p: int) -> Result<(SStmt, int), SParseError>
    decreases t.len() - p, 13int,
{
    let p1 = next(t, p);
    match tok(t, p) {
        SToken::Use => match tok(t, p1) {
            SToken::Text(path) => Ok((SStmt::Use(path), next(t, p1))),
            x => Err(SParseError::ModulePath(x)),
        },
        SToken::Function => sp_function(t, p),
        SToken::If => sp_if(t, p),
        SToken::While => sp_while(t, p),
        SToken::For => sp_for(t, p),
        SToken::Print => if !ahead(t, p, p1) { Err(SParseError::Stuck) } else {
            match sp_level(t, p1, Level::Equality) {
                Ok((e, q)) => Ok((SStmt::Print(e), q)),
                Err(e) => Err(e),
            }
        },
        SToken::Return => if !ahead(t, p, p1) { Err(SParseError::Stuck) } else {
            match sp_level(t, p1, Level::Equality) {
                Ok((e, q)) => Ok((SStmt::Return(e), q)),
                Err(e) => Err(e),
            }
        },
        SToken::Ident(name) => if tok(t, p + 1) == SToken::Equal {
            let p2 = next(t, p1);
            if !ahead(t, p, p2) { Err(SParseError::Stuck) } else {
                match sp_level(t, p2, Level::Equality) {
                    Ok((e, q)) => Ok((SStmt::Assign(name, e), q)),
                    Err(e) => Err(e),
                }
            }
        } else {
            match sp_level(t, p, Level::Equality) {
                Ok((e, q)) => Ok((SStmt::Expr(e), q)),
                Err(e) => Err(e),
            }
        },
        _ => match sp_level(t, p, Level::Equality) {
            Ok((e, q)) => Ok((SStmt::Expr(e), q)),
            Err(e) => Err(e),
        },
    }
}

/// The parameter names of a function, from the first name to the last.
pub open spec fn sp_params(t: Seq<SToken>, p: int) -> Result<(Seq<Seq<char>>, int), SParseError>
    decreases t.len() - p, 1int,
{
    let p1 = next(t, p);
    match tok(t, p) {
        SToken::Ident(v) => if tok(t, p1) == SToken::RightParen {
            Ok((seq![v], p1))
        } else {
            match sp_expect(t, p1, SToken::Comma) {
                Err(e) => Err(e),
                Ok(q) => if !ahead(t, p, q) { Err(SParseError::Stuck) } else {
                    join_front(seq![v], sp_params(t, q))
                },
            }
        },
        x => Err(SParseError::Parameter(x)),
    }
}

/// `function name(params) { body }`.
pub open spec fn sp_function(t: Seq<SToken>, p: int) -> Result<(SStmt, int), SParseError>
    decreases t.len() - p, 12int,
{
    let p1 = next(t, p);
    match tok(t, p1) {
        SToken::Ident(name) => match sp_expect(t, next(t, p1), SToken::LeftParen) {
            Err(e) => Err(e),
            Ok(p3) => {
                let ps = if tok(t, p3) == SToken::RightParen {
                    Ok((Seq::<Seq<char>>::empty(), p3))
                } else if !ahead(t, p, p3) {
                    Err(SParseError::Stuck)
                } else {
                    sp_params(t, p3)
                };
                match ps {
                    Err(e) => Err(e),
                    Ok((params, p4)) => match sp_expect(t, p4, SToken::RightParen) {
                        Err(e) => Err(e),
                        Ok(p5) => if !ahead(t, p, p5) { Err(SParseError::Stuck) } else {
                            match sp_block(t, p5) {
                                Err(e) => Err(e),
                                Ok((body, q)) => Ok((SStmt::Function(name, params, body), q)),
                            }
                        },
                    },
                }
            },
        },
        x => Err(SParseError::FunctionName(x)),
    }
}

/// `if cond { .. } else { .. }`, the `else` part optional.
pub open spec fn sp_if(t: Seq<SToken>, p: int) -> Result<(SStmt, int), SParseError>
    decreases t.len() - p, 12int,
{
    let p1 = next(t, p);
    if !ahead(t, p, p1) { Err(SParseError::Stuck) } else {
        match sp_level(t, p1, Level::Equality) {
            Err(e) => Err(e),
            Ok((c, p2)) => if !ahead(t, p, p2) { Err(SParseError::Stuck) } else {
                match sp_block(t, p2) {
                    Err(e) => Err(e),
                    Ok((yes, p3)) => if tok(t, p3) == SToken::Else {
                        let p4 = next(t, p3);
                        if !ahead(t, p, p4) { Err(SParseError::Stuck) } else {
                            match sp_block(t, p4) {
                                Err(e) => Err(e),
                                Ok((no, q)) => Ok((SStmt::If(c, yes, no), q)),
                            }
                        }
                    } else {
                        Ok((SStmt::If(c, yes, Seq::empty()), p3))
                    },
                }
            },
        }
    }
}

/// `while cond { .. }`.
pub open spec fn sp_while(t: Seq<SToken>, p: int) -> Result<(SStmt, int), SParseError>
    decreases t.len() - p, 12int,
{
    let p1 = next(t, p);
    if !ahead(t, p, p1) { Err(SParseError::Stuck) } else {
        match sp_level(t, p1, Level::Equality) {
            Err(e) => Err(e),
            Ok((c, p2)) => if !ahead(t, p, p2) { Err(SParseError::Stuck) } else {
                match sp_block(t, p2) {
                    Err(e) => Err(e),
                    Ok((body, q)) => Ok((SStmt::While(c, body), q)),
                }
            },
        }
    }
}

/// `for name in iterable { .. }`.
pub open spec fn sp_for(t: Seq<SToken>, p: int) -> Result<(SStmt, int), SParseError>
    decreases t.len() - p, 12int,
{
    let p1 = next(t, p);
    match tok(t, p1) {
        SToken::Ident(name) => match sp_expect(t, next(t, p1), SToken::In) {
            Err(e) => Err(e),
            Ok(p3) => if !ahead(t, p, p3) { Err(SParseError::Stuck) } else {
                match sp_level(t, p3, Level::Equality) {
                    Err(e) => Err(e),
                    Ok((it, p4)) => if !ahead(t, p, p4) { Err(SParseError::Stuck) } else {
                        match sp_block(t, p4) {
                            Err(e) => Err(e),
                            Ok((body, q)) => Ok((SStmt::For(name, it, body), q)),
                        }
                    },
                }
            },
        },
        x => Err(SParseError::ForVariable(x)),
    }
}

/// The rank of a level in the termination measure.
pub open spec fn level_rank(l: Level) -> int {
    match l {
        Level::Equality => 10,
        Level::Compare => 8,
        Level::Term => 6,
        Level::Factor => 4,
    }
}

/// The level just below one; `None` below the multiplicative level, where
/// primary expressions are read.
pub open spec fn sublevel(l: Level) -> Option<Level> {
    match l {
        Level::Equality => Some(Level::Compare),
        Level::Compare => Some(Level::Term),
        Level::Term => Some(Level::Factor),
        Level::Factor => None,
    }
}

/// An operand of a level: an expression of the level below.
pub open spec fn sp_operand(t: Seq<SToken>, p: int, l: Level) -> Result<(SExpr, int), SParseError>
    decreases t.len() - p, level_rank(l) - 1,
{
    match l {
        Level::Equality => sp_level(t, p, Level::Compare),
        Level::Compare => sp_level(t, p, Level::Term),
        Level::Term => sp_level(t, p, Level::Factor),
        Level::Factor => sp_primary(t, p),
    }
}

/// A left-associated chain of operands of a level.
pub open spec fn sp_level(t: Seq<SToken>, p: int, l: Level) -> Result<(SExpr, int), SParseError>
    decreases t.len() - p, level_rank(l),
{
    match sp_operand(t, p, l) {
        Err(e) => Err(e),
        Ok((left, q)) => if !ahead(t, p, q) { Err(SParseError::Stuck) } else {
            sp_level_rest(t, q, l, left)
        },
    }
}

/// The rest of a chain of a level, after the operands folded into `left`.
pub open spec fn sp_level_rest(t: Seq<SToken>, p: int, l: Level, left: SExpr) -> Result<(SExpr, int), SParseError>
    decreases t.len() - p, 1int,
{
    match level_op(l, tok(t, p)) {
        None => Ok((left, p)),
        Some(op) => {
            let p1 = next(t, p);
            if !ahead(t, p, p1) { Err(SParseError::Stuck) } else {
                match sp_operand(t, p1, l) {
                    Err(e) => Err(e),
                    Ok((right, q)) => if !ahead(t, p, q) { Err(SParseError::Stuck) } else {
                        sp_level_rest(t, q, l, SExpr::Binary(Box::new(left), op, Box::new(right)))
                    },
                }
            }
        },
    }
}

/// Expressions separated by commas, up to a closing token that is not read.
pub open spec fn sp_expr_list(t: Seq<SToken>, p: int, close: SToken) -> Result<(Seq<SExpr>, int), SParseError>
    decreases t.len() - p, 11int,
{
    match sp_level(t, p, Level::Equality) {
        Err(e) => Err(e),
        Ok((e, p2)) => if tok(t, p2) == close {
            Ok((seq![e], p2))
        } else {
            match sp_expect(t, p2, SToken::Comma) {
                Err(x) => Err(x),
                Ok(p3) => if !ahead(t, p, p3) { Err(SParseError::Stuck) } else {
                    join_front(seq![e], sp_expr_list(t, p3, close))
                },
            }
        },
    }
}

/// The fields of an object literal, up to a `}` that is not read.
pub open spec fn sp_fields(t: Seq<SToken>, p: int) -> Result<(Seq<(Seq<char>, SExpr)>, int), SParseError>
    decreases t.len() - p, 1int,
{
    let x = tok(t, p);
    let key = match x {
        SToken::Ident(v) => Some(v),
        SToken::Text(v) => Some(v),
        _ => None,
    };
    match key {
        None => Err(SParseError::ObjectKey(x)),
        Some(k) => match sp_expect(t, next(t, p), SToken::Colon) {
            Err(e) => Err(e),
            Ok(p2) => if !ahead(t, p, p2) { Err(SParseError::Stuck) } else {
                match sp_level(t, p2, Level::Equality) {
                    Err(e) => Err(e),
                    Ok((v, p3)) => if tok(t, p3) == SToken::RightBrace {
                        Ok((seq![(k, v)], p3))
                    } else {
                        match sp_expect(t, p3, SToken::Comma) {
                            Err(e) => Err(e),
                            Ok(p4) => if !ahead(t, p, p4) { Err(SParseError::Stuck) } else {
                                join_front(seq![(k, v)], sp_fields(t, p4))
                            },
                        }
                    },
                }
            },
        },
    }
}

/// Items between brackets: empty when the closing token comes first.
pub open spec fn sp_items(t: Seq<SToken>, p: int, close: SToken) -> Result<(Seq<SExpr>, int), SParseError>
    decreases t.len() - p, 12int,
{
    if tok(t, p) == close { Ok((Seq::empty(), p)) } else { sp_expr_list(t, p, close) }
}

/// A primary expression followed by its calls, indexes and field accesses.
pub open spec fn sp_primary(t: Seq<SToken>, p: int) -> Result<(SExpr, int), SParseError>
    decreases t.len() - p, 2int,
{
    let p1 = next(t, p);
    match tok(t, p) {
        SToken::Number(v) => sp_postfix(t, p1, SExpr::Value(SValue::Number(v))),
        SToken::Text(v) => sp_postfix(t, p1, SExpr::Value(SValue::Text(v))),
        SToken::True => sp_postfix(t, p1, SExpr::Value(SValue::Boolean(true))),
        SToken::False => sp_postfix(t, p1, SExpr::Value(SValue::Boolean(false))),
        SToken::Ident(name) => sp_postfix(t, p1, SExpr::Var(name)),
        SToken::LeftParen => if !ahead(t, p, p1) { Err(SParseError::Stuck) } else {
            match sp_level(t, p1, Level::Equality) {
                Err(e) => Err(e),
                Ok((e, p2)) => match sp_expect(t, p2, SToken::RightParen) {
                    Err(x) => Err(x),
                    Ok(p3) => if !ahead(t, p, p3) { Err(SParseError::Stuck) } else { sp_postfix(t, p3, e) },
                },
            }
        },
        SToken::LeftBracket => if !ahead(t, p, p1) { Err(SParseError::Stuck) } else {
            match sp_items(t, p1, SToken::RightBracket) {
                Err(e) => Err(e),
                Ok((items, p2)) => match sp_expect(t, p2, SToken::RightBracket) {
                    Err(x) => Err(x),
                    Ok(p3) => if !ahead(t, p, p3) { Err(SParseError::Stuck) } else {
                        sp_postfix(t, p3, SExpr::List(items))
                    },
                },
            }
        },
        SToken::LeftBrace => if !ahead(t, p, p1) { Err(SParseError::Stuck) } else {
            let fs = if tok(t, p1) == SToken::RightBrace {
                Ok((Seq::<(Seq<char>, SExpr)>::empty(), p1))
            } else {
                sp_fields(t, p1)
            };
            match fs {
                Err(e) => Err(e),
                Ok((fields, p2)) => match sp_expect(t, p2, SToken::RightBrace) {
                    Err(x) => Err(x),
                    Ok(p3) => if !ahead(t, p, p3) { Err(SParseError::Stuck) } else {
                        sp_postfix(t, p3, SExpr::Object(fields))
                    },
                },
            }
        },
        x => Err(SParseError::UnexpectedExpression(x)),
    }
}

/// Calls, indexes and field accesses applied to `e`, left to right.
pub open spec fn sp_postfix(t: Seq<SToken>, p: int, e: SExpr) -> Result<(SExpr, int), SParseError>
    decreases t.len() - p, 1int,
{
    let p1 = next(t, p);
    match tok(t, p) {
        SToken::LeftParen => match e {
            SExpr::Var(name) => if !ahead(t, p, p1) { Err(SParseError::Stuck) } else {
                match sp_items(t, p1, SToken::RightParen) {
                    Err(x) => Err(x),
                    Ok((args, p2)) => match sp_expect(t, p2, SToken::RightParen) {
                        Err(x) => Err(x),
                        Ok(p3) => if !ahead(t, p, p3) { Err(SParseError::Stuck) } else {
                            sp_postfix(t, p3, SExpr::Call(name, args))
                        },
                    },
                }
            },
            _ => Err(SParseError::CallTarget),
        },
        SToken::LeftBracket => if !ahead(t, p, p1) { Err(SParseError::Stuck) } else {
            match sp_level(t, p1, Level::Equality) {
                Err(x) => Err(x),
                Ok((index, p2)) => match sp_expect(t, p2, SToken::RightBracket) {
                    Err(x) => Err(x),
                    Ok(p3) => if !ahead(t, p, p3) { Err(SParseError::Stuck) } else {
                        sp_postfix(t, p3, SExpr::Index(Box::new(e), Box::new(index)))
                    },
                },
            }
        },
        SToken::Dot => match tok(t, p1) {
            SToken::Ident(name) => {
                let p2 = next(t, p1);
                if !ahead(t, p, p2) { Err(SParseError::Stuck) } else {
                    sp_postfix(t, p2, SExpr::Field(Box::new(e), name))
                }
            },
            x => Err(SParseError::FieldName(x)),
        },
        _ => Ok((e, p)),
    }
}


/// The operator an additive token stands for: `+` adds, `-` subtracts.
pub open spec fn additive(x: SToken) -> Op {
    if x == SToken::Plus { Op::Add } else { Op::Sub }
}

/// The operator a multiplicative token stands for: `*` multiplies, `/`
/// divides.
pub open spec fn multiplicative(x: SToken) -> Op {
    if x == SToken::Star { Op::Mul } else { Op::Div }
}

/// A number literal as an expression.
pub open spec fn num_expr(v: Seq<char>) -> SExpr {
    SExpr::Value(SValue::Number(v))
}

/// Multiplication and division bind tighter than addition and subtraction,
/// whichever comes first, and operators of one level associate to the left:
/// `a + b * c` reads as `a + (b * c)`, `a * b + c` as `(a * b) + c`.
pub proof fn law_precedence(a: Seq<char>, b: Seq<char>, c: Seq<char>, add: SToken, mul: SToken)
    requires
        add == SToken::Plus || add == SToken::Minus,
        mul == SToken::Star || mul == SToken::Slash,
    ensures
        sp_level(seq![SToken::Number(a), add, SToken::Number(b), mul, SToken::Number(c), SToken::Eof], 0, Level::Equality)
            == Ok::<(SExpr, int), SParseError>((SExpr::Binary(Box::new(num_expr(a)), additive(add),
                Box::new(SExpr::Binary(Box::new(num_expr(b)), multiplicative(mul), Box::new(num_expr(c))))), 5)),
        sp_level(seq![SToken::Number(a), mul, SToken::Number(b), add, SToken::Number(c), SToken::Eof], 0, Level::Equality)
            == Ok::<(SExpr, int), SParseError>((SExpr::Binary(Box::new(SExpr::Binary(Box::new(num_expr(a)), multiplicative(mul),
                Box::new(num_expr(b)))), additive(add), Box::new(num_expr(c))), 5)),
{
    lemma_precedence_add_first(a, b, c, add, mul);
    lemma_precedence_mul_first(a, b, c, add, mul);
}

proof fn lemma_precedence_add_first(a: Seq<char>, b: Seq<char>, c: Seq<char>, add: SToken, mul: SToken)
    requires
        add == SToken::Plus || add == SToken::Minus,
        mul == SToken::Star || mul == SToken::Slash,
    ensures
        sp_level(seq![SToken::Number(a), add, SToken::Number(b), mul, SToken::Number(c), SToken::Eof], 0, Level::Equality)
            == Ok::<(SExpr, int), SParseError>((SExpr::Binary(Box::new(num_expr(a)), additive(add),
                Box::new(SExpr::Binary(Box::new(num_expr(b)), multiplicative(mul), Box::new(num_expr(c))))), 5)),
{
    let t = seq![SToken::Number(a), add, SToken::Number(b), mul, SToken::Number(c), SToken::Eof];
    let (va, vb, vc) = (num_expr(a), num_expr(b), num_expr(c));
    assert(sp_postfix(t, 1, va) == Ok::<(SExpr, int), SParseError>((va, 1)));
    assert(sp_postfix(t, 3, vb) == Ok::<(SExpr, int), SParseError>((vb, 3)));
    assert(sp_postfix(t, 5, vc) == Ok::<(SExpr, int), SParseError>((vc, 5)));
    assert(sp_primary(t, 0) == Ok::<(SExpr, int), SParseError>((va, 1)));
    assert(sp_primary(t, 2) == Ok::<(SExpr, int), SParseError>((vb, 3)));
    assert(sp_primary(t, 4) == Ok::<(SExpr, int), SParseError>((vc, 5)));
    assert(sp_operand(t, 4, Level::Factor) == Ok::<(SExpr, int), SParseError>((vc, 5)));
    let bc = SExpr::Binary(Box::new(vb), multiplicative(mul), Box::new(vc));
    assert(sp_level_rest(t, 5, Level::Factor, bc) == Ok::<(SExpr, int), SParseError>((bc, 5)));
    assert(sp_level_rest(t, 3, Level::Factor, vb) == Ok::<(SExpr, int), SParseError>((bc, 5)));
    assert(sp_operand(t, 2, Level::Factor) == Ok::<(SExpr, int), SParseError>((vb, 3)));
    assert(sp_level(t, 2, Level::Factor) == Ok::<(SExpr, int), SParseError>((bc, 5)));
    assert(sp_operand(t, 0, Level::Factor) == Ok::<(SExpr, int), SParseError>((va, 1)));
    assert(sp_level_rest(t, 1, Level::Factor, va) == Ok::<(SExpr, int), SParseError>((va, 1)));
    assert(sp_level(t, 0, Level::Factor) == Ok::<(SExpr, int), SParseError>((va, 1)));
    let e = SExpr::Binary(Box::new(va), additive(add), Box::new(bc));
    assert(sp_operand(t, 2, Level::Term) == Ok::<(SExpr, int), SParseError>((bc, 5)));
    assert(sp_level_rest(t, 5, Level::Term, e) == Ok::<(SExpr, int), SParseError>((e, 5)));
    assert(sp_level_rest(t, 1, Level::Term, va) == Ok::<(SExpr, int), SParseError>((e, 5)));
    assert(sp_operand(t, 0, Level::Term) == Ok::<(SExpr, int), SParseError>((va, 1)));
    assert(sp_level(t, 0, Level::Term) == Ok::<(SExpr, int), SParseError>((e, 5)));
    assert(sp_operand(t, 0, Level::Compare) == Ok::<(SExpr, int), SParseError>((e, 5)));
    assert(sp_level_rest(t, 5, Level::Compare, e) == Ok::<(SExpr, int), SParseError>((e, 5)));
    assert(sp_level(t, 0, Level::Compare) == Ok::<(SExpr, int), SParseError>((e, 5)));
    assert(sp_operand(t, 0, Level::Equality) == Ok::<(SExpr, int), SParseError>((e, 5)));
    assert(sp_level_rest(t, 5, Level::Equality, e) == Ok::<(SExpr, int), SParseError>((e, 5)));
}

proof fn lemma_precedence_mul_first(a: Seq<char>, b: Seq<char>, c: Seq<char>, add: SToken, mul: SToken)
    requires
        add == SToken::Plus || add == SToken::Minus,
        mul == SToken::Star || mul == SToken::Slash,
    ensures
        sp_level(seq![SToken::Number(a), mul, SToken::Number(b), add, SToken::Number(c), SToken::Eof], 0, Level::Equality)
            == Ok::<(SExpr, int), SParseError>((SExpr::Binary(Box::new(SExpr::Binary(Box::new(num_expr(a)), multiplicative(mul),
                Box::new(num_expr(b)))), additive(add), Box::new(num_expr(c))), 5)),
{
    let t = seq![SToken::Number(a), mul, SToken::Number(b), add, SToken::Number(c), SToken::Eof];
    let (va, vb, vc) = (num_expr(a), num_expr(b), num_expr(c));
    assert(sp_postfix(t, 1, va) == Ok::<(SExpr, int), SParseError>((va, 1)));
    assert(sp_postfix(t, 3, vb) == Ok::<(SExpr, int), SParseError>((vb, 3)));
    assert(sp_postfix(t, 5, vc) == Ok::<(SExpr, int), SParseError>((vc, 5)));
    assert(sp_primary(t, 0) == Ok::<(SExpr, int), SParseError>((va, 1)));
    assert(sp_primary(t, 2) == Ok::<(SExpr, int), SParseError>((vb, 3)));
    assert(sp_primary(t, 4) == Ok::<(SExpr, int), SParseError>((vc, 5)));
    let ab = SExpr::Binary(Box::new(va), multiplicative(mul), Box::new(vb));
    assert(sp_operand(t, 2, Level::Factor) == Ok::<(SExpr, int), SParseError>((vb, 3)));
    assert(sp_level_rest(t, 3, Level::Factor, ab) == Ok::<(SExpr, int), SParseError>((ab, 3)));
    assert(sp_level_rest(t, 1, Level::Factor, va) == Ok::<(SExpr, int), SParseError>((ab, 3)));
    assert(sp_operand(t, 0, Level::Factor) == Ok::<(SExpr, int), SParseError>((va, 1)));
    assert(sp_level(t, 0, Level::Factor) == Ok::<(SExpr, int), SParseError>((ab, 3)));
    assert(sp_operand(t, 4, Level::Factor) == Ok::<(SExpr, int), SParseError>((vc, 5)));
    assert(sp_level_rest(t, 5, Level::Factor, vc) == Ok::<(SExpr, int), SParseError>((vc, 5)));
    assert(sp_level(t, 4, Level::Factor) == Ok::<(SExpr, int), SParseError>((vc, 5)));
    let e = SExpr::Binary(Box::new(ab), additive(add), Box::new(vc));
    assert(sp_operand(t, 4, Level::Term) == Ok::<(SExpr, int), SParseError>((vc, 5)));
    assert(sp_level_rest(t, 5, Level::Term, e) == Ok::<(SExpr, int), SParseError>((e, 5)));
    assert(sp_level_rest(t, 3, Level::Term, ab) == Ok::<(SExpr, int), SParseError>((e, 5)));
    assert(sp_operand(t, 0, Level::Term) == Ok::<(SExpr, int), SParseError>((ab, 3)));
    assert(sp_level(t, 0, Level::Term) == Ok::<(SExpr, int), SParseError>((e, 5)));
    assert(sp_operand(t, 0, Level::Compare) == Ok::<(SExpr, int), SParseError>((e, 5)));
    assert(sp_level_rest(t, 5, Level::Compare, e) == Ok::<(SExpr, int), SParseError>((e, 5)));
    assert(sp_level(t, 0, Level::Compare) == Ok::<(SExpr, int), SParseError>((e, 5)));
    assert(sp_operand(t, 0, Level::Equality) == Ok::<(SExpr, int), SParseError>((e, 5)));
    assert(sp_level_rest(t, 5, Level::Equality, e) == Ok::<(SExpr, int), SParseError>((e, 5)));
}

/// How tightly a binary operator token binds: `*` and `/` tightest, then
/// `+` and `-`, then the comparisons, then `==` and `!=`; other tokens bind
/// nothing.
pub open spec fn binding(x: SToken) -> int {
    match x {
        SToken::Star | SToken::Slash => 4,
        SToken::Plus | SToken::Minus => 3,
        SToken::Greater | SToken::GreaterEqual | SToken::Less | SToken::LessEqual => 2,
        SToken::EqualEqual | SToken::BangEqual => 1,
        _ => 0,
    }
}

/// The operator a binary operator token stands for.
pub open spec fn op_of(x: SToken) -> Op {
    match x {
        SToken::Star => Op::Mul,
        SToken::Slash => Op::Div,
        SToken::Plus => Op::Add,
        SToken::Minus => Op::Sub,
        SToken::Greater => Op::Gt,
        SToken::GreaterEqual => Op::Ge,
        SToken::Less => Op::Lt,
        SToken::LessEqual => Op::Le,
        SToken::EqualEqual => Op::Eq,
        _ => Op::Ne,
    }
}

/// The expression `a x b y c` of three numbers and two operators: the
/// operator that binds tighter takes its operands first, and of two that
/// bind alike the left one does.
pub open spec fn grouped(a: Seq<char>, x: SToken, b: Seq<char>, y: SToken, c: Seq<char>) -> SExpr {
    if binding(x) >= binding(y) {
        SExpr::Binary(Box::new(SExpr::Binary(Box::new(num_expr(a)), op_of(x), Box::new(num_expr(b)))), op_of(y), Box::new(num_expr(c)))
    } else {
        SExpr::Binary(Box::new(num_expr(a)), op_of(x), Box::new(SExpr::Binary(Box::new(num_expr(b)), op_of(y), Box::new(num_expr(c)))))
    }
}

/// The binding of the operators a level reads.
pub open spec fn level_binding(l: Level) -> int {
    match l {
        Level::Equality => 1,
        Level::Compare => 2,
        Level::Term => 3,
        Level::Factor => 4,
    }
}

proof fn lemma_level_op(l: Level, z: SToken)
    ensures
        level_op(l, z) == (if binding(z) == level_binding(l) { Some(op_of(z)) } else { None::<Op> }),
{
}

/// The result of reading `a x b y c` at level `l` from `a`.
pub open spec fn from_first(a: Seq<char>, x: SToken, b: Seq<char>, y: SToken, c: Seq<char>, l: Level) -> (SExpr, int) {
    let (ea, eb, ec) = (num_expr(a), num_expr(b), num_expr(c));
    let axb = SExpr::Binary(Box::new(ea), op_of(x), Box::new(eb));
    let byc = SExpr::Binary(Box::new(eb), op_of(y), Box::new(ec));
    if level_binding(l) > binding(x) {
        (ea, 1)
    } else if binding(x) >= binding(y) {
        if binding(y) < level_binding(l) { (axb, 3) } else { (SExpr::Binary(Box::new(axb), op_of(y), Box::new(ec)), 5) }
    } else {
        (SExpr::Binary(Box::new(ea), op_of(x), Box::new(byc)), 5)
    }
}

proof fn lemma_grouping_at(a: Seq<char>, x: SToken, b: Seq<char>, y: SToken, c: Seq<char>, l: Level)
    requires
        binding(x) > 0,
        binding(y) > 0,
    ensures
        sp_level(seq![SToken::Number(a), x, SToken::Number(b), y, SToken::Number(c), SToken::Eof], 4, l)
            == Ok::<(SExpr, int), SParseError>((num_expr(c), 5)),
        sp_level(seq![SToken::Number(a), x, SToken::Number(b), y, SToken::Number(c), SToken::Eof], 2, l)
            == Ok::<(SExpr, int), SParseError>(if level_binding(l) > binding(y) { (num_expr(b), 3) } else {
                (SExpr::Binary(Box::new(num_expr(b)), op_of(y), Box::new(num_expr(c))), 5) }),
        sp_level(seq![SToken::Number(a), x, SToken::Number(b), y, SToken::Number(c), SToken::Eof], 0, l)
            == Ok::<(SExpr, int), SParseError>(from_first(a, x, b, y, c, l)),
    decreases 4 - level_binding(l),
{
    let t = seq![SToken::Number(a), x, SToken::Number(b), y, SToken::Number(c), SToken::Eof];
    let (ea, eb, ec) = (num_expr(a), num_expr(b), num_expr(c));
    let axb = SExpr::Binary(Box::new(ea), op_of(x), Box::new(eb));
    let byc = SExpr::Binary(Box::new(eb), op_of(y), Box::new(ec));
    let lb = level_binding(l);
    lemma_level_op(l, x);
    lemma_level_op(l, y);
    lemma_level_op(l, SToken::Eof);
    if l == Level::Factor {
        assert(sp_postfix(t, 1, ea) == Ok::<(SExpr, int), SParseError>((ea, 1)));
        assert(sp_postfix(t, 3, eb) == Ok::<(SExpr, int), SParseError>((eb, 3)));
        assert(sp_postfix(t, 5, ec) == Ok::<(SExpr, int), SParseError>((ec, 5)));
        assert(sp_primary(t, 0) == Ok::<(SExpr, int), SParseError>((ea, 1)));
        assert(sp_primary(t, 2) == Ok::<(SExpr, int), SParseError>((eb, 3)));
        assert(sp_primary(t, 4) == Ok::<(SExpr, int), SParseError>((ec, 5)));
    } else {
        let sub = sublevel(l)->0;
        assert(level_binding(sub) == lb + 1);
        lemma_grouping_at(a, x, b, y, c, sub);
    }
    let o0 = sp_operand(t, 0, l);
    let o2 = sp_operand(t, 2, l);
    let o4 = sp_operand(t, 4, l);
    assert(o4 == Ok::<(SExpr, int), SParseError>((ec, 5)));
    assert(o2 == Ok::<(SExpr, int), SParseError>(if lb + 1 > binding(y) { (eb, 3) } else { (byc, 5) }));
    // the number at index 4
    assert(sp_level_rest(t, 5, l, ec) == Ok::<(SExpr, int), SParseError>((ec, 5)));
    // from index 2
    assert(sp_level_rest(t, 5, l, byc) == Ok::<(SExpr, int), SParseError>((byc, 5)));
    if binding(y) == lb {
        assert(sp_level_rest(t, 3, l, eb) == sp_level_rest(t, 5, l, byc));
    } else if binding(y) < lb {
        assert(sp_level_rest(t, 3, l, eb) == Ok::<(SExpr, int), SParseError>((eb, 3)));
    }
    // from index 0
    let axb_c = SExpr::Binary(Box::new(axb), op_of(y), Box::new(ec));
    let a_bc = SExpr::Binary(Box::new(ea), op_of(x), Box::new(byc));
    assert(sp_level_rest(t, 5, l, axb_c) == Ok::<(SExpr, int), SParseError>((axb_c, 5)));
    assert(sp_level_rest(t, 5, l, a_bc) == Ok::<(SExpr, int), SParseError>((a_bc, 5)));
    if binding(y) == lb {
        assert(sp_level_rest(t, 3, l, axb) == sp_level_rest(t, 5, l, axb_c));
    } else if binding(y) < lb {
        assert(sp_level_rest(t, 3, l, axb) == Ok::<(SExpr, int), SParseError>((axb, 3)));
    }
    if lb > binding(x) {
        assert(o0 == Ok::<(SExpr, int), SParseError>((ea, 1)));
        assert(sp_level_rest(t, 1, l, ea) == Ok::<(SExpr, int), SParseError>((ea, 1)));
    } else if lb == binding(x) {
        assert(o0 == Ok::<(SExpr, int), SParseError>((ea, 1)));
        if binding(y) > lb {
            assert(sp_level_rest(t, 1, l, ea) == sp_level_rest(t, 5, l, a_bc));
        } else {
            assert(sp_level_rest(t, 1, l, ea) == sp_level_rest(t, 3, l, axb));
        }
    } else {
        assert(o0 == Ok::<(SExpr, int), SParseError>(from_first(a, x, b, y, c, sublevel(l)->0)));
    }
}

/// An expression of three numbers and two binary operators parses with
/// the precedence and left associativity of the operators.
pub proof fn law_binary_grouping(a: Seq<char>, x: SToken, b: Seq<char>, y: SToken, c: Seq<char>)
    requires
        binding(x) > 0,
        binding(y) > 0,
    ensures
        sp_level(seq![SToken::Number(a), x, SToken::Number(b), y, SToken::Number(c), SToken::Eof], 0, Level::Equality)
            == Ok::<(SExpr, int), SParseError>((grouped(a, x, b, y, c), 5)),
{
    lemma_grouping_at(a, x, b, y, c, Level::Equality);
}

/// `join_front` of two prefixes in a row is `join_front` of their concatenation.
pub proof fn lemma_join_front<A>(a: Seq<A>, b: Seq<A>, r: Result<(Seq<A>, int), SParseError>)
    ensures
        join_front(a, join_front(b, r)) == join_front(a + b, r),
{
    match r {
        Ok((xs, q)) => { assert(a + (b + xs) =~= (a + b) + xs); }
        Err(_) => {}
    }
}

/// How a parse result of an expression agrees with the grammar.
pub open spec fn expr_res(r: Result<Expr, ParseError>, s: Result<(SExpr, int), SParseError>, q: int) -> bool {
    match s {
        Ok((e, p)) => r is Ok && r->Ok_0.sv() == e && q == p,
        Err(x) => r is Err && r->Err_0@ == x,
    }
}

/// How a parse result of a statement agrees with the grammar.
pub open spec fn stmt_res(r: Result<Stmt, ParseError>, s: Result<(SStmt, int), SParseError>, q: int) -> bool {
    match s {
        Ok((e, p)) => r is Ok && r->Ok_0.sv() == e && q == p,
        Err(x) => r is Err && r->Err_0@ == x,
    }
}

/// How a parse result of statements agrees with the grammar.
pub open spec fn stmts_res(r: Result<Vec<Stmt>, ParseError>, s: Result<(Seq<SStmt>, int), SParseError>, q: int) -> bool {
    match s {
        Ok((e, p)) => r is Ok && stmts_view(r->Ok_0@) == e && q == p,
        Err(x) => r is Err && r->Err_0@ == x,
    }
}

/// How a parse result of expressions agrees with the grammar.
pub open spec fn exprs_res(r: Result<Vec<Expr>, ParseError>, s: Result<(Seq<SExpr>, int), SParseError>, q: int) -> bool {
    match s {
        Ok((e, p)) => r is Ok && exprs_view(r->Ok_0@) == e && q == p,
        Err(x) => r is Err && r->Err_0@ == x,
    }
}

/// How a parse result of object fields agrees with the grammar.
pub open spec fn fields_res(r: Result<Vec<(String, Expr)>, ParseError>, s: Result<(Seq<(Seq<char>, SExpr)>, int), SParseError>, q: int) -> bool {
    match s {
        Ok((e, p)) => r is Ok && fields_view(r->Ok_0@) == e && q == p,
        Err(x) => r is Err && r->Err_0@ == x,
    }
}

/// A cursor over a token sequence that ends with `Eof`.
pub struct Parser {
    tokens: Vec<Token>,
    pos: usize,
}

impl Parser {
    /// The tokens end with `Eof` and the cursor is on one of them.
    pub closed spec fn wf(&self) -> bool {
        &&& self.tokens.len() > 0
        &&& self.pos < self.tokens.len()
        &&& self.tokens@[self.tokens.len() - 1]@ == SToken::Eof
    }

    /// The views of the tokens.
    pub closed spec fn tv(&self) -> Seq<SToken> {
        tokens_view(self.tokens@)
    }

    /// The cursor.
    pub closed spec fn at(&self) -> int {
        self.pos as int
    }

    pub fn new(tokens: Vec<Token>) -> (r: Self)
        requires
            tokens@.len() > 0,
            tokens@[tokens@.len() - 1]@ == SToken::Eof,
        ensures
            r.wf(),
            r.tv() == tokens_view(tokens@),
            r.at() == 0,
    {
        Parser { tokens, pos: 0 }
    }

    proof fn lemma_moves(&self)
        requires
            self.wf(),
            tok(self.tv(), self.at()) != SToken::Eof,
        ensures
            next(self.tv(), self.at()) == self.at() + 1,
            ahead(self.tv(), self.at(), self.at() + 1),
    {
        assert(self.tv()[self.at()] == self.tokens@[self.at()]@);
        assert(self.tv()[self.tokens.len() - 1] == self.tokens@[self.tokens.len() - 1]@);
    }

    /// The token under the cursor.
    pub fn peek(&self) -> (r: &Token)
        requires
            self.wf(),
        ensures
            r@ == tok(self.tv(), self.at()),
    {
        &self.tokens[self.pos]
    }

    /// Reads the token under the cursor; the cursor stays on the last token.
    pub fn advance(&mut self) -> (r: Token)
        requires
            old(self).wf(),
        ensures
            final(self).wf(),
            final(self).tv() == old(self).tv(),
            r@ == tok(old(self).tv(), old(self).at()),
            final(self).at() == next(old(self).tv(), old(self).at()),
    {
        let t = self.tokens[self.pos].clone();
        if self.pos + 1 < self.tokens.len() {
            self.pos += 1;
        }
        t
    }

    /// Whether the token under the cursor is `want`, a token without text.
    fn check(&self, want: &Token) -> (r: bool)
        requires
            self.wf(),
            fieldless(want@),
        ensures
            r == (tok(self.tv(), self.at()) == want@),
    {
        let a = self.tokens[self.pos].tag();
        let b = want.tag();
        proof {
            if a == b {
                lemma_same_tag(tok(self.tv(), self.at()), want@);
            }
        }
        a == b
    }

    /// Reads `want`, a token without text, or fails naming what was found.
    pub fn expect(&mut self, want: Token) -> (r: Result<(), ParseError>)
        requires
            old(self).wf(),
            fieldless(want@),
        ensures
            final(self).wf(),
            final(self).tv() == old(self).tv(),
            match sp_expect(old(self).tv(), old(self).at(), want@) {
                Ok(q) => r is Ok && final(self).at() == q,
                Err(e) => r is Err && r->Err_0@ == e,
            },
    {
        if self.check(&want) {
            self.advance();
            Ok(())
        } else {
            let found = self.tokens[self.pos].clone();
            Err(ParseError::Expected(want, found))
        }
    }

    /// The operator of level `l` under the cursor.
    fn op_at(&self, l: Level) -> (r: Option<Op>)
        requires
            self.wf(),
        ensures
            r == level_op(l, tok(self.tv(), self.at())),
    {
        let t = &self.tokens[self.pos];
        match l {
            Level::Equality => match t {
                Token::EqualEqual => Some(Op::Eq),
                Token::BangEqual => Some(Op::Ne),
                _ => None,
            },
            Level::Compare => match t {
                Token::Greater => Some(Op::Gt),
                Token::GreaterEqual => Some(Op::Ge),
                Token::Less => Some(Op::Lt),
                Token::LessEqual => Some(Op::Le),
                _ => None,
            },
            Level::Term => match t {
                Token::Plus => Some(Op::Add),
                Token::Minus => Some(Op::Sub),
                _ => None,
            },
            Level::Factor => match t {
                Token::Star => Some(Op::Mul),
                Token::Slash => Some(Op::Div),
                _ => None,
            },
        }
    }

    /// An expression.
    pub fn expression(&mut self) -> (r: Result<Expr, ParseError>)
        requires
            old(self).wf(),
        ensures
            final(self).wf(),
            final(self).tv() == old(self).tv(),
            expr_res(r, sp_level(old(self).tv(), old(self).at(), Level::Equality), final(self).at()),
            r is Ok ==> old(self).at() < final(self).at(),
        decreases old(self).tv().len() - old(self).at(), 11int,
    {
        self.level(Level::Equality)
    }

    /// An operand of level `l`.
    fn operand(&mut self, l: Level) -> (r: Result<Expr, ParseError>)
        requires
            old(self).wf(),
        ensures
            final(self).wf(),
            final(self).tv() == old(self).tv(),
            expr_res(r, sp_operand(old(self).tv(), old(self).at(), l), final(self).at()),
            r is Ok ==> old(self).at() < final(self).at(),
        decreases old(self).tv().len() - old(self).at(), level_rank(l) - 1,
    {
        match l {
            Level::Equality => self.level(Level::Compare),
            Level::Compare => self.level(Level::Term),
            Level::Term => self.level(Level::Factor),
            Level::Factor => self.primary(),
        }
    }

    /// A left-associated chain of operands of level `l`.
    fn level(&mut self, l: Level) -> (r: Result<Expr, ParseError>)
        requires
            old(self).wf(),
        ensures
            final(self).wf(),
            final(self).tv() == old(self).tv(),
            expr_res(r, sp_level(old(self).tv(), old(self).at(), l), final(self).at()),
            r is Ok ==> old(self).at() < final(self).at(),
        decreases old(self).tv().len() - old(self).at(), level_rank(l),
    {
        let ghost t = self.tv();
        let ghost p = self.at();
        let mut left = match self.operand(l) {
            Ok(e) => e,
            Err(x) => return Err(x),
        };
        loop
            invariant
                self.wf(),
                self.tv() == old(self).tv(),
                t == self.tv(),
                p == old(self).at(),
                p < self.at(),
                sp_level(t, p, l) == sp_level_rest(t, self.at(), l, left.sv()),
            ensures
                self.wf(),
                self.tv() == old(self).tv(),
                t == self.tv(),
                p < self.at(),
                sp_level(t, p, l) == Ok::<(SExpr, int), SParseError>((left.sv(), self.at())),
            decreases t.len() - self.at(),
        {
            let ghost q = self.at();
            let found = self.op_at(l);
            if found.is_none() {
                break;
            }
            let op = found.unwrap();
            proof { self.lemma_moves(); }
            self.advance();
            let right = match self.operand(l) {
                Ok(e) => e,
                Err(x) => return Err(x),
            };
            left = Expr::Binary(Box::new(left), op, Box::new(right));
            assert(ahead(t, q, self.at()));
        }
        Ok(left)
    }

    /// Expressions separated by commas up to `close`, which is not read.
    fn expr_list(&mut self, close: &Token) -> (r: Result<Vec<Expr>, ParseError>)
        requires
            old(self).wf(),
            fieldless(close@),
        ensures
            final(self).wf(),
            final(self).tv() == old(self).tv(),
            exprs_res(r, sp_expr_list(old(self).tv(), old(self).at(), close@), final(self).at()),
            r is Ok ==> old(self).at() < final(self).at(),
        decreases old(self).tv().len() - old(self).at(), 11int,
    {
        let ghost t = self.tv();
        let ghost p = self.at();
        let mut out: Vec<Expr> = Vec::new();
        assert(exprs_view(out@) =~= Seq::<SExpr>::empty());
        assert(join_front(Seq::<SExpr>::empty(), sp_expr_list(t, p, close@)) == sp_expr_list(t, p, close@)) by {
            match sp_expr_list(t, p, close@) {
                Ok((xs, q)) => { assert(Seq::<SExpr>::empty() + xs =~= xs); }
                Err(_) => {}
            }
        }
        loop
            invariant_except_break
                sp_expr_list(t, p, close@) == join_front(exprs_view(out@), sp_expr_list(t, self.at(), close@)),
            invariant
                self.wf(),
                self.tv() == old(self).tv(),
                t == self.tv(),
                p == old(self).at(),
                fieldless(close@),
                p <= self.at(),
                out.len() > 0 ==> p < self.at(),
                out.len() == 0 ==> p == self.at(),
            ensures
                self.wf(),
                self.tv() == old(self).tv(),
                p < self.at(),
                sp_expr_list(t, p, close@) == Ok::<(Seq<SExpr>, int), SParseError>((exprs_view(out@), self.at())),
            decreases t.len() - self.at(),
        {
            let ghost q = self.at();
            let e = match self.level(Level::Equality) {
                Ok(e) => e,
                Err(x) => return Err(x),
            };
            let ghost ev = e.sv();
            let ghost before = out@;
            out.push(e);
            assert(exprs_view(out@) =~= exprs_view(before) + seq![ev]);
            if self.check(close) {
                break;
            }
            match self.expect(Token::Comma) {
                Ok(()) => {}
                Err(x) => return Err(x),
            }
            proof { lemma_join_front(exprs_view(before), seq![ev], sp_expr_list(t, self.at(), close@)); }
        }
        Ok(out)
    }

    /// Items between brackets up to `close`, which is not read.
    fn items(&mut self, close: &Token) -> (r: Result<Vec<Expr>, ParseError>)
        requires
            old(self).wf(),
            fieldless(close@),
        ensures
            final(self).wf(),
            final(self).tv() == old(self).tv(),
            exprs_res(r, sp_items(old(self).tv(), old(self).at(), close@), final(self).at()),
            r is Ok ==> old(self).at() <= final(self).at(),
        decreases old(self).tv().len() - old(self).at(), 12int,
    {
        if self.check(close) {
            let v: Vec<Expr> = Vec::new();
            assert(exprs_view(v@) =~= Seq::<SExpr>::empty());
            Ok(v)
        } else {
            self.expr_list(close)
        }
    }

    /// The fields of an object literal up to a `}` that is not read.
    fn fields(&mut self) -> (r: Result<Vec<(String, Expr)>, ParseError>)
        requires
            old(self).wf(),
        ensures
            final(self).wf(),
            final(self).tv() == old(self).tv(),
            fields_res(r, sp_fields(old(self).tv(), old(self).at()), final(self).at()),
            r is Ok ==> old(self).at() < final(self).at(),
        decreases old(self).tv().len() - old(self).at(), 1int,
    {
        let ghost t = self.tv();
        let ghost p = self.at();
        let mut out: Vec<(String, Expr)> = Vec::new();
        assert(fields_view(out@) =~= Seq::<(Seq<char>, SExpr)>::empty());
        assert(join_front(Seq::<(Seq<char>, SExpr)>::empty(), sp_fields(t, p)) == sp_fields(t, p)) by {
            match sp_fields(t, p) {
                Ok((xs, q)) => { assert(Seq::<(Seq<char>, SExpr)>::empty() + xs =~= xs); }
                Err(_) => {}
            }
        }
        loop
            invariant_except_break
                sp_fields(t, p) == join_front(fields_view(out@), sp_fields(t, self.at())),
            invariant
                self.wf(),
                self.tv() == old(self).tv(),
                t == self.tv(),
                p == old(self).at(),
                p <= self.at(),
                out.len() > 0 ==> p < self.at(),
                out.len() == 0 ==> p == self.at(),
            ensures
                self.wf(),
                self.tv() == old(self).tv(),
                p < self.at(),
                sp_fields(t, p) == Ok::<(Seq<(Seq<char>, SExpr)>, int), SParseError>((fields_view(out@), self.at())),
            decreases t.len() - self.at(),
        {
            let ghost q = self.at();
            let x = self.advance();
            let key = match x {
                Token::Ident(v) => v,
                Token::Text(v) => v,
                other => return Err(ParseError::ObjectKey(other)),
            };
            proof {
                assert(tok(t, q) != SToken::Eof);
                Parser::lemma_moves_at(t, q, self.tokens@);
            }
            match self.expect(Token::Colon) {
                Ok(()) => {}
                Err(e) => return Err(e),
            }
            let value = match self.level(Level::Equality) {
                Ok(e) => e,
                Err(x) => return Err(x),
            };
            let ghost fv = (key@, value.sv());
            let ghost before = out@;
            out.push((key, value));
            assert(fields_view(out@) =~= fields_view(before) + seq![fv]);
            if self.check(&Token::RightBrace) {
                break;
            }
            match self.expect(Token::Comma) {
                Ok(()) => {}
                Err(x) => return Err(x),
            }
            proof { lemma_join_front(fields_view(before), seq![fv], sp_fields(t, self.at())); }
        }
        Ok(out)
    }

    proof fn lemma_moves_at(t: Seq<SToken>, q: int, tokens: Seq<Token>)
        requires
            t == tokens_view(tokens),
            tokens.len() > 0,
            0 <= q < tokens.len(),
            tokens[tokens.len() - 1]@ == SToken::Eof,
            tok(t, q) != SToken::Eof,
        ensures
            next(t, q) == q + 1,
            ahead(t, q, q + 1),
    {
        assert(t[q] == tokens[q]@);
        assert(t[tokens.len() - 1] == tokens[tokens.len() - 1]@);
    }

    /// Calls, indexes and field accesses applied to `e`.
    fn postfix(&mut self, e: Expr) -> (r: Result<Expr, ParseError>)
        requires
            old(self).wf(),
        ensures
            final(self).wf(),
            final(self).tv() == old(self).tv(),
            expr_res(r, sp_postfix(old(self).tv(), old(self).at(), e.sv()), final(self).at()),
            r is Ok ==> old(self).at() <= final(self).at(),
        decreases old(self).tv().len() - old(self).at(), 1int,
    {
        let ghost t = self.tv();
        let ghost p = self.at();
        let ghost e0 = e.sv();
        let mut cur = e;
        loop
            invariant
                self.wf(),
                self.tv() == old(self).tv(),
                t == self.tv(),
                p == old(self).at(),
                p <= self.at(),
                e0 == e.sv(),
                sp_postfix(t, p, e0) == sp_postfix(t, self.at(), cur.sv()),
            ensures
                self.wf(),
                self.tv() == old(self).tv(),
                p <= self.at(),
                sp_postfix(t, p, e0) == Ok::<(SExpr, int), SParseError>((cur.sv(), self.at())),
            decreases t.len() - self.at(),
        {
            let ghost q = self.at();
            let ghost ev = cur.sv();
            if self.check(&Token::LeftParen) {
                proof { self.lemma_moves(); }
                self.advance();
                let name = match cur {
                    Expr::Var(n) => n,
                    _ => {
                        assert(!(ev is Var));
                        assert(sp_postfix(t, p, e0) == sp_postfix(t, q, ev));
                        assert(tok(t, q) == SToken::LeftParen);
                        assert(sp_postfix(t, q, ev) == Err::<(SExpr, int), SParseError>(SParseError::CallTarget));
                        return Err(ParseError::CallTarget);
                    }
                };
                assert(ev == SExpr::Var(name@));
                let args = match self.items(&Token::RightParen) {
                    Ok(a) => a,
                    Err(x) => return Err(x),
                };
                match self.expect(Token::RightParen) {
                    Ok(()) => {}
                    Err(x) => return Err(x),
                }
                cur = Expr::Call(name, args);
                proof { lemma_expr_views(cur); }
            } else if self.check(&Token::LeftBracket) {
                proof { self.lemma_moves(); }
                self.advance();
                let index = match self.level(Level::Equality) {
                    Ok(i) => i,
                    Err(x) => return Err(x),
                };
                match self.expect(Token::RightBracket) {
                    Ok(()) => {}
                    Err(x) => return Err(x),
                }
                cur = Expr::Index(Box::new(cur), Box::new(index));
            } else if self.check(&Token::Dot) {
                proof { self.lemma_moves(); }
                self.advance();
                let ghost q1 = self.at();
                let x = self.advance();
                match x {
                    Token::Ident(v) => {
                        proof { Parser::lemma_moves_at(t, q1, self.tokens@); }
                        cur = Expr::Field(Box::new(cur), v);
                    }
                    other => return Err(ParseError::FieldName(other)),
                }
            } else {
                break;
            }
        }
        Ok(cur)
    }

    /// A primary expression with its postfix operations.
    fn primary(&mut self) -> (r: Result<Expr, ParseError>)
        requires
            old(self).wf(),
        ensures
            final(self).wf(),
            final(self).tv() == old(self).tv(),
            expr_res(r, sp_primary(old(self).tv(), old(self).at()), final(self).at()),
            r is Ok ==> old(self).at() < final(self).at(),
        decreases old(self).tv().len() - old(self).at(), 2int,
    {
        let ghost t = self.tv();
        let ghost p = self.at();
        let x = self.advance();
        if !(x.tag() == 34) {
            proof { Parser::lemma_moves_at(t, p, self.tokens@); }
        }
        let e = match x {
            Token::Number(v) => Expr::Value(Value::Number(v)),
            Token::Text(v) => Expr::Value(Value::Text(v)),
            Token::True => Expr::Value(Value::Boolean(true)),
            Token::False => Expr::Value(Value::Boolean(false)),
            Token::Ident(name) => Expr::Var(name),
            Token::LeftParen => {
                let e = match self.level(Level::Equality) {
                    Ok(e) => e,
                    Err(x) => return Err(x),
                };
                match self.expect(Token::RightParen) {
                    Ok(()) => {}
                    Err(x) => return Err(x),
                }
                e
            }
            Token::LeftBracket => {
                let items = match self.items(&Token::RightBracket) {
                    Ok(v) => v,
                    Err(x) => return Err(x),
                };
                match self.expect(Token::RightBracket) {
                    Ok(()) => {}
                    Err(x) => return Err(x),
                }
                let e = Expr::List(items);
                proof { lemma_expr_views(e); }
                e
            }
            Token::LeftBrace => {
                let fields = if self.check(&Token::RightBrace) {
                    let v: Vec<(String, Expr)> = Vec::new();
                    assert(fields_view(v@) =~= Seq::<(Seq<char>, SExpr)>::empty());
                    v
                } else {
                    match self.fields() {
                        Ok(v) => v,
                        Err(x) => return Err(x),
                    }
                };
                match self.expect(Token::RightBrace) {
                    Ok(()) => {}
                    Err(x) => return Err(x),
                }
                let e = Expr::Object(fields);
                proof { lemma_expr_views(e); }
                e
            }
            other => return Err(ParseError::UnexpectedExpression(other)),
        };
        self.postfix(e)
    }

    /// A block: `{`, statements, `}`.
    fn block(&mut self) -> (r: Result<Vec<Stmt>, ParseError>)
        requires
            old(self).wf(),
        ensures
            final(self).wf(),
            final(self).tv() == old(self).tv(),
            stmts_res(r, sp_block(old(self).tv(), old(self).at()), final(self).at()),
            r is Ok ==> old(self).at() < final(self).at(),
        decreases old(self).tv().len() - old(self).at(), 1int,
    {
        let ghost t = self.tv();
        let ghost p = self.at();
        match self.expect(Token::LeftBrace) {
            Ok(()) => {}
            Err(x) => return Err(x),
        }
        proof { Parser::lemma_moves_at(t, p, self.tokens@); }
        let ghost p1 = self.at();
        let mut out: Vec<Stmt> = Vec::new();
        assert(stmts_view(out@) =~= Seq::<SStmt>::empty());
        assert(join_front(Seq::<SStmt>::empty(), sp_block_rest(t, p1)) == sp_block_rest(t, p1)) by {
            match sp_block_rest(t, p1) {
                Ok((xs, q)) => { assert(Seq::<SStmt>::empty() + xs =~= xs); }
                Err(_) => {}
            }
        }
        loop
            invariant_except_break
                sp_block_rest(t, p1) == join_front(stmts_view(out@), sp_block_rest(t, self.at())),
            invariant
                self.wf(),
                self.tv() == old(self).tv(),
                t == self.tv(),
                p == old(self).at(),
                p < p1 <= self.at(),
                sp_block(t, p) == sp_block_rest(t, p1),
            ensures
                self.wf(),
                self.tv() == old(self).tv(),
                p < self.at(),
                sp_block_rest(t, p1) == Ok::<(Seq<SStmt>, int), SParseError>((stmts_view(out@), self.at())),
            decreases t.len() - self.at(),
        {
            let ghost q = self.at();
            if self.check(&Token::RightBrace) {
                proof {
                    self.lemma_moves();
                    assert(stmts_view(out@) + Seq::<SStmt>::empty() =~= stmts_view(out@));
                }
                self.advance();
                break;
            }
            if self.check(&Token::Eof) {
                return Err(ParseError::UnterminatedBlock);
            }
            let st = match self.statement() {
                Ok(st) => st,
                Err(x) => return Err(x),
            };
            let ghost sv = st.sv();
            let ghost before = out@;
            out.push(st);
            assert(stmts_view(out@) =~= stmts_view(before) + seq![sv]);
            proof { lemma_join_front(stmts_view(before), seq![sv], sp_block_rest(t, self.at())); }
        }
        Ok(out)
    }

    /// One statement.
    pub fn statement(&mut self) -> (r: Result<Stmt, ParseError>)
        requires
            old(self).wf(),
        ensures
            final(self).wf(),
            final(self).tv() == old(self).tv(),
            stmt_res(r, sp_statement(old(self).tv(), old(self).at()), final(self).at()),
            r is Ok ==> old(self).at() < final(self).at(),
        decreases old(self).tv().len() - old(self).at(), 13int,
    {
        let ghost t = self.tv();
        let ghost p = self.at();
        let x = self.tokens[self.pos].clone();
        match x {
            Token::Use => {
                proof { self.lemma_moves(); }
                self.advance();
                let y = self.advance();
                match y {
                    Token::Text(path) => Ok(Stmt::Use(path)),
                    other => Err(ParseError::ModulePath(other)),
                }
            }
            Token::Function => self.function(),
            Token::If => self.if_stmt(),
            Token::While => self.while_stmt(),
            Token::For => self.for_stmt(),
            Token::Print => {
                proof { self.lemma_moves(); }
                self.advance();
                match self.expression() {
                    Ok(e) => Ok(Stmt::Print(e)),
                    Err(x) => Err(x),
                }
            }
            Token::Return => {
                proof { self.lemma_moves(); }
                self.advance();
                match self.expression() {
                    Ok(e) => Ok(Stmt::Return(e)),
                    Err(x) => Err(x),
                }
            }
            Token::Ident(name) => {
                let assign = self.pos + 1 < self.tokens.len() && self.tokens[self.pos + 1].tag() == Token::Equal.tag();
                proof {
                    if self.pos + 1 < self.tokens.len() {
                        assert(t[p + 1] == self.tokens@[p + 1]@);
                        if assign {
                            lemma_same_tag(t[p + 1], SToken::Equal);
                        }
                    }
                }
                if assign {
                    proof { self.lemma_moves(); }
                    self.advance();
                    proof { self.lemma_moves(); }
                    self.advance();
                    match self.expression() {
                        Ok(e) => Ok(Stmt::Assign(name, e)),
                        Err(x) => Err(x),
                    }
                } else {
                    match self.expression() {
                        Ok(e) => Ok(Stmt::Expr(e)),
                        Err(x) => Err(x),
                    }
                }
            }
            _ => match self.expression() {
                Ok(e) => Ok(Stmt::Expr(e)),
                Err(x) => Err(x),
            },
        }
    }

    /// `function name(params) { body }`, with the cursor on `function`.
    fn function(&mut self) -> (r: Result<Stmt, ParseError>)
        requires
            old(self).wf(),
            tok(old(self).tv(), old(self).at()) == SToken::Function,
        ensures
            final(self).wf(),
            final(self).tv() == old(self).tv(),
            stmt_res(r, sp_function(old(self).tv(), old(self).at()), final(self).at()),
            r is Ok ==> old(self).at() < final(self).at(),
        decreases old(self).tv().len() - old(self).at(), 12int,
    {
        let ghost t = self.tv();
        let ghost p = self.at();
        proof { self.lemma_moves(); }
        self.advance();
        let ghost p1 = self.at();
        let x = self.advance();
        let name = match x {
            Token::Ident(v) => v,
            other => return Err(ParseError::FunctionName(other)),
        };
        proof { Parser::lemma_moves_at(t, p1, self.tokens@); }
        match self.expect(Token::LeftParen) {
            Ok(()) => {}
            Err(x) => return Err(x),
        }
        proof { Parser::lemma_moves_at(t, p1 + 1, self.tokens@); }
        let ghost p3 = self.at();
        let params = if self.check(&Token::RightParen) {
            let v: Vec<String> = Vec::new();
            assert(strings_view(v@) =~= Seq::<Seq<char>>::empty());
            v
        } else {
            match self.params() {
                Ok(v) => v,
                Err(x) => return Err(x),
            }
        };
        match self.expect(Token::RightParen) {
            Ok(()) => {}
            Err(x) => return Err(x),
        }
        let body = match self.block() {
            Ok(b) => b,
            Err(x) => return Err(x),
        };
        let st = Stmt::Function(name, params, body);
        proof { lemma_stmt_views(st); }
        Ok(st)
    }

    /// Parameter names separated by commas up to a `)` that is not read.
    fn params(&mut self) -> (r: Result<Vec<String>, ParseError>)
        requires
            old(self).wf(),
        ensures
            final(self).wf(),
            final(self).tv() == old(self).tv(),
            match sp_params(old(self).tv(), old(self).at()) {
                Ok((ps, q)) => r is Ok && strings_view(r->Ok_0@) == ps && final(self).at() == q,
                Err(x) => r is Err && r->Err_0@ == x,
            },
            r is Ok ==> old(self).at() < final(self).at(),
    {
        let ghost t = self.tv();
        let ghost p3 = self.at();
        let mut params: Vec<String> = Vec::new();
        assert(strings_view(params@) =~= Seq::<Seq<char>>::empty());
        assert(join_front(Seq::<Seq<char>>::empty(), sp_params(t, p3)) == sp_params(t, p3)) by {
            match sp_params(t, p3) {
                Ok((xs, q)) => { assert(Seq::<Seq<char>>::empty() + xs =~= xs); }
                Err(_) => {}
            }
        }
        loop
            invariant_except_break
                sp_params(t, p3) == join_front(strings_view(params@), sp_params(t, self.at())),
            invariant
                self.wf(),
                self.tv() == old(self).tv(),
                t == self.tv(),
                p3 <= self.at(),
                p3 == old(self).at(),
            ensures
                self.wf(),
                self.tv() == old(self).tv(),
                p3 < self.at(),
                sp_params(t, p3) == Ok::<(Seq<Seq<char>>, int), SParseError>((strings_view(params@), self.at())),
            decreases t.len() - self.at(),
        {
            let ghost q = self.at();
            let y = self.advance();
            let v = match y {
                Token::Ident(v) => v,
                other => return Err(ParseError::Parameter(other)),
            };
            proof { Parser::lemma_moves_at(t, q, self.tokens@); }
            let ghost vv = v@;
            let ghost before = params@;
            params.push(v);
            assert(strings_view(params@) =~= strings_view(before) + seq![vv]);
            if self.check(&Token::RightParen) {
                break;
            }
            match self.expect(Token::Comma) {
                Ok(()) => {}
                Err(x) => return Err(x),
            }
            proof { lemma_join_front(strings_view(before), seq![vv], sp_params(t, self.at())); }
        }
        Ok(params)
    }

    /// `if cond { .. } else { .. }`, with the cursor on `if`.
    fn if_stmt(&mut self) -> (r: Result<Stmt, ParseError>)
        requires
            old(self).wf(),
            tok(old(self).tv(), old(self).at()) == SToken::If,
        ensures
            final(self).wf(),
            final(self).tv() == old(self).tv(),
            stmt_res(r, sp_if(old(self).tv(), old(self).at()), final(self).at()),
            r is Ok ==> old(self).at() < final(self).at(),
        decreases old(self).tv().len() - old(self).at(), 12int,
    {
        proof { self.lemma_moves(); }
        self.advance();
        let cond = match self.expression() {
            Ok(e) => e,
            Err(x) => return Err(x),
        };
        let yes = match self.block() {
            Ok(b) => b,
            Err(x) => return Err(x),
        };
        let no = if self.check(&Token::Else) {
            proof { self.lemma_moves(); }
            self.advance();
            match self.block() {
                Ok(b) => b,
                Err(x) => return Err(x),
            }
        } else {
            let v: Vec<Stmt> = Vec::new();
            assert(stmts_view(v@) =~= Seq::<SStmt>::empty());
            v
        };
        let st = Stmt::If(cond, yes, no);
        proof { lemma_stmt_views(st); }
        Ok(st)
    }

    /// `while cond { .. }`, with the cursor on `while`.
    fn while_stmt(&mut self) -> (r: Result<Stmt, ParseError>)
        requires
            old(self).wf(),
            tok(old(self).tv(), old(self).at()) == SToken::While,
        ensures
            final(self).wf(),
            final(self).tv() == old(self).tv(),
            stmt_res(r, sp_while(old(self).tv(), old(self).at()), final(self).at()),
            r is Ok ==> old(self).at() < final(self).at(),
        decreases old(self).tv().len() - old(self).at(), 12int,
    {
        proof { self.lemma_moves(); }
        self.advance();
        let cond = match self.expression() {
            Ok(e) => e,
            Err(x) => return Err(x),
        };
        let body = match self.block() {
            Ok(b) => b,
            Err(x) => return Err(x),
        };
        let st = Stmt::While(cond, body);
        proof { lemma_stmt_views(st); }
        Ok(st)
    }

    /// `for name in iterable { .. }`, with the cursor on `for`.
    fn for_stmt(&mut self) -> (r: Result<Stmt, ParseError>)
        requires
            old(self).wf(),
            tok(old(self).tv(), old(self).at()) == SToken::For,
        ensures
            final(self).wf(),
            final(self).tv() == old(self).tv(),
            stmt_res(r, sp_for(old(self).tv(), old(self).at()), final(self).at()),
            r is Ok ==> old(self).at() < final(self).at(),
        decreases old(self).tv().len() - old(self).at(), 12int,
    {
        let ghost t = self.tv();
        proof { self.lemma_moves(); }
        self.advance();
        let ghost p1 = self.at();
        let x = self.advance();
        let name = match x {
            Token::Ident(v) => v,
            other => return Err(ParseError::ForVariable(other)),
        };
        proof { Parser::lemma_moves_at(t, p1, self.tokens@); }
        match self.expect(Token::In) {
            Ok(()) => {}
            Err(x) => return Err(x),
        }
        let iterable = match self.expression() {
            Ok(e) => e,
            Err(x) => return Err(x),
        };
        let body = match self.block() {
            Ok(b) => b,
            Err(x) => return Err(x),
        };
        let st = Stmt::For(name, iterable, body);
        proof { lemma_stmt_views(st); }
        Ok(st)
    }

    /// Statements up to `Eof`.
    pub fn program(&mut self) -> (r: Result<Vec<Stmt>, ParseError>)
        requires
            old(self).wf(),
        ensures
            final(self).wf(),
            final(self).tv() == old(self).tv(),
            stmts_res(r, sp_program(old(self).tv(), old(self).at()), final(self).at()),
        decreases old(self).tv().len() - old(self).at(), 14int,
    {
        let ghost t = self.tv();
        let ghost p = self.at();
        let mut out: Vec<Stmt> = Vec::new();
        assert(stmts_view(out@) =~= Seq::<SStmt>::empty());
        assert(join_front(Seq::<SStmt>::empty(), sp_program(t, p)) == sp_program(t, p)) by {
            match sp_program(t, p) {
                Ok((xs, q)) => { assert(Seq::<SStmt>::empty() + xs =~= xs); }
                Err(_) => {}
            }
        }
        loop
            invariant_except_break
                sp_program(t, p) == join_front(stmts_view(out@), sp_program(t, self.at())),
            invariant
                self.wf(),
                self.tv() == old(self).tv(),
                t == self.tv(),
                p == old(self).at(),
                p <= self.at(),
            ensures
                self.wf(),
                self.tv() == old(self).tv(),
                sp_program(t, p) == Ok::<(Seq<SStmt>, int), SParseError>((stmts_view(out@), self.at())),
            decreases t.len() - self.at(),
        {
            if self.check(&Token::Eof) {
                assert(stmts_view(out@) + Seq::<SStmt>::empty() =~= stmts_view(out@));
                break;
            }
            let st = match self.statement() {
                Ok(st) => st,
                Err(x) => return Err(x),
            };
            let ghost sv = st.sv();
            let ghost before = out@;
            out.push(st);
            assert(stmts_view(out@) =~= stmts_view(before) + seq![sv]);
            proof { lemma_join_front(stmts_view(before), seq![sv], sp_program(t, self.at())); }
        }
        Ok(out)
    }
}

/// The statements of a token sequence that ends with `Eof`, or the first
/// syntax error.
pub fn parse_tokens(tokens: Vec<Token>) -> (r: Result<Vec<Stmt>, ParseError>)
    requires
        tokens@.len() > 0,
        tokens@[tokens@.len() - 1]@ == SToken::Eof,
    ensures
        match sp_program(tokens_view(tokens@), 0) {
            Ok((ss, _)) => r is Ok && stmts_view(r->Ok_0@) == ss,
            Err(e) => r is Err && r->Err_0@ == e,
        },
{
    let mut parser = Parser::new(tokens);
    parser.program()
}


/// Every successful lexing ends with `Eof`.
pub proof fn lemma_lex_ends_with_eof(s: Seq<char>)
    ensures
        spec_lex(s) is Ok ==> spec_lex(s)->Ok_0.len() > 0 && spec_lex(s)->Ok_0.last() == SToken::Eof,
    decreases s.len(),
{
    if s.len() > 0 {
        let c = s[0];
        let next_eq = s.len() > 1 && s[1] == '=';
        if is_space(c) {
            lemma_lex_ends_with_eof(s.drop_first());
        } else if c == '#' {
            lemma_span_len(s, CharClass::NotNewline);
            let n = span(s, CharClass::NotNewline);
            if n > 0 {
                lemma_lex_ends_with_eof(s.skip(n as int));
            }
        } else if c == '"' {
            lemma_string_body_len(s.drop_first());
            if let Ok((v, n)) = spec_string_body(s.drop_first()) {
                lemma_lex_ends_with_eof(s.skip(n as int + 1));
                if let Ok(ts) = spec_lex(s.skip(n as int + 1)) {
                    assert((seq![SToken::Text(v)] + ts).last() == ts.last());
                }
            }
        } else if is_digit(c) {
            lemma_span_len(s, CharClass::NumberChar);
            let n = span(s, CharClass::NumberChar);
            if n > 0 {
                lemma_lex_ends_with_eof(s.skip(n as int));
                if let Ok(ts) = spec_lex(s.skip(n as int)) {
                    assert((seq![SToken::Number(s.take(n as int))] + ts).last() == ts.last());
                }
            }
        } else if is_ident_start(c) {
            lemma_span_len(s, CharClass::IdentChar);
            let n = span(s, CharClass::IdentChar);
            if n > 0 {
                lemma_lex_ends_with_eof(s.skip(n as int));
                if let Ok(ts) = spec_lex(s.skip(n as int)) {
                    let k = crate::lexer::keyword_token(s.take(n as int));
                    assert((seq![k] + ts).last() == ts.last());
                }
            }
        } else if single_token(c) is Some || !next_eq {
            lemma_lex_ends_with_eof(s.drop_first());
            if let Ok(ts) = spec_lex(s.drop_first()) {
                let k = if single_token(c) is Some { single_token(c)->0 } else if c == '=' {
                    SToken::Equal
                } else if c == '>' {
                    SToken::Greater
                } else {
                    SToken::Less
                };
                assert((seq![k] + ts).last() == ts.last());
            }
        } else {
            lemma_lex_ends_with_eof(s.skip(2));
            if let Ok(ts) = spec_lex(s.skip(2)) {
                let k = if c == '=' {
                    SToken::EqualEqual
                } else if c == '!' {
                    SToken::BangEqual
                } else if c == '>' {
                    SToken::GreaterEqual
                } else {
                    SToken::LessEqual
                };
                assert((seq![k] + ts).last() == ts.last());
            }
        }
    }
}

/// Why a source text is not a program: a lexical error with its message, or
/// a syntax error.
#[derive(Debug)]
pub enum SyntaxError {
    Lex(String),
    Parse(ParseError),
}

/// The statements of a source text: its tokens read by [`Lexer::lex`], then
/// parsed by [`parse_tokens`].
pub fn parse_source(src: &str) -> (r: Result<Vec<Stmt>, SyntaxError>)
    ensures
        match spec_lex(src@) {
            Err(m) => r matches Err(SyntaxError::Lex(x)) && x@ == m,
            Ok(ts) => match sp_program(ts, 0) {
                Ok((ss, _)) => r is Ok && stmts_view(r->Ok_0@) == ss,
                Err(e) => r matches Err(SyntaxError::Parse(x)) && x@ == e,
            },
        },
{
    let mut lexer = Lexer::new(src);
    let tokens = match lexer.lex() {
        Ok(ts) => ts,
        Err(m) => return Err(SyntaxError::Lex(m)),
    };
    proof {
        lemma_lex_ends_with_eof(src@);
        assert(tokens_view(tokens@).last() == tokens@[tokens@.len() - 1]@);
    }
    match parse_tokens(tokens) {
        Ok(ss) => Ok(ss),
        Err(e) => Err(SyntaxError::Parse(e)),
    }
}

} // verus!
