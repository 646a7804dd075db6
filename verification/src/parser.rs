//! The parser: tokens to a syntax tree, by top-down operator precedence.
//!
//! The mathematical model of the parser is a family of spec functions over
//! the source bytes and a `PState` (lexer position, current and next token,
//! errors so far), one for each parsing method. Each method is proved to
//! compute exactly what its spec function says.
use vstd::prelude::*;
use crate::token::{Token, TokenType, token_name};
use crate::lexer::{Lexer, next_token_spec, remaining, lemma_next_token_progress, lemma_next_token_at_end};
use crate::ast::{
    BlockStatement, Expression, Identifier, LetStatement, Program, ReturnStatement, SExpr, SStmt,
    Statement, exprs_view, idents_view, pairs_view, stmts_view,
};
use crate::text::{push_str, parse_i64, parse_i64_spec};

verus! {

broadcast use vstd::std_specs::vec::group_vec_axioms, vstd::seq::group_seq_axioms;

/// A token as the parser sees it.
pub struct STok {
    pub kind: TokenType,
    pub text: Seq<char>,
}

/// The parser's state: where the lexer stands, the current and the next
/// token, and the error messages so far.
pub struct PState {
    pub pos: int,
    pub curr: STok,
    pub peek: STok,
    pub errors: Seq<Seq<char>>,
}

/// The token that the lexer gives at `p`, and where it stops.
pub open spec fn lex(s: Seq<u8>, p: int) -> (STok, int) {
    let t = next_token_spec(s, p);
    (STok { kind: t.0, text: t.1 }, t.2)
}

/// The state after moving one token forward.
pub open spec fn nx(s: Seq<u8>, st: PState) -> PState {
    let t = lex(s, st.pos);
    PState { pos: t.1, curr: st.peek, peek: t.0, errors: st.errors }
}

/// The state of a fresh parser over a lexer standing at `p`.
pub open spec fn start_state(s: Seq<u8>, p: int) -> PState {
    let c = lex(s, p);
    let k = lex(s, c.1);
    PState { pos: k.1, curr: c.0, peek: k.0, errors: Seq::empty() }
}

/// `st` with one more error message.
pub open spec fn with_error(st: PState, msg: Seq<char>) -> PState {
    PState { errors: st.errors.push(msg), ..st }
}

/// The message for a next token of the wrong kind.
pub open spec fn peek_error_msg(expected: TokenType, got: TokenType) -> Seq<char> {
    "expected next token to be "@ + token_name(expected) + ", got "@ + token_name(got)
        + " instead"@
}

/// The message for a token that cannot start an expression.
pub open spec fn no_prefix_msg(t: TokenType) -> Seq<char> {
    "no prefix parse functions for "@ + token_name(t) + " found"@
}

/// The message for an integer literal that does not fit in an `i64`.
pub open spec fn bad_int_msg(text: Seq<char>) -> Seq<char> {
    "could not parse \""@ + text + "\" as integer"@
}

/// Moves forward when the next token has kind `t`; records an error otherwise.
pub open spec fn expect_peek(s: Seq<u8>, st: PState, t: TokenType) -> (bool, PState) {
    if st.peek.kind == t {
        (true, nx(s, st))
    } else {
        (false, with_error(st, peek_error_msg(t, st.peek.kind)))
    }
}

/// Binding power of operators, from `Lowest` up to `Index`.
pub open spec fn prec_lowest() -> int {
    1
}

/// Binding power of prefix operators.
pub open spec fn prec_prefix() -> int {
    6
}

/// The binding power of a token in infix position.
pub open spec fn prec_of(t: TokenType) -> int {
    match t {
        TokenType::Eq | TokenType::NotEq => 2,
        TokenType::Lt | TokenType::Gt => 3,
        TokenType::Plus | TokenType::Minus => 4,
        TokenType::Slash | TokenType::Asterisk => 5,
        TokenType::LParen => 7,
        TokenType::LBracket => 8,
        _ => 1,
    }
}

/// The tokens that continue an expression in infix position.
pub open spec fn has_infix(t: TokenType) -> bool {
    match t {
        TokenType::Plus | TokenType::Minus | TokenType::Slash | TokenType::Asterisk
        | TokenType::Eq | TokenType::NotEq | TokenType::Lt | TokenType::Gt
        | TokenType::LParen | TokenType::LBracket => true,
        _ => false,
    }
}

/// 1 for a token that is not `Eof`.
pub open spec fn tok_weight(t: STok) -> nat {
    if t.kind == TokenType::Eof {
        0
    } else {
        1
    }
}

/// What is left to parse: it never grows, and shrinks whenever a token
/// other than a final `Eof` is consumed.
pub open spec fn measure(s: Seq<u8>, st: PState) -> nat {
    4 * remaining(s, st.pos) + tok_weight(st.curr) + 2 * tok_weight(st.peek)
}

/// Whether two states stand at the same place in the token stream.
pub open spec fn same_place(a: PState, b: PState) -> bool {
    a.pos == b.pos && a.curr == b.curr && a.peek == b.peek
}

/// The errors of `a` are the first errors of `b`.
pub open spec fn keeps_errors(a: PState, b: PState) -> bool {
    &&& a.errors.len() <= b.errors.len()
    &&& forall|i: int| 0 <= i < a.errors.len() ==> #[trigger] b.errors[i] == a.errors[i]
}

/// `b` is no further back than `a`, either further on or at the same place,
/// and has kept the errors of `a`.
pub open spec fn progressed(s: Seq<u8>, a: PState, b: PState) -> bool {
    &&& measure(s, b) <= measure(s, a)
    &&& measure(s, b) < measure(s, a) || same_place(a, b)
    &&& keeps_errors(a, b)
}

/// A state that the lexer can produce: the position lies in the input and an
/// `Eof` token has no text.
pub open spec fn state_wf(s: Seq<u8>, st: PState) -> bool {
    &&& 0 <= st.pos <= s.len()
    &&& st.curr.kind == TokenType::Eof ==> st.curr.text == Seq::<char>::empty()
    &&& st.peek.kind == TokenType::Eof ==> st.peek.text == Seq::<char>::empty()
}

/// Moving one token forward never increases the measure, and decreases it
/// unless both tokens are `Eof`; on a well-formed state it either decreases
/// or leaves the state where it was.
pub proof fn lemma_nx(s: Seq<u8>, st: PState)
    ensures
        measure(s, nx(s, st)) <= measure(s, st),
        st.curr.kind != TokenType::Eof || st.peek.kind != TokenType::Eof ==> measure(s, nx(s, st))
            < measure(s, st),
        state_wf(s, st) ==> state_wf(s, nx(s, st)) && progressed(s, st, nx(s, st)),
{
    lemma_next_token_progress(s, st.pos);
    if state_wf(s, st) && measure(s, nx(s, st)) == measure(s, st) {
        lemma_next_token_at_end(s);
    }
}

/// `expect_peek` never increases the measure, and keeps a well-formed state
/// well-formed and progressed.
pub proof fn lemma_expect_peek(s: Seq<u8>, st: PState, t: TokenType)
    ensures
        measure(s, expect_peek(s, st, t).1) <= measure(s, st),
        state_wf(s, st) ==> state_wf(s, expect_peek(s, st, t).1) && progressed(
            s,
            st,
            expect_peek(s, st, t).1,
        ),
        expect_peek(s, st, t).0 && t != TokenType::Eof ==> measure(s, expect_peek(s, st, t).1)
            < measure(s, st),
{
    lemma_nx(s, st);
}

/// Moves forward to the end of the statement: a `;` or `Eof`.
pub open spec fn skip_to_semicolon(s: Seq<u8>, st: PState) -> PState
    decreases measure(s, st),
{
    if st.curr.kind == TokenType::Semicolon || st.curr.kind == TokenType::Eof {
        st
    } else {
        proof {
            lemma_nx(s, st);
        }
        skip_to_semicolon(s, nx(s, st))
    }
}

/// An integer literal.
pub open spec fn p_int(st: PState) -> (Option<SExpr>, PState) {
    match parse_i64_spec(st.curr.text) {
        Some(v) => (Some(SExpr::Int(v)), st),
        None => (None, with_error(st, bad_int_msg(st.curr.text))),
    }
}

/// The parameter names of a function literal, the current token being `(`.
pub open spec fn p_params(s: Seq<u8>, st: PState) -> (Option<Seq<Seq<char>>>, PState) {
    if st.peek.kind == TokenType::RParen {
        (Some(Seq::empty()), nx(s, st))
    } else {
        let st1 = nx(s, st);
        p_params_rest(s, st1, seq![st1.curr.text])
    }
}

/// The rest of a parameter list, `acc` holding the names so far.
pub open spec fn p_params_rest(s: Seq<u8>, st: PState, acc: Seq<Seq<char>>) -> (
    Option<Seq<Seq<char>>>,
    PState,
)
    decreases measure(s, st),
{
    if st.peek.kind == TokenType::Comma {
        proof {
            lemma_nx(s, st);
            lemma_nx(s, nx(s, st));
        }
        let st2 = nx(s, nx(s, st));
        p_params_rest(s, st2, acc.push(st2.curr.text))
    } else {
        let e = expect_peek(s, st, TokenType::RParen);
        if e.0 {
            (Some(acc), e.1)
        } else {
            (None, e.1)
        }
    }
}

/// A statement, by the kind of its first token.
pub open spec fn p_statement(s: Seq<u8>, st: PState) -> (Option<SStmt>, PState)
    decreases measure(s, st), 12nat,
{
    match st.curr.kind {
        TokenType::Let => p_let(s, st),
        TokenType::Return => p_return(s, st),
        _ => p_expr_stmt(s, st),
    }
}

/// `let <ident> = <expression>`, up to the `;`.
pub open spec fn p_let(s: Seq<u8>, st: PState) -> (Option<SStmt>, PState)
    decreases measure(s, st), 11nat,
{
    let e1 = expect_peek(s, st, TokenType::Ident);
    if !e1.0 {
        (None, e1.1)
    } else {
        let name = e1.1.curr.text;
        let e2 = expect_peek(s, e1.1, TokenType::Assign);
        if !e2.0 {
            (None, e2.1)
        } else {
            let st3 = nx(s, e2.1);
            proof {
                lemma_expect_peek(s, st, TokenType::Ident);
                lemma_expect_peek(s, e1.1, TokenType::Assign);
                lemma_nx(s, e2.1);
            }
            let v = p_expression(s, st3, prec_lowest());
            match v.0 {
                None => (None, v.1),
                Some(e) => (Some(SStmt::Let(name, e)), skip_to_semicolon(s, v.1)),
            }
        }
    }
}

/// `return <expression>`, up to the `;`; the value may be missing.
pub open spec fn p_return(s: Seq<u8>, st: PState) -> (Option<SStmt>, PState)
    decreases measure(s, st), 11nat,
{
    let st1 = nx(s, st);
    proof {
        lemma_nx(s, st);
    }
    let v = p_expression(s, st1, prec_lowest());
    (Some(SStmt::Return(v.0)), skip_to_semicolon(s, v.1))
}

/// An expression standing as a statement, with an optional `;`.
pub open spec fn p_expr_stmt(s: Seq<u8>, st: PState) -> (Option<SStmt>, PState)
    decreases measure(s, st), 11nat,
{
    let v = p_expression(s, st, prec_lowest());
    match v.0 {
        None => (None, v.1),
        Some(e) => if v.1.peek.kind == TokenType::Semicolon {
            (Some(SStmt::Expr(e)), nx(s, v.1))
        } else {
            (Some(SStmt::Expr(e)), v.1)
        },
    }
}

/// An expression whose operators bind tighter than `prec`.
pub open spec fn p_expression(s: Seq<u8>, st: PState, prec: int) -> (Option<SExpr>, PState)
    decreases measure(s, st), 7nat,
{
    let t = st.curr;
    let left = match t.kind {
        TokenType::Ident => (Some(SExpr::Ident(t.text)), st),
        TokenType::Int => p_int(st),
        TokenType::String => (Some(SExpr::Str(t.text)), st),
        TokenType::Bang | TokenType::Minus => p_prefix(s, st),
        TokenType::True => (Some(SExpr::Bool(true)), st),
        TokenType::False => (Some(SExpr::Bool(false)), st),
        TokenType::LParen => p_grouped(s, st),
        TokenType::If => p_if(s, st),
        TokenType::Function => p_function(s, st),
        TokenType::LBracket => p_array(s, st),
        TokenType::LBrace => p_hash(s, st),
        _ => (None, with_error(st, no_prefix_msg(t.kind))),
    };
    match left.0 {
        None => (None, left.1),
        Some(l) => if measure(s, left.1) <= measure(s, st) {
            p_infix_loop(s, left.1, prec, l)
        } else {
            (None, left.1)
        },
    }
}

/// Extends `left` with infix operators that bind tighter than `prec`.
pub open spec fn p_infix_loop(s: Seq<u8>, st: PState, prec: int, left: SExpr) -> (
    Option<SExpr>,
    PState,
)
    decreases measure(s, st), 5nat,
{
    if st.peek.kind == TokenType::Semicolon || !(prec < prec_of(st.peek.kind)) || !has_infix(
        st.peek.kind,
    ) {
        (Some(left), st)
    } else {
        let st1 = nx(s, st);
        proof {
            lemma_nx(s, st);
        }
        let r = if st1.curr.kind == TokenType::LParen {
            p_call(s, st1, left)
        } else if st1.curr.kind == TokenType::LBracket {
            p_index(s, st1, left)
        } else {
            p_infix(s, st1, left)
        };
        match r.0 {
            None => (None, r.1),
            Some(e) => if measure(s, r.1) < measure(s, st) {
                p_infix_loop(s, r.1, prec, e)
            } else {
                (None, r.1)
            },
        }
    }
}

/// A prefix operator and its operand.
pub open spec fn p_prefix(s: Seq<u8>, st: PState) -> (Option<SExpr>, PState)
    decreases measure(s, st), 6nat,
{
    let op = st.curr.text;
    let st1 = nx(s, st);
    if measure(s, st1) < measure(s, st) {
        let r = p_expression(s, st1, prec_prefix());
        match r.0 {
            None => (None, r.1),
            Some(e) => (Some(SExpr::Prefix(op, Box::new(e))), r.1),
        }
    } else {
        (None, st1)
    }
}

/// An infix operator, its left operand given, and its right operand.
pub open spec fn p_infix(s: Seq<u8>, st: PState, left: SExpr) -> (Option<SExpr>, PState)
    decreases measure(s, st), 4nat,
{
    let op = st.curr.text;
    let prec = prec_of(st.curr.kind);
    let st1 = nx(s, st);
    if measure(s, st1) < measure(s, st) {
        let r = p_expression(s, st1, prec);
        match r.0 {
            None => (None, r.1),
            Some(e) => (Some(SExpr::Infix(op, Box::new(left), Box::new(e))), r.1),
        }
    } else {
        (None, st1)
    }
}

/// `( <expression> )`.
pub open spec fn p_grouped(s: Seq<u8>, st: PState) -> (Option<SExpr>, PState)
    decreases measure(s, st), 6nat,
{
    let st1 = nx(s, st);
    if measure(s, st1) < measure(s, st) {
        let r = p_expression(s, st1, prec_lowest());
        match r.0 {
            None => (None, r.1),
            Some(e) => {
                let c = expect_peek(s, r.1, TokenType::RParen);
                if c.0 {
                    (Some(e), c.1)
                } else {
                    (None, c.1)
                }
            },
        }
    } else {
        (None, st1)
    }
}

/// `if (<condition>) { ... }`, with an optional `else { ... }`.
pub open spec fn p_if(s: Seq<u8>, st: PState) -> (Option<SExpr>, PState)
    decreases measure(s, st), 6nat,
{
    let e1 = expect_peek(s, st, TokenType::LParen);
    if !e1.0 {
        (None, e1.1)
    } else {
        let st2 = nx(s, e1.1);
        if measure(s, st2) < measure(s, st) {
            let c = p_expression(s, st2, prec_lowest());
            match c.0 {
                None => (None, c.1),
                Some(cond) => {
                    let e2 = expect_peek(s, c.1, TokenType::RParen);
                    if !e2.0 {
                        (None, e2.1)
                    } else {
                        let e3 = expect_peek(s, e2.1, TokenType::LBrace);
                        if !e3.0 {
                            (None, e3.1)
                        } else if measure(s, e3.1) < measure(s, st) {
                            let b = p_block(s, e3.1);
                            if b.1.peek.kind == TokenType::Else {
                                let e4 = expect_peek(s, nx(s, b.1), TokenType::LBrace);
                                if !e4.0 {
                                    (None, e4.1)
                                } else if measure(s, e4.1) < measure(s, st) {
                                    let a = p_block(s, e4.1);
                                    (Some(SExpr::If(Box::new(cond), b.0, Some(a.0))), a.1)
                                } else {
                                    (None, e4.1)
                                }
                            } else {
                                (Some(SExpr::If(Box::new(cond), b.0, None)), b.1)
                            }
                        } else {
                            (None, e3.1)
                        }
                    }
                },
            }
        } else {
            (None, st2)
        }
    }
}

/// `{ <statements> }`, the current token being `{`.
pub open spec fn p_block(s: Seq<u8>, st: PState) -> (Seq<SStmt>, PState)
    decreases measure(s, st), 14nat,
{
    proof {
        lemma_nx(s, st);
    }
    p_block_rest(s, nx(s, st), Seq::empty())
}

/// The statements of a block up to its `}` (or `Eof`), `acc` holding those so far.
pub open spec fn p_block_rest(s: Seq<u8>, st: PState, acc: Seq<SStmt>) -> (Seq<SStmt>, PState)
    decreases measure(s, st), 13nat,
{
    if st.curr.kind == TokenType::RBrace || st.curr.kind == TokenType::Eof {
        (acc, st)
    } else {
        let r = p_statement(s, st);
        let acc1 = match r.0 {
            Some(x) => acc.push(x),
            None => acc,
        };
        let st2 = nx(s, r.1);
        if measure(s, st2) < measure(s, st) {
            p_block_rest(s, st2, acc1)
        } else {
            (acc1, st2)
        }
    }
}

/// `fn (<parameters>) { ... }`.
pub open spec fn p_function(s: Seq<u8>, st: PState) -> (Option<SExpr>, PState)
    decreases measure(s, st), 6nat,
{
    let e1 = expect_peek(s, st, TokenType::LParen);
    if !e1.0 {
        (None, e1.1)
    } else {
        let ps = p_params(s, e1.1);
        match ps.0 {
            None => (None, ps.1),
            Some(params) => {
                let e2 = expect_peek(s, ps.1, TokenType::LBrace);
                if !e2.0 {
                    (None, e2.1)
                } else if measure(s, e2.1) < measure(s, st) {
                    let b = p_block(s, e2.1);
                    (Some(SExpr::Function(params, b.0)), b.1)
                } else {
                    (None, e2.1)
                }
            },
        }
    }
}

/// A call: the function given, the current token being `(`.
pub open spec fn p_call(s: Seq<u8>, st: PState, f: SExpr) -> (Option<SExpr>, PState)
    decreases measure(s, st), 4nat,
{
    let r = p_expr_list(s, st, TokenType::RParen);
    match r.0 {
        None => (None, r.1),
        Some(args) => (Some(SExpr::Call(Box::new(f), args)), r.1),
    }
}

/// `[ <elements> ]`.
pub open spec fn p_array(s: Seq<u8>, st: PState) -> (Option<SExpr>, PState)
    decreases measure(s, st), 6nat,
{
    let r = p_expr_list(s, st, TokenType::RBracket);
    match r.0 {
        None => (None, r.1),
        Some(els) => (Some(SExpr::Array(els)), r.1),
    }
}

/// A comma-separated list of expressions closed by `end`.
pub open spec fn p_expr_list(s: Seq<u8>, st: PState, end: TokenType) -> (
    Option<Seq<SExpr>>,
    PState,
)
    decreases measure(s, st), 3nat,
{
    if st.peek.kind == end {
        (Some(Seq::empty()), nx(s, st))
    } else {
        let st1 = nx(s, st);
        if measure(s, st1) < measure(s, st) {
            let r = p_expression(s, st1, prec_lowest());
            match r.0 {
                None => (None, r.1),
                Some(x) => if measure(s, r.1) <= measure(s, st) {
                    p_list_rest(s, r.1, end, seq![x])
                } else {
                    (None, r.1)
                },
            }
        } else {
            (None, st1)
        }
    }
}

/// The rest of an expression list, `acc` holding the elements so far.
pub open spec fn p_list_rest(s: Seq<u8>, st: PState, end: TokenType, acc: Seq<SExpr>) -> (
    Option<Seq<SExpr>>,
    PState,
)
    decreases measure(s, st), 2nat,
{
    if st.peek.kind == TokenType::Comma {
        let st1 = nx(s, nx(s, st));
        if measure(s, st1) < measure(s, st) {
            let r = p_expression(s, st1, prec_lowest());
            match r.0 {
                None => (None, r.1),
                Some(x) => if measure(s, r.1) < measure(s, st) {
                    p_list_rest(s, r.1, end, acc.push(x))
                } else {
                    (None, r.1)
                },
            }
        } else {
            (None, st1)
        }
    } else {
        let e = expect_peek(s, st, end);
        if e.0 {
            (Some(acc), e.1)
        } else {
            (None, e.1)
        }
    }
}

/// `<left>[<index>]`, the current token being `[`.
pub open spec fn p_index(s: Seq<u8>, st: PState, left: SExpr) -> (Option<SExpr>, PState)
    decreases measure(s, st), 4nat,
{
    let st1 = nx(s, st);
    if measure(s, st1) < measure(s, st) {
        let r = p_expression(s, st1, prec_lowest());
        match r.0 {
            None => (None, r.1),
            Some(i) => {
                let e = expect_peek(s, r.1, TokenType::RBracket);
                if e.0 {
                    (Some(SExpr::Index(Box::new(left), Box::new(i))), e.1)
                } else {
                    (None, e.1)
                }
            },
        }
    } else {
        (None, st1)
    }
}

/// `{ <key>: <value>, ... }`.
pub open spec fn p_hash(s: Seq<u8>, st: PState) -> (Option<SExpr>, PState)
    decreases measure(s, st), 6nat,
{
    p_hash_rest(s, st, Seq::empty())
}

/// The rest of a hash literal, `acc` holding the entries so far.
pub open spec fn p_hash_rest(s: Seq<u8>, st: PState, acc: Seq<(SExpr, SExpr)>) -> (
    Option<SExpr>,
    PState,
)
    decreases measure(s, st), 5nat,
{
    if st.peek.kind == TokenType::RBrace {
        let e = expect_peek(s, st, TokenType::RBrace);
        if e.0 {
            (Some(SExpr::Hash(acc)), e.1)
        } else {
            (None, e.1)
        }
    } else {
        let st1 = nx(s, st);
        if measure(s, st1) < measure(s, st) {
            let k = p_expression(s, st1, prec_lowest());
            match k.0 {
                None => (None, k.1),
                Some(key) => {
                    let c = expect_peek(s, k.1, TokenType::Colon);
                    if !c.0 {
                        (None, c.1)
                    } else {
                        let st4 = nx(s, c.1);
                        if measure(s, st4) < measure(s, st) {
                            let v = p_expression(s, st4, prec_lowest());
                            match v.0 {
                                None => (None, v.1),
                                Some(val) => {
                                    let acc1 = acc.push((key, val));
                                    if v.1.peek.kind != TokenType::RBrace {
                                        let cm = expect_peek(s, v.1, TokenType::Comma);
                                        if !cm.0 {
                                            (None, cm.1)
                                        } else if measure(s, cm.1) < measure(s, st) {
                                            p_hash_rest(s, cm.1, acc1)
                                        } else {
                                            (None, cm.1)
                                        }
                                    } else if measure(s, v.1) < measure(s, st) {
                                        p_hash_rest(s, v.1, acc1)
                                    } else {
                                        (None, v.1)
                                    }
                                },
                            }
                        } else {
                            (None, st4)
                        }
                    }
                },
            }
        } else {
            (None, st1)
        }
    }
}

/// The statements of a program from `st` to the end, `acc` holding those so far.
pub open spec fn p_program_rest(s: Seq<u8>, st: PState, acc: Seq<SStmt>) -> (Seq<SStmt>, PState)
    decreases measure(s, st),
{
    if st.curr.kind == TokenType::Eof {
        (acc, st)
    } else {
        let r = p_statement(s, st);
        let acc1 = match r.0 {
            Some(x) => acc.push(x),
            None => acc,
        };
        let st2 = nx(s, r.1);
        if measure(s, st2) < measure(s, st) {
            p_program_rest(s, st2, acc1)
        } else {
            (acc1, st2)
        }
    }
}

/// A whole program from state `st`.
pub open spec fn p_program(s: Seq<u8>, st: PState) -> (Seq<SStmt>, PState) {
    p_program_rest(s, st, Seq::empty())
}

/// Binding powers, from weakest to strongest: `==`/`!=`, then `<`/`>`, then
/// `+`/`-`, then `*`/`/`, then prefix operators, then calls, then indexing;
/// every token that is no infix operator binds weakest of all.
pub proof fn lemma_binding_powers()
    ensures
        prec_lowest() < prec_of(TokenType::Eq),
        prec_of(TokenType::Eq) == prec_of(TokenType::NotEq),
        prec_of(TokenType::NotEq) < prec_of(TokenType::Lt),
        prec_of(TokenType::Lt) == prec_of(TokenType::Gt),
        prec_of(TokenType::Gt) < prec_of(TokenType::Plus),
        prec_of(TokenType::Plus) == prec_of(TokenType::Minus),
        prec_of(TokenType::Minus) < prec_of(TokenType::Asterisk),
        prec_of(TokenType::Asterisk) == prec_of(TokenType::Slash),
        prec_of(TokenType::Slash) < prec_prefix(),
        prec_prefix() < prec_of(TokenType::LParen),
        prec_of(TokenType::LParen) < prec_of(TokenType::LBracket),
        forall|t: TokenType| !has_infix(t) ==> prec_of(t) == prec_lowest(),
{
}

/// An operand parsed at binding power `p` ends before an operator that binds
/// no tighter than `p`: a name followed by such an operator is the whole
/// operand, and nothing is consumed.
pub proof fn lemma_operand_stops(s: Seq<u8>, st: PState, p: int)
    requires
        st.curr.kind == TokenType::Ident,
        prec_of(st.peek.kind) <= p,
    ensures
        p_expression(s, st, p) == (Some(SExpr::Ident(st.curr.text)), st),
{
}

proof fn lemma_infix_loop_not_name(s: Seq<u8>, st: PState, p: int, left: SExpr)
    requires
        !(left is Ident),
    ensures
        !(p_infix_loop(s, st, p, left).0 matches Some(SExpr::Ident(_))),
    decreases measure(s, st),
{
    if !(st.peek.kind == TokenType::Semicolon || !(p < prec_of(st.peek.kind)) || !has_infix(st.peek.kind)) {
        let st1 = nx(s, st);
        let r = if st1.curr.kind == TokenType::LParen {
            p_call(s, st1, left)
        } else if st1.curr.kind == TokenType::LBracket {
            p_index(s, st1, left)
        } else {
            p_infix(s, st1, left)
        };
        match r.0 {
            Some(e) => if measure(s, r.1) < measure(s, st) {
                assert(!(e is Ident));
                lemma_infix_loop_not_name(s, r.1, p, e);
            },
            None => {},
        }
    }
}

/// An operand parsed at binding power `p` takes in an operator that binds
/// tighter than `p`: a name followed by such an operator never stands alone.
pub proof fn lemma_operand_continues(s: Seq<u8>, st: PState, p: int)
    requires
        st.curr.kind == TokenType::Ident,
        has_infix(st.peek.kind),
        p < prec_of(st.peek.kind),
    ensures
        !(p_expression(s, st, p).0 matches Some(SExpr::Ident(_))),
{
    let st1 = nx(s, st);
    let left = SExpr::Ident(st.curr.text);
    let r = if st1.curr.kind == TokenType::LParen {
        p_call(s, st1, left)
    } else if st1.curr.kind == TokenType::LBracket {
        p_index(s, st1, left)
    } else {
        p_infix(s, st1, left)
    };
    match r.0 {
        Some(e) => if measure(s, r.1) < measure(s, st) {
            lemma_infix_loop_not_name(s, r.1, p, e);
        },
        None => {},
    }
}

/// Comparisons bind looser than sums and tighter than equality: in
/// `a + b < c` the right operand of `+` is `b` alone, and in `a < b * c`
/// (or `a == b < c`) the right operand of `<` (of `==`) is not `b` alone.
pub proof fn lemma_comparison_precedence(s: Seq<u8>, st: PState)
    requires
        st.curr.kind == TokenType::Ident,
    ensures
        (st.peek.kind == TokenType::Lt || st.peek.kind == TokenType::Gt) ==> p_expression(
            s,
            st,
            prec_of(TokenType::Plus),
        ) == (Some(SExpr::Ident(st.curr.text)), st),
        (st.peek.kind == TokenType::Asterisk || st.peek.kind == TokenType::Slash
            || st.peek.kind == TokenType::Plus || st.peek.kind == TokenType::Minus) ==> !(p_expression(
            s,
            st,
            prec_of(TokenType::Lt),
        ).0 matches Some(SExpr::Ident(_))),
        (st.peek.kind == TokenType::Lt || st.peek.kind == TokenType::Gt) ==> !(p_expression(
            s,
            st,
            prec_of(TokenType::Eq),
        ).0 matches Some(SExpr::Ident(_))),
{
    lemma_binding_powers();
    if st.peek.kind == TokenType::Lt || st.peek.kind == TokenType::Gt {
        lemma_operand_stops(s, st, prec_of(TokenType::Plus));
        lemma_operand_continues(s, st, prec_of(TokenType::Eq));
    }
    if st.peek.kind == TokenType::Asterisk || st.peek.kind == TokenType::Slash
        || st.peek.kind == TokenType::Plus || st.peek.kind == TokenType::Minus {
        lemma_operand_continues(s, st, prec_of(TokenType::Lt));
    }
}

/// What parsing the source `s` gives: the program's statements and the error
/// messages, in the order in which they were found.
pub open spec fn parse_source(s: Seq<u8>) -> (Seq<SStmt>, Seq<Seq<char>>) {
    let r = p_program(s, start_state(s, 0));
    (r.0, r.1.errors)
}

/// Binding power of operators, weakest first.
#[derive(Clone, Copy)]
enum Precedence {
    Lowest,
    Equals,
    LessGreater,
    Sum,
    Product,
    Prefix,
    Call,
    Index,
}

/// The level of a binding power.
spec fn prec_level(p: Precedence) -> int {
    match p {
        Precedence::Lowest => 1,
        Precedence::Equals => 2,
        Precedence::LessGreater => 3,
        Precedence::Sum => 4,
        Precedence::Product => 5,
        Precedence::Prefix => 6,
        Precedence::Call => 7,
        Precedence::Index => 8,
    }
}

impl Precedence {
    fn level(self) -> (r: u8)
        ensures
            r == prec_level(self),
    {
        match self {
            Precedence::Lowest => 1,
            Precedence::Equals => 2,
            Precedence::LessGreater => 3,
            Precedence::Sum => 4,
            Precedence::Product => 5,
            Precedence::Prefix => 6,
            Precedence::Call => 7,
            Precedence::Index => 8,
        }
    }
}

/// The binding power of a token in infix position.
fn precedence_for(t: TokenType) -> (p: Precedence)
    ensures
        prec_level(p) == prec_of(t),
{
    match t {
        TokenType::Eq | TokenType::NotEq => Precedence::Equals,
        TokenType::Lt | TokenType::Gt => Precedence::LessGreater,
        TokenType::Plus | TokenType::Minus => Precedence::Sum,
        TokenType::Slash | TokenType::Asterisk => Precedence::Product,
        TokenType::LParen => Precedence::Call,
        TokenType::LBracket => Precedence::Index,
        _ => Precedence::Lowest,
    }
}

/// Whether a token continues an expression in infix position.
fn has_infix_fn(t: TokenType) -> (b: bool)
    ensures
        b == has_infix(t),
{
    match t {
        TokenType::Plus | TokenType::Minus | TokenType::Slash | TokenType::Asterisk
        | TokenType::Eq | TokenType::NotEq | TokenType::Lt | TokenType::Gt
        | TokenType::LParen | TokenType::LBracket => true,
        _ => false,
    }
}

/// The view of an optional expression.
pub open spec fn opt_expr_view(o: Option<Expression>) -> Option<SExpr> {
    match o {
        Some(e) => Some(e@),
        None => None,
    }
}

/// The view of an optional statement.
pub open spec fn opt_stmt_view(o: Option<Statement>) -> Option<SStmt> {
    match o {
        Some(x) => Some(x@),
        None => None,
    }
}

spec fn opt_exprs_view(o: Option<Vec<Expression>>) -> Option<Seq<SExpr>> {
    match o {
        Some(v) => Some(exprs_view(v@)),
        None => None,
    }
}

spec fn opt_idents_view(o: Option<Vec<Identifier>>) -> Option<Seq<Seq<char>>> {
    match o {
        Some(v) => Some(idents_view(v@)),
        None => None,
    }
}

spec fn opt_let_view(o: Option<LetStatement>) -> Option<SStmt> {
    match o {
        Some(ls) => Some(SStmt::Let(ls.name.value@, ls.value@)),
        None => None,
    }
}

spec fn opt_return_view(o: Option<ReturnStatement>) -> Option<SStmt> {
    match o {
        Some(rs) => Some(SStmt::Return(opt_expr_view(rs.value))),
        None => None,
    }
}

spec fn opt_expr_stmt_view(o: Option<Expression>) -> Option<SStmt> {
    match o {
        Some(e) => Some(SStmt::Expr(e@)),
        None => None,
    }
}

/// The texts of error messages.
pub open spec fn texts(v: Seq<String>) -> Seq<Seq<char>> {
    v.map_values(|e: String| e@)
}

proof fn lemma_texts_push(v: Seq<String>, e: String)
    ensures
        texts(v.push(e)) == texts(v).push(e@),
{
    assert(texts(v.push(e)) =~= texts(v).push(e@));
}

proof fn lemma_exprs_view_push(v: Seq<Expression>, e: Expression)
    ensures
        exprs_view(v.push(e)) == exprs_view(v).push(e@),
{
    assert(v.push(e).drop_last() =~= v);
}

proof fn lemma_stmts_view_push(v: Seq<Statement>, x: Statement)
    ensures
        stmts_view(v.push(x)) == stmts_view(v).push(x@),
{
    assert(v.push(x).drop_last() =~= v);
}

proof fn lemma_pairs_view_push(v: Seq<(Expression, Expression)>, k: Expression, x: Expression)
    ensures
        pairs_view(v.push((k, x))) == pairs_view(v).push((k@, x@)),
{
    assert(v.push((k, x)).drop_last() =~= v);
}

proof fn lemma_idents_view_push(v: Seq<Identifier>, x: Identifier)
    ensures
        idents_view(v.push(x)) == idents_view(v).push(x.value@),
{
    assert(idents_view(v.push(x)) =~= idents_view(v).push(x.value@));
}

/// Parses a program from the tokens of a lexer, collecting error messages.
pub struct Parser {
    lexer: Lexer,
    curr: Token,
    peek: Token,
    pub errors: Vec<String>,
}

impl Parser {
    /// The bytes being parsed.
    pub closed spec fn source(&self) -> Seq<u8> {
        self.lexer.source()
    }

    /// Where the lexer stands.
    pub closed spec fn lexer_pos(&self) -> int {
        self.lexer.pos()
    }

    /// The current token.
    pub closed spec fn curr_tok(&self) -> STok {
        STok { kind: self.curr.ttype, text: self.curr.literal@ }
    }

    /// The next token.
    pub closed spec fn peek_tok(&self) -> STok {
        STok { kind: self.peek.ttype, text: self.peek.literal@ }
    }

    /// The parser's state.
    pub open spec fn state(&self) -> PState {
        PState {
            pos: self.lexer_pos(),
            curr: self.curr_tok(),
            peek: self.peek_tok(),
            errors: self.error_texts(),
        }
    }

    /// The texts of the error messages so far.
    pub closed spec fn error_texts(&self) -> Seq<Seq<char>> {
        texts(self.errors@)
    }

    /// Well-formedness: the lexer is well-formed and the state is one it can produce.
    pub closed spec fn wf(&self) -> bool {
        self.lexer.wf() && state_wf(self.lexer.source(), self.state())
    }

    /// A parser over the tokens of `lexer`; it reads the first two at once.
    pub fn new(lexer: Lexer) -> (p: Parser)
        requires
            lexer.wf(),
        ensures
            p.wf(),
            p.source() == lexer.source(),
            p.state() == start_state(lexer.source(), lexer.pos()),
    {
        let mut lexer = lexer;
        proof {
            lexer.lemma_pos_bounds();
            lemma_next_token_progress(lexer.source(), lexer.pos());
        }
        let curr = lexer.next_token();
        proof {
            lemma_next_token_progress(lexer.source(), lexer.pos());
        }
        let peek = lexer.next_token();
        let p = Parser { lexer, curr, peek, errors: Vec::new() };
        assert(texts(p.errors@) =~= Seq::<Seq<char>>::empty());
        p
    }

    /// The error messages found so far.
    pub fn error_list(&self) -> (r: &Vec<String>)
        ensures
            texts(r@) == self.error_texts(),
    {
        &self.errors
    }

    /// Moves one token forward.
    fn next_token(&mut self)
        requires
            old(self).wf(),
        ensures
            final(self).wf(),
            final(self).source() == old(self).source(),
            final(self).state() == nx(old(self).source(), old(self).state()),
            progressed(old(self).source(), old(self).state(), final(self).state()),
            old(self).state().curr.kind != TokenType::Eof || old(self).state().peek.kind
                != TokenType::Eof ==> measure(old(self).source(), final(self).state()) < measure(
                old(self).source(),
                old(self).state(),
            ),
    {
        proof {
            lemma_nx(self.source(), self.state());
        }
        std::mem::swap(&mut self.curr, &mut self.peek);
        self.peek = self.lexer.next_token();
    }

    /// Whether the current token has kind `t`.
    fn curr_is(&self, t: TokenType) -> (b: bool)
        ensures
            b == (self.state().curr.kind == t),
    {
        self.curr.ttype == t
    }

    /// Whether the next token has kind `t`.
    fn peek_is(&self, t: TokenType) -> (b: bool)
        ensures
            b == (self.state().peek.kind == t),
    {
        self.peek.ttype == t
    }

    /// Records an error message.
    fn push_error(&mut self, msg: String)
        ensures
            final(self).source() == old(self).source(),
            final(self).state() == with_error(old(self).state(), msg@),
            old(self).wf() ==> final(self).wf(),
    {
        proof {
            lemma_texts_push(self.errors@, msg);
        }
        self.errors.push(msg);
    }

    /// Records that the next token should have had kind `t`.
    fn peek_error(&mut self, t: TokenType)
        requires
            old(self).wf(),
        ensures
            final(self).wf(),
            final(self).source() == old(self).source(),
            final(self).state() == with_error(
                old(self).state(),
                peek_error_msg(t, old(self).state().peek.kind),
            ),
    {
        let mut m = String::from_str("expected next token to be ");
        push_str(&mut m, t.name());
        push_str(&mut m, ", got ");
        push_str(&mut m, self.peek.ttype.name());
        push_str(&mut m, " instead");
        self.push_error(m);
    }

    /// Records that no expression starts with a token of kind `t`.
    fn no_prefix_parse_fn_error(&mut self, t: TokenType)
        requires
            old(self).wf(),
        ensures
            final(self).wf(),
            final(self).source() == old(self).source(),
            final(self).state() == with_error(old(self).state(), no_prefix_msg(t)),
    {
        let mut m = String::from_str("no prefix parse functions for ");
        push_str(&mut m, t.name());
        push_str(&mut m, " found");
        self.push_error(m);
    }

    /// Moves forward if the next token has kind `t`; records an error otherwise.
    fn expect_peek(&mut self, t: TokenType) -> (b: bool)
        requires
            old(self).wf(),
        ensures
            final(self).wf(),
            final(self).source() == old(self).source(),
            (b, final(self).state()) == expect_peek(old(self).source(), old(self).state(), t),
            progressed(old(self).source(), old(self).state(), final(self).state()),
            b && t != TokenType::Eof ==> measure(old(self).source(), final(self).state()) < measure(
                old(self).source(),
                old(self).state(),
            ),
    {
        if self.peek_is(t) {
            self.next_token();
            true
        } else {
            self.peek_error(t);
            false
        }
    }
}


impl Parser {
    /// Parses the whole input: one statement after another up to `Eof`.
    pub fn parse_program(&mut self) -> (program: Program)
        requires
            old(self).wf(),
        ensures
            final(self).wf(),
            final(self).source() == old(self).source(),
            (program@, final(self).state()) == p_program(old(self).source(), old(self).state()),
            keeps_errors(old(self).state(), final(self).state()),
    {
        let ghost src = self.source();
        let ghost st0 = self.state();
        let mut statements: Vec<Statement> = Vec::new();
        while !self.curr_is(TokenType::Eof)
            invariant
                self.wf(),
                self.source() == src,
                src == old(self).source(),
                st0 == old(self).state(),
                p_program_rest(src, self.state(), stmts_view(statements@)) == p_program(src, st0),
                progressed(src, st0, self.state()),
            decreases measure(src, self.state()),
        {
            let stmt = self.parse_statement();
            match stmt {
                Some(x) => {
                    proof {
                        lemma_stmts_view_push(statements@, x);
                    }
                    statements.push(x);
                },
                None => {},
            }
            self.next_token();
        }
        Program { statements }
    }

    /// Parses the statement at the current token.
    fn parse_statement(&mut self) -> (r: Option<Statement>)
        requires
            old(self).wf(),
        ensures
            final(self).wf(),
            final(self).source() == old(self).source(),
            (opt_stmt_view(r), final(self).state()) == p_statement(old(self).source(), old(self).state()),
            progressed(old(self).source(), old(self).state(), final(self).state()),
        decreases measure(old(self).source(), old(self).state()), 12nat,
    {
        match self.curr.ttype {
            TokenType::Let => match self.parse_let_statement() {
                Some(ls) => Some(Statement::Let(ls)),
                None => None,
            },
            TokenType::Return => match self.parse_return_statement() {
                Some(rs) => Some(Statement::Return(rs)),
                None => None,
            },
            _ => match self.parse_expression_statement() {
                Some(e) => Some(Statement::Expression(e)),
                None => None,
            },
        }
    }

    /// Moves forward to the `;` (or `Eof`) that ends the statement.
    fn skip_to_semicolon(&mut self)
        requires
            old(self).wf(),
        ensures
            final(self).wf(),
            final(self).source() == old(self).source(),
            final(self).state() == skip_to_semicolon(old(self).source(), old(self).state()),
            progressed(old(self).source(), old(self).state(), final(self).state()),
    {
        let ghost src = self.source();
        let ghost st0 = self.state();
        while !self.curr_is(TokenType::Semicolon) && !self.curr_is(TokenType::Eof)
            invariant
                self.wf(),
                self.source() == src,
                src == old(self).source(),
                st0 == old(self).state(),
                skip_to_semicolon(src, self.state()) == skip_to_semicolon(src, st0),
                progressed(src, st0, self.state()),
            decreases measure(src, self.state()),
        {
            self.next_token();
        }
    }

    /// Parses `let <ident> = <expression>`.
    fn parse_let_statement(&mut self) -> (r: Option<LetStatement>)
        requires
            old(self).wf(),
        ensures
            final(self).wf(),
            final(self).source() == old(self).source(),
            (opt_let_view(r), final(self).state()) == p_let(old(self).source(), old(self).state()),
            progressed(old(self).source(), old(self).state(), final(self).state()),
        decreases measure(old(self).source(), old(self).state()), 11nat,
    {
        if !self.expect_peek(TokenType::Ident) {
            return None;
        }
        let name = Identifier { value: self.curr.literal.clone() };
        if !self.expect_peek(TokenType::Assign) {
            return None;
        }
        self.next_token();
        let value = match self.parse_expression(Precedence::Lowest) {
            Some(v) => v,
            None => return None,
        };
        self.skip_to_semicolon();
        Some(LetStatement { name, value })
    }

    /// Parses `return <expression>`.
    fn parse_return_statement(&mut self) -> (r: Option<ReturnStatement>)
        requires
            old(self).wf(),
        ensures
            final(self).wf(),
            final(self).source() == old(self).source(),
            (opt_return_view(r), final(self).state()) == p_return(old(self).source(), old(self).state()),
            progressed(old(self).source(), old(self).state(), final(self).state()),
        decreases measure(old(self).source(), old(self).state()), 11nat,
    {
        self.next_token();
        let value = self.parse_expression(Precedence::Lowest);
        self.skip_to_semicolon();
        Some(ReturnStatement { value })
    }

    /// Parses an expression used as a statement.
    fn parse_expression_statement(&mut self) -> (r: Option<Expression>)
        requires
            old(self).wf(),
        ensures
            final(self).wf(),
            final(self).source() == old(self).source(),
            (opt_expr_stmt_view(r), final(self).state()) == p_expr_stmt(old(self).source(), old(self).state()),
            progressed(old(self).source(), old(self).state(), final(self).state()),
        decreases measure(old(self).source(), old(self).state()), 11nat,
    {
        let expr = match self.parse_expression(Precedence::Lowest) {
            Some(e) => e,
            None => return None,
        };
        if self.peek_is(TokenType::Semicolon) {
            self.next_token();
        }
        Some(expr)
    }

    /// Parses an expression whose operators bind tighter than `precedence`.
    fn parse_expression(&mut self, precedence: Precedence) -> (r: Option<Expression>)
        requires
            old(self).wf(),
        ensures
            final(self).wf(),
            final(self).source() == old(self).source(),
            (opt_expr_view(r), final(self).state()) == p_expression(old(self).source(), old(self).state(), prec_level(precedence)),
            progressed(old(self).source(), old(self).state(), final(self).state()),
        decreases measure(old(self).source(), old(self).state()), 7nat,
    {
        let ghost src = self.source();
        let ghost st0 = self.state();
        let left0 = match self.curr.ttype {
            TokenType::Ident => Some(Expression::Identifier(Identifier { value: self.curr.literal.clone() })),
            TokenType::Int => self.parse_integer_literal(),
            TokenType::String => Some(Expression::StringLiteral(self.curr.literal.clone())),
            TokenType::Bang | TokenType::Minus => self.parse_prefix_expression(),
            TokenType::True => Some(Expression::Boolean(true)),
            TokenType::False => Some(Expression::Boolean(false)),
            TokenType::LParen => self.parse_grouped_expression(),
            TokenType::If => self.parse_if_expression(),
            TokenType::Function => self.parse_function_literal(),
            TokenType::LBracket => self.parse_array_literal(),
            TokenType::LBrace => self.parse_hash_literal(),
            _ => {
                let t = self.curr.ttype;
                self.no_prefix_parse_fn_error(t);
                None
            },
        };
        let mut left = match left0 {
            Some(l) => l,
            None => return None,
        };
        while !self.peek_is(TokenType::Semicolon) && precedence.level() < precedence_for(
            self.peek.ttype,
        ).level()
            invariant
                self.wf(),
                self.source() == src,
                src == old(self).source(),
                st0 == old(self).state(),
                p_infix_loop(src, self.state(), prec_level(precedence), left@) == p_expression(
                    src,
                    st0,
                    prec_level(precedence),
                ),
                progressed(src, st0, self.state()),
            decreases measure(src, self.state()),
        {
            if !has_infix_fn(self.peek.ttype) {
                return Some(left);
            }
            self.next_token();
            let r = if self.curr_is(TokenType::LParen) {
                self.parse_call_expression(left)
            } else if self.curr_is(TokenType::LBracket) {
                self.parse_index_expression(left)
            } else {
                self.parse_infix_expression(left)
            };
            left = match r {
                Some(e) => e,
                None => return None,
            };
        }
        Some(left)
    }

    /// Parses the integer literal at the current token.
    fn parse_integer_literal(&mut self) -> (r: Option<Expression>)
        requires
            old(self).wf(),
        ensures
            final(self).wf(),
            final(self).source() == old(self).source(),
            (opt_expr_view(r), final(self).state()) == p_int(old(self).state()),
            progressed(old(self).source(), old(self).state(), final(self).state()),
    {
        match parse_i64(self.curr.literal.as_str()) {
            Some(v) => Some(Expression::IntegerLiteral(v)),
            None => {
                let mut m = String::from_str("could not parse \"");
                push_str(&mut m, self.curr.literal.as_str());
                push_str(&mut m, "\" as integer");
                self.push_error(m);
                None
            },
        }
    }

    /// Parses `!` or `-` and its operand.
    fn parse_prefix_expression(&mut self) -> (r: Option<Expression>)
        requires
            old(self).wf(),
            old(self).state().curr.kind != TokenType::Eof,
        ensures
            final(self).wf(),
            final(self).source() == old(self).source(),
            (opt_expr_view(r), final(self).state()) == p_prefix(old(self).source(), old(self).state()),
            progressed(old(self).source(), old(self).state(), final(self).state()),
        decreases measure(old(self).source(), old(self).state()), 6nat,
    {
        let operator = self.curr.literal.clone();
        self.next_token();
        match self.parse_expression(Precedence::Prefix) {
            Some(right) => Some(Expression::Prefix { operator, right: Box::new(right) }),
            None => None,
        }
    }

    /// Parses the operator at the current token and its right operand.
    fn parse_infix_expression(&mut self, left: Expression) -> (r: Option<Expression>)
        requires
            old(self).wf(),
            old(self).state().curr.kind != TokenType::Eof,
        ensures
            final(self).wf(),
            final(self).source() == old(self).source(),
            (opt_expr_view(r), final(self).state()) == p_infix(old(self).source(), old(self).state(), left@),
            progressed(old(self).source(), old(self).state(), final(self).state()),
        decreases measure(old(self).source(), old(self).state()), 4nat,
    {
        let operator = self.curr.literal.clone();
        let precedence = precedence_for(self.curr.ttype);
        self.next_token();
        match self.parse_expression(precedence) {
            Some(right) => Some(Expression::Infix { operator, left: Box::new(left), right: Box::new(right) }),
            None => None,
        }
    }

    /// Parses `( <expression> )`.
    fn parse_grouped_expression(&mut self) -> (r: Option<Expression>)
        requires
            old(self).wf(),
            old(self).state().curr.kind != TokenType::Eof,
        ensures
            final(self).wf(),
            final(self).source() == old(self).source(),
            (opt_expr_view(r), final(self).state()) == p_grouped(old(self).source(), old(self).state()),
            progressed(old(self).source(), old(self).state(), final(self).state()),
        decreases measure(old(self).source(), old(self).state()), 6nat,
    {
        self.next_token();
        let exp = match self.parse_expression(Precedence::Lowest) {
            Some(e) => e,
            None => return None,
        };
        if !self.expect_peek(TokenType::RParen) {
            return None;
        }
        Some(exp)
    }

    /// Parses `if (<condition>) { ... }` with an optional `else { ... }`.
    fn parse_if_expression(&mut self) -> (r: Option<Expression>)
        requires
            old(self).wf(),
        ensures
            final(self).wf(),
            final(self).source() == old(self).source(),
            (opt_expr_view(r), final(self).state()) == p_if(old(self).source(), old(self).state()),
            progressed(old(self).source(), old(self).state(), final(self).state()),
        decreases measure(old(self).source(), old(self).state()), 6nat,
    {
        if !self.expect_peek(TokenType::LParen) {
            return None;
        }
        self.next_token();
        let condition = match self.parse_expression(Precedence::Lowest) {
            Some(c) => c,
            None => return None,
        };
        if !self.expect_peek(TokenType::RParen) {
            return None;
        }
        if !self.expect_peek(TokenType::LBrace) {
            return None;
        }
        let consequence = self.parse_block_statement();
        let alternative = if self.peek_is(TokenType::Else) {
            self.next_token();
            if !self.expect_peek(TokenType::LBrace) {
                return None;
            }
            Some(self.parse_block_statement())
        } else {
            None
        };
        Some(Expression::If { condition: Box::new(condition), consequence, alternative })
    }

    /// Parses `{ <statements> }`.
    fn parse_block_statement(&mut self) -> (r: BlockStatement)
        requires
            old(self).wf(),
        ensures
            final(self).wf(),
            final(self).source() == old(self).source(),
            (r@, final(self).state()) == p_block(old(self).source(), old(self).state()),
            progressed(old(self).source(), old(self).state(), final(self).state()),
        decreases measure(old(self).source(), old(self).state()), 14nat,
    {
        let ghost src = self.source();
        let ghost st0 = self.state();
        let mut statements: Vec<Statement> = Vec::new();
        self.next_token();
        while !self.curr_is(TokenType::RBrace) && !self.curr_is(TokenType::Eof)
            invariant
                self.wf(),
                self.source() == src,
                src == old(self).source(),
                st0 == old(self).state(),
                p_block_rest(src, self.state(), stmts_view(statements@)) == p_block(src, st0),
                progressed(src, st0, self.state()),
            decreases measure(src, self.state()),
        {
            let stmt = self.parse_statement();
            match stmt {
                Some(x) => {
                    proof {
                        lemma_stmts_view_push(statements@, x);
                    }
                    statements.push(x);
                },
                None => {},
            }
            self.next_token();
        }
        BlockStatement { statements }
    }

    /// Parses `fn (<parameters>) { ... }`.
    fn parse_function_literal(&mut self) -> (r: Option<Expression>)
        requires
            old(self).wf(),
        ensures
            final(self).wf(),
            final(self).source() == old(self).source(),
            (opt_expr_view(r), final(self).state()) == p_function(old(self).source(), old(self).state()),
            progressed(old(self).source(), old(self).state(), final(self).state()),
        decreases measure(old(self).source(), old(self).state()), 6nat,
    {
        if !self.expect_peek(TokenType::LParen) {
            return None;
        }
        let parameters = match self.parse_function_parameters() {
            Some(ps) => ps,
            None => return None,
        };
        if !self.expect_peek(TokenType::LBrace) {
            return None;
        }
        let body = self.parse_block_statement();
        Some(Expression::Function { parameters, body })
    }

    /// Parses the parameter names up to `)`.
    fn parse_function_parameters(&mut self) -> (r: Option<Vec<Identifier>>)
        requires
            old(self).wf(),
        ensures
            final(self).wf(),
            final(self).source() == old(self).source(),
            (opt_idents_view(r), final(self).state()) == p_params(old(self).source(), old(self).state()),
            progressed(old(self).source(), old(self).state(), final(self).state()),
    {
        let ghost src = self.source();
        let ghost st0 = self.state();
        let mut idents: Vec<Identifier> = Vec::new();
        if self.peek_is(TokenType::RParen) {
            self.next_token();
            assert(idents_view(idents@) =~= Seq::<Seq<char>>::empty());
            return Some(idents);
        }
        self.next_token();
        let first = Identifier { value: self.curr.literal.clone() };
        proof {
            lemma_idents_view_push(idents@, first);
            assert(idents_view(idents@.push(first)) =~= seq![first.value@]);
        }
        idents.push(first);
        while self.peek_is(TokenType::Comma)
            invariant
                self.wf(),
                self.source() == src,
                src == old(self).source(),
                st0 == old(self).state(),
                p_params_rest(src, self.state(), idents_view(idents@)) == p_params(src, st0),
                progressed(src, st0, self.state()),
            decreases measure(src, self.state()),
        {
            self.next_token();
            self.next_token();
            let id = Identifier { value: self.curr.literal.clone() };
            proof {
                lemma_idents_view_push(idents@, id);
            }
            idents.push(id);
        }
        if !self.expect_peek(TokenType::RParen) {
            return None;
        }
        Some(idents)
    }

    /// Parses the arguments of a call of `function`.
    fn parse_call_expression(&mut self, function: Expression) -> (r: Option<Expression>)
        requires
            old(self).wf(),
            old(self).state().curr.kind != TokenType::Eof,
        ensures
            final(self).wf(),
            final(self).source() == old(self).source(),
            (opt_expr_view(r), final(self).state()) == p_call(old(self).source(), old(self).state(), function@),
            progressed(old(self).source(), old(self).state(), final(self).state()),
        decreases measure(old(self).source(), old(self).state()), 4nat,
    {
        match self.parse_expression_list(TokenType::RParen) {
            Some(arguments) => Some(Expression::Call { function: Box::new(function), arguments }),
            None => None,
        }
    }

    /// Parses `[ <elements> ]`.
    fn parse_array_literal(&mut self) -> (r: Option<Expression>)
        requires
            old(self).wf(),
            old(self).state().curr.kind != TokenType::Eof,
        ensures
            final(self).wf(),
            final(self).source() == old(self).source(),
            (opt_expr_view(r), final(self).state()) == p_array(old(self).source(), old(self).state()),
            progressed(old(self).source(), old(self).state(), final(self).state()),
        decreases measure(old(self).source(), old(self).state()), 6nat,
    {
        match self.parse_expression_list(TokenType::RBracket) {
            Some(elements) => Some(Expression::Array(elements)),
            None => None,
        }
    }

    /// Parses expressions separated by `,` up to `end`.
    fn parse_expression_list(&mut self, end: TokenType) -> (r: Option<Vec<Expression>>)
        requires
            old(self).wf(),
            old(self).state().curr.kind != TokenType::Eof,
        ensures
            final(self).wf(),
            final(self).source() == old(self).source(),
            (opt_exprs_view(r), final(self).state()) == p_expr_list(old(self).source(), old(self).state(), end),
            progressed(old(self).source(), old(self).state(), final(self).state()),
        decreases measure(old(self).source(), old(self).state()), 3nat,
    {
        let ghost src = self.source();
        let ghost st0 = self.state();
        let mut list: Vec<Expression> = Vec::new();
        if self.peek_is(end) {
            self.next_token();
            assert(exprs_view(list@) =~= Seq::<SExpr>::empty());
            return Some(list);
        }
        self.next_token();
        match self.parse_expression(Precedence::Lowest) {
            Some(e) => {
                proof {
                    lemma_exprs_view_push(list@, e);
                    assert(exprs_view(list@.push(e)) =~= seq![e@]);
                }
                list.push(e);
            },
            None => return None,
        }
        while self.peek_is(TokenType::Comma)
            invariant
                self.wf(),
                self.source() == src,
                src == old(self).source(),
                st0 == old(self).state(),
                p_list_rest(src, self.state(), end, exprs_view(list@)) == p_expr_list(src, st0, end),
                measure(src, self.state()) < measure(src, st0),
                progressed(src, st0, self.state()),
            decreases measure(src, self.state()),
        {
            self.next_token();
            self.next_token();
            match self.parse_expression(Precedence::Lowest) {
                Some(e) => {
                    proof {
                        lemma_exprs_view_push(list@, e);
                    }
                    list.push(e);
                },
                None => return None,
            }
        }
        if !self.expect_peek(end) {
            return None;
        }
        Some(list)
    }

    /// Parses `[<index>]` after `left`.
    fn parse_index_expression(&mut self, left: Expression) -> (r: Option<Expression>)
        requires
            old(self).wf(),
            old(self).state().curr.kind != TokenType::Eof,
        ensures
            final(self).wf(),
            final(self).source() == old(self).source(),
            (opt_expr_view(r), final(self).state()) == p_index(old(self).source(), old(self).state(), left@),
            progressed(old(self).source(), old(self).state(), final(self).state()),
        decreases measure(old(self).source(), old(self).state()), 4nat,
    {
        self.next_token();
        let index = match self.parse_expression(Precedence::Lowest) {
            Some(i) => i,
            None => return None,
        };
        if !self.expect_peek(TokenType::RBracket) {
            return None;
        }
        Some(Expression::Index { left: Box::new(left), index: Box::new(index) })
    }

    /// Parses `{ <key>: <value>, ... }`.
    fn parse_hash_literal(&mut self) -> (r: Option<Expression>)
        requires
            old(self).wf(),
            old(self).state().curr.kind != TokenType::Eof,
        ensures
            final(self).wf(),
            final(self).source() == old(self).source(),
            (opt_expr_view(r), final(self).state()) == p_hash(old(self).source(), old(self).state()),
            progressed(old(self).source(), old(self).state(), final(self).state()),
        decreases measure(old(self).source(), old(self).state()), 6nat,
    {
        let ghost src = self.source();
        let ghost st0 = self.state();
        let mut pairs: Vec<(Expression, Expression)> = Vec::new();
        assert(pairs_view(pairs@) =~= Seq::<(SExpr, SExpr)>::empty());
        while !self.peek_is(TokenType::RBrace)
            invariant
                self.wf(),
                self.source() == src,
                src == old(self).source(),
                st0 == old(self).state(),
                p_hash_rest(src, self.state(), pairs_view(pairs@)) == p_hash(src, st0),
                progressed(src, st0, self.state()),
                self.state().curr.kind != TokenType::Eof || self.state().peek.kind == TokenType::RBrace,
            decreases measure(src, self.state()),
        {
            self.next_token();
            let key = match self.parse_expression(Precedence::Lowest) {
                Some(k) => k,
                None => return None,
            };
            if !self.expect_peek(TokenType::Colon) {
                return None;
            }
            self.next_token();
            let value = match self.parse_expression(Precedence::Lowest) {
                Some(v) => v,
                None => return None,
            };
            proof {
                lemma_pairs_view_push(pairs@, key, value);
            }
            pairs.push((key, value));
            if !self.peek_is(TokenType::RBrace) && !self.expect_peek(TokenType::Comma) {
                return None;
            }
        }
        if !self.expect_peek(TokenType::RBrace) {
            return None;
        }
        Some(Expression::Hash(pairs))
    }
}

} // verus!
