//! The parser: a recursive-descent parser over the lexer's token stream.
//!
//! Its model is a family of spec functions over a finite token sequence `ts`
//! (the stream up to and including its first end-of-input token) and an index
//! `k` into it. Each gives a [`PRes`]: a value and the index after it, a
//! refusal at some index, or a panic of the parser.
use vstd::prelude::*;
use crate::ast::{self, Expression, Function, Operator, Statement, Type, SExpr, SStmt, SFunction};
use crate::ast::{exprs_view, params_view, stmts_view, functions_view, opt_expr_view};
use crate::lexer::{Lexer, Token, SToken, lex_all, spec_next, token_fits, tokenize, lemma_next_progress};

verus! {

/// Why the parser gives up on its input, where it panics.
#[derive(Debug, PartialEq, Clone, Copy)]
pub enum ParseError {
    /// A part that must be there is not: a type of a parameter or of the
    /// result, a known scalar type name, an operand, an argument, or a statement.
    Missing,
    /// An array type whose size is not followed by `]`.
    UnclosedArraySize,
    /// An element assignment `name[...` whose index is not an expression.
    ElementIndexMissing,
    /// An element assignment whose index is not followed by `]`.
    ElementIndexUnclosed,
    /// An element assignment without `=` after its index.
    ElementEqualsMissing,
    /// An element assignment whose value is not an expression.
    ElementValueMissing,
    /// An element assignment not ended by `;`.
    ElementSemicolonMissing,
    /// An assignment `name = value` not ended by `;`.
    AssignmentSemicolonMissing,
}

/// The outcome of a parsing step.
pub enum PRes<T> {
    /// A value, and the index of the current token afterwards.
    Parsed(T, int),
    /// No value (the parsing method returns `None`); the index of the current token afterwards.
    Refused(int),
    /// The parser panics, for the given reason.
    Panics(ParseError),
}

/// The outcome where a part that must be there was not parsed: the part's own
/// panic, or else a panic for want of it.
pub open spec fn want<T, U>(r: PRes<T>) -> PRes<U> {
    match r {
        PRes::Panics(x) => PRes::Panics(x),
        _ => PRes::Panics(ParseError::Missing),
    }
}

/// The `k`-th token of `ts`; end-of-input past its end.
pub open spec fn tk(ts: Seq<SToken>, k: int) -> SToken {
    if 0 <= k < ts.len() {
        ts[k]
    } else {
        SToken::Eof
    }
}

/// The binding strength of a token in an expression.
pub open spec fn precedence(t: SToken) -> int {
    match t {
        SToken::Plus | SToken::Minus => 1,
        SToken::Asterisk | SToken::Slash => 2,
        SToken::LeftBracket | SToken::LeftParenthesis => 3,
        _ => 0,
    }
}

/// The operator that a token stands for in an expression, if any.
pub open spec fn binary_operator(t: SToken) -> Option<Operator> {
    match t {
        SToken::Asterisk => Some(Operator::Multiply),
        SToken::Plus => Some(Operator::Add),
        SToken::Minus => Some(Operator::Subtract),
        SToken::Slash => Some(Operator::Divide),
        _ => None,
    }
}

/// The scalar type that a name stands for, if any.
pub open spec fn type_from_name(n: Seq<char>) -> Option<Type> {
    if n == seq!['i', '8'] {
        Some(Type::I8)
    } else if n == seq!['i', '1', '6'] {
        Some(Type::I16)
    } else if n == seq!['i', '3', '2'] {
        Some(Type::I32)
    } else if n == seq!['i', '6', '4'] {
        Some(Type::I64)
    } else if n == seq!['u', '8'] {
        Some(Type::U8)
    } else if n == seq!['u', '1', '6'] {
        Some(Type::U16)
    } else if n == seq!['u', '3', '2'] {
        Some(Type::U32)
    } else if n == seq!['u', '6', '4'] {
        Some(Type::U64)
    } else if n == seq!['f', '3', '2'] {
        Some(Type::F32)
    } else if n == seq!['f', '6', '4'] {
        Some(Type::F64)
    } else {
        None
    }
}

/// A type: an optional `*`, then either a scalar type name or `[n]` and a
/// scalar type name.
pub open spec fn p_type(ts: Seq<SToken>, k: int) -> PRes<Type> {
    let is_pointer = tk(ts, k) is Asterisk;
    let k1 = if is_pointer {
        k + 1
    } else {
        k
    };
    if tk(ts, k1) is LeftBracket {
        match tk(ts, k1 + 1) {
            SToken::Number(n) => if !(tk(ts, k1 + 2) is RightBracket) {
                PRes::Panics(ParseError::UnclosedArraySize)
            } else {
                match tk(ts, k1 + 3) {
                    SToken::Identifier(name) => match type_from_name(name) {
                        Some(t) => {
                            let arr = Type::Array(Box::new(t), n as i64);
                            if is_pointer {
                                PRes::Parsed(Type::Pointer(Box::new(arr)), k1 + 4)
                            } else {
                                PRes::Parsed(arr, k1 + 4)
                            }
                        },
                        None => PRes::Panics(ParseError::Missing),
                    },
                    _ => PRes::Refused(k1 + 3),
                }
            },
            _ => PRes::Refused(k1 + 1),
        }
    } else {
        match tk(ts, k1) {
            SToken::Identifier(name) => match type_from_name(name) {
                Some(t) => if is_pointer {
                    PRes::Parsed(Type::Pointer(Box::new(t)), k1 + 1)
                } else {
                    PRes::Parsed(t, k1 + 1)
                },
                None => PRes::Panics(ParseError::Missing),
            },
            _ => PRes::Refused(k1),
        }
    }
}

/// An expression whose operators bind more tightly than `prec`: a literal, a
/// name, or `&`/`*` applied to an operand, followed by what [`p_infix`] reads.
pub open spec fn p_expr(ts: Seq<SToken>, k: int, prec: int) -> PRes<SExpr>
    decreases ts.len() - k, 0int,
{
    if !(0 <= k < ts.len()) {
        PRes::Refused(k)
    } else {
        match ts[k] {
            SToken::Number(n) => p_infix(ts, k + 1, prec, SExpr::Integer(n as i64)),
            SToken::Float(t) => p_infix(ts, k + 1, prec, SExpr::Float(t)),
            SToken::Identifier(x) => p_infix(ts, k + 1, prec, SExpr::Identifier(x)),
            SToken::Ampersand => match p_expr(ts, k + 1, 3) {
                PRes::Parsed(e, k2) => if k < k2 <= ts.len() {
                    p_infix(ts, k2, prec, SExpr::AddressOf(Box::new(e)))
                } else {
                    PRes::Panics(ParseError::Missing)
                },
                r => want(r),
            },
            SToken::Asterisk => match p_expr(ts, k + 1, 3) {
                PRes::Parsed(e, k2) => if k < k2 <= ts.len() {
                    p_infix(ts, k2, prec, SExpr::Dereference(Box::new(e)))
                } else {
                    PRes::Panics(ParseError::Missing)
                },
                r => want(r),
            },
            _ => PRes::Refused(k),
        }
    }
}

/// What follows an operand `left` at index `k`, while the current token binds
/// more tightly than `prec`: an index `[e]` or an argument list (either ends
/// the expression), or a binary operator and its right operand.
pub open spec fn p_infix(ts: Seq<SToken>, k: int, prec: int, left: SExpr) -> PRes<SExpr>
    decreases ts.len() - k, 0int,
{
    let t = tk(ts, k);
    if !(prec < precedence(t)) {
        PRes::Parsed(left, k)
    } else if t is LeftBracket {
        match p_expr(ts, k + 1, 0) {
            PRes::Parsed(e, k2) => if tk(ts, k2) is RightBracket {
                PRes::Parsed(SExpr::Index(Box::new(left), Box::new(e)), k2 + 1)
            } else {
                PRes::Refused(k2)
            },
            PRes::Refused(k2) => PRes::Refused(k2),
            PRes::Panics(x) => PRes::Panics(x),
        }
    } else if t is LeftParenthesis {
        match left {
            SExpr::Identifier(f) => p_args(ts, k + 1, f, Seq::empty()),
            _ => PRes::Refused(k),
        }
    } else {
        match binary_operator(t) {
            Some(op) => match p_expr(ts, k + 1, precedence(t)) {
                PRes::Parsed(r, k2) => if k < k2 <= ts.len() {
                    p_infix(ts, k2, prec, SExpr::Binary(Box::new(left), op, Box::new(r)))
                } else {
                    PRes::Panics(ParseError::Missing)
                },
                r => want(r),
            },
            None => PRes::Parsed(left, k),
        }
    }
}

/// The rest of an argument list of a call of `f`, whose arguments so far are `acc`.
pub open spec fn p_args(ts: Seq<SToken>, k: int, f: Seq<char>, acc: Seq<SExpr>) -> PRes<SExpr>
    decreases ts.len() - k, 1int,
{
    if tk(ts, k) is RightParenthesis {
        PRes::Parsed(SExpr::Call(f, acc), k + 1)
    } else {
        match p_expr(ts, k, 0) {
            PRes::Parsed(e, k2) => if !(k < k2 <= ts.len()) {
                PRes::Panics(ParseError::Missing)
            } else if tk(ts, k2) is Comma {
                p_args(ts, k2 + 1, f, acc.push(e))
            } else if tk(ts, k2) is RightParenthesis {
                p_args(ts, k2, f, acc.push(e))
            } else {
                PRes::Refused(k2)
            },
            r => want(r),
        }
    }
}

/// A declaration `var|const name : type [= expr] ;`, the keyword at `k`.
pub open spec fn p_decl(ts: Seq<SToken>, k: int) -> PRes<SStmt> {
    let is_mut = tk(ts, k) is Var;
    match tk(ts, k + 1) {
        SToken::Identifier(name) => if !(tk(ts, k + 2) is Colon) {
            PRes::Refused(k + 2)
        } else {
            match p_type(ts, k + 3) {
                PRes::Parsed(ty, k2) => if tk(ts, k2) is Semicolon {
                    PRes::Parsed(
                        SStmt::Declaration { is_mut, name, declared_type: ty, initializer: None },
                        k2 + 1,
                    )
                } else if !(tk(ts, k2) is Equals) {
                    PRes::Refused(k2)
                } else {
                    match p_expr(ts, k2 + 1, 0) {
                        PRes::Parsed(e, k3) => if tk(ts, k3) is Semicolon {
                            PRes::Parsed(
                                SStmt::Declaration {
                                    is_mut,
                                    name,
                                    declared_type: ty,
                                    initializer: Some(e),
                                },
                                k3 + 1,
                            )
                        } else {
                            PRes::Refused(k3)
                        },
                        PRes::Refused(k3) => PRes::Refused(k3),
                        PRes::Panics(x) => PRes::Panics(x),
                    }
                },
                PRes::Refused(k2) => PRes::Refused(k2),
                PRes::Panics(x) => PRes::Panics(x),
            }
        },
        _ => PRes::Refused(k + 1),
    }
}

/// `return expr [;]`.
pub open spec fn p_return(ts: Seq<SToken>, k: int) -> PRes<SStmt> {
    if tk(ts, k) is Return {
        match p_expr(ts, k + 1, 0) {
            PRes::Parsed(e, k2) => PRes::Parsed(
                SStmt::Return(e),
                if tk(ts, k2) is Semicolon {
                    k2 + 1
                } else {
                    k2
                },
            ),
            PRes::Refused(k2) => PRes::Refused(k2),
            PRes::Panics(x) => PRes::Panics(x),
        }
    } else {
        PRes::Refused(k)
    }
}

/// A statement: a declaration, `name[e] = e;`, `name = e;`, or a return.
/// When the value of `name = ...` is refused, the parser goes on as for a
/// return statement from where it stopped.
pub open spec fn p_stmt(ts: Seq<SToken>, k: int) -> PRes<SStmt> {
    let t = tk(ts, k);
    if t is Var || t is Const {
        p_decl(ts, k)
    } else {
        match t {
            SToken::Identifier(name) => if tk(ts, k + 1) is LeftBracket {
                match p_expr(ts, k + 2, 0) {
                    PRes::Parsed(index, k2) => if !(tk(ts, k2) is RightBracket) {
                        PRes::Panics(ParseError::ElementIndexUnclosed)
                    } else if !(tk(ts, k2 + 1) is Equals) {
                        PRes::Panics(ParseError::ElementEqualsMissing)
                    } else {
                        match p_expr(ts, k2 + 2, 0) {
                            PRes::Parsed(value, k3) => if tk(ts, k3) is Semicolon {
                                PRes::Parsed(SStmt::IndexAssignment { name, index, value }, k3 + 1)
                            } else {
                                PRes::Panics(ParseError::ElementSemicolonMissing)
                            },
                            PRes::Refused(_) => PRes::Panics(ParseError::ElementValueMissing),
                            PRes::Panics(x) => PRes::Panics(x),
                        }
                    },
                    PRes::Refused(_) => PRes::Panics(ParseError::ElementIndexMissing),
                    PRes::Panics(x) => PRes::Panics(x),
                }
            } else if tk(ts, k + 1) is Equals {
                match p_expr(ts, k + 2, 0) {
                    PRes::Parsed(value, k2) => if tk(ts, k2) is Semicolon {
                        PRes::Parsed(SStmt::Assignment { name, value }, k2 + 1)
                    } else {
                        PRes::Panics(ParseError::AssignmentSemicolonMissing)
                    },
                    PRes::Refused(k2) => p_return(ts, k2),
                    PRes::Panics(x) => PRes::Panics(x),
                }
            } else {
                PRes::Refused(k)
            },
            _ => p_return(ts, k),
        }
    }
}

/// The rest of a parameter list, whose parameters so far are `acc`; it stops
/// at the closing parenthesis, which it leaves current.
pub open spec fn p_params(ts: Seq<SToken>, k: int, acc: Seq<(Seq<char>, Type)>) -> PRes<
    Seq<(Seq<char>, Type)>,
>
    decreases ts.len() - k,
{
    if tk(ts, k) is RightParenthesis {
        PRes::Parsed(acc, k)
    } else {
        match tk(ts, k) {
            SToken::Identifier(v) => if !(tk(ts, k + 1) is Colon) {
                PRes::Refused(k + 1)
            } else {
                match p_type(ts, k + 2) {
                    PRes::Parsed(ty, k2) => if !(k < k2 <= ts.len()) {
                        PRes::Panics(ParseError::Missing)
                    } else if tk(ts, k2) is Comma {
                        p_params(ts, k2 + 1, acc.push((v, ty)))
                    } else if tk(ts, k2) is RightParenthesis {
                        p_params(ts, k2, acc.push((v, ty)))
                    } else {
                        PRes::Refused(k2)
                    },
                    r => want(r),
                }
            },
            _ => PRes::Refused(k),
        }
    }
}

/// The rest of a function body, whose statements so far are `acc`; it stops at
/// the closing brace, which it leaves current.
pub open spec fn p_body(ts: Seq<SToken>, k: int, acc: Seq<SStmt>) -> PRes<Seq<SStmt>>
    decreases ts.len() - k,
{
    if tk(ts, k) is RightCurlyBrace {
        PRes::Parsed(acc, k)
    } else {
        match p_stmt(ts, k) {
            PRes::Parsed(s, k2) => if k < k2 <= ts.len() {
                p_body(ts, k2, acc.push(s))
            } else {
                PRes::Panics(ParseError::Missing)
            },
            r => want(r),
        }
    }
}

/// A function `func name(params) : type { body }`; the closing brace stays current.
pub open spec fn p_function(ts: Seq<SToken>, k: int) -> PRes<SFunction> {
    if !(tk(ts, k) is Function) {
        PRes::Refused(k)
    } else {
        match tk(ts, k + 1) {
            SToken::Identifier(name) => if !(tk(ts, k + 2) is LeftParenthesis) {
                PRes::Refused(k + 2)
            } else {
                after_params(ts, name, p_params(ts, k + 3, Seq::empty()))
            },
            _ => PRes::Refused(k + 1),
        }
    }
}

/// The rest of function `name` once its parameter list has been read: `: type { body }`.
pub open spec fn after_params(
    ts: Seq<SToken>,
    name: Seq<char>,
    params: PRes<Seq<(Seq<char>, Type)>>,
) -> PRes<SFunction> {
    match params {
        PRes::Parsed(parameters, k2) => if !(tk(ts, k2 + 1) is Colon) {
            PRes::Refused(k2 + 1)
        } else {
            match p_type(ts, k2 + 2) {
                PRes::Parsed(return_type, k3) => if !(tk(ts, k3) is LeftCurlyBrace) {
                    PRes::Refused(k3)
                } else {
                    after_body(name, parameters, return_type, p_body(ts, k3 + 1, Seq::empty()))
                },
                r => want(r),
            }
        },
        PRes::Refused(k2) => PRes::Refused(k2),
        PRes::Panics(x) => PRes::Panics(x),
    }
}

/// Function `name` once its body has been read.
pub open spec fn after_body(
    name: Seq<char>,
    parameters: Seq<(Seq<char>, Type)>,
    return_type: Type,
    body: PRes<Seq<SStmt>>,
) -> PRes<SFunction> {
    match body {
        PRes::Parsed(body, k4) => PRes::Parsed(
            SFunction { name, parameters, return_type, body },
            k4,
        ),
        r => want(r),
    }
}

/// The functions of a program from index `k` on, after the functions `acc`:
/// every token that does not begin a function is skipped. An error where the
/// parser panics.
pub open spec fn p_program(ts: Seq<SToken>, k: int, acc: Seq<SFunction>) -> Result<
    Seq<SFunction>,
    ParseError,
>
    decreases ts.len() + 1 - k,
{
    if tk(ts, k) is Eof {
        Ok(acc)
    } else {
        match p_function(ts, k) {
            PRes::Parsed(f, k2) => if k < k2 <= ts.len() {
                p_program(ts, k2, acc.push(f))
            } else {
                Err(ParseError::Missing)
            },
            PRes::Refused(k2) => if k <= k2 <= ts.len() {
                p_program(ts, k2 + 1, acc)
            } else {
                Err(ParseError::Missing)
            },
            PRes::Panics(x) => Err(x),
        }
    }
}

/// Whether every token of `ts` from index `j` on can be held by [`Token`].
pub open spec fn fits_from(ts: Seq<SToken>, j: int) -> bool {
    forall|i: int| j <= i < ts.len() ==> token_fits(#[trigger] ts[i])
}

/// The token stream from index `j` on, as the lexer still has it to give.
pub open spec fn tail(ts: Seq<SToken>, j: int) -> Seq<SToken> {
    if 0 <= j < ts.len() {
        ts.skip(j)
    } else {
        seq![SToken::Eof]
    }
}

/// A token stream from the lexer is not empty, ends with its only end-of-input token.
pub proof fn lemma_lex_all_shape(s: Seq<char>, p: int)
    requires
        0 <= p <= s.len(),
    ensures
        lex_all(s, p).len() >= 1,
        lex_all(s, p).last() is Eof,
        forall|i: int| 0 <= i < lex_all(s, p).len() - 1 ==> !(#[trigger] lex_all(s, p)[i] is Eof),
    decreases s.len() - p,
{
    let (t, q) = spec_next(s, p);
    lemma_next_progress(s, p);
    if !(t is Eof) {
        lemma_lex_all_shape(s, q);
        let rest = lex_all(s, q);
        assert(lex_all(s, p) == seq![t] + rest);
        assert forall|i: int| 0 <= i < lex_all(s, p).len() - 1 implies !(#[trigger] lex_all(
            s,
            p,
        )[i] is Eof) by {
            if i > 0 {
                assert(lex_all(s, p)[i] == rest[i - 1]);
            }
        }
    }
}

/// Reading one more token from a lexer whose remaining stream is `tail(ts, j)`
/// gives `tk(ts, j)`, and leaves `tail(ts, j + 1)` to read.
pub proof fn lemma_stream_step(s: Seq<char>, p: int, ts: Seq<SToken>, j: int)
    requires
        0 <= p <= s.len(),
        0 <= j,
        lex_all(s, p) == tail(ts, j),
    ensures
        spec_next(s, p).0 == tk(ts, j),
        0 <= spec_next(s, p).1 <= s.len(),
        lex_all(s, spec_next(s, p).1) == tail(ts, j + 1),
{
    let (t, q) = spec_next(s, p);
    lemma_next_progress(s, p);
    lemma_lex_all_shape(s, q);
    if t is Eof {
        lemma_next_progress(s, q);
        assert(lex_all(s, p) =~= seq![SToken::Eof]);
        assert(lex_all(s, q) =~= seq![SToken::Eof]);
        if j < ts.len() {
            assert(ts.skip(j)[0] == ts[j]);
            assert(ts.skip(j).len() == 1);
        }
    } else {
        assert(lex_all(s, p) == seq![t] + lex_all(s, q));
        if j < ts.len() {
            assert(ts.skip(j)[0] == ts[j]);
            assert(ts.skip(j + 1) =~= ts.skip(j).skip(1));
            assert((seq![t] + lex_all(s, q)).skip(1) =~= lex_all(s, q));
        } else {
            assert(tail(ts, j)[0] is Eof);
        }
    }
}

/// Operators of higher precedence bind more tightly, and operators of equal
/// precedence group to the left: `a o1 b o2 c` is `(a o1 b) o2 c` unless `o2`
/// binds more tightly than `o1`, when it is `a o1 (b o2 c)`.
pub proof fn law_binary_grouping(
    ts: Seq<SToken>,
    k: int,
    a: int,
    b: int,
    c: int,
    t1: SToken,
    t2: SToken,
)
    requires
        0 <= k,
        k + 5 <= ts.len(),
        ts[k] == SToken::Number(a),
        ts[k + 1] == t1,
        ts[k + 2] == SToken::Number(b),
        ts[k + 3] == t2,
        ts[k + 4] == SToken::Number(c),
        binary_operator(t1) is Some,
        binary_operator(t2) is Some,
        precedence(tk(ts, k + 5)) == 0,
    ensures
        ({
            let x = SExpr::Integer(a as i64);
            let y = SExpr::Integer(b as i64);
            let z = SExpr::Integer(c as i64);
            let o1 = binary_operator(t1).unwrap();
            let o2 = binary_operator(t2).unwrap();
            p_expr(ts, k, 0) == PRes::Parsed(
                if precedence(t1) >= precedence(t2) {
                    SExpr::Binary(
                        Box::new(SExpr::Binary(Box::new(x), o1, Box::new(y))),
                        o2,
                        Box::new(z),
                    )
                } else {
                    SExpr::Binary(
                        Box::new(x),
                        o1,
                        Box::new(SExpr::Binary(Box::new(y), o2, Box::new(z))),
                    )
                },
                k + 5,
            )
        }),
{
    let x = SExpr::Integer(a as i64);
    let y = SExpr::Integer(b as i64);
    let z = SExpr::Integer(c as i64);
    let o1 = binary_operator(t1).unwrap();
    let o2 = binary_operator(t2).unwrap();
    let p1 = precedence(t1);
    let p2 = precedence(t2);
    assert(p1 > 0 && p2 > 0 && !(t1 is LeftBracket) && !(t1 is LeftParenthesis));
    assert(!(t2 is LeftBracket) && !(t2 is LeftParenthesis));
    assert(p_expr(ts, k, 0) == p_infix(ts, k + 1, 0, x));
    assert(p_expr(ts, k + 4, p2) == p_infix(ts, k + 5, p2, z));
    assert(p_infix(ts, k + 5, p2, z) == PRes::Parsed(z, k + 5));
    if p1 >= p2 {
        assert(p_infix(ts, k + 3, p1, y) == PRes::Parsed(y, k + 3));
        assert(p_expr(ts, k + 2, p1) == PRes::Parsed(y, k + 3));
        let xy = SExpr::Binary(Box::new(x), o1, Box::new(y));
        assert(p_infix(ts, k + 1, 0, x) == p_infix(ts, k + 3, 0, xy));
        assert(p_expr(ts, k + 4, p2) == PRes::Parsed(z, k + 5));
        let xyz = SExpr::Binary(Box::new(xy), o2, Box::new(z));
        assert(p_infix(ts, k + 3, 0, xy) == p_infix(ts, k + 5, 0, xyz));
        assert(p_infix(ts, k + 5, 0, xyz) == PRes::Parsed(xyz, k + 5));
    } else {
        let yz = SExpr::Binary(Box::new(y), o2, Box::new(z));
        assert(p_infix(ts, k + 3, p1, y) == p_infix(ts, k + 5, p1, yz));
        assert(p_infix(ts, k + 5, p1, yz) == PRes::Parsed(yz, k + 5));
        assert(p_expr(ts, k + 2, p1) == PRes::Parsed(yz, k + 5));
        let xyz = SExpr::Binary(Box::new(x), o1, Box::new(yz));
        assert(p_infix(ts, k + 1, 0, x) == p_infix(ts, k + 5, 0, xyz));
        assert(p_infix(ts, k + 5, 0, xyz) == PRes::Parsed(xyz, k + 5));
    }
}

/// A unary `*` or `&` applies to its operand alone, before any binary
/// operator: `* x op n` is `(*x) op n`, and `& x op n` is `(&x) op n`.
pub proof fn law_unary_binds_tighter(
    ts: Seq<SToken>,
    k: int,
    x: Seq<char>,
    n: int,
    u: SToken,
    t: SToken,
)
    requires
        0 <= k,
        k + 4 <= ts.len(),
        u is Asterisk || u is Ampersand,
        ts[k] == u,
        ts[k + 1] == SToken::Identifier(x),
        ts[k + 2] == t,
        ts[k + 3] == SToken::Number(n),
        binary_operator(t) is Some,
        precedence(tk(ts, k + 4)) == 0,
    ensures
        ({
            let operand = if u is Asterisk {
                SExpr::Dereference(Box::new(SExpr::Identifier(x)))
            } else {
                SExpr::AddressOf(Box::new(SExpr::Identifier(x)))
            };
            p_expr(ts, k, 0) == PRes::Parsed(
                SExpr::Binary(
                    Box::new(operand),
                    binary_operator(t).unwrap(),
                    Box::new(SExpr::Integer(n as i64)),
                ),
                k + 4,
            )
        }),
{
    let p = precedence(t);
    assert(p == 1 || p == 2);
    assert(!(t is LeftBracket) && !(t is LeftParenthesis));
    let xe = SExpr::Identifier(x);
    let ne = SExpr::Integer(n as i64);
    assert(p_expr(ts, k + 1, 3) == p_infix(ts, k + 2, 3, xe));
    assert(p_infix(ts, k + 2, 3, xe) == PRes::<SExpr>::Parsed(xe, k + 2));
    let operand = if u is Asterisk {
        SExpr::Dereference(Box::new(xe))
    } else {
        SExpr::AddressOf(Box::new(xe))
    };
    assert(p_expr(ts, k, 0) == p_infix(ts, k + 2, 0, operand));
    assert(p_expr(ts, k + 3, p) == p_infix(ts, k + 4, p, ne));
    assert(p_infix(ts, k + 4, p, ne) == PRes::<SExpr>::Parsed(ne, k + 4));
    let whole = SExpr::Binary(Box::new(operand), binary_operator(t).unwrap(), Box::new(ne));
    assert(p_infix(ts, k + 2, 0, operand) == p_infix(ts, k + 4, 0, whole));
    assert(p_infix(ts, k + 4, 0, whole) == PRes::<SExpr>::Parsed(whole, k + 4));
}

/// Each operator token stands for the operator it spells, `*` and `/` bind
/// more tightly than `+` and `-`, and no other token is a binary operator.
pub proof fn law_operator_tokens(t: SToken)
    ensures
        binary_operator(SToken::Plus) == Some(Operator::Add),
        binary_operator(SToken::Minus) == Some(Operator::Subtract),
        binary_operator(SToken::Asterisk) == Some(Operator::Multiply),
        binary_operator(SToken::Slash) == Some(Operator::Divide),
        precedence(SToken::Asterisk) == precedence(SToken::Slash),
        precedence(SToken::Plus) == precedence(SToken::Minus),
        0 < precedence(SToken::Plus) < precedence(SToken::Asterisk),
        binary_operator(t) is Some <==> (t is Plus || t is Minus || t is Asterisk || t is Slash),
{
}

/// The spelling of a scalar type in source text.
pub open spec fn scalar_spelling(t: Type) -> Option<Seq<char>> {
    match t {
        Type::I8 => Some(seq!['i', '8']),
        Type::I16 => Some(seq!['i', '1', '6']),
        Type::I32 => Some(seq!['i', '3', '2']),
        Type::I64 => Some(seq!['i', '6', '4']),
        Type::U8 => Some(seq!['u', '8']),
        Type::U16 => Some(seq!['u', '1', '6']),
        Type::U32 => Some(seq!['u', '3', '2']),
        Type::U64 => Some(seq!['u', '6', '4']),
        Type::F32 => Some(seq!['f', '3', '2']),
        Type::F64 => Some(seq!['f', '6', '4']),
        _ => None,
    }
}

/// A scalar type name stands for the type it spells, and for nothing else:
/// every scalar type is read back from its spelling, and a name that is read
/// as a type is that type's spelling.
pub proof fn law_type_names_match_spelling(n: Seq<char>, t: Type)
    ensures
        scalar_spelling(t) matches Some(w) ==> type_from_name(w) == Some(t),
        type_from_name(n) matches Some(u) ==> scalar_spelling(u) == Some(n),
{
}

/// A token stream without the keyword `func` holds no function: from any
/// index, the program gets no function beyond those it already has.
pub proof fn law_no_func_no_functions(ts: Seq<SToken>, k: int, acc: Seq<SFunction>)
    requires
        forall|i: int| 0 <= i < ts.len() ==> !(#[trigger] ts[i] is Function),
    ensures
        p_program(ts, k, acc) == Ok::<Seq<SFunction>, ParseError>(acc),
    decreases ts.len() + 1 - k,
{
    if !(tk(ts, k) is Eof) {
        assert(p_function(ts, k) == PRes::<SFunction>::Refused(k));
        law_no_func_no_functions(ts, k + 1, acc);
    }
}

// ---------------------------------------------------------------------------
// The parser
// ---------------------------------------------------------------------------

/// A parser over the tokens of a lexer; it holds the current token and the
/// one after it.
pub struct Parser<'a> {
    lexer: Lexer<'a>,
    current_token: Token,
    peek_token: Token,
    toks: Ghost<Seq<SToken>>,
    idx: Ghost<int>,
}

impl<'a> Parser<'a> {
    /// The token stream the parser reads: the lexer's, from where it stood
    /// when the parser was made.
    pub closed spec fn tokens(&self) -> Seq<SToken> {
        self.toks@
    }

    /// The index of the current token in [`Parser::tokens`].
    pub closed spec fn index(&self) -> int {
        self.idx@
    }

    /// The parser's invariant: the current and next tokens are the stream's,
    /// and the lexer holds the rest of the stream.
    pub closed spec fn wf(&self) -> bool {
        &&& self.lexer.wf()
        &&& 0 <= self.idx@
        &&& self.toks@.len() >= 1
        &&& self.toks@.last() is Eof
        &&& self.current_token@ == tk(self.toks@, self.idx@)
        &&& self.peek_token@ == tk(self.toks@, self.idx@ + 1)
        &&& lex_all(self.lexer.text(), self.lexer.position()) == tail(self.toks@, self.idx@ + 2)
    }

    /// A parser that reads the tokens of `lexer` from where it stands.
    pub fn new(lexer: Lexer<'a>) -> (p: Self)
        requires
            lexer.wf(),
            token_fits(tk(lex_all(lexer.text(), lexer.position()), 0)),
            token_fits(tk(lex_all(lexer.text(), lexer.position()), 1)),
        ensures
            p.wf(),
            p.tokens() == lex_all(lexer.text(), lexer.position()),
            p.index() == 0,
    {
        let mut lexer = lexer;
        let ghost s = lexer.text();
        let ghost ts = lex_all(s, lexer.position());
        proof {
            lexer.lemma_wf();
            lemma_lex_all_shape(s, lexer.position());
            assert(ts.skip(0) =~= ts);
            lemma_stream_step(s, lexer.position(), ts, 0);
        }
        let current_token = lexer.next_token();
        proof {
            lexer.lemma_wf();
            lemma_stream_step(s, lexer.position(), ts, 1);
        }
        let peek_token = lexer.next_token();
        Parser { lexer, current_token, peek_token, toks: Ghost(ts), idx: Ghost(0) }
    }

    /// Moves to the next token.
    fn advance(&mut self)
        requires
            old(self).wf(),
            fits_from(old(self).tokens(), old(self).index() + 2),
        ensures
            final(self).wf(),
            final(self).tokens() == old(self).tokens(),
            final(self).index() == old(self).index() + 1,
    {
        let ghost s = self.lexer.text();
        let ghost ts = self.toks@;
        let ghost j = self.idx@ + 2;
        proof {
            self.lexer.lemma_wf();
            lemma_stream_step(s, self.lexer.position(), ts, j);
        }
        let mut next = self.lexer.next_token();
        std::mem::swap(&mut self.peek_token, &mut next);
        self.current_token = next;
        self.idx = Ghost(self.idx@ + 1);
    }

    /// The scalar type that `name` stands for, if any.
    fn parse_type_from_string(&mut self, name: &str) -> (t: Option<Type>)
        ensures
            t == type_from_name(name@),
            *final(self) == *old(self),
    {
        proof {
            reveal_strlit("i8");
            reveal_strlit("i16");
            reveal_strlit("i32");
            reveal_strlit("i64");
            reveal_strlit("u8");
            reveal_strlit("u16");
            reveal_strlit("u32");
            reveal_strlit("u64");
            reveal_strlit("f32");
            reveal_strlit("f64");
            assert("i8"@ =~= seq!['i', '8']);
            assert("i16"@ =~= seq!['i', '1', '6']);
            assert("i32"@ =~= seq!['i', '3', '2']);
            assert("i64"@ =~= seq!['i', '6', '4']);
            assert("u8"@ =~= seq!['u', '8']);
            assert("u16"@ =~= seq!['u', '1', '6']);
            assert("u32"@ =~= seq!['u', '3', '2']);
            assert("u64"@ =~= seq!['u', '6', '4']);
            assert("f32"@ =~= seq!['f', '3', '2']);
            assert("f64"@ =~= seq!['f', '6', '4']);
        }
        if str_is(name, "i8") {
            Some(Type::I8)
        } else if str_is(name, "i16") {
            Some(Type::I16)
        } else if str_is(name, "i32") {
            Some(Type::I32)
        } else if str_is(name, "i64") {
            Some(Type::I64)
        } else if str_is(name, "u8") {
            Some(Type::U8)
        } else if str_is(name, "u16") {
            Some(Type::U16)
        } else if str_is(name, "u32") {
            Some(Type::U32)
        } else if str_is(name, "u64") {
            Some(Type::U64)
        } else if str_is(name, "f32") {
            Some(Type::F32)
        } else if str_is(name, "f64") {
            Some(Type::F64)
        } else {
            None
        }
    }

    /// A type at the current token.
    fn parse_type(&mut self) -> (t: Result<Option<Type>, ParseError>)
        requires
            old(self).wf(),
            old(self).index() <= old(self).tokens().len(),
            fits_from(old(self).tokens(), old(self).index() + 2),
        ensures
            final(self).wf(),
            final(self).tokens() == old(self).tokens(),
            match p_type(old(self).tokens(), old(self).index()) {
                PRes::Parsed(ty, k2) => t == Ok::<Option<Type>, ParseError>(Some(ty)) && final(self).index()
                    == k2,
                PRes::Refused(k2) => t == Ok::<Option<Type>, ParseError>(None) && final(self).index() == k2,
                PRes::Panics(x) => t == Err::<Option<Type>, ParseError>(x),
            },
            t is Ok ==> old(self).index() <= final(self).index() <= old(self).tokens().len(),
            t matches Ok(Some(_)) ==> old(self).index() < final(self).index(),
    {
        let is_pointer = matches!(self.current_token, Token::Asterisk);
        if is_pointer {
            self.advance();
        }
        let is_array = matches!(self.current_token, Token::LeftBracket);
        if is_array {
            self.advance();
            let array_size = match &self.current_token {
                Token::Number(n) => *n,
                _ => {
                    return Ok(None);
                },
            };
            self.advance();
            if !matches!(self.current_token, Token::RightBracket) {
                return Err(ParseError::UnclosedArraySize);
            }
            self.advance();
            let scalar_name = match &self.current_token {
                Token::Identifier(n) => n.clone(),
                _ => {
                    return Ok(None);
                },
            };
            self.advance();
            let typ = match self.parse_type_from_string(scalar_name.as_str()) {
                Some(t) => t,
                None => {
                    return Err(ParseError::Missing);
                },
            };
            if is_pointer {
                return Ok(Some(Type::Pointer(Box::new(Type::Array(Box::new(typ), array_size)))));
            } else {
                return Ok(Some(Type::Array(Box::new(typ), array_size)));
            }
        }
        let scalar_name = match &self.current_token {
            Token::Identifier(n) => n.clone(),
            _ => {
                return Ok(None);
            },
        };
        self.advance();
        let typ = match self.parse_type_from_string(scalar_name.as_str()) {
            Some(t) => t,
            None => {
                return Err(ParseError::Missing);
            },
        };
        if is_pointer {
            Ok(Some(Type::Pointer(Box::new(typ))))
        } else {
            Ok(Some(typ))
        }
    }

    /// The binding strength of a token in an expression.
    fn get_precedence(token: &Token) -> (p: u8)
        ensures
            p == precedence(token@),
    {
        match token {
            Token::Plus | Token::Minus => 1,
            Token::Asterisk | Token::Slash => 2,
            Token::LeftBracket | Token::LeftParenthesis => 3,
            _ => 0,
        }
    }

    /// An expression whose operators bind more tightly than `precedence`.
    fn parse_expression(&mut self, precedence: u8) -> (res: Result<Option<Expression>, ParseError>)
        requires
            old(self).wf(),
            old(self).index() <= old(self).tokens().len(),
            fits_from(old(self).tokens(), old(self).index() + 2),
        ensures
            final(self).wf(),
            final(self).tokens() == old(self).tokens(),
            match p_expr(old(self).tokens(), old(self).index(), precedence as int) {
                PRes::Parsed(e, k2) => res matches Ok(Some(r)) && r@ == e && final(self).index()
                    == k2,
                PRes::Refused(k2) => res matches Ok(None) && final(self).index() == k2,
                PRes::Panics(x) => res matches Err(y) && y == x,
            },
            res is Ok ==> old(self).index() <= final(self).index() <= old(self).tokens().len(),
            res matches Ok(Some(_)) ==> old(self).index() < final(self).index(),
        decreases old(self).tokens().len() - old(self).index(), 0int,
    {
        let ghost ts = self.toks@;
        let ghost k0 = self.idx@;
        let ghost prec = precedence as int;
        let mut left = match &self.current_token {
            Token::Number(val) => {
                let expr = Expression::Integer(*val);
                self.advance();
                expr
            },
            Token::Float(text) => {
                let expr = Expression::Float(text.clone());
                self.advance();
                expr
            },
            Token::Identifier(name) => {
                let expr = Expression::Identifier(name.clone());
                self.advance();
                expr
            },
            Token::Ampersand => {
                self.advance();
                match self.parse_expression(3) {
                    Ok(Some(inner)) => Expression::AddressOf(Box::new(inner)),
                    Ok(None) => {
                        return Err(ParseError::Missing);
                    },
                    Err(x) => {
                        return Err(x);
                    },
                }
            },
            Token::Asterisk => {
                self.advance();
                match self.parse_expression(3) {
                    Ok(Some(inner)) => Expression::Dereference(Box::new(inner)),
                    Ok(None) => {
                        return Err(ParseError::Missing);
                    },
                    Err(x) => {
                        return Err(x);
                    },
                }
            },
            _ => {
                return Ok(None);
            },
        };
        while precedence < Parser::get_precedence(&self.current_token)
            invariant
                self.wf(),
                self.toks@ == ts,
                ts == old(self).tokens(),
                k0 == old(self).index(),
                k0 < self.idx@ <= ts.len(),
                fits_from(ts, k0 + 2),
                p_expr(ts, k0, prec) == p_infix(ts, self.idx@, prec, left@),
                prec == precedence as int,
            decreases ts.len() - self.idx@,
        {
            if matches!(self.current_token, Token::LeftBracket) {
                self.advance();
                let expr = match self.parse_expression(0) {
                    Ok(Some(e)) => e,
                    Ok(None) => {
                        return Ok(None);
                    },
                    Err(a) => {
                        return Err(a);
                    },
                };
                if !matches!(self.current_token, Token::RightBracket) {
                    return Ok(None);
                }
                self.advance();
                return Ok(Some(Expression::Index(Box::new(left), Box::new(expr))));
            }
            if matches!(self.current_token, Token::LeftParenthesis) {
                let function_name = match left {
                    Expression::Identifier(f) => f,
                    _ => {
                        return Ok(None);
                    },
                };
                self.advance();
                let mut args: Vec<Expression> = Vec::new();
                while !matches!(self.current_token, Token::RightParenthesis)
                    invariant
                        self.wf(),
                        self.toks@ == ts,
                        ts == old(self).tokens(),
                        k0 == old(self).index(),
                        k0 < self.idx@ <= ts.len(),
                        fits_from(ts, k0 + 2),
                        p_expr(ts, k0, prec) == p_args(
                            ts,
                            self.idx@,
                            function_name@,
                            exprs_view(args@),
                        ),
                        prec == precedence as int,
                    decreases ts.len() - self.idx@,
                {
                    let ghost before = args@;
                    let arg = match self.parse_expression(0) {
                        Ok(Some(e)) => e,
                        Ok(None) => {
                            return Err(ParseError::Missing);
                        },
                        Err(x) => {
                            return Err(x);
                        },
                    };
                    proof {
                        assert(before.push(arg).drop_last() =~= before);
                    }
                    args.push(arg);
                    if matches!(self.current_token, Token::Comma) {
                        self.advance();
                    } else if !matches!(self.current_token, Token::RightParenthesis) {
                        return Ok(None);
                    }
                }
                self.advance();
                return Ok(Some(Expression::Call(function_name, args)));
            }
            let operator = match self.current_token {
                Token::Asterisk => Operator::Multiply,
                Token::Plus => Operator::Add,
                Token::Minus => Operator::Subtract,
                Token::Slash => Operator::Divide,
                _ => {
                    return Ok(Some(left));
                },
            };
            let cur_precedence = Parser::get_precedence(&self.current_token);
            self.advance();
            let right = match self.parse_expression(cur_precedence) {
                Ok(Some(e)) => e,
                Ok(None) => {
                    return Err(ParseError::Missing);
                },
                Err(x) => {
                    return Err(x);
                },
            };
            left = Expression::Binary(Box::new(left), operator, Box::new(right));
        }
        Ok(Some(left))
    }

    /// A declaration; the current token is `var` or `const`.
    fn parse_declaration(&mut self) -> (r: Result<Option<Statement>, ParseError>)
        requires
            old(self).wf(),
            old(self).index() < old(self).tokens().len(),
            fits_from(old(self).tokens(), old(self).index() + 2),
        ensures
            final(self).wf(),
            final(self).tokens() == old(self).tokens(),
            match p_decl(old(self).tokens(), old(self).index()) {
                PRes::Parsed(st, k2) => r matches Ok(Some(x)) && x@ == st && final(self).index() == k2,
                PRes::Refused(k2) => r matches Ok(None) && final(self).index() == k2,
                PRes::Panics(x) => r matches Err(y) && y == x,
            },
            r is Ok ==> old(self).index() < final(self).index() <= old(self).tokens().len(),
    {
        let is_mut = matches!(self.current_token, Token::Var);
        self.advance();
        let name = match &self.current_token {
            Token::Identifier(n) => n.clone(),
            _ => {
                return Ok(None);
            },
        };
        self.advance();
        if !matches!(self.current_token, Token::Colon) {
            return Ok(None);
        }
        self.advance();
        let value_type = match self.parse_type() {
            Ok(Some(t)) => t,
            Ok(None) => {
                return Ok(None);
            },
            Err(a) => {
                return Err(a);
            },
        };
        if matches!(self.current_token, Token::Semicolon) {
            self.advance();
            return Ok(
                Some(
                    Statement::Declaration {
                        is_mut,
                        name,
                        declared_type: value_type,
                        initializer: None,
                    },
                ),
            );
        }
        if !matches!(self.current_token, Token::Equals) {
            return Ok(None);
        }
        self.advance();
        let initializer = match self.parse_expression(0) {
            Ok(Some(e)) => e,
            Ok(None) => {
                return Ok(None);
            },
            Err(a) => {
                return Err(a);
            },
        };
        if !matches!(self.current_token, Token::Semicolon) {
            return Ok(None);
        }
        self.advance();
        Ok(
            Some(
                Statement::Declaration {
                    is_mut,
                    name,
                    declared_type: value_type,
                    initializer: Some(initializer),
                },
            ),
        )
    }

    /// A statement at the current token.
    fn parse_statement(&mut self) -> (r: Result<Option<Statement>, ParseError>)
        requires
            old(self).wf(),
            old(self).index() <= old(self).tokens().len(),
            fits_from(old(self).tokens(), old(self).index() + 2),
        ensures
            final(self).wf(),
            final(self).tokens() == old(self).tokens(),
            match p_stmt(old(self).tokens(), old(self).index()) {
                PRes::Parsed(st, k2) => r matches Ok(Some(x)) && x@ == st && final(self).index() == k2,
                PRes::Refused(k2) => r matches Ok(None) && final(self).index() == k2,
                PRes::Panics(x) => r matches Err(y) && y == x,
            },
            r is Ok ==> old(self).index() <= final(self).index() <= old(self).tokens().len(),
            r matches Ok(Some(_)) ==> old(self).index() < final(self).index(),
    {
        if matches!(self.current_token, Token::Var) || matches!(self.current_token, Token::Const) {
            return self.parse_declaration();
        }
        let ident = match &self.current_token {
            Token::Identifier(name) => Some(name.clone()),
            _ => None,
        };
        if let Some(var_name) = ident {
            if matches!(self.peek_token, Token::LeftBracket) {
                self.advance();
                self.advance();
                let index = match self.parse_expression(0) {
                    Ok(Some(e)) => e,
                    Ok(None) => {
                        return Err(ParseError::ElementIndexMissing);
                    },
                    Err(x) => {
                        return Err(x);
                    },
                };
                if !matches!(self.current_token, Token::RightBracket) {
                    return Err(ParseError::ElementIndexUnclosed);
                }
                self.advance();
                if !matches!(self.current_token, Token::Equals) {
                    return Err(ParseError::ElementEqualsMissing);
                }
                self.advance();
                let value = match self.parse_expression(0) {
                    Ok(Some(e)) => e,
                    Ok(None) => {
                        return Err(ParseError::ElementValueMissing);
                    },
                    Err(x) => {
                        return Err(x);
                    },
                };
                if !matches!(self.current_token, Token::Semicolon) {
                    return Err(ParseError::ElementSemicolonMissing);
                }
                self.advance();
                return Ok(Some(Statement::IndexAssignment { name: var_name, index, value }));
            }
            if matches!(self.peek_token, Token::Equals) {
                self.advance();
                self.advance();
                match self.parse_expression(0) {
                    Ok(Some(expr)) => {
                        if matches!(self.current_token, Token::Semicolon) {
                            self.advance();
                        } else {
                            return Err(ParseError::AssignmentSemicolonMissing);
                        }
                        return Ok(Some(Statement::Assignment { name: var_name, value: expr }));
                    },
                    Ok(None) => {},
                    Err(a) => {
                        return Err(a);
                    },
                }
            } else {
                return Ok(None);
            }
        }
        if matches!(self.current_token, Token::Return) {
            self.advance();
        } else {
            return Ok(None);
        }
        match self.parse_expression(0) {
            Ok(Some(expr)) => {
                if matches!(self.current_token, Token::Semicolon) {
                    self.advance();
                }
                Ok(Some(Statement::Return(expr)))
            },
            Ok(None) => Ok(None),
            Err(a) => Err(a),
        }
    }

    /// A function definition at the current token.
    fn parse_function(&mut self) -> (r: Result<Option<Function>, ParseError>)
        requires
            old(self).wf(),
            old(self).index() <= old(self).tokens().len(),
            fits_from(old(self).tokens(), old(self).index() + 2),
        ensures
            final(self).wf(),
            final(self).tokens() == old(self).tokens(),
            match p_function(old(self).tokens(), old(self).index()) {
                PRes::Parsed(f, k2) => r matches Ok(Some(x)) && x@ == f && final(self).index() == k2,
                PRes::Refused(k2) => r matches Ok(None) && final(self).index() == k2,
                PRes::Panics(x) => r matches Err(y) && y == x,
            },
            r is Ok ==> old(self).index() <= final(self).index() <= old(self).tokens().len(),
            r matches Ok(Some(_)) ==> old(self).index() < final(self).index(),
    {
        let ghost ts = self.toks@;
        let ghost k0 = self.idx@;
        if !matches!(self.current_token, Token::Function) {
            return Ok(None);
        }
        self.advance();
        let func_name = match &self.current_token {
            Token::Identifier(n) => n.clone(),
            _ => {
                return Ok(None);
            },
        };
        self.advance();
        if !matches!(self.current_token, Token::LeftParenthesis) {
            return Ok(None);
        }
        self.advance();
        let mut parameters: Vec<(String, Type)> = Vec::new();
        proof {
            assert(params_view(parameters@) =~= Seq::<(Seq<char>, Type)>::empty());
        }
        while !matches!(self.current_token, Token::RightParenthesis)
            invariant
                self.wf(),
                self.toks@ == ts,
                ts == old(self).tokens(),
                k0 == old(self).index(),
                k0 < self.idx@ <= ts.len(),
                fits_from(ts, k0 + 2),
                p_function(ts, k0) == after_params(
                    ts,
                    func_name@,
                    p_params(ts, self.idx@, params_view(parameters@)),
                ),
            decreases ts.len() - self.idx@,
        {
            let var_name = match &self.current_token {
                Token::Identifier(n) => n.clone(),
                _ => {
                    return Ok(None);
                },
            };
            self.advance();
            if !matches!(self.current_token, Token::Colon) {
                return Ok(None);
            }
            self.advance();
            let var_type = match self.parse_type() {
                Ok(Some(t)) => t,
                Ok(None) => {
                    return Err(ParseError::Missing);
                },
                Err(x) => {
                    return Err(x);
                },
            };
            let ghost before = parameters@;
            parameters.push((var_name, var_type));
            proof {
                assert(params_view(parameters@) =~= params_view(before).push((var_name@, var_type)));
            }
            if !matches!(self.current_token, Token::Comma) && !matches!(
                self.current_token,
                Token::RightParenthesis,
            ) {
                return Ok(None);
            }
            if matches!(self.current_token, Token::Comma) {
                self.advance();
            }
        }
        self.advance();
        if !matches!(self.current_token, Token::Colon) {
            return Ok(None);
        }
        self.advance();
        let func_type = match self.parse_type() {
            Ok(Some(t)) => t,
            Ok(None) => {
                return Err(ParseError::Missing);
            },
            Err(x) => {
                return Err(x);
            },
        };
        if !matches!(self.current_token, Token::LeftCurlyBrace) {
            return Ok(None);
        }
        self.advance();
        let ghost params_model = params_view(parameters@);
        let mut statements: Vec<Statement> = Vec::new();
        proof {
            assert(stmts_view(statements@) =~= Seq::<SStmt>::empty());
        }
        while !matches!(self.current_token, Token::RightCurlyBrace)
            invariant
                self.wf(),
                self.toks@ == ts,
                ts == old(self).tokens(),
                k0 == old(self).index(),
                k0 < self.idx@ <= ts.len(),
                fits_from(ts, k0 + 2),
                params_model == params_view(parameters@),
                p_function(ts, k0) == after_body(
                    func_name@,
                    params_model,
                    func_type,
                    p_body(ts, self.idx@, stmts_view(statements@)),
                ),
            decreases ts.len() - self.idx@,
        {
            let st = match self.parse_statement() {
                Ok(Some(st)) => st,
                Ok(None) => {
                    return Err(ParseError::Missing);
                },
                Err(x) => {
                    return Err(x);
                },
            };
            let ghost before = statements@;
            statements.push(st);
            proof {
                assert(stmts_view(statements@) =~= stmts_view(before).push(st@));
            }
        }
        Ok(
            Some(
                Function {
                    name: func_name,
                    parameters,
                    return_type: func_type,
                    body: statements,
                },
            ),
        )
    }

    /// Parses the whole program, as [`Parser::parse_program`] does, or gives
    /// the reason for which [`Parser::parse_program`] panics on it.
    pub fn try_parse_program(&mut self) -> (prog: Result<ast::Program, ParseError>)
        requires
            old(self).wf(),
            old(self).index() <= old(self).tokens().len(),
            fits_from(old(self).tokens(), old(self).index() + 2),
        ensures
            final(self).wf(),
            final(self).tokens() == old(self).tokens(),
            match p_program(old(self).tokens(), old(self).index(), Seq::empty()) {
                Ok(fs) => prog matches Ok(p) && p@ == fs && tk(
                    final(self).tokens(),
                    final(self).index(),
                ) is Eof,
                Err(x) => prog matches Err(y) && y == x,
            },
    {
        let ghost ts = self.toks@;
        let ghost k0 = self.idx@;
        let mut prog = ast::Program { functions: Vec::new() };
        proof {
            assert(functions_view(prog.functions@) =~= Seq::<SFunction>::empty());
        }
        while !matches!(self.current_token, Token::Eof)
            invariant
                self.wf(),
                self.toks@ == ts,
                ts == old(self).tokens(),
                k0 == old(self).index(),
                k0 <= self.idx@ <= ts.len() + 1,
                fits_from(ts, k0 + 2),
                p_program(ts, k0, Seq::empty()) == p_program(
                    ts,
                    self.idx@,
                    functions_view(prog.functions@),
                ),
            decreases ts.len() + 1 - self.idx@,
        {
            match self.parse_function() {
                Ok(Some(func)) => {
                    let ghost before = prog.functions@;
                    prog.functions.push(func);
                    proof {
                        assert(functions_view(prog.functions@) =~= functions_view(before).push(
                            func@,
                        ));
                    }
                },
                Ok(None) => {
                    self.advance();
                },
                Err(x) => {
                    return Err(x);
                },
            }
        }
        Ok(prog)
    }

    /// Parses the whole program: every function definition up to the end of
    /// the input; every token that does not begin one is skipped.
    pub fn parse_program(&mut self) -> (prog: ast::Program)
        requires
            old(self).wf(),
            old(self).index() <= old(self).tokens().len(),
            fits_from(old(self).tokens(), old(self).index() + 2),
            p_program(old(self).tokens(), old(self).index(), Seq::empty()) is Ok,
        ensures
            p_program(old(self).tokens(), old(self).index(), Seq::empty()) == Ok::<
                Seq<SFunction>,
                ParseError,
            >(prog@),
            final(self).wf(),
            final(self).tokens() == old(self).tokens(),
            tk(final(self).tokens(), final(self).index()) is Eof,
    {
        self.try_parse_program().unwrap()
    }
}

/// Whether every token of the stream from `p` can be held by [`Token`]: the
/// first can, and, unless it ends the input, so can those after it.
pub proof fn lemma_fits_step(s: Seq<char>, p: int)
    requires
        0 <= p <= s.len(),
    ensures
        fits_from(lex_all(s, p), 0) == (token_fits(spec_next(s, p).0) && (spec_next(s, p).0 is Eof
            || fits_from(lex_all(s, spec_next(s, p).1), 0))),
{
    let (t, q) = spec_next(s, p);
    lemma_next_progress(s, p);
    if !(t is Eof) {
        let rest = lex_all(s, q);
        let all = lex_all(s, p);
        assert(all == seq![t] + rest);
        if fits_from(all, 0) {
            assert(token_fits(all[0]));
            assert forall|i: int| 0 <= i < rest.len() implies token_fits(#[trigger] rest[i]) by {
                assert(all[i + 1] == rest[i]);
            }
        }
        if token_fits(t) && fits_from(rest, 0) {
            assert forall|i: int| 0 <= i < all.len() implies token_fits(#[trigger] all[i]) by {
                if i > 0 {
                    assert(all[i] == rest[i - 1]);
                }
            }
        }
    } else {
        assert(lex_all(s, p) == seq![t]);
        if token_fits(t) {
            assert forall|i: int| 0 <= i < lex_all(s, p).len() implies token_fits(#[trigger] lex_all(s, p)[i]) by {}
        }
    }
}

/// Whether every token of `input` can be held by [`Token`]: no number in it
/// is too large for an `i64`. Lexing and parsing `input` does not panic for
/// that reason exactly when this holds.
pub fn all_tokens_fit(input: &str) -> (r: bool)
    ensures
        r == fits_from(tokenize(input@), 0),
{
    let mut lexer = Lexer::new(input);
    let ghost s = input@;
    loop
        invariant
            lexer.wf(),
            lexer.text() == s,
            s == input@,
            fits_from(tokenize(s), 0) == fits_from(lex_all(s, lexer.position()), 0),
        decreases s.len() - lexer.position(),
    {
        let ghost p = lexer.position();
        proof {
            lexer.lemma_wf();
            lemma_fits_step(s, p);
            lemma_next_progress(s, p);
        }
        match lexer.try_next_token() {
            None => {
                return false;
            },
            Some(Token::Eof) => {
                return true;
            },
            Some(_) => {},
        }
    }
}

/// Whether two strings hold the same characters.
pub fn str_is(a: &str, b: &str) -> (r: bool)
    ensures
        r == (a@ == b@),
{
    let n = a.unicode_len();
    if n != b.unicode_len() {
        return false;
    }
    let mut i: usize = 0;
    while i < n
        invariant
            n == a@.len() == b@.len(),
            i <= n,
            forall|j: int| 0 <= j < i ==> a@[j] == b@[j],
        decreases n - i,
    {
        if a.get_char(i) != b.get_char(i) {
            return false;
        }
        i = i + 1;
    }
    assert(a@ =~= b@);
    true
}

} // verus!
