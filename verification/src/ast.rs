//! The syntax tree of a source program, with its mathematical model.
//!
//! Names are `String`s in the executable tree and character sequences in the
//! model; a floating-point literal is kept as the text it was written with.
use vstd::prelude::*;

verus! {

/// An expression of the language.
#[derive(Debug, PartialEq)]
pub enum Expression {
    Integer(i64),
    /// A floating-point literal, held as its source text (such as `3.14`).
    Float(String),
    Identifier(String),
    Binary(Box<Expression>, Operator, Box<Expression>),
    AddressOf(Box<Expression>),
    Dereference(Box<Expression>),
    Index(Box<Expression>, Box<Expression>),
    Call(String, Vec<Expression>),
}

/// A statement of a function body.
#[derive(Debug, PartialEq)]
pub enum Statement {
    Return(Expression),
    Declaration { is_mut: bool, name: String, declared_type: Type, initializer: Option<Expression> },
    Assignment { name: String, value: Expression },
    IndexAssignment { name: String, index: Expression, value: Expression },
}

/// A binary arithmetic operator.
#[derive(Debug, PartialEq, Clone, Copy)]
pub enum Operator {
    Add,
    Subtract,
    Multiply,
    Divide,
}

/// A type written in a declaration or a signature.
#[derive(Debug, PartialEq)]
pub enum Type {
    I8,
    I16,
    I32,
    I64,
    U8,
    U16,
    U32,
    U64,
    F32,
    F64,
    Pointer(Box<Type>),
    Array(Box<Type>, i64),
}

impl Clone for Type {
    fn clone(&self) -> (r: Self)
        ensures
            r == *self,
        decreases self,
    {
        match self {
            Type::I8 => Type::I8,
            Type::I16 => Type::I16,
            Type::I32 => Type::I32,
            Type::I64 => Type::I64,
            Type::U8 => Type::U8,
            Type::U16 => Type::U16,
            Type::U32 => Type::U32,
            Type::U64 => Type::U64,
            Type::F32 => Type::F32,
            Type::F64 => Type::F64,
            Type::Pointer(t) => Type::Pointer(Box::new((**t).clone())),
            Type::Array(t, n) => Type::Array(Box::new((**t).clone()), *n),
        }
    }
}

/// A function definition.
#[derive(Debug, PartialEq)]
pub struct Function {
    pub name: String,
    pub parameters: Vec<(String, Type)>,
    pub return_type: Type,
    pub body: Vec<Statement>,
}

/// A whole program: its functions in source order.
#[derive(Debug, PartialEq)]
pub struct Program {
    pub functions: Vec<Function>,
}

/// Model of an [`Expression`]: names and literal texts become character sequences.
pub enum SExpr {
    Integer(i64),
    Float(Seq<char>),
    Identifier(Seq<char>),
    Binary(Box<SExpr>, Operator, Box<SExpr>),
    AddressOf(Box<SExpr>),
    Dereference(Box<SExpr>),
    Index(Box<SExpr>, Box<SExpr>),
    Call(Seq<char>, Seq<SExpr>),
}

/// Model of a [`Statement`].
pub enum SStmt {
    Return(SExpr),
    Declaration { is_mut: bool, name: Seq<char>, declared_type: Type, initializer: Option<SExpr> },
    Assignment { name: Seq<char>, value: SExpr },
    IndexAssignment { name: Seq<char>, index: SExpr, value: SExpr },
}

/// Model of a [`Function`].
pub struct SFunction {
    pub name: Seq<char>,
    pub parameters: Seq<(Seq<char>, Type)>,
    pub return_type: Type,
    pub body: Seq<SStmt>,
}

/// The model of an expression.
pub open spec fn expr_view(e: Expression) -> SExpr
    decreases e,
{
    match e {
        Expression::Integer(v) => SExpr::Integer(v),
        Expression::Float(t) => SExpr::Float(t@),
        Expression::Identifier(n) => SExpr::Identifier(n@),
        Expression::Binary(l, op, r) => SExpr::Binary(
            Box::new(expr_view(*l)),
            op,
            Box::new(expr_view(*r)),
        ),
        Expression::AddressOf(x) => SExpr::AddressOf(Box::new(expr_view(*x))),
        Expression::Dereference(x) => SExpr::Dereference(Box::new(expr_view(*x))),
        Expression::Index(a, i) => SExpr::Index(Box::new(expr_view(*a)), Box::new(expr_view(*i))),
        Expression::Call(n, args) => SExpr::Call(n@, exprs_view(args@)),
    }
}

/// The models of a sequence of expressions, element by element.
pub open spec fn exprs_view(s: Seq<Expression>) -> Seq<SExpr>
    decreases s,
{
    if s.len() == 0 {
        Seq::empty()
    } else {
        exprs_view(s.drop_last()).push(expr_view(s.last()))
    }
}

/// The models of a sequence of expressions are its elements' models, in order.
pub proof fn lemma_exprs_view(s: Seq<Expression>)
    ensures
        exprs_view(s).len() == s.len(),
        forall|i: int| 0 <= i < s.len() ==> #[trigger] exprs_view(s)[i] == s[i]@,
    decreases s.len(),
{
    if s.len() > 0 {
        lemma_exprs_view(s.drop_last());
    }
}

impl View for Expression {
    type V = SExpr;

    open spec fn view(&self) -> SExpr {
        expr_view(*self)
    }
}

/// The model of an optional expression.
pub open spec fn opt_expr_view(e: Option<Expression>) -> Option<SExpr> {
    match e {
        Some(x) => Some(x@),
        None => None,
    }
}

impl View for Statement {
    type V = SStmt;

    open spec fn view(&self) -> SStmt {
        match *self {
            Statement::Return(e) => SStmt::Return(e@),
            Statement::Declaration { is_mut, name, declared_type, initializer } => SStmt::Declaration {
                is_mut,
                name: name@,
                declared_type,
                initializer: opt_expr_view(initializer),
            },
            Statement::Assignment { name, value } => SStmt::Assignment { name: name@, value: value@ },
            Statement::IndexAssignment { name, index, value } => SStmt::IndexAssignment {
                name: name@,
                index: index@,
                value: value@,
            },
        }
    }
}

/// A copy of an expression.
fn clone_expr(e: &Expression) -> (r: Expression)
    ensures
        r@ == e@,
    decreases e,
{
    match e {
        Expression::Integer(v) => Expression::Integer(*v),
        Expression::Float(t) => Expression::Float(t.clone()),
        Expression::Identifier(n) => Expression::Identifier(n.clone()),
        Expression::Binary(l, op, r) => Expression::Binary(
            Box::new(clone_expr(l)),
            *op,
            Box::new(clone_expr(r)),
        ),
        Expression::AddressOf(x) => Expression::AddressOf(Box::new(clone_expr(x))),
        Expression::Dereference(x) => Expression::Dereference(Box::new(clone_expr(x))),
        Expression::Index(a, i) => Expression::Index(Box::new(clone_expr(a)), Box::new(clone_expr(i))),
        Expression::Call(n, args) => {
            proof {
                let x = *e;
                assert(decreases_to!(x => x->1));
            }
            Expression::Call(n.clone(), clone_exprs(args))
        },
    }
}

/// A copy of a list of expressions.
fn clone_exprs(v: &Vec<Expression>) -> (r: Vec<Expression>)
    ensures
        exprs_view(r@) == exprs_view(v@),
    decreases v,
{
    let mut out: Vec<Expression> = Vec::new();
    let mut i: usize = 0;
    while i < v.len()
        invariant
            i <= v.len(),
            out.len() == i,
            forall|j: int| 0 <= j < i ==> #[trigger] out@[j]@ == v@[j]@,
        decreases v.len() - i,
    {
        let c = clone_expr(&v[i]);
        out.push(c);
        i = i + 1;
    }
    proof {
        lemma_exprs_view(out@);
        lemma_exprs_view(v@);
        assert(exprs_view(out@) =~= exprs_view(v@));
    }
    out
}

impl Clone for Expression {
    fn clone(&self) -> (r: Self)
        ensures
            r@ == self@,
    {
        clone_expr(self)
    }
}

impl Clone for Statement {
    fn clone(&self) -> (r: Self)
        ensures
            r@ == self@,
    {
        match self {
            Statement::Return(e) => Statement::Return(clone_expr(e)),
            Statement::Declaration { is_mut, name, declared_type, initializer } => {
                let init = match initializer {
                    Some(x) => Some(clone_expr(x)),
                    None => None,
                };
                Statement::Declaration {
                    is_mut: *is_mut,
                    name: name.clone(),
                    declared_type: declared_type.clone(),
                    initializer: init,
                }
            },
            Statement::Assignment { name, value } => Statement::Assignment {
                name: name.clone(),
                value: clone_expr(value),
            },
            Statement::IndexAssignment { name, index, value } => Statement::IndexAssignment {
                name: name.clone(),
                index: clone_expr(index),
                value: clone_expr(value),
            },
        }
    }
}

/// The model of a parameter list.
pub open spec fn params_view(p: Seq<(String, Type)>) -> Seq<(Seq<char>, Type)> {
    p.map_values(|x: (String, Type)| (x.0@, x.1))
}

/// The model of a statement list.
pub open spec fn stmts_view(b: Seq<Statement>) -> Seq<SStmt> {
    b.map_values(|s: Statement| s@)
}

impl View for Function {
    type V = SFunction;

    open spec fn view(&self) -> SFunction {
        SFunction {
            name: self.name@,
            parameters: params_view(self.parameters@),
            return_type: self.return_type,
            body: stmts_view(self.body@),
        }
    }
}

/// The model of a function list.
pub open spec fn functions_view(f: Seq<Function>) -> Seq<SFunction> {
    f.map_values(|x: Function| x@)
}

impl View for Program {
    type V = Seq<SFunction>;

    open spec fn view(&self) -> Seq<SFunction> {
        functions_view(self.functions@)
    }
}

} // verus!
