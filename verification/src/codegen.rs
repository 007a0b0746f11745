//! Lowering of a parsed program to a plan of LLVM IR construction steps.
//!
//! For each function the plan lists, in order, the instructions to build: each
//! step may yield a value, numbered by its position, and later steps name the
//! values they use by those numbers. Every check that decides whether a
//! program can be compiled is made here: undeclared names, writes to
//! constants, a literal of the wrong kind for its type, and an operand that
//! is not an integer, a floating-point value or a pointer where the
//! instruction needs one. Widths are not matched: an operation or store may
//! combine values of different widths, as the program wrote them.
//!
//! Pointers are opaque: every pointer has the one type `ptr`, a load states
//! the type it reads (the type the context expects), and an element pointer
//! states the array type it indexes.
use vstd::prelude::*;
use crate::ast::{Expression, Function, Operator, Program, Statement, Type, SExpr, SStmt, SFunction};
use crate::ast::{expr_view, exprs_view, params_view, stmts_view, functions_view};
use crate::parser::str_is;

verus! {

/// An LLVM type.
#[derive(Debug, PartialEq)]
pub enum IrType {
    /// An integer type of the given width in bits.
    Int(u32),
    F32,
    F64,
    /// A pointer. Pointers are opaque: the type does not record what it
    /// points to, so a load states the type it reads.
    Ptr,
    /// An array of the given length.
    Array(Box<IrType>, u32),
}

impl Clone for IrType {
    fn clone(&self) -> (r: Self)
        ensures
            r == *self,
        decreases self,
    {
        match self {
            IrType::Int(b) => IrType::Int(*b),
            IrType::F32 => IrType::F32,
            IrType::F64 => IrType::F64,
            IrType::Ptr => IrType::Ptr,
            IrType::Array(t, n) => IrType::Array(Box::new((**t).clone()), *n),
        }
    }
}

/// The LLVM type that a source type is built as.
pub open spec fn lower_type(t: Type) -> IrType
    decreases t,
{
    match t {
        Type::I8 | Type::U8 => IrType::Int(8),
        Type::I16 | Type::U16 => IrType::Int(16),
        Type::I32 | Type::U32 => IrType::Int(32),
        Type::I64 | Type::U64 => IrType::Int(64),
        Type::F32 => IrType::F32,
        Type::F64 => IrType::F64,
        Type::Pointer(_) => IrType::Ptr,
        Type::Array(base, size) => IrType::Array(Box::new(lower_type(*base)), size as u32),
    }
}

/// The LLVM type that a source type is built as.
pub fn get_llvm_type(t: &Type) -> (r: IrType)
    ensures
        r == lower_type(*t),
    decreases t,
{
    match t {
        Type::I8 | Type::U8 => IrType::Int(8),
        Type::I16 | Type::U16 => IrType::Int(16),
        Type::I32 | Type::U32 => IrType::Int(32),
        Type::I64 | Type::U64 => IrType::Int(64),
        Type::F32 => IrType::F32,
        Type::F64 => IrType::F64,
        Type::Pointer(_) => IrType::Ptr,
        Type::Array(base, size) => IrType::Array(Box::new(get_llvm_type(base)), *size as u32),
    }
}

/// The name given to a loaded value.
#[derive(Debug, PartialEq)]
pub enum LoadName {
    /// The value of a variable, named after it.
    Var(String),
    /// The target of a pointer (`deref`).
    Deref,
    /// An array element (`elem_val`).
    Element,
}

/// An integer arithmetic instruction.
#[derive(Debug, PartialEq, Clone, Copy)]
pub enum IntOp {
    /// Wrapping addition (`add`).
    Add,
    /// Wrapping subtraction (`sub`).
    Sub,
    /// Wrapping multiplication (`mul`).
    Mul,
    /// Signed division, rounding toward zero (`sdiv`).
    SignedDiv,
}

/// The integer instruction that an operator is built as: division is signed.
pub open spec fn int_op(op: Operator) -> IntOp {
    match op {
        Operator::Add => IntOp::Add,
        Operator::Subtract => IntOp::Sub,
        Operator::Multiply => IntOp::Mul,
        Operator::Divide => IntOp::SignedDiv,
    }
}

/// The integer instruction that an operator is built as: division is signed.
pub fn get_int_op(op: Operator) -> (r: IntOp)
    ensures
        r == int_op(op),
{
    match op {
        Operator::Add => IntOp::Add,
        Operator::Subtract => IntOp::Sub,
        Operator::Multiply => IntOp::Mul,
        Operator::Divide => IntOp::SignedDiv,
    }
}

/// One instruction-building step of a function body.
#[derive(Debug, PartialEq)]
pub enum IrOp {
    /// A stack slot for a value of type `ty`, named `name`; yields a pointer to it.
    Alloca { ty: IrType, name: String },
    /// The function's parameter at `index`.
    Param { index: u32 },
    /// Stores value `value` through pointer `ptr`; yields nothing.
    Store { ptr: usize, value: usize },
    /// An integer constant of width `bits`, holding the bits of `value`.
    ConstInt { bits: u32, value: u64 },
    /// A floating-point constant written `text`; of type `f64` when `wide`, else `f32`.
    ConstFloat { wide: bool, text: String },
    /// Loads a value of type `ty` from where pointer `ptr` points.
    Load { ty: IrType, ptr: usize, name: LoadName },
    /// Integer arithmetic.
    IntBinary { op: IntOp, lhs: usize, rhs: usize },
    /// Floating-point arithmetic.
    FloatBinary { op: Operator, lhs: usize, rhs: usize },
    /// A pointer to element `index` of the array of type `ty` that `ptr`
    /// points to; named after the array variable `name`.
    ElementPtr { ty: IrType, ptr: usize, index: usize, name: String },
    /// Calls function `callee` with the given arguments.
    Call { callee: String, args: Vec<usize> },
    /// The `syscall` instruction, with the given arguments in its registers.
    Syscall { args: Vec<usize> },
    /// Returns value `value`.
    Return { value: usize },
}

/// A function of the plan: its signature and its body.
#[derive(Debug, PartialEq)]
pub struct IrFunction {
    pub name: String,
    pub params: Vec<IrType>,
    pub ret: IrType,
    pub body: Vec<IrOp>,
    /// The type of the value that each step of `body` yields, if any.
    pub kinds: Vec<Option<IrType>>,
}

/// Why a program cannot be compiled.
#[derive(Debug, PartialEq, Clone, Copy)]
pub enum CodegenError {
    /// A statement names a variable that was never declared.
    UndeclaredVariable,
    /// An expression reads a variable that was never declared.
    UndeclaredInExpression,
    /// An assignment to a variable declared `const`.
    ConstantMutation,
    /// An element assignment to an array declared `const`.
    ConstantArrayMutation,
    /// `&` applied to something other than a variable.
    AddressOfNonIdentifier,
    /// An index applied to something other than a variable.
    IndexOfNonIdentifier,
    /// A call of a function that the program does not define.
    FunctionNotFound,
    /// More arguments, or parameters, than the called function has.
    MissingParameter,
    /// An integer literal where the expected type is not an integer type.
    NotIntType,
    /// A floating-point literal where the expected type is not a floating-point type.
    NotFloatType,
    /// A value that is not an integer where one is needed.
    NotIntValue,
    /// A value that is not floating-point where one is needed.
    NotFloatValue,
    /// A value that is not a pointer where one is needed.
    NotPointerValue,
    /// An index into a variable that is not an array.
    NotAnArray,
}

// ---------------------------------------------------------------------------
// The model of the plan
// ---------------------------------------------------------------------------

pub enum SLoadName {
    Var(Seq<char>),
    Deref,
    Element,
}

/// Model of an [`IrOp`]: names are character sequences and value numbers are integers.
pub enum SIrOp {
    Alloca { ty: IrType, name: Seq<char> },
    Param { index: u32 },
    Store { ptr: int, value: int },
    ConstInt { bits: u32, value: u64 },
    ConstFloat { wide: bool, text: Seq<char> },
    Load { ty: IrType, ptr: int, name: SLoadName },
    IntBinary { op: IntOp, lhs: int, rhs: int },
    FloatBinary { op: Operator, lhs: int, rhs: int },
    ElementPtr { ty: IrType, ptr: int, index: int, name: Seq<char> },
    Call { callee: Seq<char>, args: Seq<int> },
    Syscall { args: Seq<int> },
    Return { value: int },
}

/// Model of an [`IrFunction`].
pub struct SIrFunction {
    pub name: Seq<char>,
    pub params: Seq<IrType>,
    pub ret: IrType,
    pub body: Seq<SIrOp>,
    pub kinds: Seq<Option<IrType>>,
}

pub open spec fn indices_view(s: Seq<usize>) -> Seq<int> {
    s.map_values(|x: usize| x as int)
}

impl View for LoadName {
    type V = SLoadName;

    open spec fn view(&self) -> SLoadName {
        match *self {
            LoadName::Var(n) => SLoadName::Var(n@),
            LoadName::Deref => SLoadName::Deref,
            LoadName::Element => SLoadName::Element,
        }
    }
}

impl View for IrOp {
    type V = SIrOp;

    open spec fn view(&self) -> SIrOp {
        match *self {
            IrOp::Alloca { ty, name } => SIrOp::Alloca { ty, name: name@ },
            IrOp::Param { index } => SIrOp::Param { index },
            IrOp::Store { ptr, value } => SIrOp::Store { ptr: ptr as int, value: value as int },
            IrOp::ConstInt { bits, value } => SIrOp::ConstInt { bits, value },
            IrOp::ConstFloat { wide, text } => SIrOp::ConstFloat { wide, text: text@ },
            IrOp::Load { ty, ptr, name } => SIrOp::Load { ty, ptr: ptr as int, name: name@ },
            IrOp::IntBinary { op, lhs, rhs } => SIrOp::IntBinary {
                op,
                lhs: lhs as int,
                rhs: rhs as int,
            },
            IrOp::FloatBinary { op, lhs, rhs } => SIrOp::FloatBinary {
                op,
                lhs: lhs as int,
                rhs: rhs as int,
            },
            IrOp::ElementPtr { ty, ptr, index, name } => SIrOp::ElementPtr {
                ty,
                ptr: ptr as int,
                index: index as int,
                name: name@,
            },
            IrOp::Call { callee, args } => SIrOp::Call { callee: callee@, args: indices_view(args@) },
            IrOp::Syscall { args } => SIrOp::Syscall { args: indices_view(args@) },
            IrOp::Return { value } => SIrOp::Return { value: value as int },
        }
    }
}

pub open spec fn ops_view(s: Seq<IrOp>) -> Seq<SIrOp> {
    s.map_values(|o: IrOp| o@)
}

impl View for IrFunction {
    type V = SIrFunction;

    open spec fn view(&self) -> SIrFunction {
        SIrFunction {
            name: self.name@,
            params: self.params@,
            ret: self.ret,
            body: ops_view(self.body@),
            kinds: self.kinds@,
        }
    }
}

pub open spec fn ir_functions_view(s: Seq<IrFunction>) -> Seq<SIrFunction> {
    s.map_values(|f: IrFunction| f@)
}

/// The steps built so far for a function body, and the type of each one's value.
pub struct IrState {
    pub ops: Seq<SIrOp>,
    pub kinds: Seq<Option<IrType>>,
}

/// A variable in scope: its name, the step that made its slot, whether it may
/// be written, and its type.
pub struct SVar {
    pub name: Seq<char>,
    pub slot: int,
    pub is_mut: bool,
    pub ty: IrType,
}

/// `st` with one more step, of value type `kind`.
pub open spec fn emit(st: IrState, op: SIrOp, kind: Option<IrType>) -> IrState {
    IrState { ops: st.ops.push(op), kinds: st.kinds.push(kind) }
}

/// The type of the value of step `i`.
pub open spec fn kind_of(st: IrState, i: int) -> Option<IrType> {
    if 0 <= i < st.kinds.len() {
        st.kinds[i]
    } else {
        None
    }
}

pub open spec fn is_int_kind(k: Option<IrType>) -> bool {
    k matches Some(IrType::Int(_))
}

pub open spec fn is_float_kind(k: Option<IrType>) -> bool {
    k matches Some(IrType::F32) || k matches Some(IrType::F64)
}

/// The latest variable of scope `env` named `n`.
pub open spec fn lookup(env: Seq<SVar>, n: Seq<char>) -> Option<SVar>
    decreases env.len(),
{
    if env.len() == 0 {
        None
    } else if env.last().name == n {
        Some(env.last())
    } else {
        lookup(env.drop_last(), n)
    }
}

/// The index of the first function of `fns`, from index `i` on, named `n`.
pub open spec fn find_fn_from(fns: Seq<SFunction>, n: Seq<char>, i: int) -> Option<int>
    decreases fns.len() - i,
{
    if !(0 <= i < fns.len()) {
        None
    } else if fns[i].name == n {
        Some(i)
    } else {
        find_fn_from(fns, n, i + 1)
    }
}

pub proof fn lemma_find_fn_from(fns: Seq<SFunction>, n: Seq<char>, i: int)
    ensures
        find_fn_from(fns, n, i) matches Some(j) ==> i <= j < fns.len() && fns[j].name == n,
    decreases fns.len() - i,
{
    if 0 <= i < fns.len() && fns[i].name != n {
        lemma_find_fn_from(fns, n, i + 1);
    }
}

/// The index of the first function of `fns` named `n`: the one that a call of
/// `n` calls.
pub open spec fn find_fn(fns: Seq<SFunction>, n: Seq<char>) -> Option<int> {
    find_fn_from(fns, n, 0)
}

pub open spec fn syscall_name() -> Seq<char> {
    seq!['s', 'y', 's', 'c', 'a', 'l', 'l']
}

/// Lowers expression `e`, whose value is expected to be of type `expected`;
/// gives the steps afterwards and the step that yields the value.
pub open spec fn l_expr(
    fns: Seq<SFunction>,
    env: Seq<SVar>,
    st: IrState,
    e: SExpr,
    expected: IrType,
) -> Result<(IrState, int), CodegenError>
    decreases e,
{
    let n = st.ops.len() as int;
    match e {
        SExpr::Integer(v) => match expected {
            IrType::Int(bits) => Ok(
                (
                    emit(st, SIrOp::ConstInt { bits, value: v as u64 }, Some(IrType::Int(bits))),
                    n,
                ),
            ),
            _ => Err(CodegenError::NotIntType),
        },
        SExpr::Float(text) => match expected {
            IrType::F32 => Ok(
                (emit(st, SIrOp::ConstFloat { wide: false, text }, Some(IrType::F32)), n),
            ),
            IrType::F64 => Ok(
                (emit(st, SIrOp::ConstFloat { wide: true, text }, Some(IrType::F64)), n),
            ),
            _ => Err(CodegenError::NotFloatType),
        },
        SExpr::AddressOf(inner) => match *inner {
            SExpr::Identifier(name) => match lookup(env, name) {
                Some(v) => Ok((st, v.slot)),
                None => Err(CodegenError::UndeclaredVariable),
            },
            _ => Err(CodegenError::AddressOfNonIdentifier),
        },
        SExpr::Dereference(inner) => match l_expr(fns, env, st, *inner, IrType::Ptr) {
            Ok((st1, p)) => if kind_of(st1, p) == Some(IrType::Ptr) {
                Ok(
                    (
                        emit(
                            st1,
                            SIrOp::Load { ty: expected, ptr: p, name: SLoadName::Deref },
                            Some(expected),
                        ),
                        st1.ops.len() as int,
                    ),
                )
            } else {
                Err(CodegenError::NotPointerValue)
            },
            Err(x) => Err(x),
        },
        SExpr::Binary(l, op, r) => match l_expr(fns, env, st, *l, expected) {
            Ok((st1, a)) => match l_expr(fns, env, st1, *r, expected) {
                Ok((st2, b)) => {
                    let m = st2.ops.len() as int;
                    if expected is Int {
                        if is_int_kind(kind_of(st2, a)) && is_int_kind(kind_of(st2, b)) {
                            Ok(
                                (
                                    emit(
                                        st2,
                                        SIrOp::IntBinary { op: int_op(op), lhs: a, rhs: b },
                                        kind_of(st2, a),
                                    ),
                                    m,
                                ),
                            )
                        } else {
                            Err(CodegenError::NotIntValue)
                        }
                    } else {
                        if is_float_kind(kind_of(st2, a)) && is_float_kind(kind_of(st2, b)) {
                            Ok(
                                (
                                    emit(
                                        st2,
                                        SIrOp::FloatBinary { op, lhs: a, rhs: b },
                                        kind_of(st2, a),
                                    ),
                                    m,
                                ),
                            )
                        } else {
                            Err(CodegenError::NotFloatValue)
                        }
                    }
                },
                Err(x) => Err(x),
            },
            Err(x) => Err(x),
        },
        SExpr::Identifier(name) => match lookup(env, name) {
            Some(v) => Ok(
                (
                    emit(
                        st,
                        SIrOp::Load { ty: v.ty, ptr: v.slot, name: SLoadName::Var(name) },
                        Some(v.ty),
                    ),
                    n,
                ),
            ),
            None => Err(CodegenError::UndeclaredInExpression),
        },
        SExpr::Index(left, index) => match *left {
            SExpr::Identifier(name) => match lookup(env, name) {
                Some(v) => match l_expr(fns, env, st, *index, IrType::Int(64)) {
                    Ok((st1, j)) => if !is_int_kind(kind_of(st1, j)) {
                        Err(CodegenError::NotIntValue)
                    } else {
                        if v.ty is Array {
                            let m = st1.ops.len() as int;
                            let st2 = emit(
                                st1,
                                SIrOp::ElementPtr { ty: v.ty, ptr: v.slot, index: j, name },
                                Some(IrType::Ptr),
                            );
                            Ok(
                                (
                                    emit(
                                        st2,
                                        SIrOp::Load { ty: expected, ptr: m, name: SLoadName::Element },
                                        Some(expected),
                                    ),
                                    m + 1,
                                ),
                            )
                        } else {
                            Err(CodegenError::NotAnArray)
                        }
                    },
                    Err(x) => Err(x),
                },
                None => Err(CodegenError::UndeclaredInExpression),
            },
            _ => Err(CodegenError::IndexOfNonIdentifier),
        },
        SExpr::Call(name, args) => if name == syscall_name() {
            match l_args(fns, env, st, args, 0, None) {
                Ok((st1, ids)) => Ok(
                    (
                        emit(st1, SIrOp::Syscall { args: ids }, Some(IrType::Int(64))),
                        st1.ops.len() as int,
                    ),
                ),
                Err(x) => Err(x),
            }
        } else {
            match find_fn(fns, name) {
                None => Err(CodegenError::FunctionNotFound),
                Some(fi) => match l_args(fns, env, st, args, 0, Some(fns[fi].parameters)) {
                    Ok((st1, ids)) => Ok(
                        (
                            emit(
                                st1,
                                SIrOp::Call { callee: name, args: ids },
                                Some(lower_type(fns[fi].return_type)),
                            ),
                            st1.ops.len() as int,
                        ),
                    ),
                    Err(x) => Err(x),
                },
            }
        },
    }
}

/// Lowers the arguments `args` of a call, the first being argument number
/// `i`: of a function with parameters `params`, or, when there are none, of
/// the `syscall` instruction, whose arguments are 64-bit integers. Argument
/// numbers are taken as 32-bit numbers when matched with parameters.
pub open spec fn l_args(
    fns: Seq<SFunction>,
    env: Seq<SVar>,
    st: IrState,
    args: Seq<SExpr>,
    i: int,
    params: Option<Seq<(Seq<char>, Type)>>,
) -> Result<(IrState, Seq<int>), CodegenError>
    decreases args,
{
    if args.len() == 0 {
        Ok((st, Seq::empty()))
    } else {
        let pi = (i as u32) as int;
        let expected = match params {
            Some(ps) => if pi < ps.len() {
                Some(lower_type(ps[pi].1))
            } else {
                None
            },
            None => Some(IrType::Int(64)),
        };
        match expected {
            None => Err(CodegenError::MissingParameter),
            Some(t) => match l_expr(fns, env, st, args[0], t) {
                Ok((st1, a)) => match l_args(fns, env, st1, args.drop_first(), i + 1, params) {
                    Ok((st2, ids)) => Ok((st2, seq![a] + ids)),
                    Err(x) => Err(x),
                },
                Err(x) => Err(x),
            },
        }
    }
}


/// Lowers statement `s` in scope `env`; gives the scope and steps afterwards.
pub open spec fn l_stmt(fns: Seq<SFunction>, env: Seq<SVar>, st: IrState, s: SStmt) -> Result<
    (Seq<SVar>, IrState),
    CodegenError,
> {
    match s {
        SStmt::Return(e) => match l_expr(fns, env, st, e, IrType::Int(64)) {
            Ok((st1, v)) => Ok((env, emit(st1, SIrOp::Return { value: v }, None))),
            Err(x) => Err(x),
        },
        SStmt::Declaration { is_mut, name, declared_type, initializer } => {
            let t = lower_type(declared_type);
            let slot = st.ops.len() as int;
            let st1 = emit(st, SIrOp::Alloca { ty: t, name }, Some(IrType::Ptr));
            let bound = env.push(SVar { name, slot, is_mut, ty: t });
            match initializer {
                None => Ok((bound, st1)),
                Some(init) => match l_expr(fns, env, st1, init, t) {
                    Ok((st2, v)) => Ok((bound, emit(st2, SIrOp::Store { ptr: slot, value: v }, None))),
                    Err(x) => Err(x),
                },
            }
        },
        SStmt::Assignment { name, value } => match lookup(env, name) {
            None => Err(CodegenError::UndeclaredVariable),
            Some(var) => match l_expr(fns, env, st, value, var.ty) {
                Ok((st1, v)) => if !var.is_mut {
                    Err(CodegenError::ConstantMutation)
                } else {
                    Ok((env, emit(st1, SIrOp::Store { ptr: var.slot, value: v }, None)))
                },
                Err(x) => Err(x),
            },
        },
        SStmt::IndexAssignment { name, index, value } => match lookup(env, name) {
            None => Err(CodegenError::UndeclaredVariable),
            Some(var) => if !var.is_mut {
                Err(CodegenError::ConstantArrayMutation)
            } else {
                match l_expr(fns, env, st, index, IrType::Int(64)) {
                    Ok((st1, i)) => {
                        let elem = match var.ty {
                            IrType::Array(el, _) => *el,
                            _ => var.ty,
                        };
                        match l_expr(fns, env, st1, value, elem) {
                            Ok((st2, v)) => if !is_int_kind(kind_of(st2, i)) {
                                Err(CodegenError::NotIntValue)
                            } else {
                                if var.ty is Array {
                                    let p = st2.ops.len() as int;
                                    let st3 = emit(
                                        st2,
                                        SIrOp::ElementPtr { ty: var.ty, ptr: var.slot, index: i, name },
                                        Some(IrType::Ptr),
                                    );
                                    Ok((env, emit(st3, SIrOp::Store { ptr: p, value: v }, None)))
                                } else {
                                    Err(CodegenError::NotAnArray)
                                }
                            },
                            Err(x) => Err(x),
                        }
                    },
                    Err(x) => Err(x),
                }
            },
        },
    }
}

/// Lowers the statements `body` in order.
pub open spec fn l_stmts(fns: Seq<SFunction>, env: Seq<SVar>, st: IrState, body: Seq<SStmt>) -> Result<
    IrState,
    CodegenError,
>
    decreases body.len(),
{
    if body.len() == 0 {
        Ok(st)
    } else {
        match l_stmt(fns, env, st, body[0]) {
            Ok((env1, st1)) => l_stmts(fns, env1, st1, body.drop_first()),
            Err(x) => Err(x),
        }
    }
}

/// Lowers the parameters `params`, the first being number `i`, of a function
/// whose body goes into the function with parameters `target`: each gets a
/// slot that holds the incoming value and is not writable. Parameter numbers
/// are taken as 32-bit numbers.
pub open spec fn l_params(
    fns: Seq<SFunction>,
    env: Seq<SVar>,
    st: IrState,
    params: Seq<(Seq<char>, Type)>,
    i: int,
    target: Seq<(Seq<char>, Type)>,
) -> Result<(Seq<SVar>, IrState), CodegenError>
    decreases params.len(),
{
    if params.len() == 0 {
        Ok((env, st))
    } else {
        let name = params[0].0;
        let t = lower_type(params[0].1);
        let slot = st.ops.len() as int;
        let st1 = emit(st, SIrOp::Alloca { ty: t, name }, Some(IrType::Ptr));
        let pi = (i as u32) as int;
        if !(pi < target.len()) {
            Err(CodegenError::MissingParameter)
        } else {
            let st2 = emit(st1, SIrOp::Param { index: i as u32 }, Some(lower_type(target[pi].1)));
            let st3 = emit(st2, SIrOp::Store { ptr: slot, value: slot + 1 }, None);
            l_params(
                fns,
                env.push(SVar { name, slot, is_mut: false, ty: t }),
                st3,
                params.drop_first(),
                i + 1,
                target,
            )
        }
    }
}

pub open spec fn empty_state() -> IrState {
    IrState { ops: Seq::empty(), kinds: Seq::empty() }
}

pub open spec fn param_types(params: Seq<(Seq<char>, Type)>) -> Seq<IrType> {
    params.map_values(|p: (Seq<char>, Type)| lower_type(p.1))
}

/// Lowers function `f` of the program whose functions are `fns`. Its body goes
/// into the first function of that name.
pub open spec fn l_function(fns: Seq<SFunction>, f: SFunction) -> Result<SIrFunction, CodegenError> {
    match find_fn(fns, f.name) {
        None => Err(CodegenError::FunctionNotFound),
        Some(ti) => match l_params(fns, Seq::empty(), empty_state(), f.parameters, 0, fns[ti].parameters) {
            Ok((env, st)) => match l_stmts(fns, env, st, f.body) {
                Ok(st2) => Ok(
                    SIrFunction {
                        name: f.name,
                        params: param_types(f.parameters),
                        ret: lower_type(f.return_type),
                        body: st2.ops,
                        kinds: st2.kinds,
                    },
                ),
                Err(x) => Err(x),
            },
            Err(x) => Err(x),
        },
    }
}

/// Lowers the functions `fs` of the program whose functions are `fns`, in order;
/// the first error stops it.
pub open spec fn l_functions(fns: Seq<SFunction>, fs: Seq<SFunction>) -> Result<Seq<SIrFunction>, CodegenError>
    decreases fs.len(),
{
    if fs.len() == 0 {
        Ok(Seq::empty())
    } else {
        match l_function(fns, fs[0]) {
            Ok(f) => match l_functions(fns, fs.drop_first()) {
                Ok(rest) => Ok(seq![f] + rest),
                Err(x) => Err(x),
            },
            Err(x) => Err(x),
        }
    }
}

/// The plan of a whole program, or why it cannot be compiled.
pub open spec fn l_program(fns: Seq<SFunction>) -> Result<Seq<SIrFunction>, CodegenError> {
    l_functions(fns, fns)
}

// ---------------------------------------------------------------------------
// Well-formedness of the plan
// ---------------------------------------------------------------------------

/// Whether step `x` comes before step `i` and yields a value.
pub open spec fn uses(st: IrState, i: int, x: int) -> bool {
    0 <= x < i && st.kinds[x] is Some
}

/// Whether step `i` of `st` is well formed: it uses only values of earlier
/// steps, each of the kind that it needs, and `st.kinds[i]` is the type of
/// the value it yields. `target` holds the parameters of the function the
/// steps go into.
pub open spec fn step_wf(
    fns: Seq<SFunction>,
    target: Seq<(Seq<char>, Type)>,
    st: IrState,
    i: int,
) -> bool {
    let k = st.kinds;
    match st.ops[i] {
        SIrOp::Alloca { .. } => k[i] == Some(IrType::Ptr),
        SIrOp::Param { index } => (index as int) < target.len() && k[i] == Some(
            lower_type(target[index as int].1),
        ),
        SIrOp::Store { ptr, value } => uses(st, i, ptr) && k[ptr] == Some(IrType::Ptr)
            && uses(st, i, value) && k[i] is None,
        SIrOp::ConstInt { bits, .. } => k[i] == Some(IrType::Int(bits)),
        SIrOp::ConstFloat { wide, .. } => k[i] == Some(
            if wide {
                IrType::F64
            } else {
                IrType::F32
            },
        ),
        SIrOp::Load { ty, ptr, .. } => uses(st, i, ptr) && k[ptr] == Some(IrType::Ptr) && k[i] == Some(
            ty,
        ),
        SIrOp::IntBinary { lhs, rhs, .. } => uses(st, i, lhs) && uses(st, i, rhs) && is_int_kind(
            k[lhs],
        ) && is_int_kind(k[rhs]) && k[i] == k[lhs],
        SIrOp::FloatBinary { lhs, rhs, .. } => uses(st, i, lhs) && uses(st, i, rhs)
            && is_float_kind(k[lhs]) && is_float_kind(k[rhs]) && k[i] == k[lhs],
        SIrOp::ElementPtr { ty, ptr, index, .. } => uses(st, i, ptr) && uses(st, i, index)
            && is_int_kind(k[index]) && k[ptr] == Some(IrType::Ptr) && ty is Array && k[i] == Some(
            IrType::Ptr,
        ),
        SIrOp::Call { callee, args } => find_fn(fns, callee) is Some && (forall|j: int|
            0 <= j < args.len() ==> uses(st, i, #[trigger] args[j])) && k[i] == Some(
            lower_type(fns[find_fn(fns, callee).unwrap()].return_type),
        ),
        SIrOp::Syscall { args } => (forall|j: int| 0 <= j < args.len() ==> uses(st, i, #[trigger] args[j]))
            && k[i] == Some(IrType::Int(64)),
        SIrOp::Return { value } => uses(st, i, value) && k[i] is None,
    }
}

/// Whether every step of `st` is well formed.
pub open spec fn state_wf(fns: Seq<SFunction>, target: Seq<(Seq<char>, Type)>, st: IrState) -> bool {
    &&& st.ops.len() == st.kinds.len()
    &&& forall|i: int| 0 <= i < st.ops.len() ==> #[trigger] step_wf(fns, target, st, i)
}

/// `st2` holds the steps of `st` and maybe more after them.
pub open spec fn extends(st: IrState, st2: IrState) -> bool {
    &&& st.ops.len() <= st2.ops.len()
    &&& st.kinds.len() <= st2.kinds.len()
    &&& forall|i: int| 0 <= i < st.ops.len() ==> #[trigger] st2.ops[i] == st.ops[i]
    &&& forall|i: int| 0 <= i < st.kinds.len() ==> #[trigger] st2.kinds[i] == st.kinds[i]
}

/// Every variable in scope has a slot made by a step that yields a pointer to
/// a value of the variable's type.
pub open spec fn env_wf(env: Seq<SVar>, st: IrState) -> bool {
    forall|j: int|
        0 <= j < env.len() ==> 0 <= #[trigger] env[j].slot < st.kinds.len() && st.kinds[env[j].slot]
            == Some(IrType::Ptr)
}

pub proof fn lemma_lookup(env: Seq<SVar>, n: Seq<char>)
    ensures
        lookup(env, n) matches Some(v) ==> exists|j: int| 0 <= j < env.len() && env[j] == v,
    decreases env.len(),
{
    if env.len() > 0 && env.last().name != n {
        lemma_lookup(env.drop_last(), n);
        if let Some(v) = lookup(env.drop_last(), n) {
            let j = choose|j: int| 0 <= j < env.drop_last().len() && env.drop_last()[j] == v;
            assert(env[j] == v);
        }
    }
    if env.len() > 0 && env.last().name == n {
        assert(env[env.len() - 1] == env.last());
    }
}

pub proof fn lemma_extends_trans(a: IrState, b: IrState, c: IrState)
    requires
        extends(a, b),
        extends(b, c),
    ensures
        extends(a, c),
{
}

/// A well-formed state stays well formed with one more well-formed step.
pub proof fn lemma_emit_wf(
    fns: Seq<SFunction>,
    target: Seq<(Seq<char>, Type)>,
    st: IrState,
    op: SIrOp,
    kind: Option<IrType>,
)
    requires
        state_wf(fns, target, st),
        step_wf(fns, target, emit(st, op, kind), st.ops.len() as int),
    ensures
        state_wf(fns, target, emit(st, op, kind)),
        extends(st, emit(st, op, kind)),
{
    let st2 = emit(st, op, kind);
    assert forall|i: int| 0 <= i < st2.ops.len() implies #[trigger] step_wf(fns, target, st2, i) by {
        if i < st.ops.len() {
            assert(step_wf(fns, target, st, i));
            assert(st2.ops[i] == st.ops[i]);
            assert forall|x: int| 0 <= x <= i implies st2.kinds[x] == st.kinds[x] by {}
        }
    }
}

pub proof fn lemma_env_extends(env: Seq<SVar>, st: IrState, st2: IrState)
    requires
        env_wf(env, st),
        extends(st, st2),
    ensures
        env_wf(env, st2),
{
    assert forall|j: int| 0 <= j < env.len() implies 0 <= #[trigger] env[j].slot < st2.kinds.len()
        && st2.kinds[env[j].slot] == Some(IrType::Ptr) by {
        assert(st2.kinds[env[j].slot] == st.kinds[env[j].slot]);
    }
}

/// Lowering an expression from a well-formed state, whose variables have
/// well-formed slots, gives a well-formed state that extends it, and a value
/// made by one of its steps.
pub proof fn lemma_l_expr_wf(
    fns: Seq<SFunction>,
    target: Seq<(Seq<char>, Type)>,
    env: Seq<SVar>,
    st: IrState,
    e: SExpr,
    expected: IrType,
)
    requires
        state_wf(fns, target, st),
        env_wf(env, st),
    ensures
        l_expr(fns, env, st, e, expected) matches Ok((st2, v)) ==> {
            &&& state_wf(fns, target, st2)
            &&& extends(st, st2)
            &&& 0 <= v < st2.ops.len()
            &&& st2.kinds[v] is Some
        },
    decreases e,
{
    let n = st.ops.len() as int;
    match e {
        SExpr::Integer(v) => {
            if let IrType::Int(bits) = expected {
                lemma_emit_wf(
                    fns,
                    target,
                    st,
                    SIrOp::ConstInt { bits, value: v as u64 },
                    Some(IrType::Int(bits)),
                );
            }
        },
        SExpr::Float(text) => {
            match expected {
                IrType::F32 => lemma_emit_wf(
                    fns,
                    target,
                    st,
                    SIrOp::ConstFloat { wide: false, text },
                    Some(IrType::F32),
                ),
                IrType::F64 => lemma_emit_wf(
                    fns,
                    target,
                    st,
                    SIrOp::ConstFloat { wide: true, text },
                    Some(IrType::F64),
                ),
                _ => {},
            }
        },
        SExpr::AddressOf(inner) => {
            if let SExpr::Identifier(name) = *inner {
                lemma_lookup(env, name);
            }
        },
        SExpr::Dereference(inner) => {
            lemma_l_expr_wf(fns, target, env, st, *inner, IrType::Ptr);
            if let Ok((st1, p)) = l_expr(fns, env, st, *inner, IrType::Ptr) {
                if kind_of(st1, p) == Some(IrType::Ptr) {
                    lemma_emit_wf(
                        fns,
                        target,
                        st1,
                        SIrOp::Load { ty: expected, ptr: p, name: SLoadName::Deref },
                        Some(expected),
                    );
                }
            }
        },
        SExpr::Binary(l, op, r) => {
            lemma_l_expr_wf(fns, target, env, st, *l, expected);
            if let Ok((st1, a)) = l_expr(fns, env, st, *l, expected) {
                lemma_env_extends(env, st, st1);
                lemma_l_expr_wf(fns, target, env, st1, *r, expected);
                if let Ok((st2, b)) = l_expr(fns, env, st1, *r, expected) {
                    assert(st2.kinds[a] == st1.kinds[a]);
                    if expected is Int {
                        if is_int_kind(kind_of(st2, a)) && is_int_kind(kind_of(st2, b)) {
                            lemma_emit_wf(
                                fns,
                                target,
                                st2,
                                SIrOp::IntBinary { op: int_op(op), lhs: a, rhs: b },
                                kind_of(st2, a),
                            );
                        }
                    } else if is_float_kind(kind_of(st2, a)) && is_float_kind(kind_of(st2, b)) {
                        lemma_emit_wf(
                            fns,
                            target,
                            st2,
                            SIrOp::FloatBinary { op, lhs: a, rhs: b },
                            kind_of(st2, a),
                        );
                    }
                }
            }
        },
        SExpr::Identifier(name) => {
            lemma_lookup(env, name);
            if let Some(v) = lookup(env, name) {
                lemma_emit_wf(
                    fns,
                    target,
                    st,
                    SIrOp::Load { ty: v.ty, ptr: v.slot, name: SLoadName::Var(name) },
                    Some(v.ty),
                );
            }
        },
        SExpr::Index(left, index) => {
            if let SExpr::Identifier(name) = *left {
                lemma_lookup(env, name);
                if let Some(v) = lookup(env, name) {
                    lemma_l_expr_wf(fns, target, env, st, *index, IrType::Int(64));
                    if let Ok((st1, j)) = l_expr(fns, env, st, *index, IrType::Int(64)) {
                        lemma_env_extends(env, st, st1);
                        if is_int_kind(kind_of(st1, j)) {
                            if v.ty is Array {
                                let m = st1.ops.len() as int;
                                let op1 = SIrOp::ElementPtr { ty: v.ty, ptr: v.slot, index: j, name };
                                lemma_emit_wf(fns, target, st1, op1, Some(IrType::Ptr));
                                let st2 = emit(st1, op1, Some(IrType::Ptr));
                                lemma_emit_wf(
                                    fns,
                                    target,
                                    st2,
                                    SIrOp::Load { ty: expected, ptr: m, name: SLoadName::Element },
                                    Some(expected),
                                );
                            }
                        }
                    }
                }
            }
        },
        SExpr::Call(name, args) => {
            if name == syscall_name() {
                lemma_l_args_wf(fns, target, env, st, args, 0, None);
                if let Ok((st1, ids)) = l_args(fns, env, st, args, 0, None) {
                    lemma_emit_wf(fns, target, st1, SIrOp::Syscall { args: ids }, Some(IrType::Int(64)));
                }
            } else if let Some(fi) = find_fn(fns, name) {
                lemma_l_args_wf(fns, target, env, st, args, 0, Some(fns[fi].parameters));
                if let Ok((st1, ids)) = l_args(fns, env, st, args, 0, Some(fns[fi].parameters)) {
                    lemma_emit_wf(
                        fns,
                        target,
                        st1,
                        SIrOp::Call { callee: name, args: ids },
                        Some(lower_type(fns[fi].return_type)),
                    );
                }
            }
        },
    }
}

/// The arguments of a call lower to values made by steps of a well-formed
/// state that extends the one before.
pub proof fn lemma_l_args_wf(
    fns: Seq<SFunction>,
    target: Seq<(Seq<char>, Type)>,
    env: Seq<SVar>,
    st: IrState,
    args: Seq<SExpr>,
    i: int,
    params: Option<Seq<(Seq<char>, Type)>>,
)
    requires
        state_wf(fns, target, st),
        env_wf(env, st),
    ensures
        l_args(fns, env, st, args, i, params) matches Ok((st2, ids)) ==> {
            &&& state_wf(fns, target, st2)
            &&& extends(st, st2)
            &&& forall|j: int| 0 <= j < ids.len() ==> 0 <= #[trigger] ids[j] < st2.ops.len() && st2.kinds[ids[j]] is Some
        },
    decreases args,
{
    if args.len() > 0 {
        let pi = (i as u32) as int;
        let expected = match params {
            Some(ps) => if pi < ps.len() {
                Some(lower_type(ps[pi].1))
            } else {
                None
            },
            None => Some(IrType::Int(64)),
        };
        if let Some(t) = expected {
            lemma_l_expr_wf(fns, target, env, st, args[0], t);
            if let Ok((st1, a)) = l_expr(fns, env, st, args[0], t) {
                lemma_env_extends(env, st, st1);
                lemma_l_args_wf(fns, target, env, st1, args.drop_first(), i + 1, params);
                if let Ok((st2, ids)) = l_args(fns, env, st1, args.drop_first(), i + 1, params) {
                    let all = seq![a] + ids;
                    assert forall|j: int| 0 <= j < all.len() implies 0 <= #[trigger] all[j] < st2.ops.len()
                        && st2.kinds[all[j]] is Some by {
                        if j == 0 {
                            assert(st2.kinds[a] == st1.kinds[a]);
                        } else {
                            assert(all[j] == ids[j - 1]);
                        }
                    }
                }
            }
        }
    }
}

/// Lowering a statement keeps the state and the slots of the scope well formed.
pub proof fn lemma_l_stmt_wf(
    fns: Seq<SFunction>,
    target: Seq<(Seq<char>, Type)>,
    env: Seq<SVar>,
    st: IrState,
    s: SStmt,
)
    requires
        state_wf(fns, target, st),
        env_wf(env, st),
    ensures
        l_stmt(fns, env, st, s) matches Ok((env2, st2)) ==> {
            &&& state_wf(fns, target, st2)
            &&& env_wf(env2, st2)
            &&& extends(st, st2)
        },
{
    match s {
        SStmt::Return(e) => {
            lemma_l_expr_wf(fns, target, env, st, e, IrType::Int(64));
            if let Ok((st1, v)) = l_expr(fns, env, st, e, IrType::Int(64)) {
                lemma_emit_wf(fns, target, st1, SIrOp::Return { value: v }, None);
                lemma_env_extends(env, st, st1);
            }
        },
        SStmt::Declaration { is_mut, name, declared_type, initializer } => {
            let t = lower_type(declared_type);
            let slot = st.ops.len() as int;
            let op = SIrOp::Alloca { ty: t, name };
            lemma_emit_wf(fns, target, st, op, Some(IrType::Ptr));
            let st1 = emit(st, op, Some(IrType::Ptr));
            lemma_env_extends(env, st, st1);
            let bound = env.push(SVar { name, slot, is_mut, ty: t });
            match initializer {
                None => {
                    assert(env_wf(bound, st1)) by {
                        assert forall|j: int| 0 <= j < bound.len() implies 0 <= #[trigger] bound[j].slot
                            < st1.kinds.len() && st1.kinds[bound[j].slot] == Some(IrType::Ptr) by {
                            if j < env.len() {
                                assert(bound[j] == env[j]);
                            }
                        }
                    }
                },
                Some(init) => {
                    lemma_l_expr_wf(fns, target, env, st1, init, t);
                    if let Ok((st2, v)) = l_expr(fns, env, st1, init, t) {
                        assert(st2.kinds[slot] == st1.kinds[slot]);
                        let op2 = SIrOp::Store { ptr: slot, value: v };
                        lemma_emit_wf(fns, target, st2, op2, None);
                        let st3 = emit(st2, op2, None);
                        lemma_extends_trans(st1, st2, st3);
                        lemma_extends_trans(st, st1, st3);
                        lemma_env_extends(env, st1, st3);
                        assert(env_wf(bound, st3)) by {
                            assert forall|j: int| 0 <= j < bound.len() implies 0
                                <= #[trigger] bound[j].slot < st3.kinds.len()
                                && st3.kinds[bound[j].slot] == Some(IrType::Ptr) by {
                                if j < env.len() {
                                    assert(bound[j] == env[j]);
                                }
                            }
                        }
                    }
                },
            }
        },
        SStmt::Assignment { name, value } => {
            lemma_lookup(env, name);
            if let Some(var) = lookup(env, name) {
                lemma_l_expr_wf(fns, target, env, st, value, var.ty);
                if let Ok((st1, v)) = l_expr(fns, env, st, value, var.ty) {
                    lemma_env_extends(env, st, st1);
                    lemma_emit_wf(fns, target, st1, SIrOp::Store { ptr: var.slot, value: v }, None);
                    lemma_env_extends(env, st1, emit(st1, SIrOp::Store { ptr: var.slot, value: v }, None));
                }
            }
        },
        SStmt::IndexAssignment { name, index, value } => {
            lemma_lookup(env, name);
            if let Some(var) = lookup(env, name) {
                lemma_l_expr_wf(fns, target, env, st, index, IrType::Int(64));
                if let Ok((st1, i)) = l_expr(fns, env, st, index, IrType::Int(64)) {
                    lemma_env_extends(env, st, st1);
                    let elem = match var.ty {
                        IrType::Array(el, _) => *el,
                        _ => var.ty,
                    };
                    lemma_l_expr_wf(fns, target, env, st1, value, elem);
                    if let Ok((st2, v)) = l_expr(fns, env, st1, value, elem) {
                        lemma_env_extends(env, st1, st2);
                        assert(st2.kinds[i] == st1.kinds[i]);
                        let jv = choose|jv: int| 0 <= jv < env.len() && env[jv] == var;
                        assert(0 <= env[jv].slot < st2.kinds.len());
                        if is_int_kind(kind_of(st2, i)) && var.ty is Array {
                            let p = st2.ops.len() as int;
                            let op1 = SIrOp::ElementPtr { ty: var.ty, ptr: var.slot, index: i, name };
                            lemma_emit_wf(fns, target, st2, op1, Some(IrType::Ptr));
                            let st3 = emit(st2, op1, Some(IrType::Ptr));
                            let op2 = SIrOp::Store { ptr: p, value: v };
                            lemma_emit_wf(fns, target, st3, op2, None);
                            let st4 = emit(st3, op2, None);
                            lemma_extends_trans(st1, st2, st3);
                            lemma_extends_trans(st1, st3, st4);
                            lemma_extends_trans(st, st1, st4);
                            lemma_env_extends(env, st, st4);
                        }
                    }
                }
            }
        },
    }
}

/// Lowering a sequence of statements keeps the state well formed.
pub proof fn lemma_l_stmts_wf(
    fns: Seq<SFunction>,
    target: Seq<(Seq<char>, Type)>,
    env: Seq<SVar>,
    st: IrState,
    body: Seq<SStmt>,
)
    requires
        state_wf(fns, target, st),
        env_wf(env, st),
    ensures
        l_stmts(fns, env, st, body) matches Ok(st2) ==> state_wf(fns, target, st2),
    decreases body.len(),
{
    if body.len() > 0 {
        lemma_l_stmt_wf(fns, target, env, st, body[0]);
        if let Ok((env1, st1)) = l_stmt(fns, env, st, body[0]) {
            lemma_l_stmts_wf(fns, target, env1, st1, body.drop_first());
        }
    }
}

/// Lowering the parameters keeps the state and the slots of the scope well formed.
pub proof fn lemma_l_params_wf(
    fns: Seq<SFunction>,
    target: Seq<(Seq<char>, Type)>,
    env: Seq<SVar>,
    st: IrState,
    params: Seq<(Seq<char>, Type)>,
    i: int,
)
    requires
        state_wf(fns, target, st),
        env_wf(env, st),
    ensures
        l_params(fns, env, st, params, i, target) matches Ok((env2, st2)) ==> {
            &&& state_wf(fns, target, st2)
            &&& env_wf(env2, st2)
        },
    decreases params.len(),
{
    if params.len() > 0 {
        let name = params[0].0;
        let t = lower_type(params[0].1);
        let slot = st.ops.len() as int;
        let op1 = SIrOp::Alloca { ty: t, name };
        lemma_emit_wf(fns, target, st, op1, Some(IrType::Ptr));
        let st1 = emit(st, op1, Some(IrType::Ptr));
        let pi = (i as u32) as int;
        if pi < target.len() {
            let op2 = SIrOp::Param { index: i as u32 };
            lemma_emit_wf(fns, target, st1, op2, Some(lower_type(target[pi].1)));
            let st2 = emit(st1, op2, Some(lower_type(target[pi].1)));
            let op3 = SIrOp::Store { ptr: slot, value: slot + 1 };
            lemma_emit_wf(fns, target, st2, op3, None);
            let st3 = emit(st2, op3, None);
            lemma_extends_trans(st, st1, st2);
            lemma_extends_trans(st, st2, st3);
            lemma_env_extends(env, st, st3);
            let bound = env.push(SVar { name, slot, is_mut: false, ty: t });
            assert(env_wf(bound, st3)) by {
                assert forall|j: int| 0 <= j < bound.len() implies 0 <= #[trigger] bound[j].slot
                    < st3.kinds.len() && st3.kinds[bound[j].slot] == Some(IrType::Ptr) by {
                    if j < env.len() {
                        assert(bound[j] == env[j]);
                    }
                }
            }
            lemma_l_params_wf(fns, target, bound, st3, params.drop_first(), i + 1);
        }
    }
}

/// Every function of a plan is well formed: each step uses only values of
/// earlier steps, of the kinds that it needs, calls only functions of the
/// program, and reads only parameters that the function it goes into has.
pub proof fn law_plan_well_formed(fns: Seq<SFunction>, f: SFunction)
    ensures
        l_function(fns, f) matches Ok(g) ==> state_wf(
            fns,
            fns[find_fn(fns, f.name).unwrap()].parameters,
            IrState { ops: g.body, kinds: g.kinds },
        ),
{
    if let Some(ti) = find_fn(fns, f.name) {
        let target = fns[ti].parameters;
        assert(state_wf(fns, target, empty_state()));
        assert(env_wf(Seq::empty(), empty_state()));
        lemma_l_params_wf(fns, target, Seq::empty(), empty_state(), f.parameters, 0);
        if let Ok((env, st)) = l_params(fns, Seq::empty(), empty_state(), f.parameters, 0, target) {
            lemma_l_stmts_wf(fns, target, env, st, f.body);
        }
    }
}

/// The width in bits of an integer source type; signed and unsigned types of
/// the same size have the same width.
pub open spec fn int_width(t: Type) -> Option<u32> {
    match t {
        Type::I8 | Type::U8 => Some(8),
        Type::I16 | Type::U16 => Some(16),
        Type::I32 | Type::U32 => Some(32),
        Type::I64 | Type::U64 => Some(64),
        _ => None,
    }
}

/// Every integer source type is built as an integer of its own width, the
/// signed and unsigned types of one size alike; the floating-point types are
/// built as `float` and `double`, and every pointer as the one pointer type.
pub proof fn law_integer_types_keep_their_width(t: Type, u: Type)
    ensures
        int_width(t) matches Some(n) ==> lower_type(t) == IrType::Int(n),
        lower_type(t) matches IrType::Int(n) ==> int_width(t) == Some(n),
        lower_type(Type::F32) == IrType::F32,
        lower_type(Type::F64) == IrType::F64,
        (t is Pointer && u is Pointer) ==> lower_type(t) == lower_type(u),
{
}

/// A binary expression of two literals is built in source order: the left
/// literal's constant, then the right literal's, then the operation, whose
/// first operand is the left value and second the right one. This holds for
/// floating-point and for integer operations alike.
pub proof fn law_binary_operands_in_order(
    fns: Seq<SFunction>,
    env: Seq<SVar>,
    st: IrState,
    op: Operator,
    x: Seq<char>,
    y: Seq<char>,
    a: i64,
    b: i64,
    wide: bool,
    bits: u32,
)
    requires
        st.ops.len() == st.kinds.len(),
    ensures
        ({
            let n = st.ops.len() as int;
            let ft = if wide {
                IrType::F64
            } else {
                IrType::F32
            };
            l_expr(
                fns,
                env,
                st,
                SExpr::Binary(Box::new(SExpr::Float(x)), op, Box::new(SExpr::Float(y))),
                ft,
            ) == Ok::<(IrState, int), CodegenError>(
                (
                    IrState {
                        ops: st.ops + seq![
                            SIrOp::ConstFloat { wide, text: x },
                            SIrOp::ConstFloat { wide, text: y },
                            SIrOp::FloatBinary { op, lhs: n, rhs: n + 1 },
                        ],
                        kinds: st.kinds + seq![Some(ft), Some(ft), Some(ft)],
                    },
                    n + 2,
                ),
            )
        }),
        ({
            let n = st.ops.len() as int;
            let it = IrType::Int(bits);
            l_expr(
                fns,
                env,
                st,
                SExpr::Binary(Box::new(SExpr::Integer(a)), op, Box::new(SExpr::Integer(b))),
                it,
            ) == Ok::<(IrState, int), CodegenError>(
                (
                    IrState {
                        ops: st.ops + seq![
                            SIrOp::ConstInt { bits, value: a as u64 },
                            SIrOp::ConstInt { bits, value: b as u64 },
                            SIrOp::IntBinary { op: int_op(op), lhs: n, rhs: n + 1 },
                        ],
                        kinds: st.kinds + seq![Some(it), Some(it), Some(it)],
                    },
                    n + 2,
                ),
            )
        }),
{
    let n = st.ops.len() as int;
    let ft = if wide {
        IrType::F64
    } else {
        IrType::F32
    };
    let st1 = emit(st, SIrOp::ConstFloat { wide, text: x }, Some(ft));
    let st2 = emit(st1, SIrOp::ConstFloat { wide, text: y }, Some(ft));
    assert(l_expr(fns, env, st, SExpr::Float(x), ft) == Ok::<(IrState, int), CodegenError>((st1, n)));
    assert(l_expr(fns, env, st1, SExpr::Float(y), ft) == Ok::<(IrState, int), CodegenError>((st2, n + 1)));
    assert(kind_of(st2, n) == Some(ft));
    assert(kind_of(st2, n + 1) == Some(ft));
    let st3 = emit(st2, SIrOp::FloatBinary { op, lhs: n, rhs: n + 1 }, Some(ft));
    assert(st3.ops =~= st.ops + seq![
        SIrOp::ConstFloat { wide, text: x },
        SIrOp::ConstFloat { wide, text: y },
        SIrOp::FloatBinary { op, lhs: n, rhs: n + 1 },
    ]);
    assert(st3.kinds =~= st.kinds + seq![Some(ft), Some(ft), Some(ft)]);
    let it = IrType::Int(bits);
    let s1 = emit(st, SIrOp::ConstInt { bits, value: a as u64 }, Some(it));
    let s2 = emit(s1, SIrOp::ConstInt { bits, value: b as u64 }, Some(it));
    assert(l_expr(fns, env, st, SExpr::Integer(a), it) == Ok::<(IrState, int), CodegenError>((s1, n)));
    assert(l_expr(fns, env, s1, SExpr::Integer(b), it) == Ok::<(IrState, int), CodegenError>((s2, n + 1)));
    assert(kind_of(s2, n) == Some(it));
    assert(kind_of(s2, n + 1) == Some(it));
    let s3 = emit(s2, SIrOp::IntBinary { op: int_op(op), lhs: n, rhs: n + 1 }, Some(it));
    assert(s3.ops =~= st.ops + seq![
        SIrOp::ConstInt { bits, value: a as u64 },
        SIrOp::ConstInt { bits, value: b as u64 },
        SIrOp::IntBinary { op: int_op(op), lhs: n, rhs: n + 1 },
    ]);
    assert(s3.kinds =~= st.kinds + seq![Some(it), Some(it), Some(it)]);
}

/// Whether every function of plan `irs`, the plan of the functions `fns`, is
/// well formed.
pub open spec fn plan_wf(fns: Seq<SFunction>, irs: Seq<SIrFunction>) -> bool {
    &&& irs.len() == fns.len()
    &&& forall|j: int|
        0 <= j < irs.len() ==> find_fn(fns, fns[j].name) is Some && state_wf(
            fns,
            fns[find_fn(fns, fns[j].name).unwrap()].parameters,
            IrState { ops: (#[trigger] irs[j]).body, kinds: irs[j].kinds },
        )
}

pub proof fn lemma_l_functions(fns: Seq<SFunction>, fs: Seq<SFunction>)
    ensures
        l_functions(fns, fs) matches Ok(gs) ==> gs.len() == fs.len() && forall|j: int|
            0 <= j < fs.len() ==> l_function(fns, #[trigger] fs[j]) == Ok::<SIrFunction, CodegenError>(gs[j]),
    decreases fs.len(),
{
    if fs.len() > 0 {
        lemma_l_functions(fns, fs.drop_first());
        if let Ok(gs) = l_functions(fns, fs) {
            let g0 = l_function(fns, fs[0]).unwrap();
            let rest = l_functions(fns, fs.drop_first()).unwrap();
            assert(gs == seq![g0] + rest);
            assert forall|j: int| 0 <= j < fs.len() implies l_function(fns, #[trigger] fs[j]) == Ok::<
                SIrFunction,
                CodegenError,
            >(gs[j]) by {
                if j > 0 {
                    assert(fs[j] == fs.drop_first()[j - 1]);
                }
            }
        }
    }
}

/// The plan of a program, when there is one, is well formed in every function.
pub proof fn law_program_plan_well_formed(fns: Seq<SFunction>)
    ensures
        l_program(fns) matches Ok(gs) ==> plan_wf(fns, gs),
{
    lemma_l_functions(fns, fns);
    if let Ok(gs) = l_program(fns) {
        assert forall|j: int| 0 <= j < gs.len() implies find_fn(fns, fns[j].name) is Some && state_wf(
            fns,
            fns[find_fn(fns, fns[j].name).unwrap()].parameters,
            IrState { ops: (#[trigger] gs[j]).body, kinds: gs[j].kinds },
        ) by {
            law_plan_well_formed(fns, fns[j]);
            assert(l_function(fns, fns[j]) == Ok::<SIrFunction, CodegenError>(gs[j]));
        }
    }
}

// ---------------------------------------------------------------------------
// Lowering
// ---------------------------------------------------------------------------

/// A variable in scope.
struct Binding {
    name: String,
    slot: usize,
    is_mut: bool,
    ty: IrType,
}

impl View for Binding {
    type V = SVar;

    closed spec fn view(&self) -> SVar {
        SVar { name: self.name@, slot: self.slot as int, is_mut: self.is_mut, ty: self.ty }
    }
}

spec fn env_view(env: Seq<Binding>) -> Seq<SVar> {
    env.map_values(|b: Binding| b@)
}

/// The steps built so far for a function body.
struct Emitter {
    ops: Vec<IrOp>,
    kinds: Vec<Option<IrType>>,
}

impl Emitter {
    spec fn state(&self) -> IrState {
        IrState { ops: ops_view(self.ops@), kinds: self.kinds@ }
    }

    spec fn wf(&self) -> bool {
        self.ops.len() == self.kinds.len()
    }

    fn new() -> (e: Self)
        ensures
            e.wf(),
            e.state() == empty_state(),
    {
        let e = Emitter { ops: Vec::new(), kinds: Vec::new() };
        assert(ops_view(e.ops@) =~= Seq::<SIrOp>::empty());
        assert(e.kinds@ =~= Seq::<Option<IrType>>::empty());
        e
    }

    /// Adds a step; gives its number.
    fn emit(&mut self, op: IrOp, kind: Option<IrType>) -> (i: usize)
        requires
            old(self).wf(),
        ensures
            final(self).wf(),
            final(self).state() == emit(old(self).state(), op@, kind),
            i == old(self).ops.len(),
    {
        let i = self.ops.len();
        let ghost before = self.ops@;
        self.ops.push(op);
        self.kinds.push(kind);
        assert(ops_view(self.ops@) =~= ops_view(before).push(op@));
        i
    }

    fn len(&self) -> (n: usize)
        ensures
            n == self.ops.len(),
    {
        self.ops.len()
    }

    /// The type of the value of step `i`.
    fn kind(&self, i: usize) -> (k: Option<IrType>)
        requires
            self.wf(),
        ensures
            k == kind_of(self.state(), i as int),
    {
        if i < self.kinds.len() {
            match &self.kinds[i] {
                Some(t) => Some(t.clone()),
                None => None,
            }
        } else {
            None
        }
    }
}

/// The latest variable of `env` named `name`.
fn lookup_var(env: &Vec<Binding>, name: &String) -> (r: Option<usize>)
    ensures
        match lookup(env_view(env@), name@) {
            Some(v) => r matches Some(i) && i < env.len() && env@[i as int]@ == v,
            None => r is None,
        },
{
    let mut i = env.len();
    proof {
        assert(env@.take(env.len() as int) =~= env@);
    }
    while i > 0
        invariant
            i <= env.len(),
            lookup(env_view(env@), name@) == lookup(env_view(env@.take(i as int)), name@),
        decreases i,
    {
        proof {
            assert(env_view(env@.take(i as int)).drop_last() =~= env_view(env@.take(i - 1)));
        }
        if env[i - 1].name == *name {
            return Some(i - 1);
        }
        i = i - 1;
    }
    proof {
        assert(env_view(env@.take(0)) =~= Seq::<SVar>::empty());
    }
    None
}

/// The index of the first function of `prog` named `name`.
fn find_function(prog: &Program, name: &String) -> (r: Option<usize>)
    ensures
        match find_fn(prog@, name@) {
            Some(i) => r == Some(i as usize) && 0 <= i < prog.functions.len(),
            None => r is None,
        },
{
    proof {
        lemma_find_fn_from(prog@, name@, 0);
    }
    let mut i: usize = 0;
    while i < prog.functions.len()
        invariant
            i <= prog.functions.len(),
            find_fn(prog@, name@) == find_fn_from(prog@, name@, i as int),
        decreases prog.functions.len() - i,
    {
        if prog.functions[i].name == *name {
            return Some(i);
        }
        i = i + 1;
    }
    None
}

/// Lowers expression `expr`, whose value is expected to be of type
/// `expected`; gives the step that yields its value.
#[verifier::rlimit(50)]
fn compile_expression(
    prog: &Program,
    env: &Vec<Binding>,
    em: &mut Emitter,
    expr: &Expression,
    expected: &IrType,
) -> (r: Result<usize, CodegenError>)
    requires
        old(em).wf(),
    ensures
        final(em).wf(),
        match l_expr(prog@, env_view(env@), old(em).state(), expr@, *expected) {
            Ok((st, v)) => r matches Ok(i) && i as int == v && final(em).state() == st,
            Err(x) => r == Err::<usize, CodegenError>(x),
        },
    decreases expr,
{
    match expr {
        Expression::Integer(val) => match expected {
            IrType::Int(bits) => Ok(em.emit(IrOp::ConstInt { bits: *bits, value: *val as u64 }, Some(IrType::Int(*bits)))),
            _ => Err(CodegenError::NotIntType),
        },
        Expression::Float(text) => match expected {
            IrType::F32 => Ok(em.emit(IrOp::ConstFloat { wide: false, text: text.clone() }, Some(IrType::F32))),
            IrType::F64 => Ok(em.emit(IrOp::ConstFloat { wide: true, text: text.clone() }, Some(IrType::F64))),
            _ => Err(CodegenError::NotFloatType),
        },
        Expression::AddressOf(inner) => match &**inner {
            Expression::Identifier(name) => match lookup_var(env, name) {
                Some(i) => {
                    assert(expr_view(**inner) == SExpr::Identifier(name@));
                    assert(expr@ == SExpr::AddressOf(Box::new(SExpr::Identifier(name@))));
                    Ok(env[i].slot)
                },
                None => Err(CodegenError::UndeclaredVariable),
            },
            _ => Err(CodegenError::AddressOfNonIdentifier),
        },
        Expression::Dereference(inner) => {
            let p = match compile_expression(prog, env, em, inner, &IrType::Ptr) {
                Ok(p) => p,
                Err(x) => {
                    return Err(x);
                },
            };
            if matches!(em.kind(p), Some(IrType::Ptr)) {
                Ok(
                    em.emit(
                        IrOp::Load { ty: expected.clone(), ptr: p, name: LoadName::Deref },
                        Some(expected.clone()),
                    ),
                )
            } else {
                Err(CodegenError::NotPointerValue)
            }
        },
        Expression::Binary(left, op, right) => {
            let a = match compile_expression(prog, env, em, left, expected) {
                Ok(a) => a,
                Err(x) => {
                    return Err(x);
                },
            };
            let b = match compile_expression(prog, env, em, right, expected) {
                Ok(b) => b,
                Err(x) => {
                    return Err(x);
                },
            };
            let ka = em.kind(a);
            let kb = em.kind(b);
            if matches!(expected, IrType::Int(_)) {
                if matches!(ka, Some(IrType::Int(_))) && matches!(kb, Some(IrType::Int(_))) {
                    Ok(em.emit(IrOp::IntBinary { op: get_int_op(*op), lhs: a, rhs: b }, ka))
                } else {
                    Err(CodegenError::NotIntValue)
                }
            } else {
                if (matches!(ka, Some(IrType::F32)) || matches!(ka, Some(IrType::F64))) && (matches!(kb, Some(IrType::F32)) || matches!(kb, Some(IrType::F64))) {
                    Ok(em.emit(IrOp::FloatBinary { op: *op, lhs: a, rhs: b }, ka))
                } else {
                    Err(CodegenError::NotFloatValue)
                }
            }
        },
        Expression::Identifier(name) => match lookup_var(env, name) {
            Some(i) => Ok(
                em.emit(
                    IrOp::Load { ty: env[i].ty.clone(), ptr: env[i].slot, name: LoadName::Var(name.clone()) },
                    Some(env[i].ty.clone()),
                ),
            ),
            None => Err(CodegenError::UndeclaredInExpression),
        },
        Expression::Index(left, index) => match &**left {
            Expression::Identifier(name) => match lookup_var(env, name) {
                Some(vi) => {
                    assert(expr_view(**left) == SExpr::Identifier(name@));
                    let j = match compile_expression(prog, env, em, index, &IrType::Int(64)) {
                        Ok(j) => j,
                        Err(x) => {
                            return Err(x);
                        },
                    };
                    if !matches!(em.kind(j), Some(IrType::Int(_))) {
                        return Err(CodegenError::NotIntValue);
                    }
                    if matches!(&env[vi].ty, IrType::Array(_, _)) {
                        let element_ptr = em.emit(
                            IrOp::ElementPtr {
                                ty: env[vi].ty.clone(),
                                ptr: env[vi].slot,
                                index: j,
                                name: name.clone(),
                            },
                            Some(IrType::Ptr),
                        );
                        Ok(
                            em.emit(
                                IrOp::Load { ty: expected.clone(), ptr: element_ptr, name: LoadName::Element },
                                Some(expected.clone()),
                            ),
                        )
                    } else {
                        Err(CodegenError::NotAnArray)
                    }
                },
                None => Err(CodegenError::UndeclaredInExpression),
            },
            _ => Err(CodegenError::IndexOfNonIdentifier),
        },
        Expression::Call(name, args) => {
            proof {
                reveal_strlit("syscall");
                assert("syscall"@ =~= syscall_name());
                let e = *expr;
                assert(decreases_to!(e => e->1));
            }
            if str_is(name.as_str(), "syscall") {
                let ids = match compile_args(prog, env, em, args, None) {
                    Ok(ids) => ids,
                    Err(x) => {
                        return Err(x);
                    },
                };
                return Ok(em.emit(IrOp::Syscall { args: ids }, Some(IrType::Int(64))));
            }
            let fi = match find_function(prog, name) {
                Some(fi) => fi,
                None => {
                    return Err(CodegenError::FunctionNotFound);
                },
            };
            let ids = match compile_args(prog, env, em, args, Some(&prog.functions[fi].parameters)) {
                Ok(ids) => ids,
                Err(x) => {
                    return Err(x);
                },
            };
            let ret = get_llvm_type(&prog.functions[fi].return_type);
            Ok(em.emit(IrOp::Call { callee: name.clone(), args: ids }, Some(ret)))
        },
    }
}

pub open spec fn opt_params_view(p: Option<&Vec<(String, Type)>>) -> Option<Seq<(Seq<char>, Type)>> {
    match p {
        Some(v) => Some(params_view(v@)),
        None => None,
    }
}

/// Lowers the arguments of a call: of a function with parameters `params`,
/// or of the `syscall` instruction when there are none.
fn compile_args(
    prog: &Program,
    env: &Vec<Binding>,
    em: &mut Emitter,
    args: &Vec<Expression>,
    params: Option<&Vec<(String, Type)>>,
) -> (r: Result<Vec<usize>, CodegenError>)
    requires
        old(em).wf(),
    ensures
        final(em).wf(),
        match l_args(prog@, env_view(env@), old(em).state(), exprs_view(args@), 0, opt_params_view(params)) {
            Ok((st, ids)) => r matches Ok(v) && indices_view(v@) == ids && final(em).state() == st,
            Err(x) => r == Err::<Vec<usize>, CodegenError>(x),
        },
    decreases args,
{
    let ghost fns = prog@;
    let ghost ps = opt_params_view(params);
    let ghost xs = exprs_view(args@);
    let ghost env_m = env_view(env@);
    let ghost st0 = em.state();
    let mut ids: Vec<usize> = Vec::new();
    let mut i: usize = 0;
    proof {
        crate::ast::lemma_exprs_view(args@);
        assert(xs.skip(0) =~= xs);
        assert(indices_view(ids@) =~= Seq::<int>::empty());
        assert forall|rest: Seq<int>| indices_view(ids@) + rest == rest by {
            assert(indices_view(ids@) + rest =~= rest);
        }
    }
    while i < args.len()
        invariant
            em.wf(),
            i <= args.len(),
            xs == exprs_view(args@),
            xs.len() == args.len(),
            forall|j: int| 0 <= j < args.len() ==> #[trigger] xs[j] == args@[j]@,
            ps == opt_params_view(params),
            fns == prog@,
            env_m == env_view(env@),
            st0 == old(em).state(),
            l_args(fns, env_m, st0, xs, 0, ps) == match l_args(fns, env_m, em.state(), xs.skip(i as int), i as int, ps) {
                Ok((st2, rest)) => Ok((st2, indices_view(ids@) + rest)),
                Err(x) => Err(x),
            },
        decreases args.len() - i,
    {
        let pi = i as u32;
        let t = match params {
            Some(ps_exec) => {
                if (pi as usize) < ps_exec.len() {
                    get_llvm_type(&ps_exec[pi as usize].1)
                } else {
                    return Err(CodegenError::MissingParameter);
                }
            },
            None => IrType::Int(64),
        };
        let ghost st_i = em.state();
        proof {
            assert(xs.skip(i as int)[0] == args@[i as int]@);
            assert(xs.skip(i as int).drop_first() =~= xs.skip(i + 1));
            if let Some(ps_exec) = params {
                if (pi as int) < ps_exec.len() {
                    assert(params_view(ps_exec@)[pi as int] == (ps_exec@[pi as int].0@, ps_exec@[pi as int].1));
                }
            }
            assert(l_args(fns, env_m, st_i, xs.skip(i as int), i as int, ps) == match l_expr(
                fns,
                env_m,
                st_i,
                args@[i as int]@,
                t,
            ) {
                Ok((st1, a)) => match l_args(fns, env_m, st1, xs.skip(i + 1), i + 1, ps) {
                    Ok((st2, ids2)) => Ok((st2, seq![a] + ids2)),
                    Err(x) => Err(x),
                },
                Err(x) => Err(x),
            });
        }
        let a = match compile_expression(prog, env, em, &args[i], &t) {
            Ok(a) => a,
            Err(x) => {
                return Err(x);
            },
        };
        let ghost before = ids@;
        ids.push(a);
        proof {
            assert(xs.skip(i as int).drop_first() =~= xs.skip(i + 1));
            assert(indices_view(ids@) =~= indices_view(before).push(a as int));
            assert forall|rest: Seq<int>| indices_view(before) + (seq![a as int] + rest) == indices_view(ids@) + rest by {
                assert(indices_view(before) + (seq![a as int] + rest) =~= indices_view(ids@) + rest);
            }
        }
        i = i + 1;
    }
    proof {
        assert(xs.skip(i as int) =~= Seq::<SExpr>::empty());
        assert(indices_view(ids@) + Seq::<int>::empty() =~= indices_view(ids@));
    }
    Ok(ids)
}


/// Lowers statement `stmt`; the scope `env` takes in what it declares.
fn compile_statement(
    prog: &Program,
    env: &mut Vec<Binding>,
    em: &mut Emitter,
    stmt: &Statement,
) -> (r: Result<(), CodegenError>)
    requires
        old(em).wf(),
    ensures
        final(em).wf(),
        match l_stmt(prog@, env_view(old(env)@), old(em).state(), stmt@) {
            Ok((env2, st2)) => r is Ok && env_view(final(env)@) == env2 && final(em).state() == st2,
            Err(x) => r == Err::<(), CodegenError>(x),
        },
{
    match stmt {
        Statement::Return(expr) => {
            let v = match compile_expression(prog, env, em, expr, &IrType::Int(64)) {
                Ok(v) => v,
                Err(x) => {
                    return Err(x);
                },
            };
            em.emit(IrOp::Return { value: v }, None);
            Ok(())
        },
        Statement::Declaration { is_mut, name, declared_type, initializer } => {
            let t = get_llvm_type(declared_type);
            let slot = em.emit(IrOp::Alloca { ty: t.clone(), name: name.clone() }, Some(IrType::Ptr));
            match initializer {
                Some(init) => {
                    let v = match compile_expression(prog, env, em, init, &t) {
                        Ok(v) => v,
                        Err(x) => {
                            return Err(x);
                        },
                    };
                    em.emit(IrOp::Store { ptr: slot, value: v }, None);
                },
                None => {},
            }
            let ghost before = env@;
            let b = Binding { name: name.clone(), slot, is_mut: *is_mut, ty: t };
            env.push(b);
            proof {
                assert(env_view(env@) =~= env_view(before).push(b@));
            }
            Ok(())
        },
        Statement::Assignment { name, value } => {
            let vi = match lookup_var(env, name) {
                Some(vi) => vi,
                None => {
                    return Err(CodegenError::UndeclaredVariable);
                },
            };
            let ty = env[vi].ty.clone();
            let v = match compile_expression(prog, env, em, value, &ty) {
                Ok(v) => v,
                Err(x) => {
                    return Err(x);
                },
            };
            if !env[vi].is_mut {
                return Err(CodegenError::ConstantMutation);
            }
            em.emit(IrOp::Store { ptr: env[vi].slot, value: v }, None);
            Ok(())
        },
        Statement::IndexAssignment { name, index, value } => {
            let vi = match lookup_var(env, name) {
                Some(vi) => vi,
                None => {
                    return Err(CodegenError::UndeclaredVariable);
                },
            };
            if !env[vi].is_mut {
                return Err(CodegenError::ConstantArrayMutation);
            }
            let i = match compile_expression(prog, env, em, index, &IrType::Int(64)) {
                Ok(i) => i,
                Err(x) => {
                    return Err(x);
                },
            };
            let elem_type = match &env[vi].ty {
                IrType::Array(el, _) => (**el).clone(),
                other => other.clone(),
            };
            let v = match compile_expression(prog, env, em, value, &elem_type) {
                Ok(v) => v,
                Err(x) => {
                    return Err(x);
                },
            };
            if !matches!(em.kind(i), Some(IrType::Int(_))) {
                return Err(CodegenError::NotIntValue);
            }
            if matches!(&env[vi].ty, IrType::Array(_, _)) {
                let element_ptr = em.emit(
                    IrOp::ElementPtr { ty: env[vi].ty.clone(), ptr: env[vi].slot, index: i, name: name.clone() },
                    Some(IrType::Ptr),
                );
                em.emit(IrOp::Store { ptr: element_ptr, value: v }, None);
                Ok(())
            } else {
                Err(CodegenError::NotAnArray)
            }
        },
    }
}


/// Lowers function `f` of `prog`.
fn compile_function(prog: &Program, f: &Function) -> (r: Result<IrFunction, CodegenError>)
    ensures
        match l_function(prog@, f@) {
            Ok(g) => r matches Ok(h) && h@ == g,
            Err(x) => r == Err::<IrFunction, CodegenError>(x),
        },
{
    let ghost fns = prog@;
    let ti = match find_function(prog, &f.name) {
        Some(ti) => ti,
        None => {
            return Err(CodegenError::FunctionNotFound);
        },
    };
    let target = &prog.functions[ti].parameters;
    let ghost tps = fns[ti as int].parameters;
    let ghost ps = params_view(f.parameters@);
    let mut env: Vec<Binding> = Vec::new();
    let mut em = Emitter::new();
    let mut params: Vec<IrType> = Vec::new();
    proof {
        assert(env_view(env@) =~= Seq::<SVar>::empty());
        assert(ps.skip(0) =~= ps);
    }
    let mut i: usize = 0;
    while i < f.parameters.len()
        invariant
            em.wf(),
            i <= f.parameters.len(),
            ps == params_view(f.parameters@),
            ps.len() == f.parameters.len(),
            tps == params_view(target@),
            tps.len() == target.len(),
            fns == prog@,
            l_function(fns, f@) == match l_params(fns, env_view(env@), em.state(), ps.skip(i as int), i as int, tps) {
                Ok((env2, st2)) => match l_stmts(fns, env2, st2, stmts_view(f.body@)) {
                    Ok(st3) => Ok(
                        SIrFunction {
                            name: f.name@,
                            params: param_types(ps),
                            ret: lower_type(f.return_type),
                            body: st3.ops,
                            kinds: st3.kinds,
                        },
                    ),
                    Err(x) => Err(x),
                },
                Err(x) => Err(x),
            },
            params@ == param_types(ps).take(i as int),
        decreases f.parameters.len() - i,
    {
        let pname = &f.parameters[i].0;
        let t = get_llvm_type(&f.parameters[i].1);
        proof {
            assert(ps.skip(i as int)[0] == (pname@, f.parameters@[i as int].1));
            assert(ps.skip(i as int).drop_first() =~= ps.skip(i + 1));
        }
        let slot = em.emit(IrOp::Alloca { ty: t.clone(), name: pname.clone() }, Some(IrType::Ptr));
        let pi = i as u32;
        if (pi as usize) >= target.len() {
            return Err(CodegenError::MissingParameter);
        }
        proof {
            assert(tps[pi as int] == (target@[pi as int].0@, target@[pi as int].1));
        }
        let v = em.emit(IrOp::Param { index: pi }, Some(get_llvm_type(&target[pi as usize].1)));
        em.emit(IrOp::Store { ptr: slot, value: v }, None);
        let ghost before = env@;
        let b = Binding { name: pname.clone(), slot, is_mut: false, ty: t.clone() };
        env.push(b);
        proof {
            assert(env_view(env@) =~= env_view(before).push(b@));
        }
        let ghost before_params = params@;
        params.push(t);
        proof {
            assert(params@ =~= param_types(ps).take(i + 1));
        }
        i = i + 1;
    }
    proof {
        assert(ps.skip(i as int) =~= Seq::<(Seq<char>, Type)>::empty());
        assert(params@ =~= param_types(ps));
    }
    let ghost body = stmts_view(f.body@);
    proof {
        assert(body.skip(0) =~= body);
    }
    let mut j: usize = 0;
    while j < f.body.len()
        invariant
            em.wf(),
            j <= f.body.len(),
            body == stmts_view(f.body@),
            body.len() == f.body.len(),
            fns == prog@,
            params@ == param_types(ps),
            ps == params_view(f.parameters@),
            l_function(fns, f@) == match l_stmts(fns, env_view(env@), em.state(), body.skip(j as int)) {
                Ok(st3) => Ok(
                    SIrFunction {
                        name: f.name@,
                        params: param_types(ps),
                        ret: lower_type(f.return_type),
                        body: st3.ops,
                        kinds: st3.kinds,
                    },
                ),
                Err(x) => Err(x),
            },
        decreases f.body.len() - j,
    {
        proof {
            assert(body.skip(j as int)[0] == f.body@[j as int]@);
            assert(body.skip(j as int).drop_first() =~= body.skip(j + 1));
        }
        match compile_statement(prog, &mut env, &mut em, &f.body[j]) {
            Ok(()) => {},
            Err(x) => {
                return Err(x);
            },
        }
        j = j + 1;
    }
    proof {
        assert(body.skip(j as int) =~= Seq::<SStmt>::empty());
    }
    let ret = get_llvm_type(&f.return_type);
    Ok(IrFunction { name: f.name.clone(), params, ret, body: em.ops, kinds: em.kinds })
}

/// Lowers a whole program, function by function in source order; the first
/// function that cannot be compiled stops it.
pub fn compile_program(prog: &Program) -> (r: Result<Vec<IrFunction>, CodegenError>)
    ensures
        match l_program(prog@) {
            Ok(fs) => r matches Ok(v) && ir_functions_view(v@) == fs,
            Err(x) => r == Err::<Vec<IrFunction>, CodegenError>(x),
        },
        r matches Ok(v) ==> plan_wf(prog@, ir_functions_view(v@)),
{
    proof {
        law_program_plan_well_formed(prog@);
    }
    let ghost fns = prog@;
    let mut out: Vec<IrFunction> = Vec::new();
    proof {
        assert(fns.skip(0) =~= fns);
        assert(ir_functions_view(out@) =~= Seq::<SIrFunction>::empty());
        assert forall|rest: Seq<SIrFunction>| ir_functions_view(out@) + rest == rest by {
            assert(ir_functions_view(out@) + rest =~= rest);
        }
    }
    let mut i: usize = 0;
    while i < prog.functions.len()
        invariant
            i <= prog.functions.len(),
            fns == prog@,
            fns.len() == prog.functions.len(),
            l_program(fns) == match l_functions(fns, fns.skip(i as int)) {
                Ok(rest) => Ok(ir_functions_view(out@) + rest),
                Err(x) => Err(x),
            },
        decreases prog.functions.len() - i,
    {
        proof {
            assert(fns.skip(i as int)[0] == prog.functions@[i as int]@);
            assert(fns.skip(i as int).drop_first() =~= fns.skip(i + 1));
        }
        let g = match compile_function(prog, &prog.functions[i]) {
            Ok(g) => g,
            Err(x) => {
                return Err(x);
            },
        };
        let ghost before = out@;
        out.push(g);
        proof {
            assert(ir_functions_view(out@) =~= ir_functions_view(before).push(g@));
            assert forall|rest: Seq<SIrFunction>| ir_functions_view(before) + (seq![g@] + rest) == ir_functions_view(out@) + rest by {
                assert(ir_functions_view(before) + (seq![g@] + rest) =~= ir_functions_view(out@) + rest);
            }
        }
        i = i + 1;
    }
    proof {
        assert(fns.skip(i as int) =~= Seq::<SFunction>::empty());
        assert(ir_functions_view(out@) + Seq::<SIrFunction>::empty() =~= ir_functions_view(out@));
    }
    Ok(out)
}

} // verus!
