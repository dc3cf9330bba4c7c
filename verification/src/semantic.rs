//! Static checking of programs: the type of every expression, the types that
//! variables keep, and the arity and return type of user functions.
use vstd::prelude::*;
use crate::syntax::{
    Expr, Op, SExpr, SStmt, SValue, Stmt, Value, exprs_view, fields_view, lemma_expr_views,
    lemma_stmt_views, stmts_view, strings_view,
};
use crate::text::{chars_eq_str, chars_of, push_chars, push_str, string_of};

verus! {

/// The static types.
#[derive(Debug, Clone, Copy, PartialEq, Eq, Structural)]
pub enum Type {
    Number,
    Text,
    Boolean,
    List,
    Object,
    Tensor,
    Null,
    Any,
}

pub open spec fn spec_type_name(t: Type) -> Seq<char> {
    match t {
        Type::Number => "Number"@,
        Type::Text => "Text"@,
        Type::Boolean => "Boolean"@,
        Type::List => "List"@,
        Type::Object => "Object"@,
        Type::Tensor => "Tensor"@,
        Type::Null => "Null"@,
        Type::Any => "Any"@,
    }
}

impl Type {
    /// The name of the type as the language writes it.
    pub fn name(self) -> (r: &'static str)
        ensures
            r@ == spec_type_name(self),
    {
        match self {
            Type::Number => "Number",
            Type::Text => "Text",
            Type::Boolean => "Boolean",
            Type::List => "List",
            Type::Object => "Object",
            Type::Tensor => "Tensor",
            Type::Null => "Null",
            Type::Any => "Any",
        }
    }
}

/// Why a program is rejected.
#[derive(Debug)]
pub enum SemanticError {
    /// A variable read before any assignment.
    UndefinedVariable(String),
    /// Two types that cannot be merged at the labelled place.
    Mismatch(String, Type, Type),
    /// Operands of the labelled operation that are not numbers.
    NotNumeric(String, Type, Type),
    /// Operands that `+` does not accept.
    AddMismatch(Type, Type),
    /// `.` on something that is not an object.
    FieldRequiresObject(Type),
    /// A list indexed by something that is not a number.
    ListIndex(Type),
    /// An object indexed by something that is not text.
    ObjectKey(Type),
    /// A tensor indexed by something that is not a number.
    TensorIndex(Type),
    /// Indexing something that is neither a list, an object nor a tensor.
    NotIndexable(Type),
    /// A built-in function called with the wrong number of arguments.
    Arity(String),
    /// A built-in function given an argument of the wrong type.
    BuiltinArgument(String, Type),
    /// A user function called with the wrong number of arguments; the
    /// number it expects.
    UserArity(String, usize),
}

/// The mathematical view of a [`SemanticError`].
pub enum SSemanticError {
    UndefinedVariable(Seq<char>),
    Mismatch(Seq<char>, Type, Type),
    NotNumeric(Seq<char>, Type, Type),
    AddMismatch(Type, Type),
    FieldRequiresObject(Type),
    ListIndex(Type),
    ObjectKey(Type),
    TensorIndex(Type),
    NotIndexable(Type),
    Arity(Seq<char>),
    BuiltinArgument(Seq<char>, Type),
    UserArity(Seq<char>, nat),
}

impl View for SemanticError {
    type V = SSemanticError;

    open spec fn view(&self) -> SSemanticError {
        match self {
            SemanticError::UndefinedVariable(n) => SSemanticError::UndefinedVariable(n@),
            SemanticError::Mismatch(l, a, b) => SSemanticError::Mismatch(l@, *a, *b),
            SemanticError::NotNumeric(l, a, b) => SSemanticError::NotNumeric(l@, *a, *b),
            SemanticError::AddMismatch(a, b) => SSemanticError::AddMismatch(*a, *b),
            SemanticError::FieldRequiresObject(a) => SSemanticError::FieldRequiresObject(*a),
            SemanticError::ListIndex(a) => SSemanticError::ListIndex(*a),
            SemanticError::ObjectKey(a) => SSemanticError::ObjectKey(*a),
            SemanticError::TensorIndex(a) => SSemanticError::TensorIndex(*a),
            SemanticError::NotIndexable(a) => SSemanticError::NotIndexable(*a),
            SemanticError::Arity(n) => SSemanticError::Arity(n@),
            SemanticError::BuiltinArgument(n, a) => SSemanticError::BuiltinArgument(n@, *a),
            SemanticError::UserArity(n, k) => SSemanticError::UserArity(n@, *k as nat),
        }
    }
}

/// Merging the types seen at one place: equal types stay, `Any` absorbs
/// the other, anything else is a mismatch.
pub open spec fn spec_merge(a: Type, b: Type, label: Seq<char>) -> Result<Type, SSemanticError> {
    if a == b {
        Ok(a)
    } else if a == Type::Any || b == Type::Any {
        Ok(Type::Any)
    } else {
        Err(SSemanticError::Mismatch(label, a, b))
    }
}

/// Merging two types succeeds or fails regardless of their order, and
/// gives the same type either way.
pub proof fn law_merge_symmetric(a: Type, b: Type, label: Seq<char>)
    ensures
        spec_merge(a, b, label) is Ok <==> spec_merge(b, a, label) is Ok,
        spec_merge(a, b, label) is Ok ==> spec_merge(a, b, label) == spec_merge(b, a, label),
{
}

/// A type merged with itself is itself; merged with `Any` it is `Any`.
pub proof fn law_merge_identity(a: Type, label: Seq<char>)
    ensures
        spec_merge(a, a, label) == Ok::<Type, SSemanticError>(a),
        spec_merge(a, Type::Any, label) == Ok::<Type, SSemanticError>(Type::Any),
        spec_merge(Type::Any, a, label) == Ok::<Type, SSemanticError>(Type::Any),
{
}

/// The type of an arithmetic result.
pub open spec fn spec_numeric_result(a: Type, b: Type, label: Seq<char>) -> Result<Type, SSemanticError> {
    if a == Type::Number && b == Type::Number {
        Ok(Type::Number)
    } else if a == Type::Any || b == Type::Any {
        Ok(Type::Any)
    } else {
        Err(SSemanticError::NotNumeric(label, a, b))
    }
}

/// Whether both operands of a comparison can be numbers.
pub open spec fn spec_expect_numeric(a: Type, b: Type, label: Seq<char>) -> Result<(), SSemanticError> {
    if (a == Type::Number || a == Type::Any) && (b == Type::Number || b == Type::Any) {
        Ok(())
    } else {
        Err(SSemanticError::NotNumeric(label, a, b))
    }
}

pub open spec fn arithmetic_label() -> Seq<char> {
    "operação aritmética"@
}

pub open spec fn comparison_label() -> Seq<char> {
    "comparação"@
}

pub open spec fn return_label() -> Seq<char> {
    "retorno de função"@
}

/// The label of the merge of a variable's types: `variável 'name'`.
pub open spec fn variable_label(name: Seq<char>) -> Seq<char> {
    "variável '"@ + name + "'"@
}

/// The type of a binary operation on operands of types `l` and `r`.
pub open spec fn spec_binary_type(op: Op, l: Type, r: Type) -> Result<Type, SSemanticError> {
    match op {
        Op::Eq | Op::Ne | Op::And | Op::Or => Ok(Type::Boolean),
        Op::Add => if l == Type::Any || r == Type::Any {
            Ok(Type::Any)
        } else if l == Type::Number && r == Type::Number {
            Ok(Type::Number)
        } else if l == Type::Text || r == Type::Text {
            Ok(Type::Text)
        } else if l == Type::List && r == Type::List {
            Ok(Type::List)
        } else {
            Err(SSemanticError::AddMismatch(l, r))
        },
        Op::Sub | Op::Mul | Op::Div | Op::Mod => spec_numeric_result(l, r, arithmetic_label()),
        Op::Gt | Op::Ge | Op::Lt | Op::Le => match spec_expect_numeric(l, r, comparison_label()) {
            Ok(()) => Ok(Type::Boolean),
            Err(e) => Err(e),
        },
    }
}

/// The type of `+`: a text on either side makes it text concatenation, two
/// numbers add to a number, two lists concatenate to a list, an operand of
/// unknown type makes the result unknown, and any other pair is refused.
pub proof fn law_add_types(l: Type, r: Type)
    ensures
        l == Type::Any || r == Type::Any ==> spec_binary_type(Op::Add, l, r) == Ok::<Type, SSemanticError>(Type::Any),
        l != Type::Any && r != Type::Any && (l == Type::Text || r == Type::Text)
            ==> spec_binary_type(Op::Add, l, r) == Ok::<Type, SSemanticError>(Type::Text),
        l == Type::Number && r == Type::Number ==> spec_binary_type(Op::Add, l, r) == Ok::<Type, SSemanticError>(Type::Number),
        l == Type::List && r == Type::List ==> spec_binary_type(Op::Add, l, r) == Ok::<Type, SSemanticError>(Type::List),
        spec_binary_type(Op::Add, l, r) is Err <==> (
            l != Type::Any && r != Type::Any && l != Type::Text && r != Type::Text
            && !(l == Type::Number && r == Type::Number) && !(l == Type::List && r == Type::List)
        ),
{
}

/// The types of the other operators: `-`, `*`, `/` and `%` take numbers and
/// give a number (an unknown operand gives an unknown result), comparisons
/// take numbers or unknowns and give a boolean, equality and the logical
/// operators give a boolean for any operands; anything else is refused.
pub proof fn law_other_operator_types(op: Op, l: Type, r: Type)
    ensures
        (op == Op::Sub || op == Op::Mul || op == Op::Div || op == Op::Mod) ==> {
            &&& (l == Type::Number && r == Type::Number ==> spec_binary_type(op, l, r) == Ok::<Type, SSemanticError>(Type::Number))
            &&& (!(l == Type::Number && r == Type::Number) && (l == Type::Any || r == Type::Any)
                ==> spec_binary_type(op, l, r) == Ok::<Type, SSemanticError>(Type::Any))
            &&& (spec_binary_type(op, l, r) is Err <==> l != Type::Any && r != Type::Any && !(l == Type::Number && r == Type::Number))
        },
        (op == Op::Gt || op == Op::Ge || op == Op::Lt || op == Op::Le) ==> {
            &&& ((l == Type::Number || l == Type::Any) && (r == Type::Number || r == Type::Any)
                ==> spec_binary_type(op, l, r) == Ok::<Type, SSemanticError>(Type::Boolean))
            &&& (spec_binary_type(op, l, r) is Err <==> !((l == Type::Number || l == Type::Any) && (r == Type::Number || r == Type::Any)))
        },
        (op == Op::Eq || op == Op::Ne || op == Op::And || op == Op::Or) ==> spec_binary_type(op, l, r) == Ok::<Type, SSemanticError>(Type::Boolean),
{
}

/// The type of indexing a value of type `target` by one of type `index`.
pub open spec fn spec_index_type(target: Type, index: Type) -> Result<Type, SSemanticError> {
    match target {
        Type::Any => Ok(Type::Any),
        Type::List => if index == Type::Number || index == Type::Any { Ok(Type::Any) } else { Err(SSemanticError::ListIndex(index)) },
        Type::Object => if index == Type::Text || index == Type::Any { Ok(Type::Any) } else { Err(SSemanticError::ObjectKey(index)) },
        Type::Tensor => if index == Type::Number || index == Type::Any { Ok(Type::Any) } else { Err(SSemanticError::TensorIndex(index)) },
        _ => Err(SSemanticError::NotIndexable(target)),
    }
}

/// What a built-in function accepts in one argument position.
#[derive(Clone, Copy, PartialEq, Eq, Structural)]
pub enum Kind {
    Anything,
    TextLike,
    NumberLike,
    ListLike,
    TensorLike,
    ExactText,
    ExactList,
}

pub open spec fn kind_accepts(k: Kind, t: Type) -> bool {
    match k {
        Kind::Anything => true,
        Kind::TextLike => t == Type::Text || t == Type::Any,
        Kind::NumberLike => t == Type::Number || t == Type::Any,
        Kind::ListLike => t == Type::List || t == Type::Any,
        Kind::TensorLike => t == Type::Tensor || t == Type::Any,
        Kind::ExactText => t == Type::Text,
        Kind::ExactList => t == Type::List,
    }
}

/// The type of the first argument that its position does not accept.
pub open spec fn first_rejected(kinds: Seq<Kind>, tys: Seq<Type>) -> Option<Type>
    decreases kinds.len(),
{
    if kinds.len() == 0 || tys.len() == 0 {
        None
    } else if !kind_accepts(kinds[0], tys[0]) {
        Some(tys[0])
    } else {
        first_rejected(kinds.drop_first(), tys.drop_first())
    }
}

/// The built-in functions: what each accepts and what it returns.
pub open spec fn spec_signature(n: Seq<char>) -> Option<(Seq<Kind>, Type)> {
    if n == "len"@ {
        Some((seq![Kind::Anything], Type::Number))
    } else if n == "to_text"@ {
        Some((seq![Kind::Anything], Type::Text))
    } else if n == "to_number"@ {
        Some((seq![Kind::TextLike], Type::Number))
    } else if n == "upper"@ || n == "lower"@ || n == "trim"@ {
        Some((seq![Kind::TextLike], Type::Text))
    } else if n == "contains"@ || n == "starts_with"@ || n == "ends_with"@ {
        Some((seq![Kind::TextLike, Kind::TextLike], Type::Boolean))
    } else if n == "replace"@ {
        Some((seq![Kind::TextLike, Kind::TextLike, Kind::TextLike], Type::Text))
    } else if n == "substring"@ {
        Some((seq![Kind::TextLike, Kind::NumberLike, Kind::NumberLike], Type::Text))
    } else if n == "char_at"@ {
        Some((seq![Kind::TextLike, Kind::NumberLike], Type::Text))
    } else if n == "split"@ {
        Some((seq![Kind::TextLike, Kind::TextLike], Type::List))
    } else if n == "join"@ {
        Some((seq![Kind::ListLike, Kind::TextLike], Type::Text))
    } else if n == "append"@ {
        Some((seq![Kind::ListLike, Kind::Anything], Type::List))
    } else if n == "backend"@ {
        Some((Seq::empty(), Type::Text))
    } else if n == "dtype"@ || n == "device"@ {
        Some((seq![Kind::TensorLike], Type::Text))
    } else if n == "memory_bytes"@ {
        Some((seq![Kind::TensorLike], Type::Number))
    } else if n == "cast"@ {
        Some((seq![Kind::TensorLike, Kind::ExactText], Type::Tensor))
    } else if n == "tensor"@ || n == "parameter"@ {
        Some((seq![Kind::ExactList, Kind::ExactList], Type::Tensor))
    } else if n == "zeros"@ {
        Some((seq![Kind::ExactList], Type::Tensor))
    } else if n == "shape"@ {
        Some((seq![Kind::TensorLike], Type::List))
    } else if n == "range"@ {
        Some((seq![Kind::NumberLike], Type::List))
    } else if n == "matmul"@ || n == "grad"@ {
        Some((seq![Kind::TensorLike, Kind::TensorLike], Type::Tensor))
    } else if n == "sum"@ || n == "mean"@ {
        Some((seq![Kind::TensorLike], Type::Tensor))
    } else if n == "adam"@ || n == "step"@ {
        Some((seq![Kind::TensorLike, Kind::TensorLike, Kind::NumberLike], Type::Tensor))
    } else {
        None
    }
}

/// The type of a call of `name` on arguments of types `tys`: a built-in by
/// its signature, a user function by its recorded arity and return type, and
/// anything else as `Any`.
pub open spec fn spec_call_type(funcs: Map<Seq<char>, (nat, Type)>, name: Seq<char>, tys: Seq<Type>) -> Result<Type, SSemanticError> {
    match spec_signature(name) {
        Some((kinds, result)) => if tys.len() != kinds.len() {
            Err(SSemanticError::Arity(name))
        } else {
            match first_rejected(kinds, tys) {
                Some(t) => Err(SSemanticError::BuiltinArgument(name, t)),
                None => Ok(result),
            }
        },
        None => if funcs.contains_key(name) {
            if funcs[name].0 != tys.len() {
                Err(SSemanticError::UserArity(name, funcs[name].0))
            } else {
                Ok(funcs[name].1)
            }
        } else {
            Ok(Type::Any)
        },
    }
}

/// The type of a literal.
pub open spec fn value_type(v: SValue) -> Type {
    match v {
        SValue::Number(_) => Type::Number,
        SValue::Text(_) => Type::Text,
        SValue::Boolean(_) => Type::Boolean,
        SValue::Null => Type::Null,
    }
}

/// The type of an expression, or the first error met reading it left to
/// right.
pub open spec fn spec_expr_type(vars: Map<Seq<char>, Type>, funcs: Map<Seq<char>, (nat, Type)>, e: SExpr) -> Result<Type, SSemanticError>
    decreases e, 0int,
{
    match e {
        SExpr::Value(v) => Ok(value_type(v)),
        SExpr::Var(n) => if vars.contains_key(n) { Ok(vars[n]) } else { Err(SSemanticError::UndefinedVariable(n)) },
        SExpr::List(items) => match spec_types(vars, funcs, items) {
            Ok(_) => Ok(Type::List),
            Err(x) => Err(x),
        },
        SExpr::Object(fields) => match spec_field_types(vars, funcs, fields) {
            Ok(()) => Ok(Type::Object),
            Err(x) => Err(x),
        },
        SExpr::Binary(a, op, b) => match spec_expr_type(vars, funcs, *a) {
            Err(x) => Err(x),
            Ok(l) => match spec_expr_type(vars, funcs, *b) {
                Err(x) => Err(x),
                Ok(r) => spec_binary_type(op, l, r),
            },
        },
        SExpr::Field(target, _) => match spec_expr_type(vars, funcs, *target) {
            Err(x) => Err(x),
            Ok(t) => if t == Type::Object || t == Type::Any { Ok(Type::Any) } else { Err(SSemanticError::FieldRequiresObject(t)) },
        },
        SExpr::Index(target, index) => match spec_expr_type(vars, funcs, *target) {
            Err(x) => Err(x),
            Ok(t) => match spec_expr_type(vars, funcs, *index) {
                Err(x) => Err(x),
                Ok(i) => spec_index_type(t, i),
            },
        },
        SExpr::Call(name, args) => match spec_types(vars, funcs, args) {
            Err(x) => Err(x),
            Ok(tys) => spec_call_type(funcs, name, tys),
        },
    }
}

/// The types of expressions left to right after those already in `acc`, or
/// the first error.
pub open spec fn spec_types_from(vars: Map<Seq<char>, Type>, funcs: Map<Seq<char>, (nat, Type)>, acc: Seq<Type>, es: Seq<SExpr>) -> Result<Seq<Type>, SSemanticError>
    decreases es, es.len(),
{
    if es.len() == 0 {
        Ok(acc)
    } else {
        match spec_expr_type(vars, funcs, es[0]) {
            Err(x) => Err(x),
            Ok(t) => spec_types_from(vars, funcs, acc.push(t), es.drop_first()),
        }
    }
}

/// The types of expressions left to right, or the first error.
pub open spec fn spec_types(vars: Map<Seq<char>, Type>, funcs: Map<Seq<char>, (nat, Type)>, es: Seq<SExpr>) -> Result<Seq<Type>, SSemanticError>
    decreases es, es.len() + 1,
{
    spec_types_from(vars, funcs, Seq::empty(), es)
}

/// Whether the values of an object literal all have types.
pub open spec fn spec_field_types(vars: Map<Seq<char>, Type>, funcs: Map<Seq<char>, (nat, Type)>, fs: Seq<(Seq<char>, SExpr)>) -> Result<(), SSemanticError>
    decreases fs, fs.len(),
{
    if fs.len() == 0 {
        Ok(())
    } else {
        match spec_expr_type(vars, funcs, fs[0].1) {
            Err(x) => Err(x),
            Ok(_) => spec_field_types(vars, funcs, fs.drop_first()),
        }
    }
}

/// The variable table after a `for` loop over `name`: the variable gets
/// back the type it had before the loop, or is dropped if it had none.
pub open spec fn restore(after: Map<Seq<char>, Type>, name: Seq<char>, before: Map<Seq<char>, Type>) -> Map<Seq<char>, Type> {
    if before.contains_key(name) { after.insert(name, before[name]) } else { after.remove(name) }
}

/// Checking a statement outside a function body: the variable table after it.
pub open spec fn spec_check_stmt(vars: Map<Seq<char>, Type>, funcs: Map<Seq<char>, (nat, Type)>, s: SStmt) -> Result<Map<Seq<char>, Type>, SSemanticError>
    decreases s, 0int,
{
    match s {
        SStmt::Assign(name, e) => match spec_expr_type(vars, funcs, e) {
            Err(x) => Err(x),
            Ok(t) => if vars.contains_key(name) {
                match spec_merge(vars[name], t, variable_label(name)) {
                    Ok(m) => Ok(vars.insert(name, m)),
                    Err(x) => Err(x),
                }
            } else {
                Ok(vars.insert(name, t))
            },
        },
        SStmt::Print(e) => match spec_expr_type(vars, funcs, e) { Ok(_) => Ok(vars), Err(x) => Err(x) },
        SStmt::Expr(e) => match spec_expr_type(vars, funcs, e) { Ok(_) => Ok(vars), Err(x) => Err(x) },
        SStmt::Return(e) => match spec_expr_type(vars, funcs, e) { Ok(_) => Ok(vars), Err(x) => Err(x) },
        SStmt::If(c, yes, no) => match spec_expr_type(vars, funcs, c) {
            Err(x) => Err(x),
            Ok(_) => match spec_check_stmts(vars, funcs, yes) {
                Err(x) => Err(x),
                Ok(v1) => spec_check_stmts(v1, funcs, no),
            },
        },
        SStmt::While(c, body) => match spec_expr_type(vars, funcs, c) {
            Err(x) => Err(x),
            Ok(_) => spec_check_stmts(vars, funcs, body),
        },
        SStmt::For(name, it, body) => match spec_expr_type(vars, funcs, it) {
            Err(x) => Err(x),
            Ok(_) => match spec_check_stmts(vars.insert(name, Type::Any), funcs, body) {
                Err(x) => Err(x),
                Ok(v2) => Ok(restore(v2, name, vars)),
            },
        },
        SStmt::Use(_) => Ok(vars),
        SStmt::Function(_, _, _) => Ok(vars),
    }
}

/// Checking statements in order outside a function body.
pub open spec fn spec_check_stmts(vars: Map<Seq<char>, Type>, funcs: Map<Seq<char>, (nat, Type)>, ss: Seq<SStmt>) -> Result<Map<Seq<char>, Type>, SSemanticError>
    decreases ss, ss.len(),
{
    if ss.len() == 0 {
        Ok(vars)
    } else {
        match spec_check_stmt(vars, funcs, ss[0]) {
            Err(x) => Err(x),
            Ok(v1) => spec_check_stmts(v1, funcs, ss.drop_first()),
        }
    }
}

/// Checking a statement of a function body, where `ret` is the return type
/// merged so far and whether a `return` was seen.
pub open spec fn spec_check_ret(vars: Map<Seq<char>, Type>, funcs: Map<Seq<char>, (nat, Type)>, ret: (Type, bool), s: SStmt) -> Result<(Map<Seq<char>, Type>, (Type, bool)), SSemanticError>
    decreases s, 0int,
{
    match s {
        SStmt::Return(e) => match spec_expr_type(vars, funcs, e) {
            Err(x) => Err(x),
            Ok(t) => if !ret.1 {
                Ok((vars, (t, true)))
            } else {
                match spec_merge(ret.0, t, return_label()) {
                    Ok(m) => Ok((vars, (m, true))),
                    Err(x) => Err(x),
                }
            },
        },
        SStmt::If(c, yes, no) => match spec_expr_type(vars, funcs, c) {
            Err(x) => Err(x),
            Ok(_) => match spec_check_ret_stmts(vars, funcs, ret, yes) {
                Err(x) => Err(x),
                Ok((v1, r1)) => spec_check_ret_stmts(v1, funcs, r1, no),
            },
        },
        SStmt::While(c, body) => match spec_expr_type(vars, funcs, c) {
            Err(x) => Err(x),
            Ok(_) => spec_check_ret_stmts(vars, funcs, ret, body),
        },
        SStmt::For(name, it, body) => match spec_expr_type(vars, funcs, it) {
            Err(x) => Err(x),
            Ok(_) => match spec_check_ret_stmts(vars.insert(name, Type::Any), funcs, ret, body) {
                Err(x) => Err(x),
                Ok((v2, r2)) => Ok((restore(v2, name, vars), r2)),
            },
        },
        _ => match spec_check_stmt(vars, funcs, s) {
            Err(x) => Err(x),
            Ok(v1) => Ok((v1, ret)),
        },
    }
}

/// Checking statements of a function body in order.
pub open spec fn spec_check_ret_stmts(vars: Map<Seq<char>, Type>, funcs: Map<Seq<char>, (nat, Type)>, ret: (Type, bool), ss: Seq<SStmt>) -> Result<(Map<Seq<char>, Type>, (Type, bool)), SSemanticError>
    decreases ss, ss.len(),
{
    if ss.len() == 0 {
        Ok((vars, ret))
    } else {
        match spec_check_ret(vars, funcs, ret, ss[0]) {
            Err(x) => Err(x),
            Ok((v1, r1)) => spec_check_ret_stmts(v1, funcs, r1, ss.drop_first()),
        }
    }
}

/// The variable table with each parameter bound to `Any`.
pub open spec fn bind_params(vars: Map<Seq<char>, Type>, params: Seq<Seq<char>>) -> Map<Seq<char>, Type>
    decreases params.len(),
{
    if params.len() == 0 {
        vars
    } else {
        bind_params(vars.insert(params[0], Type::Any), params.drop_first())
    }
}

/// Checking a function definition: the function table with the return type
/// inferred from its body (`Null` when it has no `return`).
pub open spec fn spec_check_function(vars: Map<Seq<char>, Type>, funcs: Map<Seq<char>, (nat, Type)>, name: Seq<char>, params: Seq<Seq<char>>, body: Seq<SStmt>) -> Result<Map<Seq<char>, (nat, Type)>, SSemanticError> {
    match spec_check_ret_stmts(bind_params(vars, params), funcs, (Type::Null, false), body) {
        Err(x) => Err(x),
        Ok((_, ret)) => {
            let inferred = if ret.1 { ret.0 } else { Type::Null };
            Ok(if funcs.contains_key(name) { funcs.insert(name, (funcs[name].0, inferred)) } else { funcs })
        },
    }
}

/// The function table after declaring the functions of a program: the first
/// definition of a name gives its arity, with return type `Any` until its
/// body is checked.
pub open spec fn declare_functions(funcs: Map<Seq<char>, (nat, Type)>, ss: Seq<SStmt>) -> Map<Seq<char>, (nat, Type)>
    decreases ss.len(),
{
    if ss.len() == 0 {
        funcs
    } else {
        let f1 = match ss[0] {
            SStmt::Function(name, params, _) => if funcs.contains_key(name) { funcs } else { funcs.insert(name, (params.len(), Type::Any)) },
            _ => funcs,
        };
        declare_functions(f1, ss.drop_first())
    }
}

/// Checking the function definitions of a program in order.
pub open spec fn check_functions(vars: Map<Seq<char>, Type>, funcs: Map<Seq<char>, (nat, Type)>, ss: Seq<SStmt>) -> Result<Map<Seq<char>, (nat, Type)>, SSemanticError>
    decreases ss.len(),
{
    if ss.len() == 0 {
        Ok(funcs)
    } else {
        let f1 = match ss[0] {
            SStmt::Function(name, params, body) => spec_check_function(vars, funcs, name, params, body),
            _ => Ok(funcs),
        };
        match f1 {
            Err(x) => Err(x),
            Ok(f) => check_functions(vars, f, ss.drop_first()),
        }
    }
}

/// Checking the statements of a program that are not function definitions.
pub open spec fn check_main(vars: Map<Seq<char>, Type>, funcs: Map<Seq<char>, (nat, Type)>, ss: Seq<SStmt>) -> Result<Map<Seq<char>, Type>, SSemanticError>
    decreases ss.len(),
{
    if ss.len() == 0 {
        Ok(vars)
    } else {
        let v1 = if ss[0] is Function { Ok(vars) } else { spec_check_stmt(vars, funcs, ss[0]) };
        match v1 {
            Err(x) => Err(x),
            Ok(v) => check_main(v, funcs, ss.drop_first()),
        }
    }
}

/// Checking a program: the variable and function tables after it.
pub open spec fn spec_check_program(vars: Map<Seq<char>, Type>, funcs: Map<Seq<char>, (nat, Type)>, ss: Seq<SStmt>) -> Result<(Map<Seq<char>, Type>, Map<Seq<char>, (nat, Type)>), SSemanticError> {
    let f1 = declare_functions(funcs, ss);
    match check_functions(vars, f1, ss) {
        Err(x) => Err(x),
        Ok(f2) => match check_main(vars, f2, ss) {
            Err(x) => Err(x),
            Ok(v) => Ok((v, f2)),
        },
    }
}

/// The map an association list stands for: a later entry hides an earlier
/// one with the same key.
pub open spec fn table<V>(v: Seq<(Seq<char>, V)>) -> Map<Seq<char>, V>
    decreases v.len(),
{
    if v.len() == 0 {
        Map::empty()
    } else {
        table(v.drop_last()).insert(v.last().0, v.last().1)
    }
}

/// The entries of an association list whose key is not `k`.
pub open spec fn without<V>(v: Seq<(Seq<char>, V)>, k: Seq<char>) -> Seq<(Seq<char>, V)>
    decreases v.len(),
{
    if v.len() == 0 {
        v
    } else if v.last().0 == k {
        without(v.drop_last(), k)
    } else {
        without(v.drop_last(), k).push(v.last())
    }
}

pub proof fn lemma_table_push<V>(v: Seq<(Seq<char>, V)>, x: (Seq<char>, V))
    ensures
        table(v.push(x)) == table(v).insert(x.0, x.1),
{
    assert(v.push(x).drop_last() =~= v);
}

pub proof fn lemma_table_without<V>(v: Seq<(Seq<char>, V)>, k: Seq<char>)
    ensures
        table(without(v, k)) == table(v).remove(k),
    decreases v.len(),
{
    if v.len() == 0 {
        assert(table(v).remove(k) =~= Map::<Seq<char>, V>::empty());
    } else {
        lemma_table_without(v.drop_last(), k);
        if v.last().0 == k {
            assert(table(v).remove(k) =~= table(v.drop_last()).remove(k));
        } else {
            lemma_table_push(without(v.drop_last(), k), v.last());
            assert(table(v).remove(k) =~= table(v.drop_last()).remove(k).insert(v.last().0, v.last().1));
        }
    }
}

pub proof fn lemma_table_take<V>(v: Seq<(Seq<char>, V)>, i: int)
    requires
        0 < i <= v.len(),
    ensures
        table(v.take(i)) == table(v.take(i - 1)).insert(v[i - 1].0, v[i - 1].1),
{
    assert(v.take(i).drop_last() =~= v.take(i - 1));
}

/// The entries of the variable list as keys and types.
pub open spec fn var_entries(v: Seq<(String, Type)>) -> Seq<(Seq<char>, Type)> {
    Seq::new(v.len(), |i: int| (v[i].0@, v[i].1))
}

/// The entries of the function list as names, arities and return types.
pub open spec fn func_entries(v: Seq<(String, (usize, Type))>) -> Seq<(Seq<char>, (nat, Type))> {
    Seq::new(v.len(), |i: int| (v[i].0@, (v[i].1.0 as nat, v[i].1.1)))
}

/// Whether two characters sequences are a string and a literal with the same text.
pub fn eq_lit(s: &String, lit: &str) -> (r: bool)
    ensures
        r == (s@ == lit@),
{
    let cs = chars_of(s.as_str());
    chars_eq_str(&cs, lit)
}

/// The string with the characters of a literal.
fn owned(lit: &str) -> (r: String)
    ensures
        r@ == lit@,
{
    let cs = chars_of(lit);
    string_of(&cs)
}

/// The checker's state: the types of the variables in scope and the arity
/// and return type of each declared function.
pub struct Semantic {
    vars: Vec<(String, Type)>,
    functions: Vec<(String, (usize, Type))>,
}

/// How a result of type inference agrees with its specification.
pub open spec fn type_res(r: Result<Type, SemanticError>, s: Result<Type, SSemanticError>) -> bool {
    match s {
        Ok(t) => r == Ok::<Type, SemanticError>(t),
        Err(x) => r is Err && r->Err_0@ == x,
    }
}

impl Semantic {
    /// The types of the variables in scope.
    pub closed spec fn vars_view(&self) -> Map<Seq<char>, Type> {
        table(var_entries(self.vars@))
    }

    /// The arity and return type of each declared function.
    pub closed spec fn funcs_view(&self) -> Map<Seq<char>, (nat, Type)> {
        table(func_entries(self.functions@))
    }

    pub fn new() -> (r: Self)
        ensures
            r.vars_view() == Map::<Seq<char>, Type>::empty(),
            r.funcs_view() == Map::<Seq<char>, (nat, Type)>::empty(),
    {
        Semantic { vars: Vec::new(), functions: Vec::new() }
    }

    fn var_get(&self, k: &String) -> (r: Option<Type>)
        ensures
            match r {
                Some(t) => self.vars_view().contains_key(k@) && self.vars_view()[k@] == t,
                None => !self.vars_view().contains_key(k@),
            },
    {
        let ghost e = var_entries(self.vars@);
        assert(e.take(e.len() as int) =~= e);
        let mut i = self.vars.len();
        while i > 0
            invariant
                i <= self.vars.len(),
                e == var_entries(self.vars@),
                table(e.take(i as int)).contains_key(k@) == table(e).contains_key(k@),
                table(e.take(i as int)).contains_key(k@) ==> table(e.take(i as int))[k@] == table(e)[k@],
            decreases i,
        {
            proof { lemma_table_take(e, i as int); }
            if self.vars[i - 1].0 == *k {
                return Some(self.vars[i - 1].1);
            }
            i -= 1;
        }
        assert(e.take(0) =~= Seq::<(Seq<char>, Type)>::empty());
        None
    }

    fn var_set(&mut self, k: String, t: Type)
        ensures
            final(self).vars_view() == old(self).vars_view().insert(k@, t),
            final(self).funcs_view() == old(self).funcs_view(),
    {
        let ghost before = var_entries(self.vars@);
        let ghost kv = k@;
        self.vars.push((k, t));
        proof {
            assert(var_entries(self.vars@) =~= before.push((kv, t)));
            lemma_table_push(before, (kv, t));
        }
    }

    fn var_remove(&mut self, k: &String)
        ensures
            final(self).vars_view() == old(self).vars_view().remove(k@),
            final(self).funcs_view() == old(self).funcs_view(),
    {
        let ghost e = var_entries(self.vars@);
        let mut kept: Vec<(String, Type)> = Vec::new();
        let mut i: usize = 0;
        assert(without(e.take(0), k@) =~= var_entries(kept@));
        while i < self.vars.len()
            invariant
                i <= self.vars.len(),
                e == var_entries(self.vars@),
                var_entries(kept@) == without(e.take(i as int), k@),
            decreases self.vars.len() - i,
        {
            assert(e.take(i + 1).drop_last() =~= e.take(i as int));
            if self.vars[i].0 != *k {
                let name = self.vars[i].0.clone();
                let ghost before = kept@;
                kept.push((name, self.vars[i].1));
                assert(var_entries(kept@) =~= var_entries(before).push(e[i as int]));
            }
            i += 1;
        }
        assert(e.take(self.vars.len() as int) =~= e);
        proof { lemma_table_without(e, k@); }
        self.vars = kept;
    }

    fn func_get(&self, k: &String) -> (r: Option<(usize, Type)>)
        ensures
            match r {
                Some(f) => self.funcs_view().contains_key(k@) && self.funcs_view()[k@] == (f.0 as nat, f.1),
                None => !self.funcs_view().contains_key(k@),
            },
    {
        let ghost e = func_entries(self.functions@);
        assert(e.take(e.len() as int) =~= e);
        let mut i = self.functions.len();
        while i > 0
            invariant
                i <= self.functions.len(),
                e == func_entries(self.functions@),
                table(e.take(i as int)).contains_key(k@) == table(e).contains_key(k@),
                table(e.take(i as int)).contains_key(k@) ==> table(e.take(i as int))[k@] == table(e)[k@],
            decreases i,
        {
            proof { lemma_table_take(e, i as int); }
            if self.functions[i - 1].0 == *k {
                return Some(self.functions[i - 1].1);
            }
            i -= 1;
        }
        assert(e.take(0) =~= Seq::<(Seq<char>, (nat, Type))>::empty());
        None
    }

    fn func_set(&mut self, k: String, f: (usize, Type))
        ensures
            final(self).funcs_view() == old(self).funcs_view().insert(k@, (f.0 as nat, f.1)),
            final(self).vars_view() == old(self).vars_view(),
    {
        let ghost before = func_entries(self.functions@);
        let ghost kv = k@;
        self.functions.push((k, f));
        proof {
            assert(func_entries(self.functions@) =~= before.push((kv, (f.0 as nat, f.1))));
            lemma_table_push(before, (kv, (f.0 as nat, f.1)));
        }
    }
}

fn kinds1(a: Kind) -> (r: Vec<Kind>)
    ensures
        r@ == seq![a],
{
    let mut v = Vec::new();
    v.push(a);
    v
}

fn kinds2(a: Kind, b: Kind) -> (r: Vec<Kind>)
    ensures
        r@ == seq![a, b],
{
    let mut v = Vec::new();
    v.push(a);
    v.push(b);
    v
}

fn kinds3(a: Kind, b: Kind, c: Kind) -> (r: Vec<Kind>)
    ensures
        r@ == seq![a, b, c],
{
    let mut v = Vec::new();
    v.push(a);
    v.push(b);
    v.push(c);
    v
}

/// The signature of a built-in function.
pub fn signature(n: &String) -> (r: Option<(Vec<Kind>, Type)>)
    ensures
        match spec_signature(n@) {
            Some((ks, t)) => r matches Some((a, b)) && a@ == ks && b == t,
            None => r is None,
        },
{
    if eq_lit(n, "len") {
        Some((kinds1(Kind::Anything), Type::Number))
    } else if eq_lit(n, "to_text") {
        Some((kinds1(Kind::Anything), Type::Text))
    } else if eq_lit(n, "to_number") {
        Some((kinds1(Kind::TextLike), Type::Number))
    } else if eq_lit(n, "upper") || eq_lit(n, "lower") || eq_lit(n, "trim") {
        Some((kinds1(Kind::TextLike), Type::Text))
    } else if eq_lit(n, "contains") || eq_lit(n, "starts_with") || eq_lit(n, "ends_with") {
        Some((kinds2(Kind::TextLike, Kind::TextLike), Type::Boolean))
    } else if eq_lit(n, "replace") {
        Some((kinds3(Kind::TextLike, Kind::TextLike, Kind::TextLike), Type::Text))
    } else if eq_lit(n, "substring") {
        Some((kinds3(Kind::TextLike, Kind::NumberLike, Kind::NumberLike), Type::Text))
    } else if eq_lit(n, "char_at") {
        Some((kinds2(Kind::TextLike, Kind::NumberLike), Type::Text))
    } else if eq_lit(n, "split") {
        Some((kinds2(Kind::TextLike, Kind::TextLike), Type::List))
    } else if eq_lit(n, "join") {
        Some((kinds2(Kind::ListLike, Kind::TextLike), Type::Text))
    } else if eq_lit(n, "append") {
        Some((kinds2(Kind::ListLike, Kind::Anything), Type::List))
    } else if eq_lit(n, "backend") {
        Some((Vec::new(), Type::Text))
    } else if eq_lit(n, "dtype") || eq_lit(n, "device") {
        Some((kinds1(Kind::TensorLike), Type::Text))
    } else if eq_lit(n, "memory_bytes") {
        Some((kinds1(Kind::TensorLike), Type::Number))
    } else if eq_lit(n, "cast") {
        Some((kinds2(Kind::TensorLike, Kind::ExactText), Type::Tensor))
    } else if eq_lit(n, "tensor") || eq_lit(n, "parameter") {
        Some((kinds2(Kind::ExactList, Kind::ExactList), Type::Tensor))
    } else if eq_lit(n, "zeros") {
        Some((kinds1(Kind::ExactList), Type::Tensor))
    } else if eq_lit(n, "shape") {
        Some((kinds1(Kind::TensorLike), Type::List))
    } else if eq_lit(n, "range") {
        Some((kinds1(Kind::NumberLike), Type::List))
    } else if eq_lit(n, "matmul") || eq_lit(n, "grad") {
        Some((kinds2(Kind::TensorLike, Kind::TensorLike), Type::Tensor))
    } else if eq_lit(n, "sum") || eq_lit(n, "mean") {
        Some((kinds1(Kind::TensorLike), Type::Tensor))
    } else if eq_lit(n, "adam") || eq_lit(n, "step") {
        Some((kinds3(Kind::TensorLike, Kind::TensorLike, Kind::NumberLike), Type::Tensor))
    } else {
        None
    }
}

fn accepts(k: Kind, t: Type) -> (r: bool)
    ensures
        r == kind_accepts(k, t),
{
    match k {
        Kind::Anything => true,
        Kind::TextLike => t == Type::Text || t == Type::Any,
        Kind::NumberLike => t == Type::Number || t == Type::Any,
        Kind::ListLike => t == Type::List || t == Type::Any,
        Kind::TensorLike => t == Type::Tensor || t == Type::Any,
        Kind::ExactText => t == Type::Text,
        Kind::ExactList => t == Type::List,
    }
}

/// The type of a binary operation.
pub fn binary_type(op: Op, l: Type, r: Type) -> (res: Result<Type, SemanticError>)
    ensures
        type_res(res, spec_binary_type(op, l, r)),
{
    match op {
        Op::Eq | Op::Ne | Op::And | Op::Or => Ok(Type::Boolean),
        Op::Add => {
            if l == Type::Any || r == Type::Any {
                Ok(Type::Any)
            } else if l == Type::Number && r == Type::Number {
                Ok(Type::Number)
            } else if l == Type::Text || r == Type::Text {
                Ok(Type::Text)
            } else if l == Type::List && r == Type::List {
                Ok(Type::List)
            } else {
                Err(SemanticError::AddMismatch(l, r))
            }
        }
        Op::Sub | Op::Mul | Op::Div | Op::Mod => Semantic::numeric_result(l, r, "operação aritmética"),
        Op::Gt | Op::Ge | Op::Lt | Op::Le => {
            let s = Semantic::new();
            match s.expect_numeric(l, r, "comparação") {
                Ok(()) => Ok(Type::Boolean),
                Err(e) => Err(e),
            }
        }
    }
}

/// The type of an indexing.
pub fn index_type(target: Type, index: Type) -> (r: Result<Type, SemanticError>)
    ensures
        type_res(r, spec_index_type(target, index)),
{
    match target {
        Type::Any => Ok(Type::Any),
        Type::List => if index == Type::Number || index == Type::Any { Ok(Type::Any) } else { Err(SemanticError::ListIndex(index)) },
        Type::Object => if index == Type::Text || index == Type::Any { Ok(Type::Any) } else { Err(SemanticError::ObjectKey(index)) },
        Type::Tensor => if index == Type::Number || index == Type::Any { Ok(Type::Any) } else { Err(SemanticError::TensorIndex(index)) },
        _ => Err(SemanticError::NotIndexable(target)),
    }
}

impl Semantic {
    /// Merges the types seen at the place named by `label`.
    pub fn merge(a: Type, b: Type, label: &str) -> (r: Result<Type, SemanticError>)
        ensures
            type_res(r, spec_merge(a, b, label@)),
    {
        if a == b {
            Ok(a)
        } else if a == Type::Any || b == Type::Any {
            Ok(Type::Any)
        } else {
            Err(SemanticError::Mismatch(owned(label), a, b))
        }
    }

    /// The type of an arithmetic result, for the operation named by `label`.
    pub fn numeric_result(a: Type, b: Type, label: &str) -> (r: Result<Type, SemanticError>)
        ensures
            type_res(r, spec_numeric_result(a, b, label@)),
    {
        if a == Type::Number && b == Type::Number {
            Ok(Type::Number)
        } else if a == Type::Any || b == Type::Any {
            Ok(Type::Any)
        } else {
            Err(SemanticError::NotNumeric(owned(label), a, b))
        }
    }

    /// Whether both operands of the operation named by `label` can be numbers.
    pub fn expect_numeric(&self, a: Type, b: Type, label: &str) -> (r: Result<(), SemanticError>)
        ensures
            match spec_expect_numeric(a, b, label@) {
                Ok(()) => r is Ok,
                Err(x) => r is Err && r->Err_0@ == x,
            },
    {
        if (a == Type::Number || a == Type::Any) && (b == Type::Number || b == Type::Any) {
            Ok(())
        } else {
            Err(SemanticError::NotNumeric(owned(label), a, b))
        }
    }

    /// Accepts a condition of any type: every type has a truth value.
    pub fn expect_type(&self, actual: Type, allowed: &[Type], label: &str) -> (r: Result<(), SemanticError>)
        ensures
            r is Ok,
    {
        Ok(())
    }

    /// The type of a call of `name` on arguments of types `tys`.
    fn call_type(&self, name: &String, tys: &Vec<Type>) -> (r: Result<Type, SemanticError>)
        ensures
            type_res(r, spec_call_type(self.funcs_view(), name@, tys@)),
    {
        match signature(name) {
            Some((kinds, result)) => {
                if tys.len() != kinds.len() {
                    return Err(SemanticError::Arity(name.clone()));
                }
                let mut i: usize = 0;
                assert(kinds@.skip(0) =~= kinds@);
                assert(tys@.skip(0) =~= tys@);
                while i < kinds.len()
                    invariant
                        i <= kinds.len(),
                        kinds.len() == tys.len(),
                        spec_signature(name@) == Some((kinds@, result)),
                        first_rejected(kinds@, tys@) == first_rejected(kinds@.skip(i as int), tys@.skip(i as int)),
                    decreases kinds.len() - i,
                {
                    assert(kinds@.skip(i as int).drop_first() =~= kinds@.skip(i + 1));
                    assert(tys@.skip(i as int).drop_first() =~= tys@.skip(i + 1));
                    if !accepts(kinds[i], tys[i]) {
                        return Err(SemanticError::BuiltinArgument(name.clone(), tys[i]));
                    }
                    i += 1;
                }
                Ok(result)
            }
            None => match self.func_get(name) {
                Some((k, rt)) => if k != tys.len() {
                    Err(SemanticError::UserArity(name.clone(), k))
                } else {
                    Ok(rt)
                },
                None => Ok(Type::Any),
            },
        }
    }

    /// The type of an expression under the current tables.
    pub fn expr_type(&self, e: &Expr) -> (r: Result<Type, SemanticError>)
        ensures
            type_res(r, spec_expr_type(self.vars_view(), self.funcs_view(), e.sv())),
        decreases e,
    {
        match e {
            Expr::Value(v) => Ok(match v {
                Value::Number(_) => Type::Number,
                Value::Text(_) => Type::Text,
                Value::Boolean(_) => Type::Boolean,
                Value::Null => Type::Null,
            }),
            Expr::Var(name) => match self.var_get(name) {
                Some(t) => Ok(t),
                None => Err(SemanticError::UndefinedVariable(name.clone())),
            },
            Expr::List(items) => {
                proof { lemma_expr_views(*e); }
                match self.types(items) {
                    Ok(_) => Ok(Type::List),
                    Err(x) => Err(x),
                }
            }
            Expr::Object(fields) => {
                proof { lemma_expr_views(*e); }
                match self.field_types(fields) {
                    Ok(()) => Ok(Type::Object),
                    Err(x) => Err(x),
                }
            }
            Expr::Binary(a, op, b) => {
                let l = match self.expr_type(a) {
                    Ok(t) => t,
                    Err(x) => return Err(x),
                };
                let r = match self.expr_type(b) {
                    Ok(t) => t,
                    Err(x) => return Err(x),
                };
                binary_type(*op, l, r)
            }
            Expr::Field(target, _) => {
                let t = match self.expr_type(target) {
                    Ok(t) => t,
                    Err(x) => return Err(x),
                };
                if t == Type::Object || t == Type::Any {
                    Ok(Type::Any)
                } else {
                    Err(SemanticError::FieldRequiresObject(t))
                }
            }
            Expr::Index(target, index) => {
                let t = match self.expr_type(target) {
                    Ok(t) => t,
                    Err(x) => return Err(x),
                };
                let i = match self.expr_type(index) {
                    Ok(t) => t,
                    Err(x) => return Err(x),
                };
                index_type(t, i)
            }
            Expr::Call(name, args) => {
                proof { lemma_expr_views(*e); }
                let tys = match self.types(args) {
                    Ok(ts) => ts,
                    Err(x) => return Err(x),
                };
                self.call_type(name, &tys)
            }
        }
    }

    /// Whether the values of an object literal all have types.
    fn field_types(&self, fields: &Vec<(String, Expr)>) -> (r: Result<(), SemanticError>)
        ensures
            match spec_field_types(self.vars_view(), self.funcs_view(), fields_view(fields@)) {
                Ok(()) => r is Ok,
                Err(x) => r is Err && r->Err_0@ == x,
            },
        decreases fields,
    {
        let ghost fv = fields_view(fields@);
        let mut i: usize = 0;
        assert(fv.skip(0) =~= fv);
        while i < fields.len()
            invariant
                i <= fields.len(),
                fv == fields_view(fields@),
                spec_field_types(self.vars_view(), self.funcs_view(), fv) == spec_field_types(self.vars_view(), self.funcs_view(), fv.skip(i as int)),
            decreases fields.len() - i,
        {
            assert(fv.skip(i as int).drop_first() =~= fv.skip(i + 1));
            match self.expr_type(&fields[i].1) {
                Ok(_) => {}
                Err(x) => return Err(x),
            }
            i += 1;
        }
        assert(fv.skip(i as int) =~= Seq::<(Seq<char>, SExpr)>::empty());
        Ok(())
    }

    /// The types of expressions left to right.
    fn types(&self, es: &Vec<Expr>) -> (r: Result<Vec<Type>, SemanticError>)
        ensures
            match spec_types(self.vars_view(), self.funcs_view(), exprs_view(es@)) {
                Ok(ts) => r is Ok && r->Ok_0@ == ts,
                Err(x) => r is Err && r->Err_0@ == x,
            },
        decreases es,
    {
        let ghost ev = exprs_view(es@);
        let mut out: Vec<Type> = Vec::new();
        let mut i: usize = 0;
        assert(ev.skip(0) =~= ev);
        while i < es.len()
            invariant
                i <= es.len(),
                ev == exprs_view(es@),
                spec_types(self.vars_view(), self.funcs_view(), ev) == spec_types_from(self.vars_view(), self.funcs_view(), out@, ev.skip(i as int)),
            decreases es.len() - i,
        {
            assert(ev.skip(i as int).drop_first() =~= ev.skip(i + 1));
            let t = match self.expr_type(&es[i]) {
                Ok(t) => t,
                Err(x) => return Err(x),
            };
            out.push(t);
            i += 1;
        }
        assert(ev.skip(i as int) =~= Seq::<SExpr>::empty());
        Ok(out)
    }
}

/// The label of the merge of a variable's types.
fn variable_label_of(name: &String) -> (r: String)
    ensures
        r@ == variable_label(name@),
{
    let mut out: Vec<char> = Vec::new();
    push_str(&mut out, "variável '");
    let cs = chars_of(name.as_str());
    push_chars(&mut out, &cs);
    push_str(&mut out, "'");
    string_of(&out)
}

impl Semantic {
    /// Checks a statement outside a function body.
    pub fn check_stmt(&mut self, s: &Stmt) -> (r: Result<(), SemanticError>)
        ensures
            final(self).funcs_view() == old(self).funcs_view(),
            match spec_check_stmt(old(self).vars_view(), old(self).funcs_view(), s.sv()) {
                Ok(v) => r is Ok && final(self).vars_view() == v,
                Err(x) => r is Err && r->Err_0@ == x,
            },
        decreases s,
    {
        proof { lemma_stmt_views(*s); }
        match s {
            Stmt::Assign(name, e) => {
                let t = match self.expr_type(e) {
                    Ok(t) => t,
                    Err(x) => return Err(x),
                };
                match self.var_get(name) {
                    Some(prev) => {
                        let label = variable_label_of(name);
                        match Semantic::merge(prev, t, label.as_str()) {
                            Ok(m) => {
                                self.var_set(name.clone(), m);
                                Ok(())
                            }
                            Err(x) => Err(x),
                        }
                    }
                    None => {
                        self.var_set(name.clone(), t);
                        Ok(())
                    }
                }
            }
            Stmt::Print(e) | Stmt::Expr(e) | Stmt::Return(e) => match self.expr_type(e) {
                Ok(_) => Ok(()),
                Err(x) => Err(x),
            },
            Stmt::If(c, yes, no) => {
                match self.expr_type(c) {
                    Ok(_) => {}
                    Err(x) => return Err(x),
                }
                match self.check_stmts(yes) {
                    Ok(()) => {}
                    Err(x) => return Err(x),
                }
                self.check_stmts(no)
            }
            Stmt::While(c, body) => {
                match self.expr_type(c) {
                    Ok(_) => {}
                    Err(x) => return Err(x),
                }
                self.check_stmts(body)
            }
            Stmt::For(name, it, body) => {
                match self.expr_type(it) {
                    Ok(_) => {}
                    Err(x) => return Err(x),
                }
                let ghost before = self.vars_view();
                let previous = self.var_get(name);
                self.var_set(name.clone(), Type::Any);
                match self.check_stmts(body) {
                    Ok(()) => {}
                    Err(x) => return Err(x),
                }
                match previous {
                    Some(t) => self.var_set(name.clone(), t),
                    None => self.var_remove(name),
                }
                Ok(())
            }
            Stmt::Use(_) => Ok(()),
            Stmt::Function(_, _, _) => Ok(()),
        }
    }

    /// Checks statements in order outside a function body.
    fn check_stmts(&mut self, ss: &Vec<Stmt>) -> (r: Result<(), SemanticError>)
        ensures
            final(self).funcs_view() == old(self).funcs_view(),
            match spec_check_stmts(old(self).vars_view(), old(self).funcs_view(), stmts_view(ss@)) {
                Ok(v) => r is Ok && final(self).vars_view() == v,
                Err(x) => r is Err && r->Err_0@ == x,
            },
        decreases ss,
    {
        let ghost sv = stmts_view(ss@);
        let ghost v0 = self.vars_view();
        let ghost f0 = self.funcs_view();
        let mut i: usize = 0;
        assert(sv.skip(0) =~= sv);
        while i < ss.len()
            invariant
                i <= ss.len(),
                sv == stmts_view(ss@),
                f0 == self.funcs_view(),
                f0 == old(self).funcs_view(),
                v0 == old(self).vars_view(),
                spec_check_stmts(v0, f0, sv) == spec_check_stmts(self.vars_view(), f0, sv.skip(i as int)),
            decreases ss.len() - i,
        {
            assert(sv.skip(i as int).drop_first() =~= sv.skip(i + 1));
            match self.check_stmt(&ss[i]) {
                Ok(()) => {}
                Err(x) => return Err(x),
            }
            i += 1;
        }
        assert(sv.skip(i as int) =~= Seq::<SStmt>::empty());
        Ok(())
    }

    /// Checks a statement of a function body, updating the return type merged
    /// so far and whether a `return` was seen.
    fn check_stmt_with_return(&mut self, s: &Stmt, return_type: &mut Type, saw_return: &mut bool) -> (r: Result<(), SemanticError>)
        ensures
            final(self).funcs_view() == old(self).funcs_view(),
            match spec_check_ret(old(self).vars_view(), old(self).funcs_view(), (*old(return_type), *old(saw_return)), s.sv()) {
                Ok((v, ret)) => r is Ok && final(self).vars_view() == v && *final(return_type) == ret.0 && *final(saw_return) == ret.1,
                Err(x) => r is Err && r->Err_0@ == x,
            },
        decreases s,
    {
        proof { lemma_stmt_views(*s); }
        match s {
            Stmt::Return(e) => {
                let t = match self.expr_type(e) {
                    Ok(t) => t,
                    Err(x) => return Err(x),
                };
                if !*saw_return {
                    *return_type = t;
                    *saw_return = true;
                    Ok(())
                } else {
                    match Semantic::merge(*return_type, t, "retorno de função") {
                        Ok(m) => {
                            *return_type = m;
                            Ok(())
                        }
                        Err(x) => Err(x),
                    }
                }
            }
            Stmt::If(c, yes, no) => {
                let ct = match self.expr_type(c) {
                    Ok(t) => t,
                    Err(x) => return Err(x),
                };
                match self.check_ret_stmts(yes, return_type, saw_return) {
                    Ok(()) => {}
                    Err(x) => return Err(x),
                }
                self.check_ret_stmts(no, return_type, saw_return)
            }
            Stmt::While(c, body) => {
                match self.expr_type(c) {
                    Ok(_) => {}
                    Err(x) => return Err(x),
                }
                self.check_ret_stmts(body, return_type, saw_return)
            }
            Stmt::For(name, it, body) => {
                match self.expr_type(it) {
                    Ok(_) => {}
                    Err(x) => return Err(x),
                }
                let previous = self.var_get(name);
                self.var_set(name.clone(), Type::Any);
                match self.check_ret_stmts(body, return_type, saw_return) {
                    Ok(()) => {}
                    Err(x) => return Err(x),
                }
                match previous {
                    Some(t) => self.var_set(name.clone(), t),
                    None => self.var_remove(name),
                }
                Ok(())
            }
            _ => self.check_stmt(s),
        }
    }

    /// Checks statements of a function body in order.
    fn check_ret_stmts(&mut self, ss: &Vec<Stmt>, return_type: &mut Type, saw_return: &mut bool) -> (r: Result<(), SemanticError>)
        ensures
            final(self).funcs_view() == old(self).funcs_view(),
            match spec_check_ret_stmts(old(self).vars_view(), old(self).funcs_view(), (*old(return_type), *old(saw_return)), stmts_view(ss@)) {
                Ok((v, ret)) => r is Ok && final(self).vars_view() == v && *final(return_type) == ret.0 && *final(saw_return) == ret.1,
                Err(x) => r is Err && r->Err_0@ == x,
            },
        decreases ss,
    {
        let ghost sv = stmts_view(ss@);
        let ghost v0 = self.vars_view();
        let ghost f0 = self.funcs_view();
        let ghost r0 = (*return_type, *saw_return);
        let mut i: usize = 0;
        assert(sv.skip(0) =~= sv);
        while i < ss.len()
            invariant
                i <= ss.len(),
                sv == stmts_view(ss@),
                f0 == self.funcs_view(),
                f0 == old(self).funcs_view(),
                v0 == old(self).vars_view(),
                r0 == (*old(return_type), *old(saw_return)),
                spec_check_ret_stmts(v0, f0, r0, sv) == spec_check_ret_stmts(self.vars_view(), f0, (*return_type, *saw_return), sv.skip(i as int)),
            decreases ss.len() - i,
        {
            assert(sv.skip(i as int).drop_first() =~= sv.skip(i + 1));
            match self.check_stmt_with_return(&ss[i], return_type, saw_return) {
                Ok(()) => {}
                Err(x) => return Err(x),
            }
            i += 1;
        }
        assert(sv.skip(i as int) =~= Seq::<SStmt>::empty());
        Ok(())
    }

    fn copy_vars(&self) -> (r: Vec<(String, Type)>)
        ensures
            r@ == self.vars@,
    {
        let mut out: Vec<(String, Type)> = Vec::new();
        let mut i: usize = 0;
        while i < self.vars.len()
            invariant
                i <= self.vars.len(),
                out@ == self.vars@.take(i as int),
            decreases self.vars.len() - i,
        {
            let name = self.vars[i].0.clone();
            out.push((name, self.vars[i].1));
            assert(out@ =~= self.vars@.take(i + 1));
            i += 1;
        }
        assert(self.vars@.take(i as int) =~= self.vars@);
        out
    }

    /// Checks a function definition and records the return type inferred
    /// from its body; the variable table is the same afterwards.
    fn check_function(&mut self, name: &String, params: &Vec<String>, body: &Vec<Stmt>) -> (r: Result<(), SemanticError>)
        ensures
            match spec_check_function(old(self).vars_view(), old(self).funcs_view(), name@, strings_view(params@), stmts_view(body@)) {
                Ok(f) => r is Ok && final(self).funcs_view() == f && final(self).vars_view() == old(self).vars_view(),
                Err(x) => r is Err && r->Err_0@ == x,
            },
    {
        let saved = self.copy_vars();
        let ghost v0 = self.vars_view();
        let ghost pv = strings_view(params@);
        let mut i: usize = 0;
        assert(pv.skip(0) =~= pv);
        while i < params.len()
            invariant
                i <= params.len(),
                pv == strings_view(params@),
                self.funcs_view() == old(self).funcs_view(),
                bind_params(v0, pv) == bind_params(self.vars_view(), pv.skip(i as int)),
            decreases params.len() - i,
        {
            assert(pv.skip(i as int).drop_first() =~= pv.skip(i + 1));
            self.var_set(params[i].clone(), Type::Any);
            i += 1;
        }
        assert(pv.skip(i as int) =~= Seq::<Seq<char>>::empty());
        let mut return_type = Type::Null;
        let mut saw_return = false;
        match self.check_ret_stmts(body, &mut return_type, &mut saw_return) {
            Ok(()) => {}
            Err(x) => return Err(x),
        }
        let inferred = if saw_return { return_type } else { Type::Null };
        match self.func_get(name) {
            Some((k, _)) => self.func_set(name.clone(), (k, inferred)),
            None => {}
        }
        self.vars = saved;
        Ok(())
    }

    /// Checks a program: functions are declared first, then their bodies are
    /// checked in order, then the other statements.
    pub fn check(&mut self, program: &Vec<Stmt>) -> (r: Result<(), SemanticError>)
        ensures
            match spec_check_program(old(self).vars_view(), old(self).funcs_view(), stmts_view(program@)) {
                Ok((v, f)) => r is Ok && final(self).vars_view() == v && final(self).funcs_view() == f,
                Err(x) => r is Err && r->Err_0@ == x,
            },
    {
        let ghost sv = stmts_view(program@);
        let ghost v0 = self.vars_view();
        let ghost f0 = self.funcs_view();
        let mut i: usize = 0;
        assert(sv.skip(0) =~= sv);
        while i < program.len()
            invariant
                i <= program.len(),
                sv == stmts_view(program@),
                self.vars_view() == v0,
                declare_functions(f0, sv) == declare_functions(self.funcs_view(), sv.skip(i as int)),
            decreases program.len() - i,
        {
            assert(sv.skip(i as int).drop_first() =~= sv.skip(i + 1));
            proof { lemma_stmt_views(program@[i as int]); }
            match &program[i] {
                Stmt::Function(name, params, _) => {
                    if self.func_get(name).is_none() {
                        self.func_set(name.clone(), (params.len(), Type::Any));
                    }
                }
                _ => {}
            }
            i += 1;
        }
        assert(sv.skip(i as int) =~= Seq::<SStmt>::empty());
        let ghost f1 = self.funcs_view();
        i = 0;
        while i < program.len()
            invariant
                i <= program.len(),
                sv == stmts_view(program@),
                self.vars_view() == v0,
                v0 == old(self).vars_view(),
                f0 == old(self).funcs_view(),
                f1 == declare_functions(f0, sv),
                check_functions(v0, f1, sv) == check_functions(v0, self.funcs_view(), sv.skip(i as int)),
            decreases program.len() - i,
        {
            assert(sv.skip(i as int).drop_first() =~= sv.skip(i + 1));
            proof { lemma_stmt_views(program@[i as int]); }
            match &program[i] {
                Stmt::Function(name, params, body) => {
                    match self.check_function(name, params, body) {
                        Ok(()) => {}
                        Err(x) => return Err(x),
                    }
                }
                _ => {}
            }
            i += 1;
        }
        assert(sv.skip(i as int) =~= Seq::<SStmt>::empty());
        let ghost f2 = self.funcs_view();
        i = 0;
        while i < program.len()
            invariant
                i <= program.len(),
                sv == stmts_view(program@),
                self.funcs_view() == f2,
                v0 == old(self).vars_view(),
                f0 == old(self).funcs_view(),
                f1 == declare_functions(f0, sv),
                check_functions(v0, f1, sv) == Ok::<Map<Seq<char>, (nat, Type)>, SSemanticError>(f2),
                check_main(v0, f2, sv) == check_main(self.vars_view(), f2, sv.skip(i as int)),
            decreases program.len() - i,
        {
            assert(sv.skip(i as int).drop_first() =~= sv.skip(i + 1));
            proof { lemma_stmt_views(program@[i as int]); }
            let is_function = match &program[i] {
                Stmt::Function(_, _, _) => true,
                _ => false,
            };
            if !is_function {
                match self.check_stmt(&program[i]) {
                    Ok(()) => {}
                    Err(x) => return Err(x),
                }
            }
            i += 1;
        }
        assert(sv.skip(i as int) =~= Seq::<SStmt>::empty());
        Ok(())
    }
}

} // verus!
