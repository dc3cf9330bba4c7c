//! The intermediate representation: a stack machine code that the compiler
//! emits from statements, and the optimizer that folds constants in it.
use vstd::prelude::*;
use crate::syntax::{
    Expr, Op, SExpr, SStmt, SValue, Stmt, UnaryOp, Value, exprs_view, fields_view,
    lemma_expr_views, lemma_stmt_views, stmts_view, strings_view,
};

verus! {

/// One instruction of the stack machine. Jump targets are indexes into the
/// code the instruction belongs to.
#[derive(Debug)]
pub enum IrInst {
    Const(Value),
    Load(String),
    Store(String),
    Binary(Op),
    Unary(UnaryOp),
    FusedMulAdd,
    MakeList(usize),
    MakeObject(Vec<String>),
    Index,
    Field(String),
    Call(String, usize),
    Print,
    Pop,
    JumpIfFalse(usize),
    Jump(usize),
    IterInit,
    IterNext(String, usize),
    Return,
    Use(String),
    /// Stores into a list or object element (emitted by the self-hosted
    /// compiler).
    SetIndex,
    /// Stores into an object field (emitted by the self-hosted compiler).
    SetField(String),
    /// Calls a function value with the given number of arguments (emitted
    /// by the self-hosted compiler).
    CallValue(usize),
}

/// The mathematical view of an [`IrInst`].
pub enum SInst {
    Const(SValue),
    Load(Seq<char>),
    Store(Seq<char>),
    Binary(Op),
    Unary(UnaryOp),
    FusedMulAdd,
    MakeList(nat),
    MakeObject(Seq<Seq<char>>),
    Index,
    Field(Seq<char>),
    Call(Seq<char>, nat),
    Print,
    Pop,
    JumpIfFalse(nat),
    Jump(nat),
    IterInit,
    IterNext(Seq<char>, nat),
    Return,
    Use(Seq<char>),
    SetIndex,
    SetField(Seq<char>),
    CallValue(nat),
}

impl View for IrInst {
    type V = SInst;

    open spec fn view(&self) -> SInst {
        match self {
            IrInst::Const(v) => SInst::Const(v@),
            IrInst::Load(n) => SInst::Load(n@),
            IrInst::Store(n) => SInst::Store(n@),
            IrInst::Binary(op) => SInst::Binary(*op),
            IrInst::Unary(op) => SInst::Unary(*op),
            IrInst::FusedMulAdd => SInst::FusedMulAdd,
            IrInst::MakeList(k) => SInst::MakeList(*k as nat),
            IrInst::MakeObject(keys) => SInst::MakeObject(strings_view(keys@)),
            IrInst::Index => SInst::Index,
            IrInst::Field(n) => SInst::Field(n@),
            IrInst::Call(n, k) => SInst::Call(n@, *k as nat),
            IrInst::Print => SInst::Print,
            IrInst::Pop => SInst::Pop,
            IrInst::JumpIfFalse(t) => SInst::JumpIfFalse(*t as nat),
            IrInst::Jump(t) => SInst::Jump(*t as nat),
            IrInst::IterInit => SInst::IterInit,
            IrInst::IterNext(n, t) => SInst::IterNext(n@, *t as nat),
            IrInst::Return => SInst::Return,
            IrInst::Use(p) => SInst::Use(p@),
            IrInst::SetIndex => SInst::SetIndex,
            IrInst::SetField(n) => SInst::SetField(n@),
            IrInst::CallValue(k) => SInst::CallValue(*k as nat),
        }
    }
}

/// The views of a code sequence.
pub open spec fn code_view(c: Seq<IrInst>) -> Seq<SInst> {
    Seq::new(c.len(), |i: int| c[i]@)
}

/// The code of an expression placed at index `base`.
pub open spec fn expr_code(e: SExpr, base: int) -> Seq<SInst>
    decreases e, 0int,
{
    match e {
        SExpr::Value(v) => seq![SInst::Const(v)],
        SExpr::Var(n) => seq![SInst::Load(n)],
        SExpr::List(items) => items_code(items, base) + seq![SInst::MakeList(items.len())],
        SExpr::Object(fields) => fields_code(fields, base) + seq![SInst::MakeObject(fields.map_values(|f: (Seq<char>, SExpr)| f.0))],
        SExpr::Call(n, args) => items_code(args, base) + seq![SInst::Call(n, args.len())],
        SExpr::Index(t, i) => {
            let ct = expr_code(*t, base);
            ct + expr_code(*i, base + ct.len()) + seq![SInst::Index]
        },
        SExpr::Field(t, n) => expr_code(*t, base) + seq![SInst::Field(n)],
        SExpr::Binary(l, op, r) => match op {
            Op::Add => match *l {
                SExpr::Binary(a, Op::Mul, b) => {
                    let ca = expr_code(*a, base);
                    let cb = expr_code(*b, base + ca.len());
                    ca + cb + expr_code(*r, base + ca.len() + cb.len()) + seq![SInst::FusedMulAdd]
                },
                _ => match *r {
                    SExpr::Binary(a, Op::Mul, b) => {
                        let ca = expr_code(*a, base);
                        let cb = expr_code(*b, base + ca.len());
                        ca + cb + expr_code(*l, base + ca.len() + cb.len()) + seq![SInst::FusedMulAdd]
                    },
                    _ => {
                        let cl = expr_code(*l, base);
                        cl + expr_code(*r, base + cl.len()) + seq![SInst::Binary(Op::Add)]
                    },
                },
            },
            Op::And => {
                let cl = expr_code(*l, base);
                let cr = expr_code(*r, base + cl.len() + 1);
                let false_label = base + cl.len() + 1 + cr.len() + 3;
                cl + seq![SInst::JumpIfFalse(false_label as nat)] + cr + seq![
                    SInst::JumpIfFalse(false_label as nat),
                    SInst::Const(SValue::Boolean(true)),
                    SInst::Jump((false_label + 1) as nat),
                    SInst::Const(SValue::Boolean(false)),
                ]
            },
            Op::Or => {
                let cl = expr_code(*l, base);
                let right_start = base + cl.len() + 3;
                let cr = expr_code(*r, right_start);
                let false_label = right_start + cr.len() + 3;
                let end = false_label + 1;
                cl + seq![
                    SInst::JumpIfFalse(right_start as nat),
                    SInst::Const(SValue::Boolean(true)),
                    SInst::Jump(end as nat),
                ] + cr + seq![
                    SInst::JumpIfFalse(false_label as nat),
                    SInst::Const(SValue::Boolean(true)),
                    SInst::Jump(end as nat),
                    SInst::Const(SValue::Boolean(false)),
                ]
            },
            _ => {
                let cl = expr_code(*l, base);
                cl + expr_code(*r, base + cl.len()) + seq![SInst::Binary(op)]
            },
        },
    }
}

/// The code of expressions evaluated left to right, placed at `base`.
pub open spec fn items_code(es: Seq<SExpr>, base: int) -> Seq<SInst>
    decreases es, es.len(),
{
    if es.len() == 0 {
        Seq::empty()
    } else {
        let p = items_code(es.drop_last(), base);
        p + expr_code(es.last(), base + p.len())
    }
}

/// The code of the values of an object literal, placed at `base`.
pub open spec fn fields_code(fs: Seq<(Seq<char>, SExpr)>, base: int) -> Seq<SInst>
    decreases fs, fs.len(),
{
    if fs.len() == 0 {
        Seq::empty()
    } else {
        let p = fields_code(fs.drop_last(), base);
        p + expr_code(fs.last().1, base + p.len())
    }
}

/// The code of a statement placed at index `base`.
pub open spec fn stmt_code(s: SStmt, base: int) -> Seq<SInst>
    decreases s, 0int,
{
    match s {
        SStmt::Assign(n, e) => expr_code(e, base) + seq![SInst::Store(n)],
        SStmt::Print(e) => expr_code(e, base) + seq![SInst::Print],
        SStmt::Expr(e) => expr_code(e, base) + seq![SInst::Pop],
        SStmt::Return(e) => expr_code(e, base) + seq![SInst::Return],
        SStmt::Use(p) => seq![SInst::Use(p)],
        SStmt::Function(_, _, _) => Seq::empty(),
        SStmt::If(c, yes, no) => {
            let cc = expr_code(c, base);
            let cy = stmts_code(yes, base + cc.len() + 1);
            let else_start = base + cc.len() + 1 + cy.len() + 1;
            let cn = stmts_code(no, else_start);
            cc + seq![SInst::JumpIfFalse(else_start as nat)] + cy + seq![SInst::Jump((else_start + cn.len()) as nat)] + cn
        },
        SStmt::While(c, body) => {
            let cc = expr_code(c, base);
            let cb = stmts_code(body, base + cc.len() + 1);
            let end = base + cc.len() + 1 + cb.len() + 1;
            cc + seq![SInst::JumpIfFalse(end as nat)] + cb + seq![SInst::Jump(base as nat)]
        },
        SStmt::For(n, it, body) => {
            let ci = expr_code(it, base);
            let check = base + ci.len() + 1;
            let cb = stmts_code(body, check + 1);
            let end = check + 1 + cb.len() + 1;
            ci + seq![SInst::IterInit, SInst::IterNext(n, end as nat)] + cb + seq![SInst::Jump(check as nat)]
        },
    }
}

/// The code of statements in order, placed at `base`.
pub open spec fn stmts_code(ss: Seq<SStmt>, base: int) -> Seq<SInst>
    decreases ss, ss.len(),
{
    if ss.len() == 0 {
        Seq::empty()
    } else {
        let p = stmts_code(ss.drop_last(), base);
        p + stmt_code(ss.last(), base + p.len())
    }
}

pub proof fn lemma_code_push(c: Seq<IrInst>, x: IrInst)
    ensures
        code_view(c.push(x)) == code_view(c).push(x@),
{
    assert(code_view(c.push(x)) =~= code_view(c).push(x@));
}

pub proof fn lemma_code_set(c: Seq<IrInst>, i: int, x: IrInst)
    requires
        0 <= i < c.len(),
    ensures
        code_view(c.update(i, x)) == code_view(c).update(i, x@),
{
    assert(code_view(c.update(i, x)) =~= code_view(c).update(i, x@));
}

/// Appends an instruction.
fn emit(code: &mut Vec<IrInst>, x: IrInst)
    ensures
        code_view(final(code)@) == code_view(old(code)@).push(x@),
        final(code).len() == old(code).len() + 1,
{
    proof { lemma_code_push(code@, x); }
    code.push(x);
}

/// Replaces the instruction at `i`.
fn patch(code: &mut Vec<IrInst>, i: usize, x: IrInst)
    requires
        i < old(code).len(),
    ensures
        code_view(final(code)@) == code_view(old(code)@).update(i as int, x@),
        final(code).len() == old(code).len(),
{
    proof { lemma_code_set(code@, i as int, x); }
    code.set(i, x);
}

/// Compiles statements to stack machine code.
pub struct Compiler;

impl Compiler {
    pub fn new() -> Self {
        Compiler
    }

    /// Appends the code of an expression.
    pub fn compile_expr(&mut self, e: &Expr, code: &mut Vec<IrInst>) -> (r: Result<(), String>)
        ensures
            r is Ok,
            code_view(final(code)@) == code_view(old(code)@) + expr_code(e.sv(), old(code).len() as int),
            old(code).len() <= final(code).len(),
        decreases e, 1int,
    {
        let ghost c0 = code_view(code@);
        let ghost base = code.len() as int;
        match e {
            Expr::Value(v) => {
                emit(code, IrInst::Const(v.clone()));
            }
            Expr::Var(name) => {
                emit(code, IrInst::Load(name.clone()));
            }
            Expr::List(items) => {
                proof { lemma_expr_views(*e); }
                self.compile_items(items, code);
                emit(code, IrInst::MakeList(items.len()));
            }
            Expr::Object(fields) => {
                proof { lemma_expr_views(*e); }
                let keys = self.compile_fields(fields, code);
                emit(code, IrInst::MakeObject(keys));
            }
            Expr::Call(name, args) => {
                proof { lemma_expr_views(*e); }
                self.compile_items(args, code);
                emit(code, IrInst::Call(name.clone(), args.len()));
            }
            Expr::Index(t, i) => {
                self.compile_expr(t, code);
                self.compile_expr(i, code);
                emit(code, IrInst::Index);
            }
            Expr::Field(t, n) => {
                self.compile_expr(t, code);
                emit(code, IrInst::Field(n.clone()));
            }
            Expr::Binary(_, Op::Add, _) => {
                return self.compile_add(e, code);
            }
            Expr::Binary(_, Op::And, _) => {
                return self.compile_and(e, code);
            }
            Expr::Binary(_, Op::Or, _) => {
                return self.compile_or(e, code);
            }
            Expr::Binary(l, op, r) => {
                self.compile_expr(l, code);
                self.compile_expr(r, code);
                emit(code, IrInst::Binary(*op));
            }
        }
        Ok(())
    }

    /// Appends the code of `+`, fusing a product operand into a multiply-add.
    fn compile_add(&mut self, e: &Expr, code: &mut Vec<IrInst>) -> (r: Result<(), String>)
        requires
            e matches Expr::Binary(_, Op::Add, _),
        ensures
            r is Ok,
            code_view(final(code)@) == code_view(old(code)@) + expr_code(e.sv(), old(code).len() as int),
            old(code).len() <= final(code).len(),
        decreases e, 0int,
    {
        let ghost c0 = code_view(code@);
        let ghost base = code.len() as int;
        let (l, r) = match e {
            Expr::Binary(l, _, r) => (l, r),
            _ => return Ok(()),
        };
        match &**l {
            Expr::Binary(a, Op::Mul, b) => {
                self.compile_expr(a, code);
                self.compile_expr(b, code);
                self.compile_expr(r, code);
                emit(code, IrInst::FusedMulAdd);
                return Ok(());
            }
            _ => {}
        }
        match &**r {
            Expr::Binary(a, Op::Mul, b) => {
                self.compile_expr(a, code);
                self.compile_expr(b, code);
                self.compile_expr(l, code);
                emit(code, IrInst::FusedMulAdd);
                return Ok(());
            }
            _ => {}
        }
        self.compile_expr(l, code);
        self.compile_expr(r, code);
        emit(code, IrInst::Binary(Op::Add));
        Ok(())
    }

    /// Appends the code of `and`, which skips its right operand when the left one is false.
    fn compile_and(&mut self, e: &Expr, code: &mut Vec<IrInst>) -> (r: Result<(), String>)
        requires
            e matches Expr::Binary(_, Op::And, _),
        ensures
            r is Ok,
            code_view(final(code)@) == code_view(old(code)@) + expr_code(e.sv(), old(code).len() as int),
            old(code).len() <= final(code).len(),
        decreases e, 0int,
    {
        let ghost c0 = code_view(code@);
        let ghost base = code.len() as int;
        let (l, r) = match e {
            Expr::Binary(l, _, r) => (l, r),
            _ => return Ok(()),
        };
        self.compile_expr(l, code);
        let left_false = code.len();
        emit(code, IrInst::JumpIfFalse(usize::MAX));
        self.compile_expr(r, code);
        let right_false = code.len();
        emit(code, IrInst::JumpIfFalse(usize::MAX));
        emit(code, IrInst::Const(Value::Boolean(true)));
        let end_jump = code.len();
        emit(code, IrInst::Jump(usize::MAX));
        let false_label = code.len();
        patch(code, left_false, IrInst::JumpIfFalse(false_label));
        patch(code, right_false, IrInst::JumpIfFalse(false_label));
        emit(code, IrInst::Const(Value::Boolean(false)));
        let end = code.len();
        patch(code, end_jump, IrInst::Jump(end));
        let ghost cl = expr_code(l.sv(), base);
        let ghost cr = expr_code(r.sv(), base + cl.len() + 1);
        assert(code_view(code@) =~= c0 + (cl + seq![SInst::JumpIfFalse(false_label as nat)] + cr + seq![
            SInst::JumpIfFalse(false_label as nat),
            SInst::Const(SValue::Boolean(true)),
            SInst::Jump((false_label + 1) as nat),
            SInst::Const(SValue::Boolean(false)),
        ]));
        Ok(())
    }

    /// Appends the code of `or`, which skips its right operand when the left one is true.
    fn compile_or(&mut self, e: &Expr, code: &mut Vec<IrInst>) -> (r: Result<(), String>)
        requires
            e matches Expr::Binary(_, Op::Or, _),
        ensures
            r is Ok,
            code_view(final(code)@) == code_view(old(code)@) + expr_code(e.sv(), old(code).len() as int),
            old(code).len() <= final(code).len(),
        decreases e, 0int,
    {
        let ghost c0 = code_view(code@);
        let ghost base = code.len() as int;
        let (l, r) = match e {
            Expr::Binary(l, _, r) => (l, r),
            _ => return Ok(()),
        };
        self.compile_expr(l, code);
        let evaluate_right = code.len();
        emit(code, IrInst::JumpIfFalse(usize::MAX));
        emit(code, IrInst::Const(Value::Boolean(true)));
        let end_jump = code.len();
        emit(code, IrInst::Jump(usize::MAX));
        let right_start = code.len();
        patch(code, evaluate_right, IrInst::JumpIfFalse(right_start));
        self.compile_expr(r, code);
        let right_false = code.len();
        emit(code, IrInst::JumpIfFalse(usize::MAX));
        emit(code, IrInst::Const(Value::Boolean(true)));
        let right_end_jump = code.len();
        emit(code, IrInst::Jump(usize::MAX));
        let false_label = code.len();
        patch(code, right_false, IrInst::JumpIfFalse(false_label));
        emit(code, IrInst::Const(Value::Boolean(false)));
        let end = code.len();
        patch(code, end_jump, IrInst::Jump(end));
        patch(code, right_end_jump, IrInst::Jump(end));
        let ghost cl = expr_code(l.sv(), base);
        let ghost cr = expr_code(r.sv(), right_start as int);
        assert(code_view(code@) =~= c0 + (cl + seq![
            SInst::JumpIfFalse(right_start as nat),
            SInst::Const(SValue::Boolean(true)),
            SInst::Jump(end as nat),
        ] + cr + seq![
            SInst::JumpIfFalse(false_label as nat),
            SInst::Const(SValue::Boolean(true)),
            SInst::Jump(end as nat),
            SInst::Const(SValue::Boolean(false)),
        ]));
        Ok(())
    }

    /// Appends the code of expressions left to right.
    fn compile_items(&mut self, es: &Vec<Expr>, code: &mut Vec<IrInst>)
        ensures
            code_view(final(code)@) == code_view(old(code)@) + items_code(exprs_view(es@), old(code).len() as int),
        decreases es, 0int,
    {
        let ghost c0 = code_view(code@);
        let ghost base = code.len() as int;
        let ghost ev = exprs_view(es@);
        let mut i: usize = 0;
        assert(c0 + items_code(ev.take(0), base) =~= c0);
        while i < es.len()
            invariant
                i <= es.len(),
                ev == exprs_view(es@),
                c0 == code_view(old(code)@),
                base == old(code).len(),
                code_view(code@) == c0 + items_code(ev.take(i as int), base),
            decreases es.len() - i,
        {
            assert(ev.take(i + 1).drop_last() =~= ev.take(i as int));
            self.compile_expr(&es[i], code);
            assert(code_view(code@) =~= c0 + items_code(ev.take(i + 1), base));
            i += 1;
        }
        assert(ev.take(i as int) =~= ev);
    }

    /// Appends the code of the values of an object literal, giving its keys.
    fn compile_fields(&mut self, fs: &Vec<(String, Expr)>, code: &mut Vec<IrInst>) -> (keys: Vec<String>)
        ensures
            code_view(final(code)@) == code_view(old(code)@) + fields_code(fields_view(fs@), old(code).len() as int),
            strings_view(keys@) == fields_view(fs@).map_values(|f: (Seq<char>, SExpr)| f.0),
        decreases fs, 0int,
    {
        let ghost c0 = code_view(code@);
        let ghost base = code.len() as int;
        let ghost fv = fields_view(fs@);
        let mut keys: Vec<String> = Vec::new();
        let mut i: usize = 0;
        assert(c0 + fields_code(fv.take(0), base) =~= c0);
        while i < fs.len()
            invariant
                i <= fs.len(),
                fv == fields_view(fs@),
                c0 == code_view(old(code)@),
                base == old(code).len(),
                code_view(code@) == c0 + fields_code(fv.take(i as int), base),
                strings_view(keys@) == fv.take(i as int).map_values(|f: (Seq<char>, SExpr)| f.0),
            decreases fs.len() - i,
        {
            assert(fv.take(i + 1).drop_last() =~= fv.take(i as int));
            let ghost before = keys@;
            keys.push(fs[i].0.clone());
            assert(strings_view(keys@) =~= strings_view(before).push(fs@[i as int].0@));
            assert(strings_view(keys@) =~= fv.take(i + 1).map_values(|f: (Seq<char>, SExpr)| f.0));
            self.compile_expr(&fs[i].1, code);
            assert(code_view(code@) =~= c0 + fields_code(fv.take(i + 1), base));
            i += 1;
        }
        assert(fv.take(i as int) =~= fv);
        keys
    }
}

/// A compiled function: its parameter names and its code.
#[derive(Debug, Clone)]
pub struct IrFunction {
    pub params: Vec<String>,
    pub code: Vec<IrInst>,
}

/// A compiled program: the code of its top level and its functions in the
/// order they were defined; a later function of the same name hides an
/// earlier one.
#[derive(Debug)]
pub struct IrProgram {
    pub code: Vec<IrInst>,
    pub functions: Vec<(String, IrFunction)>,
}

/// The code of a function body: its statements, then `Const(Null)` and
/// `Return` unless the body already ends with `Return`.
pub open spec fn function_code(body: Seq<SStmt>) -> Seq<SInst> {
    let c = stmts_code(body, 0);
    if c.len() > 0 && c.last() == SInst::Return { c } else { c + seq![SInst::Const(SValue::Null), SInst::Return] }
}

/// The functions of a program in order: name, parameters, code.
pub open spec fn program_functions(ss: Seq<SStmt>) -> Seq<(Seq<char>, Seq<Seq<char>>, Seq<SInst>)>
    decreases ss.len(),
{
    if ss.len() == 0 {
        Seq::empty()
    } else {
        let p = program_functions(ss.drop_last());
        match ss.last() {
            SStmt::Function(n, params, body) => p.push((n, params, function_code(body))),
            _ => p,
        }
    }
}

/// The views of the functions of a compiled program.
pub open spec fn functions_view(fs: Seq<(String, IrFunction)>) -> Seq<(Seq<char>, Seq<Seq<char>>, Seq<SInst>)> {
    Seq::new(fs.len(), |i: int| (fs[i].0@, strings_view(fs[i].1.params@), code_view(fs[i].1.code@)))
}

fn copy_strings(v: &Vec<String>) -> (r: Vec<String>)
    ensures
        r@ == v@,
{
    let mut out: Vec<String> = Vec::new();
    let mut i: usize = 0;
    while i < v.len()
        invariant
            i <= v.len(),
            out@ == v@.take(i as int),
        decreases v.len() - i,
    {
        out.push(v[i].clone());
        assert(out@ =~= v@.take(i + 1));
        i += 1;
    }
    assert(v@.take(i as int) =~= v@);
    out
}

impl Compiler {
    /// Appends the code of a statement.
    pub fn compile_stmt(&mut self, s: &Stmt, code: &mut Vec<IrInst>) -> (r: Result<(), String>)
        ensures
            r is Ok,
            code_view(final(code)@) == code_view(old(code)@) + stmt_code(s.sv(), old(code).len() as int),
            old(code).len() <= final(code).len(),
        decreases s, 1int,
    {
        let ghost c0 = code_view(code@);
        let ghost base = code.len() as int;
        proof { lemma_stmt_views(*s); }
        match s {
            Stmt::Assign(name, e) => {
                self.compile_expr(e, code);
                emit(code, IrInst::Store(name.clone()));
            }
            Stmt::Print(e) => {
                self.compile_expr(e, code);
                emit(code, IrInst::Print);
            }
            Stmt::Expr(e) => {
                self.compile_expr(e, code);
                emit(code, IrInst::Pop);
            }
            Stmt::Return(e) => {
                self.compile_expr(e, code);
                emit(code, IrInst::Return);
            }
            Stmt::Use(p) => {
                emit(code, IrInst::Use(p.clone()));
            }
            Stmt::Function(_, _, _) => {
                assert(code_view(code@) =~= c0 + Seq::<SInst>::empty());
            }
            Stmt::If(c, yes, no) => {
                self.compile_expr(c, code);
                let jump_false = code.len();
                emit(code, IrInst::JumpIfFalse(usize::MAX));
                self.compile_block(yes, code);
                let jump_end = code.len();
                emit(code, IrInst::Jump(usize::MAX));
                let else_start = code.len();
                patch(code, jump_false, IrInst::JumpIfFalse(else_start));
                self.compile_block(no, code);
                let end = code.len();
                patch(code, jump_end, IrInst::Jump(end));
                let ghost cc = expr_code(c.sv(), base);
                let ghost cy = stmts_code(stmts_view(yes@), base + cc.len() + 1);
                let ghost cn = stmts_code(stmts_view(no@), else_start as int);
                assert(code_view(code@) =~= c0 + (cc + seq![SInst::JumpIfFalse(else_start as nat)] + cy + seq![SInst::Jump(end as nat)] + cn));
            }
            Stmt::While(c, body) => {
                let start = code.len();
                self.compile_expr(c, code);
                let exit = code.len();
                emit(code, IrInst::JumpIfFalse(usize::MAX));
                self.compile_block(body, code);
                emit(code, IrInst::Jump(start));
                let end = code.len();
                patch(code, exit, IrInst::JumpIfFalse(end));
                let ghost cc = expr_code(c.sv(), base);
                let ghost cb = stmts_code(stmts_view(body@), base + cc.len() + 1);
                assert(code_view(code@) =~= c0 + (cc + seq![SInst::JumpIfFalse(end as nat)] + cb + seq![SInst::Jump(start as nat)]));
            }
            Stmt::For(name, it, body) => {
                self.compile_expr(it, code);
                emit(code, IrInst::IterInit);
                let check = code.len();
                emit(code, IrInst::IterNext(name.clone(), usize::MAX));
                self.compile_block(body, code);
                emit(code, IrInst::Jump(check));
                let end = code.len();
                patch(code, check, IrInst::IterNext(name.clone(), end));
                let ghost ci = expr_code(it.sv(), base);
                let ghost cb = stmts_code(stmts_view(body@), check + 1);
                assert(code_view(code@) =~= c0 + (ci + seq![SInst::IterInit, SInst::IterNext(name@, end as nat)] + cb + seq![SInst::Jump(check as nat)]));
            }
        }
        Ok(())
    }

    /// Appends the code of statements in order.
    fn compile_block(&mut self, ss: &Vec<Stmt>, code: &mut Vec<IrInst>)
        ensures
            code_view(final(code)@) == code_view(old(code)@) + stmts_code(stmts_view(ss@), old(code).len() as int),
            old(code).len() <= final(code).len(),
        decreases ss, 0int,
    {
        let ghost c0 = code_view(code@);
        let ghost base = code.len() as int;
        let ghost sv = stmts_view(ss@);
        let mut i: usize = 0;
        assert(c0 + stmts_code(sv.take(0), base) =~= c0);
        while i < ss.len()
            invariant
                i <= ss.len(),
                sv == stmts_view(ss@),
                c0 == code_view(old(code)@),
                base == old(code).len(),
                old(code).len() <= code.len(),
                code_view(code@) == c0 + stmts_code(sv.take(i as int), base),
            decreases ss.len() - i,
        {
            assert(sv.take(i + 1).drop_last() =~= sv.take(i as int));
            self.compile_stmt(&ss[i], code);
            assert(code_view(code@) =~= c0 + stmts_code(sv.take(i + 1), base));
            i += 1;
        }
        assert(sv.take(i as int) =~= sv);
    }

    /// Compiles a program: each function body on its own, then the other
    /// statements as the top-level code.
    pub fn compile(&mut self, program: &Vec<Stmt>) -> (r: Result<IrProgram, String>)
        ensures
            r is Ok,
            code_view(r->Ok_0.code@) == stmts_code(stmts_view(program@), 0),
            functions_view(r->Ok_0.functions@) == program_functions(stmts_view(program@)),
    {
        let ghost sv = stmts_view(program@);
        let mut functions: Vec<(String, IrFunction)> = Vec::new();
        let mut i: usize = 0;
        assert(functions_view(functions@) =~= program_functions(sv.take(0)));
        while i < program.len()
            invariant
                i <= program.len(),
                sv == stmts_view(program@),
                functions_view(functions@) == program_functions(sv.take(i as int)),
            decreases program.len() - i,
        {
            assert(sv.take(i + 1).drop_last() =~= sv.take(i as int));
            proof { lemma_stmt_views(program@[i as int]); }
            match &program[i] {
                Stmt::Function(name, params, body) => {
                    let mut fcode: Vec<IrInst> = Vec::new();
                    assert(code_view(fcode@) =~= Seq::<SInst>::empty());
                    self.compile_block(body, &mut fcode);
                    assert(code_view(fcode@) =~= stmts_code(stmts_view(body@), 0));
                    let ends_with_return = fcode.len() > 0 && match &fcode[fcode.len() - 1] {
                        IrInst::Return => true,
                        _ => false,
                    };
                    let ghost c = code_view(fcode@);
                    proof {
                        if fcode.len() > 0 {
                            assert(c.last() == fcode@[fcode.len() - 1]@);
                        }
                    }
                    if !ends_with_return {
                        emit(&mut fcode, IrInst::Const(Value::Null));
                        emit(&mut fcode, IrInst::Return);
                        assert(code_view(fcode@) =~= c + seq![SInst::Const(SValue::Null), SInst::Return]);
                    }
                    assert(code_view(fcode@) == function_code(stmts_view(body@)));
                    let ghost before = functions@;
                    let f = IrFunction { params: copy_strings(params), code: fcode };
                    functions.push((name.clone(), f));
                    assert(functions_view(functions@) =~= functions_view(before).push((name@, strings_view(params@), function_code(stmts_view(body@)))));
                }
                _ => {}
            }
            i += 1;
        }
        assert(sv.take(i as int) =~= sv);
        let mut code: Vec<IrInst> = Vec::new();
        assert(code_view(code@) =~= Seq::<SInst>::empty());
        self.compile_block(program, &mut code);
        assert(code_view(code@) =~= stmts_code(sv, 0));
        Ok(IrProgram { code, functions })
    }
}

/// The jump target of an instruction, if it has one.
pub open spec fn jump_target(i: SInst) -> Option<nat> {
    match i {
        SInst::JumpIfFalse(t) => Some(t),
        SInst::Jump(t) => Some(t),
        SInst::IterNext(_, t) => Some(t),
        _ => None,
    }
}

/// Whether every jump target of `c` lies in `lo..=hi`.
pub open spec fn targets_in(c: Seq<SInst>, lo: int, hi: int) -> bool {
    forall|k: int| 0 <= k < c.len() ==> (#[trigger] jump_target(c[k]) matches Some(t) ==> lo <= t <= hi)
}

proof fn lemma_targets_join(a: Seq<SInst>, b: Seq<SInst>, lo: int, hi: int)
    requires
        targets_in(a, lo, hi),
        targets_in(b, lo, hi),
    ensures
        targets_in(a + b, lo, hi),
{
    assert forall|k: int| 0 <= k < (a + b).len() implies (#[trigger] jump_target((a + b)[k]) matches Some(t) ==> lo <= t <= hi) by {
        if k < a.len() {
            assert((a + b)[k] == a[k]);
        } else {
            assert((a + b)[k] == b[k - a.len()]);
        }
    }
}

proof fn lemma_targets_widen(a: Seq<SInst>, lo1: int, hi1: int, lo: int, hi: int)
    requires
        targets_in(a, lo1, hi1),
        lo <= lo1,
        hi1 <= hi,
    ensures
        targets_in(a, lo, hi),
{
}

proof fn lemma_targets_small(a: Seq<SInst>, lo: int, hi: int)
    requires
        forall|k: int| 0 <= k < a.len() ==> (#[trigger] jump_target(a[k]) matches Some(t) ==> lo <= t <= hi),
    ensures
        targets_in(a, lo, hi),
{
}

/// The jumps of the code of an expression stay inside that code or go to
/// the index just after it.
pub proof fn lemma_expr_targets(e: SExpr, base: int)
    requires
        base >= 0,
    ensures
        targets_in(expr_code(e, base), base, base + expr_code(e, base).len()),
    decreases e, 1int,
{
    let c = expr_code(e, base);
    let hi = base + c.len();
    match e {
        SExpr::Value(_) => {}
        SExpr::Var(_) => {}
        SExpr::List(items) => {
            lemma_items_targets(items, base);
            let p = items_code(items, base);
            lemma_targets_widen(p, base, base + p.len(), base, hi);
            lemma_targets_join(p, seq![SInst::MakeList(items.len())], base, hi);
        }
        SExpr::Call(n, args) => {
            lemma_items_targets(args, base);
            let p = items_code(args, base);
            lemma_targets_widen(p, base, base + p.len(), base, hi);
            lemma_targets_join(p, seq![SInst::Call(n, args.len())], base, hi);
        }
        SExpr::Object(fields) => {
            lemma_fields_targets(fields, base);
            let p = fields_code(fields, base);
            lemma_targets_widen(p, base, base + p.len(), base, hi);
            lemma_targets_join(p, seq![SInst::MakeObject(fields.map_values(|f: (Seq<char>, SExpr)| f.0))], base, hi);
        }
        SExpr::Index(t, i) => {
            let ct = expr_code(*t, base);
            let ci = expr_code(*i, base + ct.len());
            lemma_expr_targets(*t, base);
            lemma_expr_targets(*i, base + ct.len());
            lemma_targets_widen(ct, base, base + ct.len(), base, hi);
            lemma_targets_widen(ci, base + ct.len(), base + ct.len() + ci.len(), base, hi);
            lemma_targets_join(ct, ci, base, hi);
            lemma_targets_join(ct + ci, seq![SInst::Index], base, hi);
        }
        SExpr::Field(t, n) => {
            let ct = expr_code(*t, base);
            lemma_expr_targets(*t, base);
            lemma_targets_widen(ct, base, base + ct.len(), base, hi);
            lemma_targets_join(ct, seq![SInst::Field(n)], base, hi);
        }
        SExpr::Binary(l, op, r) => {
            lemma_binary_targets(e, base);
        }
    }
}

/// The jumps of the code of a binary expression stay inside it.
proof fn lemma_binary_targets(e: SExpr, base: int)
    requires
        base >= 0,
        e is Binary,
    ensures
        targets_in(expr_code(e, base), base, base + expr_code(e, base).len()),
    decreases e, 0int,
{
    let c = expr_code(e, base);
    let hi = base + c.len();
    if let SExpr::Binary(l, op, r) = e {
        let fma_left = match *l { SExpr::Binary(_, Op::Mul, _) => true, _ => false };
        let fma_right = match *r { SExpr::Binary(_, Op::Mul, _) => true, _ => false };
        if op == Op::Add && (fma_left || fma_right) {
            let (a, b, z) = if fma_left {
                match *l { SExpr::Binary(a, _, b) => (*a, *b, *r), _ => (*l, *l, *r) }
            } else {
                match *r { SExpr::Binary(a, _, b) => (*a, *b, *l), _ => (*r, *r, *l) }
            };
            let ca = expr_code(a, base);
            let cb = expr_code(b, base + ca.len());
            let cz = expr_code(z, base + ca.len() + cb.len());
            assert(c == ca + cb + cz + seq![SInst::FusedMulAdd]);
            lemma_expr_targets(a, base);
            lemma_expr_targets(b, base + ca.len());
            lemma_expr_targets(z, base + ca.len() + cb.len());
            lemma_targets_widen(ca, base, base + ca.len(), base, hi);
            lemma_targets_widen(cb, base + ca.len(), base + ca.len() + cb.len(), base, hi);
            lemma_targets_widen(cz, base + ca.len() + cb.len(), base + ca.len() + cb.len() + cz.len(), base, hi);
            lemma_targets_join(ca, cb, base, hi);
            lemma_targets_join(ca + cb, cz, base, hi);
            lemma_targets_join(ca + cb + cz, seq![SInst::FusedMulAdd], base, hi);
        } else if op == Op::And {
            let cl = expr_code(*l, base);
            let cr = expr_code(*r, base + cl.len() + 1);
            let fl = base + cl.len() + 1 + cr.len() + 3;
            let t1 = seq![SInst::JumpIfFalse(fl as nat)];
            let t2 = seq![
                SInst::JumpIfFalse(fl as nat),
                SInst::Const(SValue::Boolean(true)),
                SInst::Jump((fl + 1) as nat),
                SInst::Const(SValue::Boolean(false)),
            ];
            assert(c == cl + t1 + cr + t2);
            lemma_expr_targets(*l, base);
            lemma_expr_targets(*r, base + cl.len() + 1);
            lemma_targets_widen(cl, base, base + cl.len(), base, hi);
            lemma_targets_widen(cr, base + cl.len() + 1, base + cl.len() + 1 + cr.len(), base, hi);
            assert(targets_in(t1, base, hi));
            assert(targets_in(t2, base, hi));
            lemma_targets_join(cl, t1, base, hi);
            lemma_targets_join(cl + t1, cr, base, hi);
            lemma_targets_join(cl + t1 + cr, t2, base, hi);
        } else if op == Op::Or {
            let cl = expr_code(*l, base);
            let rs = base + cl.len() + 3;
            let cr = expr_code(*r, rs);
            let fl = rs + cr.len() + 3;
            let end = fl + 1;
            let t1 = seq![
                SInst::JumpIfFalse(rs as nat),
                SInst::Const(SValue::Boolean(true)),
                SInst::Jump(end as nat),
            ];
            let t2 = seq![
                SInst::JumpIfFalse(fl as nat),
                SInst::Const(SValue::Boolean(true)),
                SInst::Jump(end as nat),
                SInst::Const(SValue::Boolean(false)),
            ];
            assert(c == cl + t1 + cr + t2);
            lemma_expr_targets(*l, base);
            lemma_expr_targets(*r, rs);
            lemma_targets_widen(cl, base, base + cl.len(), base, hi);
            lemma_targets_widen(cr, rs, rs + cr.len(), base, hi);
            assert(targets_in(t1, base, hi));
            assert(targets_in(t2, base, hi));
            lemma_targets_join(cl, t1, base, hi);
            lemma_targets_join(cl + t1, cr, base, hi);
            lemma_targets_join(cl + t1 + cr, t2, base, hi);
        } else {
            let cl = expr_code(*l, base);
            let cr = expr_code(*r, base + cl.len());
            assert(c == cl + cr + seq![SInst::Binary(op)]);
            lemma_expr_targets(*l, base);
            lemma_expr_targets(*r, base + cl.len());
            lemma_targets_widen(cl, base, base + cl.len(), base, hi);
            lemma_targets_widen(cr, base + cl.len(), base + cl.len() + cr.len(), base, hi);
            lemma_targets_join(cl, cr, base, hi);
            lemma_targets_join(cl + cr, seq![SInst::Binary(op)], base, hi);
        }
    }
}

/// The jumps of the code of expressions evaluated in order stay inside it.
pub proof fn lemma_items_targets(es: Seq<SExpr>, base: int)
    requires
        base >= 0,
    ensures
        targets_in(items_code(es, base), base, base + items_code(es, base).len()),
    decreases es, 0int,
{
    if es.len() > 0 {
        let p = items_code(es.drop_last(), base);
        let c = expr_code(es.last(), base + p.len());
        lemma_items_targets(es.drop_last(), base);
        lemma_expr_targets(es.last(), base + p.len());
        let hi = base + p.len() + c.len();
        lemma_targets_widen(p, base, base + p.len(), base, hi);
        lemma_targets_widen(c, base + p.len(), hi, base, hi);
        lemma_targets_join(p, c, base, hi);
    }
}

/// The jumps of the code of the values of an object literal stay inside it.
pub proof fn lemma_fields_targets(fs: Seq<(Seq<char>, SExpr)>, base: int)
    requires
        base >= 0,
    ensures
        targets_in(fields_code(fs, base), base, base + fields_code(fs, base).len()),
    decreases fs, 0int,
{
    if fs.len() > 0 {
        let p = fields_code(fs.drop_last(), base);
        let c = expr_code(fs.last().1, base + p.len());
        lemma_fields_targets(fs.drop_last(), base);
        lemma_expr_targets(fs.last().1, base + p.len());
        let hi = base + p.len() + c.len();
        lemma_targets_widen(p, base, base + p.len(), base, hi);
        lemma_targets_widen(c, base + p.len(), hi, base, hi);
        lemma_targets_join(p, c, base, hi);
    }
}

/// The jumps of the code of a statement stay inside it or go just after it.
pub proof fn lemma_stmt_targets(st: SStmt, base: int)
    requires
        base >= 0,
    ensures
        targets_in(stmt_code(st, base), base, base + stmt_code(st, base).len()),
    decreases st, 1int,
{
    let c = stmt_code(st, base);
    let hi = base + c.len();
    match st {
        SStmt::Assign(n, e) => {
            lemma_expr_targets(e, base);
            lemma_targets_join(expr_code(e, base), seq![SInst::Store(n)], base, hi);
        }
        SStmt::Print(e) => {
            lemma_expr_targets(e, base);
            lemma_targets_join(expr_code(e, base), seq![SInst::Print], base, hi);
        }
        SStmt::Expr(e) => {
            lemma_expr_targets(e, base);
            lemma_targets_join(expr_code(e, base), seq![SInst::Pop], base, hi);
        }
        SStmt::Return(e) => {
            lemma_expr_targets(e, base);
            lemma_targets_join(expr_code(e, base), seq![SInst::Return], base, hi);
        }
        SStmt::Use(_) => {}
        SStmt::Function(_, _, _) => {}
        SStmt::If(cnd, yes, no) => {
            let cc = expr_code(cnd, base);
            let cy = stmts_code(yes, base + cc.len() + 1);
            let es = base + cc.len() + 1 + cy.len() + 1;
            let cn = stmts_code(no, es);
            let t1 = seq![SInst::JumpIfFalse(es as nat)];
            let t2 = seq![SInst::Jump((es + cn.len()) as nat)];
            assert(c == cc + t1 + cy + t2 + cn);
            lemma_expr_targets(cnd, base);
            lemma_stmts_targets(yes, base + cc.len() + 1);
            lemma_stmts_targets(no, es);
            lemma_targets_widen(cc, base, base + cc.len(), base, hi);
            lemma_targets_widen(cy, base + cc.len() + 1, base + cc.len() + 1 + cy.len(), base, hi);
            lemma_targets_widen(cn, es, es + cn.len(), base, hi);
            assert(targets_in(t1, base, hi));
            assert(targets_in(t2, base, hi));
            lemma_targets_join(cc, t1, base, hi);
            lemma_targets_join(cc + t1, cy, base, hi);
            lemma_targets_join(cc + t1 + cy, t2, base, hi);
            lemma_targets_join(cc + t1 + cy + t2, cn, base, hi);
        }
        SStmt::While(cnd, body) => {
            let cc = expr_code(cnd, base);
            let cb = stmts_code(body, base + cc.len() + 1);
            let end = base + cc.len() + 1 + cb.len() + 1;
            let t1 = seq![SInst::JumpIfFalse(end as nat)];
            let t2 = seq![SInst::Jump(base as nat)];
            assert(c == cc + t1 + cb + t2);
            lemma_expr_targets(cnd, base);
            lemma_stmts_targets(body, base + cc.len() + 1);
            lemma_targets_widen(cc, base, base + cc.len(), base, hi);
            lemma_targets_widen(cb, base + cc.len() + 1, base + cc.len() + 1 + cb.len(), base, hi);
            assert(targets_in(t1, base, hi));
            assert(targets_in(t2, base, hi));
            lemma_targets_join(cc, t1, base, hi);
            lemma_targets_join(cc + t1, cb, base, hi);
            lemma_targets_join(cc + t1 + cb, t2, base, hi);
        }
        SStmt::For(n, it, body) => {
            let ci = expr_code(it, base);
            let check = base + ci.len() + 1;
            let cb = stmts_code(body, check + 1);
            let end = check + 1 + cb.len() + 1;
            let t1 = seq![SInst::IterInit, SInst::IterNext(n, end as nat)];
            let t2 = seq![SInst::Jump(check as nat)];
            assert(c == ci + t1 + cb + t2);
            lemma_expr_targets(it, base);
            lemma_stmts_targets(body, check + 1);
            lemma_targets_widen(ci, base, base + ci.len(), base, hi);
            lemma_targets_widen(cb, check + 1, check + 1 + cb.len(), base, hi);
            assert(targets_in(t1, base, hi));
            assert(targets_in(t2, base, hi));
            lemma_targets_join(ci, t1, base, hi);
            lemma_targets_join(ci + t1, cb, base, hi);
            lemma_targets_join(ci + t1 + cb, t2, base, hi);
        }
    }
}

/// The jumps of the code of statements stay inside it or go just after it.
pub proof fn lemma_stmts_targets(ss: Seq<SStmt>, base: int)
    requires
        base >= 0,
    ensures
        targets_in(stmts_code(ss, base), base, base + stmts_code(ss, base).len()),
    decreases ss, 0int,
{
    if ss.len() > 0 {
        let p = stmts_code(ss.drop_last(), base);
        let c = stmt_code(ss.last(), base + p.len());
        lemma_stmts_targets(ss.drop_last(), base);
        lemma_stmt_targets(ss.last(), base + p.len());
        let hi = base + p.len() + c.len();
        lemma_targets_widen(p, base, base + p.len(), base, hi);
        lemma_targets_widen(c, base + p.len(), hi, base, hi);
        lemma_targets_join(p, c, base, hi);
    }
}

/// Every jump of a compiled program, in its top-level code and in each of
/// its functions, goes to an instruction of the same code or to its end.
pub proof fn lemma_program_targets(program: Seq<SStmt>)
    ensures
        targets_in(stmts_code(program, 0), 0, stmts_code(program, 0).len() as int),
        forall|i: int| 0 <= i < program_functions(program).len() ==>
            targets_in(#[trigger] program_functions(program)[i].2, 0, program_functions(program)[i].2.len() as int),
    decreases program.len(),
{
    lemma_stmts_targets(program, 0);
    if program.len() > 0 {
        lemma_program_targets(program.drop_last());
        if let SStmt::Function(n, params, body) = program.last() {
            let c = stmts_code(body, 0);
            lemma_stmts_targets(body, 0);
            if !(c.len() > 0 && c.last() == SInst::Return) {
                let tail = seq![SInst::Const(SValue::Null), SInst::Return];
                lemma_targets_widen(c, 0, c.len() as int, 0, c.len() as int + 2);
                lemma_targets_join(c, tail, 0, c.len() as int + 2);
            }
            let fc = function_code(body);
            assert(targets_in(fc, 0, fc.len() as int));
            let p = program_functions(program.drop_last());
            assert(program_functions(program) == p.push((n, params, fc)));
            assert forall|i: int| 0 <= i < program_functions(program).len() implies
                targets_in(#[trigger] program_functions(program)[i].2, 0, program_functions(program)[i].2.len() as int) by {
                if i < p.len() {
                    assert(program_functions(program)[i] == p[i]);
                }
            }
        } else {
            assert(program_functions(program) == program_functions(program.drop_last()));
        }
    }
}

impl Clone for IrInst {
    fn clone(&self) -> (r: Self)
        ensures
            r@ == self@,
    {
        match self {
            IrInst::Const(v) => IrInst::Const(v.clone()),
            IrInst::Load(n) => IrInst::Load(n.clone()),
            IrInst::Store(n) => IrInst::Store(n.clone()),
            IrInst::Binary(op) => IrInst::Binary(*op),
            IrInst::Unary(op) => IrInst::Unary(*op),
            IrInst::FusedMulAdd => IrInst::FusedMulAdd,
            IrInst::MakeList(k) => IrInst::MakeList(*k),
            IrInst::MakeObject(keys) => IrInst::MakeObject(copy_strings(keys)),
            IrInst::Index => IrInst::Index,
            IrInst::Field(n) => IrInst::Field(n.clone()),
            IrInst::Call(n, k) => IrInst::Call(n.clone(), *k),
            IrInst::Print => IrInst::Print,
            IrInst::Pop => IrInst::Pop,
            IrInst::JumpIfFalse(t) => IrInst::JumpIfFalse(*t),
            IrInst::Jump(t) => IrInst::Jump(*t),
            IrInst::IterInit => IrInst::IterInit,
            IrInst::IterNext(n, t) => IrInst::IterNext(n.clone(), *t),
            IrInst::Return => IrInst::Return,
            IrInst::Use(p) => IrInst::Use(p.clone()),
            IrInst::SetIndex => IrInst::SetIndex,
            IrInst::SetField(n) => IrInst::SetField(n.clone()),
            IrInst::CallValue(k) => IrInst::CallValue(*k),
        }
    }
}

/// The view of an optional value.
pub open spec fn opt_value(r: Option<Value>) -> Option<SValue> {
    match r {
        Some(v) => Some(v@),
        None => None,
    }
}

/// Whether the folding function `fold` computes the spec function `f`: what
/// it returns for two constants and an operator is what `f` gives for their
/// views.
pub open spec fn folds_as<F: Fn(&Value, Op, &Value) -> Option<Value>>(fold: F, f: spec_fn(SValue, Op, SValue) -> Option<SValue>) -> bool {
    forall|a: Value, op: Op, b: Value, r: Option<Value>|
        #[trigger] fold.ensures((&a, op, &b), r) ==> opt_value(r) == f(a@, op, b@)
}

/// Whether some instruction among the first `m` of `c` jumps to index `t`.
pub open spec fn targeted_by(c: Seq<SInst>, m: int, t: int) -> bool {
    exists|j: int| 0 <= j < m && #[trigger] jump_target(c[j]) == Some(t as nat)
}

/// Whether some instruction of `c` jumps to index `t`.
pub open spec fn targeted(c: Seq<SInst>, t: int) -> bool {
    targeted_by(c, c.len() as int, t)
}

/// One step of constant folding: instruction `inst` at index `k` of the
/// input, given the output so far, the map from input to output indexes and,
/// for each output instruction, whether a jump lands on it (`landing` says
/// whether one lands on `inst`). A binary operator after two constants that
/// `f` folds replaces them with one constant, and the indexes of all three
/// map to it; it is not folded when a jump lands on either constant or on
/// the operator, since the code reached by that jump would change.
pub open spec fn fold_step(state: (Seq<SInst>, Seq<nat>, Seq<bool>), k: int, inst: SInst, landing: bool, f: spec_fn(SValue, Op, SValue) -> Option<SValue>) -> (Seq<SInst>, Seq<nat>, Seq<bool>) {
    let out = state.0;
    let map = state.1;
    let marks = state.2;
    let n = out.len();
    let folded = match inst {
        SInst::Binary(op) => if n >= 2 && !landing && !marks[n - 2] && !marks[n - 1] {
            match (out[n - 2], out[n - 1]) {
                (SInst::Const(a), SInst::Const(b)) => f(a, op, b),
                _ => None,
            }
        } else {
            None
        },
        _ => None,
    };
    match folded {
        Some(v) => {
            let ni = (n - 2) as nat;
            let k2 = if k >= 2 { k - 2 } else { 0 };
            let k1 = if k >= 1 { k - 1 } else { 0 };
            (out.take(n - 2).push(SInst::Const(v)), map.update(k2, ni).update(k1, ni).update(k, ni), marks.take(n - 2).push(false))
        },
        None => (out.push(inst), map.update(k, n), marks.push(landing)),
    }
}

/// The output, index map and landing marks after folding the first `i`
/// instructions.
pub open spec fn fold_pass(code: Seq<SInst>, i: int, f: spec_fn(SValue, Op, SValue) -> Option<SValue>) -> (Seq<SInst>, Seq<nat>, Seq<bool>)
    decreases i,
{
    if i <= 0 {
        (Seq::empty(), Seq::new((code.len() + 1) as nat, |j: int| 0nat), Seq::empty())
    } else {
        fold_step(fold_pass(code, i - 1, f), i - 1, code[i - 1], targeted(code, i - 1), f)
    }
}

/// An instruction with its jump target moved by the index map; a target
/// past the map goes to the end of the output.
pub open spec fn remap(inst: SInst, map: Seq<nat>, end: nat) -> SInst {
    let m = |t: nat| if t < map.len() { map[t as int] } else { end };
    match inst {
        SInst::JumpIfFalse(t) => SInst::JumpIfFalse(m(t)),
        SInst::Jump(t) => SInst::Jump(m(t)),
        SInst::IterNext(n, t) => SInst::IterNext(n, m(t)),
        _ => inst,
    }
}

/// Constant folding of a code sequence with folding function `f`, never
/// across a jump target, jump targets moved to where their instructions
/// went.
pub open spec fn spec_optimize(code: Seq<SInst>, f: spec_fn(SValue, Op, SValue) -> Option<SValue>) -> Seq<SInst> {
    let (out, map, _) = fold_pass(code, code.len() as int, f);
    let map2 = map.update(code.len() as int, out.len());
    out.map_values(|inst: SInst| remap(inst, map2, out.len()))
}

/// The index map as natural numbers.
pub open spec fn nat_view(m: Seq<usize>) -> Seq<nat> {
    Seq::new(m.len(), |i: int| m[i] as nat)
}

/// An instruction with its jump target moved by `map`.
fn remap_inst(inst: &IrInst, map: &Vec<usize>, end: usize) -> (r: IrInst)
    ensures
        r@ == remap(inst@, nat_view(map@), end as nat),
{
    match inst {
        IrInst::JumpIfFalse(t) => IrInst::JumpIfFalse(if *t < map.len() { map[*t] } else { end }),
        IrInst::Jump(t) => IrInst::Jump(if *t < map.len() { map[*t] } else { end }),
        IrInst::IterNext(n, t) => IrInst::IterNext(n.clone(), if *t < map.len() { map[*t] } else { end }),
        _ => inst.clone(),
    }
}

/// For each index up to the end of `code`, whether an instruction jumps
/// there.
fn jump_targets(code: &Vec<IrInst>) -> (r: Vec<bool>)
    requires
        code.len() < usize::MAX,
    ensures
        r.len() == code.len() + 1,
        forall|t: int| 0 <= t <= code.len() ==> r@[t] == #[trigger] targeted(code_view(code@), t),
{
    let ghost cv = code_view(code@);
    let mut r: Vec<bool> = Vec::new();
    let mut t: usize = 0;
    while t <= code.len()
        invariant
            t <= code.len() + 1,
            code.len() < usize::MAX,
            r.len() == t,
            forall|i: int| 0 <= i < t ==> !r@[i],
        decreases code.len() + 1 - t,
    {
        r.push(false);
        t += 1;
    }
    let mut j: usize = 0;
    while j < code.len()
        invariant
            j <= code.len(),
            cv == code_view(code@),
            r.len() == code.len() + 1,
            forall|t: int| 0 <= t <= code.len() ==> r@[t] == #[trigger] targeted_by(cv, j as int, t),
        decreases code.len() - j,
    {
        let target = match &code[j] {
            IrInst::JumpIfFalse(t) => Some(*t),
            IrInst::Jump(t) => Some(*t),
            IrInst::IterNext(_, t) => Some(*t),
            _ => None,
        };
        assert(code@[j as int]@ == cv[j as int]);
        let ghost before = r@;
        match target {
            Some(t) => {
                if t <= code.len() {
                    r.set(t, true);
                }
            }
            None => {}
        }
        assert forall|u: int| 0 <= u <= code.len() implies r@[u] == #[trigger] targeted_by(cv, j + 1, u) by {
            if targeted_by(cv, j + 1, u) && !targeted_by(cv, j as int, u) {
                let w = choose|w: int| 0 <= w < j + 1 && #[trigger] jump_target(cv[w]) == Some(u as nat);
                assert(w == j);
            }
            if targeted_by(cv, j as int, u) {
                let w = choose|w: int| 0 <= w < j && #[trigger] jump_target(cv[w]) == Some(u as nat);
                assert(0 <= w < j + 1 && jump_target(cv[w]) == Some(u as nat));
            }
            if target == Some(u as usize) {
                assert(jump_target(cv[j as int]) == Some(u as nat));
            }
        }
        j += 1;
    }
    r
}

/// Folds constant operations in IR code.
pub struct Optimizer;

impl Optimizer {
    pub fn new() -> Self {
        Optimizer
    }

    /// Folds each binary operation on two constants that `fold` evaluates,
    /// and moves the jump targets to where their instructions went.
    pub fn optimize_code<F: Fn(&Value, Op, &Value) -> Option<Value>>(&self, code: Vec<IrInst>, fold: F) -> (r: Vec<IrInst>)
        requires
            code.len() < usize::MAX,
            forall|a: Value, op: Op, b: Value| #[trigger] fold.requires((&a, op, &b)),
        ensures
            forall|f: spec_fn(SValue, Op, SValue) -> Option<SValue>|
                #[trigger] folds_as(fold, f) ==> code_view(r@) == spec_optimize(code_view(code@), f),
    {
        let ghost cv = code_view(code@);
        let original_len = code.len();
        let mut out: Vec<IrInst> = Vec::new();
        let mut map: Vec<usize> = Vec::new();
        let mut j: usize = 0;
        while j <= original_len
            invariant
                j <= original_len + 1,
                original_len < usize::MAX,
                map.len() == j,
                forall|i: int| 0 <= i < j ==> map@[i] == 0,
            decreases original_len + 1 - j,
        {
            map.push(0);
            j += 1;
        }
        assert(nat_view(map@) =~= Seq::new((cv.len() + 1) as nat, |i: int| 0nat));
        let targets = jump_targets(&code);
        let mut marks: Vec<bool> = Vec::new();
        let mut k: usize = 0;
        while k < original_len
            invariant
                k <= original_len,
                original_len == code.len(),
                cv == code_view(code@),
                map.len() == original_len + 1,
                out.len() <= k,
                marks.len() == out.len(),
                targets.len() == original_len + 1,
                forall|t: int| 0 <= t <= original_len ==> targets@[t] == #[trigger] targeted(cv, t),
                forall|i: int| 0 <= i < map.len() ==> map@[i] <= k,
                forall|a: Value, op: Op, b: Value| #[trigger] fold.requires((&a, op, &b)),
                forall|f: spec_fn(SValue, Op, SValue) -> Option<SValue>|
                    #[trigger] folds_as(fold, f) ==> fold_pass(cv, k as int, f) == (code_view(out@), nat_view(map@), marks@),
            decreases original_len - k,
        {
            let ghost old_out = code_view(out@);
            let ghost old_map = nat_view(map@);
            let ghost old_marks = marks@;
            let inst = code[k].clone();
            assert(inst@ == cv[k as int]);
            let n = out.len();
            let landing = targets[k];
            let mut folded = false;
            let mut folded_with: Option<(Value, Op, Value, Value)> = None;
            match &inst {
                IrInst::Binary(op) => {
                    if n >= 2 && !landing && !marks[n - 2] && !marks[n - 1] {
                        let pair = match (&out[n - 2], &out[n - 1]) {
                            (IrInst::Const(a), IrInst::Const(b)) => Some((a.clone(), b.clone())),
                            _ => None,
                        };
                        match pair {
                            Some((a, b)) => {
                                let r = fold(&a, *op, &b);
                                match r {
                                    Some(v) => {
                                        folded_with = Some((a, *op, b, v));
                                    }
                                    None => {
                                        proof {
                                            assert forall|f: spec_fn(SValue, Op, SValue) -> Option<SValue>|
                                                #[trigger] folds_as(fold, f) implies f(a@, *op, b@) is None by {
                                                assert(fold.ensures((&a, *op, &b), r));
                                            }
                                        }
                                    }
                                }
                            }
                            None => {}
                        }
                    }
                }
                _ => {}
            }
            match folded_with {
                Some((a, op, b, v)) => {
                    let ghost vv = v@;
                    out.truncate(n - 2);
                    out.push(IrInst::Const(v));
                    let k2 = if k >= 2 { k - 2 } else { 0 };
                    let k1 = if k >= 1 { k - 1 } else { 0 };
                    map.set(k2, n - 2);
                    map.set(k1, n - 2);
                    map.set(k, n - 2);
                    marks.truncate(n - 2);
                    marks.push(false);
                    folded = true;
                    assert(marks@ =~= old_marks.take(n - 2).push(false));
                    assert(code_view(out@) =~= old_out.take(n - 2).push(SInst::Const(vv)));
                    assert(nat_view(map@) =~= old_map.update(k2 as int, (n - 2) as nat).update(k1 as int, (n - 2) as nat).update(k as int, (n - 2) as nat));
                }
                None => {}
            }
            if !folded {
                map.set(k, out.len());
                marks.push(landing);
                let ghost iv = inst@;
                out.push(inst);
                assert(code_view(out@) =~= old_out.push(iv));
                assert(nat_view(map@) =~= old_map.update(k as int, n as nat));
            }
            assert forall|f: spec_fn(SValue, Op, SValue) -> Option<SValue>|
                #[trigger] folds_as(fold, f) implies fold_pass(cv, k + 1, f) == (code_view(out@), nat_view(map@), marks@) by {
                assert(fold_pass(cv, k + 1, f) == fold_step(fold_pass(cv, k as int, f), k as int, cv[k as int], targeted(cv, k as int), f));
            }
            k += 1;
        }
        let output_len = out.len();
        map.set(original_len, output_len);
        let mut result: Vec<IrInst> = Vec::new();
        let mut i: usize = 0;
        while i < out.len()
            invariant
                i <= out.len(),
                output_len == out.len(),
                code_view(result@) == code_view(out@).take(i as int).map_values(|inst: SInst| remap(inst, nat_view(map@), output_len as nat)),
            decreases out.len() - i,
        {
            let x = remap_inst(&out[i], &map, output_len);
            assert(code_view(out@)[i as int] == out@[i as int]@);
            emit(&mut result, x);
            assert(code_view(result@) =~= code_view(out@).take(i + 1).map_values(|inst: SInst| remap(inst, nat_view(map@), output_len as nat)));
            i += 1;
        }
        assert(code_view(out@).take(i as int) =~= code_view(out@));
        result
    }
}

impl Optimizer {
    /// Folds constants in the top-level code and in each function.
    pub fn optimize_program<F: Fn(&Value, Op, &Value) -> Option<Value> + Copy>(&mut self, program: IrProgram, fold: F) -> (r: IrProgram)
        requires
            program.code.len() < usize::MAX,
            forall|i: int| 0 <= i < program.functions.len() ==> #[trigger] program.functions@[i].1.code.len() < usize::MAX,
            forall|a: Value, op: Op, b: Value| #[trigger] fold.requires((&a, op, &b)),
        ensures
            r.functions.len() == program.functions.len(),
            forall|i: int| 0 <= i < r.functions.len() ==> {
                &&& (#[trigger] r.functions@[i]).0@ == program.functions@[i].0@
                &&& r.functions@[i].1.params@ == program.functions@[i].1.params@
            },
            forall|f: spec_fn(SValue, Op, SValue) -> Option<SValue>| #[trigger] folds_as(fold, f) ==> {
                &&& code_view(r.code@) == spec_optimize(code_view(program.code@), f)
                &&& forall|i: int| 0 <= i < r.functions.len() ==>
                    code_view((#[trigger] r.functions@[i]).1.code@) == spec_optimize(code_view(program.functions@[i].1.code@), f)
            },
    {
        let IrProgram { code, functions } = program;
        let code = self.optimize_code(code, fold);
        let mut out: Vec<(String, IrFunction)> = Vec::new();
        let mut rest = functions;
        let ghost fs = rest@;
        let mut i: usize = 0;
        let n = rest.len();
        while i < n
            invariant
                n == fs.len(),
                i <= n,
                rest@.len() == n,
                forall|j: int| i <= j < n ==> #[trigger] rest@[j] == fs[j],
                forall|j: int| 0 <= j < n ==> #[trigger] fs[j].1.code.len() < usize::MAX,
                forall|a: Value, op: Op, b: Value| #[trigger] fold.requires((&a, op, &b)),
                out.len() == i,
                forall|j: int| 0 <= j < i ==> {
                    &&& (#[trigger] out@[j]).0@ == fs[j].0@
                    &&& out@[j].1.params@ == fs[j].1.params@
                },
                forall|f: spec_fn(SValue, Op, SValue) -> Option<SValue>| #[trigger] folds_as(fold, f) ==>
                    forall|j: int| 0 <= j < i ==>
                        code_view((#[trigger] out@[j]).1.code@) == spec_optimize(code_view(fs[j].1.code@), f),
            decreases n - i,
        {
            let mut entry = (String::new(), IrFunction { params: Vec::new(), code: Vec::new() });
            rest.set_and_swap(i, &mut entry);
            let (name, func) = entry;
            let IrFunction { params, code: fcode } = func;
            let optimized = self.optimize_code(fcode, fold);
            out.push((name, IrFunction { params, code: optimized }));
            i += 1;
        }
        IrProgram { code, functions: out }
    }
}

/// Folding keeps the order of the operands: a binary operator applied to two
/// constants, with no jump in the code, becomes the one constant the folder
/// gives for the left constant, the operator and the right constant, in that
/// order; when the folder gives nothing, the code stays as it is.
pub proof fn law_fold_keeps_operand_order(a: SValue, b: SValue, op: Op, f: spec_fn(SValue, Op, SValue) -> Option<SValue>)
    ensures
        f(a, op, b) matches Some(v) ==> spec_optimize(seq![SInst::Const(a), SInst::Const(b), SInst::Binary(op)], f) == seq![SInst::Const(v)],
        f(a, op, b) is None ==> spec_optimize(seq![SInst::Const(a), SInst::Const(b), SInst::Binary(op)], f)
            == seq![SInst::Const(a), SInst::Const(b), SInst::Binary(op)],
{
    let code = seq![SInst::Const(a), SInst::Const(b), SInst::Binary(op)];
    assert forall|t: int| !#[trigger] targeted(code, t) by {
        if targeted(code, t) {
            let j = choose|j: int| 0 <= j < code.len() as int && #[trigger] jump_target(code[j]) == Some(t as nat);
            assert(jump_target(code[j]) is None);
        }
    }
    let s0 = fold_pass(code, 0, f);
    assert(s0 == (Seq::<SInst>::empty(), Seq::new(4, |j: int| 0nat), Seq::<bool>::empty()));
    let s1 = fold_pass(code, 1, f);
    assert(s1 == fold_step(s0, 0, code[0], targeted(code, 0), f));
    assert(s1.0 =~= seq![SInst::Const(a)]);
    assert(s1.2 =~= seq![false]);
    let s2 = fold_pass(code, 2, f);
    assert(s2 == fold_step(s1, 1, code[1], targeted(code, 1), f));
    assert(s2.0 =~= seq![SInst::Const(a), SInst::Const(b)]);
    assert(s2.2 =~= seq![false, false]);
    let s3 = fold_pass(code, 3, f);
    assert(s3 == fold_step(s2, 2, code[2], targeted(code, 2), f));
    match f(a, op, b) {
        Some(v) => {
            assert(s3.0 =~= seq![SInst::Const(v)]);
            assert(spec_optimize(code, f) =~= seq![SInst::Const(v)]);
        }
        None => {
            assert(s3.0 =~= code);
            assert(spec_optimize(code, f) =~= code);
        }
    }
}

proof fn lemma_marks_len(code: Seq<SInst>, i: int, f: spec_fn(SValue, Op, SValue) -> Option<SValue>)
    ensures
        fold_pass(code, i, f).2.len() == fold_pass(code, i, f).0.len(),
    decreases i,
{
    if i > 0 {
        lemma_marks_len(code, i - 1, f);
    }
}

/// Wherever it stands, a binary operator on two constants that no jump lands
/// on folds to the constant the folder gives for the left constant, the
/// operator and the right constant, in that order, and adds nothing else.
pub proof fn law_fold_in_place(code: Seq<SInst>, i: int, a: SValue, b: SValue, op: Op, v: SValue, f: spec_fn(SValue, Op, SValue) -> Option<SValue>)
    requires
        0 <= i,
        i + 3 <= code.len(),
        code[i] == SInst::Const(a),
        code[i + 1] == SInst::Const(b),
        code[i + 2] == SInst::Binary(op),
        !targeted(code, i),
        !targeted(code, i + 1),
        !targeted(code, i + 2),
        f(a, op, b) == Some(v),
    ensures
        fold_pass(code, i + 3, f).0 == fold_pass(code, i, f).0.push(SInst::Const(v)),
{
    lemma_marks_len(code, i, f);
    let s = fold_pass(code, i, f);
    let s1 = fold_pass(code, i + 1, f);
    assert(s1 == fold_step(s, i, code[i], targeted(code, i), f));
    assert(s1.0 == s.0.push(SInst::Const(a)));
    assert(s1.2 == s.2.push(false));
    let s2 = fold_pass(code, i + 2, f);
    assert(s2 == fold_step(s1, i + 1, code[i + 1], targeted(code, i + 1), f));
    assert(s2.0 == s1.0.push(SInst::Const(b)));
    assert(s2.2 == s1.2.push(false));
    let n = s2.0.len();
    assert(s2.0[n - 2] == SInst::Const(a));
    assert(s2.0[n - 1] == SInst::Const(b));
    assert(s2.2[n - 2] == false && s2.2[n - 1] == false);
    let s3 = fold_pass(code, i + 3, f);
    assert(s3 == fold_step(s2, i + 2, code[i + 2], targeted(code, i + 2), f));
    assert(s3.0 =~= s.0.push(SInst::Const(v)));
}

/// A jump over a folded operation lands on the instruction that followed
/// it: in `jump 4; a; b; op; x` the three folded instructions become one
/// constant, and the jump is moved onto `x`.
pub proof fn law_fold_moves_jump(a: SValue, b: SValue, op: Op, v: SValue, x: SInst, f: spec_fn(SValue, Op, SValue) -> Option<SValue>)
    requires
        f(a, op, b) == Some(v),
        jump_target(x) is None,
    ensures
        spec_optimize(seq![SInst::Jump(4), SInst::Const(a), SInst::Const(b), SInst::Binary(op), x], f)
            == seq![SInst::Jump(2), SInst::Const(v), x],
{
    let code = seq![SInst::Jump(4), SInst::Const(a), SInst::Const(b), SInst::Binary(op), x];
    assert forall|t: int| 0 <= t && t != 4 implies !#[trigger] targeted(code, t) by {
        if targeted(code, t) {
            let j = choose|j: int| 0 <= j < code.len() as int && #[trigger] jump_target(code[j]) == Some(t as nat);
            if j == 0 {
                assert(jump_target(code[0]) == Some(4nat));
            } else {
                assert(jump_target(code[j]) is None);
            }
        }
    }
    assert(targeted(code, 4)) by {
        assert(jump_target(code[0]) == Some(4nat));
    }
    let s0 = fold_pass(code, 0, f);
    let s1 = fold_pass(code, 1, f);
    assert(s1 == fold_step(s0, 0, code[0], targeted(code, 0), f));
    assert(s1.0 =~= seq![SInst::Jump(4)]);
    assert(s1.2 =~= seq![false]);
    let s2 = fold_pass(code, 2, f);
    assert(s2 == fold_step(s1, 1, code[1], targeted(code, 1), f));
    assert(s2.0 =~= seq![SInst::Jump(4), SInst::Const(a)]);
    assert(s2.2 =~= seq![false, false]);
    let s3 = fold_pass(code, 3, f);
    assert(s3 == fold_step(s2, 2, code[2], targeted(code, 2), f));
    assert(s3.0 =~= seq![SInst::Jump(4), SInst::Const(a), SInst::Const(b)]);
    assert(s3.2 =~= seq![false, false, false]);
    let s4 = fold_pass(code, 4, f);
    assert(s4 == fold_step(s3, 3, code[3], targeted(code, 3), f));
    assert(s4.0 =~= seq![SInst::Jump(4), SInst::Const(v)]);
    assert(s4.2 =~= seq![false, false]);
    assert(s4.1[4] == 0);
    let s5 = fold_pass(code, 5, f);
    assert(s5 == fold_step(s4, 4, code[4], targeted(code, 4), f));
    assert(s5.0 =~= seq![SInst::Jump(4), SInst::Const(v), x]);
    assert(s5.1[4] == 2);
    assert(s5.1.len() == 6);
    let map2 = s5.1.update(5, 3nat);
    assert(remap(SInst::Jump(4), map2, 3) == SInst::Jump(2));
    assert(remap(x, map2, 3) == x);
    assert(spec_optimize(code, f) =~= seq![SInst::Jump(2), SInst::Const(v), x]);
}

/// Whether a folding function folds nothing.
pub open spec fn folds_nothing(f: spec_fn(SValue, Op, SValue) -> Option<SValue>) -> bool {
    forall|a: SValue, op: Op, b: SValue| #[trigger] f(a, op, b) is None
}

/// An instruction whose jump target past `end` goes to `end`.
pub open spec fn clamp_target(inst: SInst, end: nat) -> SInst {
    let m = |t: nat| if t <= end { t } else { end };
    match inst {
        SInst::JumpIfFalse(t) => SInst::JumpIfFalse(m(t)),
        SInst::Jump(t) => SInst::Jump(m(t)),
        SInst::IterNext(n, t) => SInst::IterNext(n, m(t)),
        _ => inst,
    }
}

proof fn lemma_pass_without_folding(code: Seq<SInst>, i: int, f: spec_fn(SValue, Op, SValue) -> Option<SValue>)
    requires
        folds_nothing(f),
        0 <= i <= code.len(),
    ensures
        fold_pass(code, i, f).0 == code.take(i),
        fold_pass(code, i, f).1.len() == code.len() + 1,
        forall|j: int| 0 <= j < i ==> #[trigger] fold_pass(code, i, f).1[j] == j,
        forall|j: int| i <= j <= code.len() ==> #[trigger] fold_pass(code, i, f).1[j] == 0,
    decreases i,
{
    if i > 0 {
        lemma_pass_without_folding(code, i - 1, f);
        let st = fold_pass(code, i - 1, f);
        match code[i - 1] {
            SInst::Binary(op) => {
                let n = st.0.len();
                if n >= 2 && !targeted(code, i - 1) && !st.2[n - 2] && !st.2[n - 1] {
                    match (st.0[n - 2], st.0[n - 1]) {
                        (SInst::Const(a), SInst::Const(b)) => { assert(f(a, op, b) is None); }
                        _ => {}
                    }
                }
            }
            _ => {}
        }
        assert(code.take(i - 1).push(code[i - 1]) =~= code.take(i));
    }
}

/// Without anything to fold, the optimizer gives the code back, with jump
/// targets past the end moved to the end.
pub proof fn lemma_optimize_without_folding(code: Seq<SInst>, f: spec_fn(SValue, Op, SValue) -> Option<SValue>)
    requires
        folds_nothing(f),
    ensures
        spec_optimize(code, f) == code.map_values(|inst: SInst| clamp_target(inst, code.len())),
{
    lemma_pass_without_folding(code, code.len() as int, f);
    let (out, map, _) = fold_pass(code, code.len() as int, f);
    assert(code.take(code.len() as int) =~= code);
    let map2 = map.update(code.len() as int, out.len());
    assert forall|k: int| 0 <= k < code.len() implies
        #[trigger] remap(code[k], map2, out.len()) == clamp_target(code[k], code.len()) by {
        match code[k] {
            SInst::JumpIfFalse(t) => { if t <= code.len() { assert(map2[t as int] == t); } }
            SInst::Jump(t) => { if t <= code.len() { assert(map2[t as int] == t); } }
            SInst::IterNext(_, t) => { if t <= code.len() { assert(map2[t as int] == t); } }
            _ => {}
        }
    }
    assert(spec_optimize(code, f) =~= code.map_values(|inst: SInst| clamp_target(inst, code.len())));
}

proof fn lemma_pass_len(code: Seq<SInst>, i: int, f: spec_fn(SValue, Op, SValue) -> Option<SValue>)
    requires
        0 <= i <= code.len(),
    ensures
        fold_pass(code, i, f).0.len() <= i,
    decreases i,
{
    if i > 0 {
        lemma_pass_len(code, i - 1, f);
    }
}

/// Folding never makes code longer.
pub proof fn lemma_optimize_not_longer(code: Seq<SInst>, f: spec_fn(SValue, Op, SValue) -> Option<SValue>)
    ensures
        spec_optimize(code, f).len() <= code.len(),
{
    lemma_pass_len(code, code.len() as int, f);
}

} // verus!
