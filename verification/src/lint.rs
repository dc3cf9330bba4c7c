//! The linter: warnings and errors about a parsed program that the checker
//! accepts but that are likely mistakes.
use vstd::prelude::*;
use crate::native::key_index;
use crate::syntax::{
    Expr, Op, SExpr, SStmt, SValue, Stmt, Value, exprs_view, fields_view, lemma_expr_views, lemma_stmt_views, stmts_view,
    strings_view,
};
use crate::text::{chars_of, push_chars, push_str, string_of};

verus! {

#[derive(Debug, Clone, Copy, PartialEq, Eq, Structural)]
pub enum Severity {
    Warning,
    Error,
}

/// A finding of the linter.
#[derive(Debug)]
pub struct Diagnostic {
    pub severity: Severity,
    pub message: String,
}

pub open spec fn diags_view(v: Seq<Diagnostic>) -> Seq<(Severity, Seq<char>)> {
    Seq::new(v.len(), |i: int| (v[i].severity, v[i].message@))
}

pub open spec fn warning(m: Seq<char>) -> Seq<(Severity, Seq<char>)> {
    seq![(Severity::Warning, m)]
}

pub open spec fn error(m: Seq<char>) -> Seq<(Severity, Seq<char>)> {
    seq![(Severity::Error, m)]
}

pub open spec fn none() -> Seq<(Severity, Seq<char>)> {
    Seq::empty()
}

/// A number literal whose value is zero: only zeros and a point.
pub open spec fn zero_literal(t: Seq<char>) -> bool {
    t.len() > 0 && forall|i: int| 0 <= i < t.len() ==> t[i] == '0' || t[i] == '.'
}

/// The findings in an expression: a division or remainder by a literal
/// zero, and an addition of the empty text, on the right operand of each
/// binary operation, and in the operands to the right.
pub open spec fn expr_diags(e: SExpr) -> Seq<(Severity, Seq<char>)>
    decreases e, 0int,
{
    match e {
        SExpr::Binary(_, op, right) => {
            let div = if (op == Op::Div || op == Op::Mod) && (*right matches SExpr::Value(SValue::Number(t)) && zero_literal(t)) {
                warning("divisão ou resto por zero detectado estaticamente"@)
            } else {
                none()
            };
            let concat = if op == Op::Add && (*right matches SExpr::Value(SValue::Text(t)) && t.len() == 0) {
                warning("concatenação com texto vazio"@)
            } else {
                none()
            };
            div + concat + expr_diags(*right)
        },
        SExpr::Call(_, args) => items_diags(args),
        SExpr::List(items) => items_diags(items),
        SExpr::Object(fields) => fields_diags(fields),
        SExpr::Index(target, index) => expr_diags(*target) + expr_diags(*index),
        SExpr::Field(target, _) => expr_diags(*target),
        _ => none(),
    }
}

pub open spec fn items_diags(es: Seq<SExpr>) -> Seq<(Severity, Seq<char>)>
    decreases es, es.len(),
{
    if es.len() == 0 { none() } else { items_diags(es.drop_last()) + expr_diags(es.last()) }
}

pub open spec fn fields_diags(fs: Seq<(Seq<char>, SExpr)>) -> Seq<(Severity, Seq<char>)>
    decreases fs, fs.len(),
{
    if fs.len() == 0 { none() } else { fields_diags(fs.drop_last()) + expr_diags(fs.last().1) }
}

/// The variables an expression reads, appended to `u` in order.
pub open spec fn used_expr(u: Seq<Seq<char>>, e: SExpr) -> Seq<Seq<char>>
    decreases e, 0int,
{
    match e {
        SExpr::Var(n) => u.push(n),
        SExpr::Binary(l, _, r) => used_expr(used_expr(u, *l), *r),
        SExpr::Call(_, args) => used_items(u, args),
        SExpr::List(items) => used_items(u, items),
        SExpr::Object(fields) => used_fields(u, fields),
        SExpr::Index(t, i) => used_expr(used_expr(u, *t), *i),
        SExpr::Field(t, _) => used_expr(u, *t),
        SExpr::Value(_) => u,
    }
}

pub open spec fn used_items(u: Seq<Seq<char>>, es: Seq<SExpr>) -> Seq<Seq<char>>
    decreases es, es.len(),
{
    if es.len() == 0 { u } else { used_expr(used_items(u, es.drop_last()), es.last()) }
}

pub open spec fn used_fields(u: Seq<Seq<char>>, fs: Seq<(Seq<char>, SExpr)>) -> Seq<Seq<char>>
    decreases fs, fs.len(),
{
    if fs.len() == 0 { u } else { used_expr(used_fields(u, fs.drop_last()), fs.last().1) }
}

/// The entries of `u` that are not among `names`.
pub open spec fn remove_all(u: Seq<Seq<char>>, names: Seq<Seq<char>>) -> Seq<Seq<char>>
    decreases u.len(),
{
    if u.len() == 0 {
        u
    } else if names.contains(u.last()) {
        remove_all(u.drop_last(), names)
    } else {
        remove_all(u.drop_last(), names).push(u.last())
    }
}

/// The variables statements read, in order; a nested function forgets
/// its parameters before its body is read.
pub open spec fn used_stmt(u: Seq<Seq<char>>, s: SStmt) -> Seq<Seq<char>>
    decreases s, 0int,
{
    match s {
        SStmt::Assign(_, e) => used_expr(u, e),
        SStmt::Print(e) => used_expr(u, e),
        SStmt::Expr(e) => used_expr(u, e),
        SStmt::Return(e) => used_expr(u, e),
        SStmt::If(c, yes, no) => used_stmts(used_stmts(used_expr(u, c), yes), no),
        SStmt::While(c, body) => used_stmts(used_expr(u, c), body),
        SStmt::For(_, it, body) => used_stmts(used_expr(u, it), body),
        SStmt::Function(_, params, body) => used_stmts(remove_all(u, params), body),
        SStmt::Use(_) => u,
    }
}

pub open spec fn used_stmts(u: Seq<Seq<char>>, ss: Seq<SStmt>) -> Seq<Seq<char>>
    decreases ss, ss.len(),
{
    if ss.len() == 0 { u } else { used_stmt(used_stmts(u, ss.drop_last()), ss.last()) }
}

/// A warning for each parameter the body never reads.
pub open spec fn param_diags(params: Seq<Seq<char>>, used: Seq<Seq<char>>) -> Seq<(Severity, Seq<char>)>
    decreases params.len(),
{
    if params.len() == 0 {
        none()
    } else {
        param_diags(params.drop_last(), used) + if used.contains(params.last()) {
            none()
        } else {
            warning("parâmetro '"@ + params.last() + "' não é usado"@)
        }
    }
}

/// The linter's state within a block: the findings so far, whether a
/// statement ended the block, and whether the rest was reported
/// unreachable.
pub struct BlockState {
    pub diags: Seq<(Severity, Seq<char>)>,
    pub terminated: bool,
    pub stopped: bool,
}

/// The findings of a block: a warning for an empty one.
pub open spec fn block_diags(len: nat, st: BlockState) -> Seq<(Severity, Seq<char>)> {
    if len == 0 { warning("bloco vazio"@) } else { st.diags }
}

/// The findings of a statement and whether it ends its block: a `return`
/// ends it outside loops; a constant condition, a loop that never runs
/// and an unused parameter are reported; nested blocks are linted, a
/// function's body as outside any loop.
pub open spec fn stmt_lint(s: SStmt, in_loop: bool) -> (Seq<(Severity, Seq<char>)>, bool)
    decreases s, 0int,
{
    match s {
        SStmt::Return(_) => (none(), !in_loop),
        SStmt::If(c, yes, no) => {
            let cw = match c {
                SExpr::Value(SValue::Boolean(true)) => warning("condição do if é sempre verdadeira"@),
                SExpr::Value(SValue::Boolean(false)) => warning("condição do if é sempre falsa"@),
                _ => none(),
            };
            let dn = if no.len() > 0 { block_diags(no.len(), prefix_lint(no, in_loop)) } else { none() };
            (cw + block_diags(yes.len(), prefix_lint(yes, in_loop)) + dn, false)
        },
        SStmt::While(c, body) => {
            let cw = if c matches SExpr::Value(SValue::Boolean(false)) { warning("while nunca será executado"@) } else { none() };
            (cw + block_diags(body.len(), prefix_lint(body, true)), false)
        },
        SStmt::For(_, it, body) => {
            let fw = if it matches SExpr::List(items) && items.len() == 0 { warning("for sobre lista vazia não executa"@) } else { none() };
            (fw + block_diags(body.len(), prefix_lint(body, true)), false)
        },
        SStmt::Function(_, params, body) => (param_diags(params, used_stmts(Seq::empty(), body)) + block_diags(body.len(), prefix_lint(body, false)), false),
        SStmt::Assign(_, e) => (expr_diags(e), false),
        SStmt::Print(e) => (expr_diags(e), false),
        SStmt::Expr(e) => (expr_diags(e), false),
        SStmt::Use(_) => (none(), false),
    }
}

/// The linter's state after the statements of `ss` in order: after a
/// statement that ends the block, the next one is reported unreachable and
/// the rest is skipped.
pub open spec fn prefix_lint(ss: Seq<SStmt>, in_loop: bool) -> BlockState
    decreases ss, ss.len(),
{
    if ss.len() == 0 {
        BlockState { diags: none(), terminated: false, stopped: false }
    } else {
        let st = prefix_lint(ss.drop_last(), in_loop);
        if st.stopped {
            st
        } else if st.terminated {
            BlockState { diags: st.diags + warning("código inalcançável após terminador do bloco"@), terminated: true, stopped: true }
        } else {
            let (d, t) = stmt_lint(ss.last(), in_loop);
            BlockState { diags: st.diags + d, terminated: t, stopped: false }
        }
    }
}

/// The names of the functions the statements declare, nested ones
/// included, in order.
pub open spec fn stmt_decls(s: SStmt) -> Seq<Seq<char>>
    decreases s, 0int,
{
    match s {
        SStmt::Function(n, _, body) => seq![n] + decl_names(body),
        SStmt::If(_, yes, no) => decl_names(yes) + decl_names(no),
        SStmt::While(_, body) => decl_names(body),
        SStmt::For(_, _, body) => decl_names(body),
        _ => Seq::empty(),
    }
}

pub open spec fn decl_names(ss: Seq<SStmt>) -> Seq<Seq<char>>
    decreases ss, ss.len(),
{
    if ss.len() == 0 { Seq::empty() } else { decl_names(ss.drop_last()) + stmt_decls(ss.last()) }
}

/// The names of the functions an expression calls.
pub open spec fn expr_calls(e: SExpr) -> Seq<Seq<char>>
    decreases e, 0int,
{
    match e {
        SExpr::Call(n, args) => seq![n] + items_calls(args),
        SExpr::Binary(l, _, r) => expr_calls(*l) + expr_calls(*r),
        SExpr::List(items) => items_calls(items),
        SExpr::Object(fields) => fields_calls(fields),
        SExpr::Index(t, i) => expr_calls(*t) + expr_calls(*i),
        SExpr::Field(t, _) => expr_calls(*t),
        _ => Seq::empty(),
    }
}

pub open spec fn items_calls(es: Seq<SExpr>) -> Seq<Seq<char>>
    decreases es, es.len(),
{
    if es.len() == 0 { Seq::empty() } else { items_calls(es.drop_last()) + expr_calls(es.last()) }
}

pub open spec fn fields_calls(fs: Seq<(Seq<char>, SExpr)>) -> Seq<Seq<char>>
    decreases fs, fs.len(),
{
    if fs.len() == 0 { Seq::empty() } else { fields_calls(fs.drop_last()) + expr_calls(fs.last().1) }
}

/// The names of the functions statements call.
pub open spec fn stmt_calls(s: SStmt) -> Seq<Seq<char>>
    decreases s, 0int,
{
    match s {
        SStmt::Assign(_, e) => expr_calls(e),
        SStmt::Print(e) => expr_calls(e),
        SStmt::Expr(e) => expr_calls(e),
        SStmt::Return(e) => expr_calls(e),
        SStmt::If(c, yes, no) => expr_calls(c) + call_names(yes) + call_names(no),
        SStmt::While(c, body) => expr_calls(c) + call_names(body),
        SStmt::For(_, it, body) => expr_calls(it) + call_names(body),
        SStmt::Function(_, _, body) => call_names(body),
        SStmt::Use(_) => Seq::empty(),
    }
}

pub open spec fn call_names(ss: Seq<SStmt>) -> Seq<Seq<char>>
    decreases ss, ss.len(),
{
    if ss.len() == 0 { Seq::empty() } else { call_names(ss.drop_last()) + stmt_calls(ss.last()) }
}

/// Each name with the number of its occurrences, in order of first
/// occurrence.
pub open spec fn counts(names: Seq<Seq<char>>) -> Seq<(Seq<char>, nat)>
    decreases names.len(),
{
    if names.len() == 0 {
        Seq::empty()
    } else {
        let c = counts(names.drop_last());
        match key_index(c, names.last()) {
            Some(i) => c.update(i, (names.last(), c[i].1 + 1)),
            None => c.push((names.last(), 1nat)),
        }
    }
}

/// An error for each function declared more than once, and one more when
/// that function is `main`.
pub open spec fn duplicate_diags(c: Seq<(Seq<char>, nat)>) -> Seq<(Severity, Seq<char>)>
    decreases c.len(),
{
    if c.len() == 0 {
        none()
    } else {
        let (name, n) = c.last();
        duplicate_diags(c.drop_last())
            + (if n > 1 { error("função '"@ + name + "' declarada mais de uma vez"@) } else { none() })
            + (if name == "main"@ && n > 1 { error("main deve ser única"@) } else { none() })
    }
}

/// A warning for each function but `main` that nothing calls.
pub open spec fn unused_diags(c: Seq<(Seq<char>, nat)>, calls: Seq<Seq<char>>) -> Seq<(Severity, Seq<char>)>
    decreases c.len(),
{
    if c.len() == 0 {
        none()
    } else {
        let name = c.last().0;
        unused_diags(c.drop_last(), calls) + if name != "main"@ && !calls.contains(name) {
            warning("função '"@ + name + "' não é chamada"@)
        } else {
            none()
        }
    }
}

/// The findings for a program: duplicate declarations, then functions
/// never called, then the findings of its statements as a block.
pub open spec fn spec_lint(program: Seq<SStmt>) -> Seq<(Severity, Seq<char>)> {
    let c = counts(decl_names(program));
    duplicate_diags(c) + unused_diags(c, call_names(program)) + block_diags(program.len(), prefix_lint(program, false))
}


fn report(out: &mut Vec<Diagnostic>, severity: Severity, message: String)
    ensures
        diags_view(final(out)@) == diags_view(old(out)@) + seq![(severity, message@)],
{
    let ghost before = diags_view(out@);
    out.push(Diagnostic { severity, message });
    assert(diags_view(out@) =~= before + seq![(severity, message@)]);
}

fn text(lit: &str) -> (r: String)
    ensures
        r@ == lit@,
{
    let cs = chars_of(lit);
    string_of(&cs)
}

/// `prefix`, then `name`, then `suffix`.
fn quoted(prefix: &str, name: &String, suffix: &str) -> (r: String)
    ensures
        r@ == prefix@ + name@ + suffix@,
{
    let mut cs: Vec<char> = Vec::new();
    push_str(&mut cs, prefix);
    let n = chars_of(name.as_str());
    push_chars(&mut cs, &n);
    push_str(&mut cs, suffix);
    string_of(&cs)
}

/// Whether a number literal is zero.
fn is_zero_literal(t: &String) -> (r: bool)
    ensures
        r == zero_literal(t@),
{
    let cs = chars_of(t.as_str());
    if cs.len() == 0 {
        return false;
    }
    let mut i: usize = 0;
    while i < cs.len()
        invariant
            i <= cs.len(),
            cs@ == t@,
            forall|j: int| 0 <= j < i ==> cs@[j] == '0' || cs@[j] == '.',
        decreases cs.len() - i,
    {
        if cs[i] != '0' && cs[i] != '.' {
            return false;
        }
        i += 1;
    }
    true
}

/// Appends the findings of an expression.
fn lint_expr(e: &Expr, out: &mut Vec<Diagnostic>)
    ensures
        diags_view(final(out)@) == diags_view(old(out)@) + expr_diags(e.sv()),
    decreases e, 1int,
{
    let ghost d0 = diags_view(out@);
    proof { lemma_expr_views(*e); }
    match e {
        Expr::Binary(_, op, right) => {
            let is_div = *op == Op::Div || *op == Op::Mod;
            let zero = match &**right { Expr::Value(Value::Number(t)) => is_zero_literal(t), _ => false };
            if is_div && zero {
                report(out, Severity::Warning, text("divisão ou resto por zero detectado estaticamente"));
            }
            let empty_text = match &**right { Expr::Value(Value::Text(t)) => chars_of(t.as_str()).len() == 0, _ => false };
            if *op == Op::Add && empty_text {
                report(out, Severity::Warning, text("concatenação com texto vazio"));
            }
            lint_expr(right, out);
            assert(diags_view(out@) =~= d0 + expr_diags(e.sv()));
        },
        Expr::Call(_, args) => { lint_items(args, out); },
        Expr::List(items) => { lint_items(items, out); },
        Expr::Object(fields) => { lint_fields(fields, out); },
        Expr::Index(target, index) => {
            lint_expr(target, out);
            lint_expr(index, out);
            assert(diags_view(out@) =~= d0 + expr_diags(e.sv()));
        },
        Expr::Field(target, _) => { lint_expr(target, out); },
        _ => { assert(diags_view(out@) =~= d0 + expr_diags(e.sv())); },
    }
}

fn lint_items(es: &Vec<Expr>, out: &mut Vec<Diagnostic>)
    ensures
        diags_view(final(out)@) == diags_view(old(out)@) + items_diags(exprs_view(es@)),
    decreases es, 0int,
{
    let ghost d0 = diags_view(out@);
    let ghost ev = exprs_view(es@);
    let mut i: usize = 0;
    assert(d0 + items_diags(ev.take(0)) =~= d0);
    while i < es.len()
        invariant
            i <= es.len(),
            ev == exprs_view(es@),
            d0 == diags_view(old(out)@),
            diags_view(out@) == d0 + items_diags(ev.take(i as int)),
        decreases es.len() - i,
    {
        assert(ev.take(i + 1).drop_last() =~= ev.take(i as int));
        lint_expr(&es[i], out);
        assert(diags_view(out@) =~= d0 + items_diags(ev.take(i + 1)));
        i += 1;
    }
    assert(ev.take(i as int) =~= ev);
}

fn lint_fields(fs: &Vec<(String, Expr)>, out: &mut Vec<Diagnostic>)
    ensures
        diags_view(final(out)@) == diags_view(old(out)@) + fields_diags(fields_view(fs@)),
    decreases fs, 0int,
{
    let ghost d0 = diags_view(out@);
    let ghost fv = fields_view(fs@);
    let mut i: usize = 0;
    assert(d0 + fields_diags(fv.take(0)) =~= d0);
    while i < fs.len()
        invariant
            i <= fs.len(),
            fv == fields_view(fs@),
            d0 == diags_view(old(out)@),
            diags_view(out@) == d0 + fields_diags(fv.take(i as int)),
        decreases fs.len() - i,
    {
        assert(fv.take(i + 1).drop_last() =~= fv.take(i as int));
        lint_expr(&fs[i].1, out);
        assert(diags_view(out@) =~= d0 + fields_diags(fv.take(i + 1)));
        i += 1;
    }
    assert(fv.take(i as int) =~= fv);
}

/// Appends the variables an expression reads.
fn used_in_expr(e: &Expr, u: &mut Vec<String>)
    ensures
        strings_view(final(u)@) == used_expr(strings_view(old(u)@), e.sv()),
    decreases e, 1int,
{
    let ghost u0 = strings_view(u@);
    proof { lemma_expr_views(*e); }
    match e {
        Expr::Var(n) => {
            u.push(n.clone());
            assert(strings_view(u@) =~= u0.push(n@));
        },
        Expr::Binary(l, _, r) => { used_in_expr(l, u); used_in_expr(r, u); },
        Expr::Call(_, args) => { used_in_items(args, u); },
        Expr::List(items) => { used_in_items(items, u); },
        Expr::Object(fields) => { used_in_fields(fields, u); },
        Expr::Index(t, i) => { used_in_expr(t, u); used_in_expr(i, u); },
        Expr::Field(t, _) => { used_in_expr(t, u); },
        Expr::Value(_) => {},
    }
}

fn used_in_items(es: &Vec<Expr>, u: &mut Vec<String>)
    ensures
        strings_view(final(u)@) == used_items(strings_view(old(u)@), exprs_view(es@)),
    decreases es, 0int,
{
    let ghost u0 = strings_view(u@);
    let ghost ev = exprs_view(es@);
    let mut i: usize = 0;
    assert(ev.take(0) =~= Seq::<SExpr>::empty());
    while i < es.len()
        invariant
            i <= es.len(),
            ev == exprs_view(es@),
            u0 == strings_view(old(u)@),
            strings_view(u@) == used_items(u0, ev.take(i as int)),
        decreases es.len() - i,
    {
        assert(ev.take(i + 1).drop_last() =~= ev.take(i as int));
        used_in_expr(&es[i], u);
        i += 1;
    }
    assert(ev.take(i as int) =~= ev);
}

fn used_in_fields(fs: &Vec<(String, Expr)>, u: &mut Vec<String>)
    ensures
        strings_view(final(u)@) == used_fields(strings_view(old(u)@), fields_view(fs@)),
    decreases fs, 0int,
{
    let ghost u0 = strings_view(u@);
    let ghost fv = fields_view(fs@);
    let mut i: usize = 0;
    assert(fv.take(0) =~= Seq::<(Seq<char>, SExpr)>::empty());
    while i < fs.len()
        invariant
            i <= fs.len(),
            fv == fields_view(fs@),
            u0 == strings_view(old(u)@),
            strings_view(u@) == used_fields(u0, fv.take(i as int)),
        decreases fs.len() - i,
    {
        assert(fv.take(i + 1).drop_last() =~= fv.take(i as int));
        used_in_expr(&fs[i].1, u);
        i += 1;
    }
    assert(fv.take(i as int) =~= fv);
}

fn contains_string(v: &Vec<String>, k: &String) -> (r: bool)
    ensures
        r == strings_view(v@).contains(k@),
{
    let mut i: usize = 0;
    while i < v.len()
        invariant
            i <= v.len(),
            forall|j: int| 0 <= j < i ==> v@[j]@ != k@,
        decreases v.len() - i,
    {
        if v[i] == *k {
            assert(strings_view(v@)[i as int] == k@);
            return true;
        }
        i += 1;
    }
    assert forall|j: int| 0 <= j < strings_view(v@).len() implies strings_view(v@)[j] != k@ by {
        assert(strings_view(v@)[j] == v@[j]@);
    }
    false
}

fn without_names(u: &Vec<String>, names: &Vec<String>) -> (r: Vec<String>)
    ensures
        strings_view(r@) == remove_all(strings_view(u@), strings_view(names@)),
{
    let ghost uv = strings_view(u@);
    let ghost nv = strings_view(names@);
    let mut out: Vec<String> = Vec::new();
    let mut i: usize = 0;
    assert(uv.take(0) =~= Seq::<Seq<char>>::empty());
    assert(strings_view(out@) =~= Seq::<Seq<char>>::empty());
    while i < u.len()
        invariant
            i <= u.len(),
            uv == strings_view(u@),
            nv == strings_view(names@),
            strings_view(out@) == remove_all(uv.take(i as int), nv),
        decreases u.len() - i,
    {
        assert(uv.take(i + 1).drop_last() =~= uv.take(i as int));
        assert(uv.take(i + 1).last() == u@[i as int]@);
        if !contains_string(names, &u[i]) {
            let ghost before = strings_view(out@);
            out.push(u[i].clone());
            assert(strings_view(out@) =~= before.push(u@[i as int]@));
        }
        i += 1;
    }
    assert(uv.take(i as int) =~= uv);
    out
}

/// Appends the variables a statement reads.
fn used_in_stmt(s: &Stmt, u: &mut Vec<String>)
    ensures
        strings_view(final(u)@) == used_stmt(strings_view(old(u)@), s.sv()),
    decreases s, 1int,
{
    proof { lemma_stmt_views(*s); }
    match s {
        Stmt::Assign(_, e) => used_in_expr(e, u),
        Stmt::Print(e) => used_in_expr(e, u),
        Stmt::Expr(e) => used_in_expr(e, u),
        Stmt::Return(e) => used_in_expr(e, u),
        Stmt::If(c, yes, no) => { used_in_expr(c, u); used_in_stmts(yes, u); used_in_stmts(no, u); },
        Stmt::While(c, body) => { used_in_expr(c, u); used_in_stmts(body, u); },
        Stmt::For(_, it, body) => { used_in_expr(it, u); used_in_stmts(body, u); },
        Stmt::Function(_, params, body) => {
            let kept = without_names(u, params);
            *u = kept;
            used_in_stmts(body, u);
        },
        Stmt::Use(_) => {},
    }
}

fn used_in_stmts(ss: &Vec<Stmt>, u: &mut Vec<String>)
    ensures
        strings_view(final(u)@) == used_stmts(strings_view(old(u)@), stmts_view(ss@)),
    decreases ss, 0int,
{
    let ghost u0 = strings_view(u@);
    let ghost sv = stmts_view(ss@);
    let mut i: usize = 0;
    assert(sv.take(0) =~= Seq::<SStmt>::empty());
    while i < ss.len()
        invariant
            i <= ss.len(),
            sv == stmts_view(ss@),
            u0 == strings_view(old(u)@),
            strings_view(u@) == used_stmts(u0, sv.take(i as int)),
        decreases ss.len() - i,
    {
        assert(sv.take(i + 1).drop_last() =~= sv.take(i as int));
        used_in_stmt(&ss[i], u);
        i += 1;
    }
    assert(sv.take(i as int) =~= sv);
}


/// Appends the names of the functions a statement declares.
fn decls_in_stmt(s: &Stmt, names: &mut Vec<String>)
    ensures
        strings_view(final(names)@) == strings_view(old(names)@) + stmt_decls(s.sv()),
    decreases s, 1int,
{
    let ghost n0 = strings_view(names@);
    proof { lemma_stmt_views(*s); }
    match s {
        Stmt::Function(n, _, body) => {
            names.push(n.clone());
            assert(strings_view(names@) =~= n0 + seq![n@]);
            decls_in_stmts(body, names);
            assert(strings_view(names@) =~= n0 + stmt_decls(s.sv()));
        },
        Stmt::If(_, yes, no) => {
            decls_in_stmts(yes, names);
            decls_in_stmts(no, names);
            assert(strings_view(names@) =~= n0 + stmt_decls(s.sv()));
        },
        Stmt::While(_, body) => { decls_in_stmts(body, names); },
        Stmt::For(_, _, body) => { decls_in_stmts(body, names); },
        _ => { assert(strings_view(names@) =~= n0 + stmt_decls(s.sv())); },
    }
}

fn decls_in_stmts(ss: &Vec<Stmt>, names: &mut Vec<String>)
    ensures
        strings_view(final(names)@) == strings_view(old(names)@) + decl_names(stmts_view(ss@)),
    decreases ss, 0int,
{
    let ghost n0 = strings_view(names@);
    let ghost sv = stmts_view(ss@);
    let mut i: usize = 0;
    assert(n0 + decl_names(sv.take(0)) =~= n0);
    while i < ss.len()
        invariant
            i <= ss.len(),
            sv == stmts_view(ss@),
            n0 == strings_view(old(names)@),
            strings_view(names@) == n0 + decl_names(sv.take(i as int)),
        decreases ss.len() - i,
    {
        assert(sv.take(i + 1).drop_last() =~= sv.take(i as int));
        decls_in_stmt(&ss[i], names);
        assert(strings_view(names@) =~= n0 + decl_names(sv.take(i + 1)));
        i += 1;
    }
    assert(sv.take(i as int) =~= sv);
}

/// Appends the names of the functions an expression calls.
fn calls_in_expr(e: &Expr, names: &mut Vec<String>)
    ensures
        strings_view(final(names)@) == strings_view(old(names)@) + expr_calls(e.sv()),
    decreases e, 1int,
{
    let ghost n0 = strings_view(names@);
    proof { lemma_expr_views(*e); }
    match e {
        Expr::Call(n, args) => {
            names.push(n.clone());
            assert(strings_view(names@) =~= n0 + seq![n@]);
            calls_in_items(args, names);
        },
        Expr::Binary(l, _, r) => { calls_in_expr(l, names); calls_in_expr(r, names); },
        Expr::List(items) => { calls_in_items(items, names); },
        Expr::Object(fields) => { calls_in_fields(fields, names); },
        Expr::Index(t, i) => { calls_in_expr(t, names); calls_in_expr(i, names); },
        Expr::Field(t, _) => { calls_in_expr(t, names); },
        _ => {},
    }
    assert(strings_view(names@) =~= n0 + expr_calls(e.sv()));
}

fn calls_in_items(es: &Vec<Expr>, names: &mut Vec<String>)
    ensures
        strings_view(final(names)@) == strings_view(old(names)@) + items_calls(exprs_view(es@)),
    decreases es, 0int,
{
    let ghost n0 = strings_view(names@);
    let ghost ev = exprs_view(es@);
    let mut i: usize = 0;
    assert(n0 + items_calls(ev.take(0)) =~= n0);
    while i < es.len()
        invariant
            i <= es.len(),
            ev == exprs_view(es@),
            n0 == strings_view(old(names)@),
            strings_view(names@) == n0 + items_calls(ev.take(i as int)),
        decreases es.len() - i,
    {
        assert(ev.take(i + 1).drop_last() =~= ev.take(i as int));
        calls_in_expr(&es[i], names);
        assert(strings_view(names@) =~= n0 + items_calls(ev.take(i + 1)));
        i += 1;
    }
    assert(ev.take(i as int) =~= ev);
}

fn calls_in_fields(fs: &Vec<(String, Expr)>, names: &mut Vec<String>)
    ensures
        strings_view(final(names)@) == strings_view(old(names)@) + fields_calls(fields_view(fs@)),
    decreases fs, 0int,
{
    let ghost n0 = strings_view(names@);
    let ghost fv = fields_view(fs@);
    let mut i: usize = 0;
    assert(n0 + fields_calls(fv.take(0)) =~= n0);
    while i < fs.len()
        invariant
            i <= fs.len(),
            fv == fields_view(fs@),
            n0 == strings_view(old(names)@),
            strings_view(names@) == n0 + fields_calls(fv.take(i as int)),
        decreases fs.len() - i,
    {
        assert(fv.take(i + 1).drop_last() =~= fv.take(i as int));
        calls_in_expr(&fs[i].1, names);
        assert(strings_view(names@) =~= n0 + fields_calls(fv.take(i + 1)));
        i += 1;
    }
    assert(fv.take(i as int) =~= fv);
}

/// Appends the names of the functions a statement calls.
fn calls_in_stmt(s: &Stmt, names: &mut Vec<String>)
    ensures
        strings_view(final(names)@) == strings_view(old(names)@) + stmt_calls(s.sv()),
    decreases s, 1int,
{
    let ghost n0 = strings_view(names@);
    proof { lemma_stmt_views(*s); }
    match s {
        Stmt::Assign(_, e) => calls_in_expr(e, names),
        Stmt::Print(e) => calls_in_expr(e, names),
        Stmt::Expr(e) => calls_in_expr(e, names),
        Stmt::Return(e) => calls_in_expr(e, names),
        Stmt::If(c, yes, no) => { calls_in_expr(c, names); calls_in_stmts(yes, names); calls_in_stmts(no, names); },
        Stmt::While(c, body) => { calls_in_expr(c, names); calls_in_stmts(body, names); },
        Stmt::For(_, it, body) => { calls_in_expr(it, names); calls_in_stmts(body, names); },
        Stmt::Function(_, _, body) => calls_in_stmts(body, names),
        Stmt::Use(_) => {},
    }
    assert(strings_view(names@) =~= n0 + stmt_calls(s.sv()));
}

fn calls_in_stmts(ss: &Vec<Stmt>, names: &mut Vec<String>)
    ensures
        strings_view(final(names)@) == strings_view(old(names)@) + call_names(stmts_view(ss@)),
    decreases ss, 0int,
{
    let ghost n0 = strings_view(names@);
    let ghost sv = stmts_view(ss@);
    let mut i: usize = 0;
    assert(n0 + call_names(sv.take(0)) =~= n0);
    while i < ss.len()
        invariant
            i <= ss.len(),
            sv == stmts_view(ss@),
            n0 == strings_view(old(names)@),
            strings_view(names@) == n0 + call_names(sv.take(i as int)),
        decreases ss.len() - i,
    {
        assert(sv.take(i + 1).drop_last() =~= sv.take(i as int));
        calls_in_stmt(&ss[i], names);
        assert(strings_view(names@) =~= n0 + call_names(sv.take(i + 1)));
        i += 1;
    }
    assert(sv.take(i as int) =~= sv);
}

pub open spec fn counts_view(v: Seq<(String, usize)>) -> Seq<(Seq<char>, nat)> {
    Seq::new(v.len(), |i: int| (v[i].0@, v[i].1 as nat))
}

fn find_count(c: &Vec<(String, usize)>, k: &String) -> (r: Option<usize>)
    ensures
        match key_index(counts_view(c@), k@) {
            Some(i) => r == Some(i as usize) && 0 <= i < c.len() && c@[i].0@ == k@,
            None => r is None,
        },
{
    let ghost e = counts_view(c@);
    let mut i = c.len();
    assert(e.take(i as int) =~= e);
    while i > 0
        invariant
            i <= c.len(),
            e == counts_view(c@),
            key_index(e, k@) == key_index(e.take(i as int), k@),
        decreases i,
    {
        let ghost t = e.take(i as int);
        assert(t.drop_last() =~= e.take(i - 1));
        assert(t.last() == e[i - 1]);
        if c[i - 1].0 == *k {
            return Some(i - 1);
        }
        i -= 1;
    }
    assert(e.take(0) =~= Seq::<(Seq<char>, nat)>::empty());
    None
}

/// The names with their numbers of occurrences, as `counts` says.
fn count_names(names: &Vec<String>) -> (r: Vec<(String, usize)>)
    ensures
        counts_view(r@) == counts(strings_view(names@)),
{
    let ghost nv = strings_view(names@);
    let mut c: Vec<(String, usize)> = Vec::new();
    let mut i: usize = 0;
    assert(nv.take(0) =~= Seq::<Seq<char>>::empty());
    assert(counts_view(c@) =~= Seq::<(Seq<char>, nat)>::empty());
    while i < names.len()
        invariant
            i <= names.len(),
            nv == strings_view(names@),
            counts_view(c@) == counts(nv.take(i as int)),
            forall|j: int| 0 <= j < c.len() ==> (#[trigger] c@[j]).1 <= i,
        decreases names.len() - i,
    {
        assert(nv.take(i + 1).drop_last() =~= nv.take(i as int));
        assert(nv.take(i + 1).last() == names@[i as int]@);
        let ghost cv = counts_view(c@);
        match find_count(&c, &names[i]) {
            None => {
                c.push((names[i].clone(), 1));
                assert(counts_view(c@) =~= cv.push((names@[i as int]@, 1nat)));
            },
            Some(k) => {
                let n = c[k].1 + 1;
                let name = c[k].0.clone();
                c.set(k, (name, n));
                assert(counts_view(c@) =~= cv.update(k as int, (names@[i as int]@, cv[k as int].1 + 1)));
            },
        }
        i += 1;
    }
    assert(nv.take(i as int) =~= nv);
    c
}


/// Appends a warning for each parameter the body never reads.
fn lint_params(params: &Vec<String>, used: &Vec<String>, out: &mut Vec<Diagnostic>)
    ensures
        diags_view(final(out)@) == diags_view(old(out)@) + param_diags(strings_view(params@), strings_view(used@)),
{
    let ghost d0 = diags_view(out@);
    let ghost pv = strings_view(params@);
    let mut i: usize = 0;
    assert(pv.take(0) =~= Seq::<Seq<char>>::empty());
    assert(d0 + param_diags(pv.take(0), strings_view(used@)) =~= d0);
    while i < params.len()
        invariant
            i <= params.len(),
            pv == strings_view(params@),
            d0 == diags_view(old(out)@),
            diags_view(out@) == d0 + param_diags(pv.take(i as int), strings_view(used@)),
        decreases params.len() - i,
    {
        assert(pv.take(i + 1).drop_last() =~= pv.take(i as int));
        assert(pv.take(i + 1).last() == params@[i as int]@);
        if !contains_string(used, &params[i]) {
            report(out, Severity::Warning, quoted("parâmetro '", &params[i], "' não é usado"));
        }
        assert(diags_view(out@) =~= d0 + param_diags(pv.take(i + 1), strings_view(used@)));
        i += 1;
    }
    assert(pv.take(i as int) =~= pv);
}

/// Appends the findings of a block, as `block_diags` of `prefix_lint`
/// says.
fn lint_block(ss: &Vec<Stmt>, in_loop: bool, out: &mut Vec<Diagnostic>)
    ensures
        diags_view(final(out)@) == diags_view(old(out)@) + block_diags(ss.len() as nat, prefix_lint(stmts_view(ss@), in_loop)),
    decreases ss, 0int,
{
    let ghost d0 = diags_view(out@);
    let ghost sv = stmts_view(ss@);
    if ss.len() == 0 {
        report(out, Severity::Warning, text("bloco vazio"));
        return;
    }
    let mut terminated = false;
    let mut stopped = false;
    let mut i: usize = 0;
    assert(sv.take(0) =~= Seq::<SStmt>::empty());
    assert(d0 + prefix_lint(sv.take(0), in_loop).diags =~= d0);
    while i < ss.len()
        invariant
            i <= ss.len(),
            sv == stmts_view(ss@),
            d0 == diags_view(old(out)@),
            diags_view(out@) == d0 + prefix_lint(sv.take(i as int), in_loop).diags,
            terminated == prefix_lint(sv.take(i as int), in_loop).terminated,
            stopped == prefix_lint(sv.take(i as int), in_loop).stopped,
        decreases ss.len() - i,
    {
        assert(sv.take(i + 1).drop_last() =~= sv.take(i as int));
        assert(sv.take(i + 1).last() == ss@[i as int].sv());
        if stopped {
        } else if terminated {
            report(out, Severity::Warning, text("código inalcançável após terminador do bloco"));
            stopped = true;
        } else {
            terminated = lint_stmt(&ss[i], in_loop, out);
        }
        assert(diags_view(out@) =~= d0 + prefix_lint(sv.take(i + 1), in_loop).diags);
        i += 1;
    }
    assert(sv.take(i as int) =~= sv);
}

/// Appends the findings of a statement and says whether it ends its
/// block, as `stmt_lint` says.
fn lint_stmt(s: &Stmt, in_loop: bool, out: &mut Vec<Diagnostic>) -> (r: bool)
    ensures
        diags_view(final(out)@) == diags_view(old(out)@) + stmt_lint(s.sv(), in_loop).0,
        r == stmt_lint(s.sv(), in_loop).1,
    decreases s, 1int,
{
    let ghost d0 = diags_view(out@);
    proof { lemma_stmt_views(*s); }
    match s {
        Stmt::Return(_) => {
            assert(diags_view(out@) =~= d0 + none());
            !in_loop
        },
        Stmt::If(c, yes, no) => {
            match c {
                Expr::Value(Value::Boolean(b)) => {
                    if *b {
                        report(out, Severity::Warning, text("condição do if é sempre verdadeira"));
                    } else {
                        report(out, Severity::Warning, text("condição do if é sempre falsa"));
                    }
                },
                _ => {},
            }
            let ghost d1 = diags_view(out@);
            lint_block(yes, in_loop, out);
            if no.len() > 0 {
                lint_block(no, in_loop, out);
            }
            assert(diags_view(out@) =~= d0 + stmt_lint(s.sv(), in_loop).0);
            false
        },
        Stmt::While(c, body) => {
            let never = match c { Expr::Value(Value::Boolean(b)) => !*b, _ => false };
            if never {
                report(out, Severity::Warning, text("while nunca será executado"));
            }
            lint_block(body, true, out);
            assert(diags_view(out@) =~= d0 + stmt_lint(s.sv(), in_loop).0);
            false
        },
        Stmt::For(_, it, body) => {
            let empty = match it { Expr::List(items) => items.len() == 0, _ => false };
            proof { lemma_expr_views(*it); }
            if empty {
                report(out, Severity::Warning, text("for sobre lista vazia não executa"));
            }
            lint_block(body, true, out);
            assert(diags_view(out@) =~= d0 + stmt_lint(s.sv(), in_loop).0);
            false
        },
        Stmt::Function(_, params, body) => {
            let mut used: Vec<String> = Vec::new();
            assert(strings_view(used@) =~= Seq::<Seq<char>>::empty());
            used_in_stmts(body, &mut used);
            lint_params(params, &used, out);
            lint_block(body, false, out);
            assert(diags_view(out@) =~= d0 + stmt_lint(s.sv(), in_loop).0);
            false
        },
        Stmt::Assign(_, e) => { lint_expr(e, out); false },
        Stmt::Print(e) => { lint_expr(e, out); false },
        Stmt::Expr(e) => { lint_expr(e, out); false },
        Stmt::Use(_) => {
            assert(diags_view(out@) =~= d0 + none());
            false
        },
    }
}

/// The findings for a program, as `spec_lint` says.
pub fn lint(program: &Vec<Stmt>) -> (r: Vec<Diagnostic>)
    ensures
        diags_view(r@) == spec_lint(stmts_view(program@)),
{
    let ghost sv = stmts_view(program@);
    let mut names: Vec<String> = Vec::new();
    assert(strings_view(names@) =~= Seq::<Seq<char>>::empty());
    decls_in_stmts(program, &mut names);
    assert(strings_view(names@) =~= decl_names(sv));
    let mut calls: Vec<String> = Vec::new();
    assert(strings_view(calls@) =~= Seq::<Seq<char>>::empty());
    calls_in_stmts(program, &mut calls);
    assert(strings_view(calls@) =~= call_names(sv));
    let c = count_names(&names);
    let ghost cv = counts_view(c@);
    let mut out: Vec<Diagnostic> = Vec::new();
    let mut i: usize = 0;
    assert(cv.take(0) =~= Seq::<(Seq<char>, nat)>::empty());
    assert(diags_view(out@) =~= duplicate_diags(cv.take(0)));
    while i < c.len()
        invariant
            i <= c.len(),
            cv == counts_view(c@),
            diags_view(out@) == duplicate_diags(cv.take(i as int)),
        decreases c.len() - i,
    {
        assert(cv.take(i + 1).drop_last() =~= cv.take(i as int));
        assert(cv.take(i + 1).last() == cv[i as int]);
        let ghost d0 = diags_view(out@);
        if c[i].1 > 1 {
            report(&mut out, Severity::Error, quoted("função '", &c[i].0, "' declarada mais de uma vez"));
        }
        let ghost d1 = diags_view(out@);
        let is_main = crate::semantic::eq_lit(&c[i].0, "main");
        if is_main && c[i].1 > 1 {
            report(&mut out, Severity::Error, text("main deve ser única"));
        }
        assert(diags_view(out@) =~= duplicate_diags(cv.take(i + 1)));
        i += 1;
    }
    assert(cv.take(i as int) =~= cv);
    let ghost dd = diags_view(out@);
    let mut j: usize = 0;
    assert(dd + unused_diags(cv.take(0), call_names(sv)) =~= dd);
    while j < c.len()
        invariant
            j <= c.len(),
            cv == counts_view(c@),
            strings_view(calls@) == call_names(sv),
            diags_view(out@) == dd + unused_diags(cv.take(j as int), call_names(sv)),
        decreases c.len() - j,
    {
        assert(cv.take(j + 1).drop_last() =~= cv.take(j as int));
        assert(cv.take(j + 1).last() == cv[j as int]);
        let is_main = crate::semantic::eq_lit(&c[j].0, "main");
        if !is_main && !contains_string(&calls, &c[j].0) {
            report(&mut out, Severity::Warning, quoted("função '", &c[j].0, "' não é chamada"));
        }
        assert(diags_view(out@) =~= dd + unused_diags(cv.take(j + 1), call_names(sv)));
        j += 1;
    }
    assert(cv.take(j as int) =~= cv);
    lint_block(program, false, &mut out);
    assert(diags_view(out@) =~= spec_lint(sv));
    out
}

} // verus!
