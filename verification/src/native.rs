//! The native backend's analysis: the frame slots of a function's
//! variables and, instruction by instruction, the kinds of the values on the
//! evaluation stack, found by a breadth-first walk of the control flow.
use vstd::prelude::*;
use crate::ir::{IrInst, SInst};
use crate::semantic::{lemma_table_push, lemma_table_take, table};
use crate::syntax::{Op, SValue, UnaryOp, Value, strings_view};

verus! {

/// What a value on the native stack is.
#[derive(Debug, Clone, Copy, PartialEq, Eq, Structural)]
pub enum Kind {
    Number,
    Boolean,
    Text,
}

/// A number or a boolean: what variables, arguments, conditions and return
/// values may hold.
pub open spec fn scalar(k: Kind) -> bool {
    k == Kind::Number || k == Kind::Boolean
}

/// Why a function cannot be compiled to native code. Each variant but the
/// first carries the index of the instruction concerned.
#[derive(Debug)]
pub enum NativeError {
    /// A function with more than 8 parameters.
    TooManyParameters,
    /// A frame with more variable or stack slots than native code allows.
    FrameTooLarge,
    /// An instruction reached without a known stack.
    MissingState(usize),
    /// A constant with no native representation (`null`).
    UnsupportedConst(usize),
    /// A load of a variable the function never defines.
    UnknownVariable(usize),
    StoreEmpty(usize),
    /// A store of a value that is neither a number nor a boolean.
    StoreKind(usize),
    /// A store that changes the kind of a variable: the old and new kind.
    KindChange(usize, Kind, Kind),
    BinaryRight(usize),
    BinaryLeft(usize),
    /// `==` or `!=` of operands of different kinds or that are not scalars.
    EqualityOperands(usize),
    /// An ordering comparison of operands that are not both numbers.
    OrderOperands(usize),
    /// `&&` or `||` of operands that are not scalars.
    LogicOperands(usize),
    /// Arithmetic on operands that are not both numbers.
    ArithmeticOperands(usize),
    UnaryEmpty(usize),
    /// A negation of a non-number or a `!` of a non-scalar.
    UnaryOperand(usize),
    FmaEmpty(usize),
    FmaKind(usize),
    /// A call with more than 8 arguments.
    TooManyArguments(usize),
    CallMissingArguments(usize),
    /// A call argument that is not a scalar.
    CallArgumentKind(usize),
    PrintEmpty(usize),
    PopEmpty(usize),
    ConditionEmpty(usize),
    ConditionKind(usize),
    ReturnEmpty(usize),
    ReturnKind(usize),
    /// Returns of two different kinds: the earlier and the new one.
    ReturnMismatch(usize, Kind, Kind),
    /// An instruction native code does not support.
    Unsupported(usize),
    /// Two paths reach an instruction with different stacks: the stack
    /// recorded first and the new one.
    Divergent(usize, Vec<Kind>, Vec<Kind>),
}

/// The mathematical view of a [`NativeError`].
pub enum SNativeError {
    TooManyParameters,
    FrameTooLarge,
    MissingState(nat),
    UnsupportedConst(nat),
    UnknownVariable(nat),
    StoreEmpty(nat),
    StoreKind(nat),
    KindChange(nat, Kind, Kind),
    BinaryRight(nat),
    BinaryLeft(nat),
    EqualityOperands(nat),
    OrderOperands(nat),
    LogicOperands(nat),
    ArithmeticOperands(nat),
    UnaryEmpty(nat),
    UnaryOperand(nat),
    FmaEmpty(nat),
    FmaKind(nat),
    TooManyArguments(nat),
    CallMissingArguments(nat),
    CallArgumentKind(nat),
    PrintEmpty(nat),
    PopEmpty(nat),
    ConditionEmpty(nat),
    ConditionKind(nat),
    ReturnEmpty(nat),
    ReturnKind(nat),
    ReturnMismatch(nat, Kind, Kind),
    Unsupported(nat),
    Divergent(nat, Seq<Kind>, Seq<Kind>),
}

impl View for NativeError {
    type V = SNativeError;

    open spec fn view(&self) -> SNativeError {
        match self {
            NativeError::TooManyParameters => SNativeError::TooManyParameters,
            NativeError::FrameTooLarge => SNativeError::FrameTooLarge,
            NativeError::MissingState(i) => SNativeError::MissingState(*i as nat),
            NativeError::UnsupportedConst(i) => SNativeError::UnsupportedConst(*i as nat),
            NativeError::UnknownVariable(i) => SNativeError::UnknownVariable(*i as nat),
            NativeError::StoreEmpty(i) => SNativeError::StoreEmpty(*i as nat),
            NativeError::StoreKind(i) => SNativeError::StoreKind(*i as nat),
            NativeError::KindChange(i, a, b) => SNativeError::KindChange(*i as nat, *a, *b),
            NativeError::BinaryRight(i) => SNativeError::BinaryRight(*i as nat),
            NativeError::BinaryLeft(i) => SNativeError::BinaryLeft(*i as nat),
            NativeError::EqualityOperands(i) => SNativeError::EqualityOperands(*i as nat),
            NativeError::OrderOperands(i) => SNativeError::OrderOperands(*i as nat),
            NativeError::LogicOperands(i) => SNativeError::LogicOperands(*i as nat),
            NativeError::ArithmeticOperands(i) => SNativeError::ArithmeticOperands(*i as nat),
            NativeError::UnaryEmpty(i) => SNativeError::UnaryEmpty(*i as nat),
            NativeError::UnaryOperand(i) => SNativeError::UnaryOperand(*i as nat),
            NativeError::FmaEmpty(i) => SNativeError::FmaEmpty(*i as nat),
            NativeError::FmaKind(i) => SNativeError::FmaKind(*i as nat),
            NativeError::TooManyArguments(i) => SNativeError::TooManyArguments(*i as nat),
            NativeError::CallMissingArguments(i) => SNativeError::CallMissingArguments(*i as nat),
            NativeError::CallArgumentKind(i) => SNativeError::CallArgumentKind(*i as nat),
            NativeError::PrintEmpty(i) => SNativeError::PrintEmpty(*i as nat),
            NativeError::PopEmpty(i) => SNativeError::PopEmpty(*i as nat),
            NativeError::ConditionEmpty(i) => SNativeError::ConditionEmpty(*i as nat),
            NativeError::ConditionKind(i) => SNativeError::ConditionKind(*i as nat),
            NativeError::ReturnEmpty(i) => SNativeError::ReturnEmpty(*i as nat),
            NativeError::ReturnKind(i) => SNativeError::ReturnKind(*i as nat),
            NativeError::ReturnMismatch(i, a, b) => SNativeError::ReturnMismatch(*i as nat, *a, *b),
            NativeError::Unsupported(i) => SNativeError::Unsupported(*i as nat),
            NativeError::Divergent(i, a, b) => SNativeError::Divergent(*i as nat, a@, b@),
        }
    }
}

/// A symbol made of the name's ASCII letters, digits and `_`, every other
/// character replaced by `_`.
pub open spec fn spec_sanitize(name: Seq<char>) -> Seq<char> {
    Seq::new(name.len(), |i: int| if is_symbol_char(name[i]) { name[i] } else { '_' })
}

pub open spec fn is_symbol_char(c: char) -> bool {
    ('a' <= c && c <= 'z') || ('A' <= c && c <= 'Z') || ('0' <= c && c <= '9') || c == '_'
}

/// The assembler symbol for a function name.
pub fn sanitize(name: &str) -> (r: String)
    ensures
        r@ == spec_sanitize(name@),
{
    let cs = crate::text::chars_of(name);
    let mut out: Vec<char> = Vec::new();
    let mut i: usize = 0;
    while i < cs.len()
        invariant
            i <= cs.len(),
            cs@ == name@,
            out@ == spec_sanitize(name@).take(i as int),
        decreases cs.len() - i,
    {
        let c = cs[i];
        let ok = ('a' <= c && c <= 'z') || ('A' <= c && c <= 'Z') || ('0' <= c && c <= '9') || c == '_';
        out.push(if ok { c } else { '_' });
        assert(out@ =~= spec_sanitize(name@).take(i + 1));
        i += 1;
    }
    assert(out@ =~= spec_sanitize(name@));
    crate::text::string_of(&out)
}

/// The frame offset of local variable `index`, below the saved base
/// pointer.
pub fn local_offset(index: usize) -> (r: isize)
    requires
        64 + 8 * index <= isize::MAX + 1,
    ensures
        r == -64 - 8 * index,
{
    let i = index as isize;
    -64 - i * 8
}

/// The frame offset of evaluation stack slot `slot`.
pub fn stack_offset(slot: usize) -> (r: isize)
    requires
        2048 + 8 * slot <= isize::MAX + 1,
    ensures
        r == -2048 - 8 * slot,
{
    let i = slot as isize;
    -2048 - i * 8
}

/// Whether an association list has an entry for `k`.
pub open spec fn has_key<V>(v: Seq<(Seq<char>, V)>, k: Seq<char>) -> bool {
    exists|i: int| 0 <= i < v.len() && (#[trigger] v[i]).0 == k
}

/// The index of the entry for `k`, if any.
pub open spec fn key_index<V>(v: Seq<(Seq<char>, V)>, k: Seq<char>) -> Option<int>
    decreases v.len(),
{
    if v.len() == 0 {
        None
    } else if v.last().0 == k {
        Some(v.len() - 1)
    } else {
        key_index(v.drop_last(), k)
    }
}

/// Sets the entry for `k` in place, or adds one at the end.
pub open spec fn assoc_set(v: Seq<(Seq<char>, nat)>, k: Seq<char>, x: nat) -> Seq<(Seq<char>, nat)> {
    match key_index(v, k) {
        Some(i) => v.update(i, (k, x)),
        None => v.push((k, x)),
    }
}

/// The parameters as slots `0..`: a repeated name keeps its last slot.
pub open spec fn param_slots(params: Seq<Seq<char>>) -> Seq<(Seq<char>, nat)>
    decreases params.len(),
{
    if params.len() == 0 {
        Seq::empty()
    } else {
        assoc_set(param_slots(params.drop_last()), params.last(), (params.len() - 1) as nat)
    }
}

/// Each stored variable not yet known gets the next free slot, in the
/// order of the code.
pub open spec fn store_slots(v: Seq<(Seq<char>, nat)>, code: Seq<SInst>) -> Seq<(Seq<char>, nat)>
    decreases code.len(),
{
    if code.len() == 0 {
        v
    } else {
        let v1 = store_slots(v, code.drop_last());
        match code.last() {
            SInst::Store(var) => if key_index(v1, var) is Some { v1 } else { v1.push((var, v1.len())) },
            _ => v1,
        }
    }
}

/// The frame slots of a function: its parameters, then its other
/// variables in the order they are first stored; at most 8 parameters.
pub open spec fn spec_initial_locals(params: Seq<Seq<char>>, code: Seq<SInst>) -> Result<Seq<(Seq<char>, nat)>, SNativeError> {
    if params.len() > 8 {
        Err(SNativeError::TooManyParameters)
    } else {
        Ok(store_slots(param_slots(params), code))
    }
}

/// The entries of a slot list.
pub open spec fn slots_view(v: Seq<(String, usize)>) -> Seq<(Seq<char>, nat)> {
    Seq::new(v.len(), |i: int| (v[i].0@, v[i].1 as nat))
}

/// The index of the entry for `k` in a slot list.
fn slot_index(v: &Vec<(String, usize)>, k: &String) -> (r: Option<usize>)
    ensures
        match key_index(slots_view(v@), k@) {
            Some(i) => r == Some(i as usize) && 0 <= i < v.len(),
            None => r is None,
        },
{
    let ghost e = slots_view(v@);
    let mut i = v.len();
    assert(e.take(i as int) =~= e);
    while i > 0
        invariant
            i <= v.len(),
            e == slots_view(v@),
            key_index(e, k@) == key_index(e.take(i as int), k@),
        decreases i,
    {
        let ghost t = e.take(i as int);
        assert(t.drop_last() =~= e.take(i - 1));
        assert(t.last() == e[i - 1]);
        if v[i - 1].0 == *k {
            return Some(i - 1);
        }
        i -= 1;
    }
    assert(e.take(0) =~= Seq::<(Seq<char>, nat)>::empty());
    None
}

proof fn lemma_key_index_bound<V>(v: Seq<(Seq<char>, V)>, k: Seq<char>)
    ensures
        match key_index(v, k) {
            Some(i) => 0 <= i < v.len() && v[i].0 == k,
            None => true,
        },
    decreases v.len(),
{
    if v.len() > 0 && v.last().0 != k {
        lemma_key_index_bound(v.drop_last(), k);
    }
}

/// A value a table holds comes from one of its entries.
pub proof fn lemma_table_value<V>(e: Seq<(Seq<char>, V)>, k: Seq<char>)
    requires
        table(e).contains_key(k),
    ensures
        exists|i: int| 0 <= i < e.len() && (#[trigger] e[i]).0 == k && e[i].1 == table(e)[k],
    decreases e.len(),
{
    if e.last().0 == k {
        assert(e[e.len() - 1].1 == table(e)[k]);
    } else {
        lemma_table_value(e.drop_last(), k);
        let i = choose|i: int| 0 <= i < e.drop_last().len() && (#[trigger] e.drop_last()[i]).0 == k && e.drop_last()[i].1 == table(e.drop_last())[k];
        assert(e[i] == e.drop_last()[i]);
    }
}

proof fn lemma_param_slots_bound(params: Seq<Seq<char>>)
    ensures
        forall|i: int| 0 <= i < param_slots(params).len() ==> (#[trigger] param_slots(params)[i]).1 < params.len(),
    decreases params.len(),
{
    if params.len() > 0 {
        let p = params.drop_last();
        lemma_param_slots_bound(p);
        lemma_key_index_bound(param_slots(p), params.last());
    }
}

proof fn lemma_store_slots_bound(v: Seq<(Seq<char>, nat)>, code: Seq<SInst>, b: nat)
    requires
        forall|i: int| 0 <= i < v.len() ==> (#[trigger] v[i]).1 < b + v.len(),
    ensures
        store_slots(v, code).len() >= v.len(),
        forall|i: int| 0 <= i < store_slots(v, code).len() ==> (#[trigger] store_slots(v, code)[i]).1 < b + store_slots(v, code).len(),
    decreases code.len(),
{
    if code.len() > 0 {
        lemma_store_slots_bound(v, code.drop_last(), b);
    }
}

/// Every slot is below 8 plus the number of slots: the parameters take
/// slots below 8, every other variable the next free one.
pub proof fn lemma_slots_bound(params: Seq<Seq<char>>, code: Seq<SInst>, k: Seq<char>)
    requires
        params.len() <= 8,
        table(store_slots(param_slots(params), code)).contains_key(k),
    ensures
        table(store_slots(param_slots(params), code))[k] < 8 + store_slots(param_slots(params), code).len(),
{
    lemma_param_slots_bound(params);
    lemma_store_slots_bound(param_slots(params), code, 8);
    lemma_table_value(store_slots(param_slots(params), code), k);
}

/// Every variable the code stores to has a slot.
pub proof fn lemma_store_has_slot(v: Seq<(Seq<char>, nat)>, code: Seq<SInst>, i: int)
    requires
        0 <= i < code.len(),
        code[i] is Store,
    ensures
        table(store_slots(v, code)).contains_key(code[i]->Store_0),
    decreases code.len(),
{
    let c1 = code.drop_last();
    let v1 = store_slots(v, c1);
    if i < code.len() - 1 {
        lemma_store_has_slot(v, c1, i);
        assert(c1[i] == code[i]);
        match code.last() {
            SInst::Store(var) => {
                if key_index(v1, var) is None {
                    lemma_table_push(v1, (var, v1.len()));
                }
            },
            _ => {},
        }
    } else {
        let var = code[i]->Store_0;
        match key_index(v1, var) {
            Some(j) => {
                lemma_key_index_bound(v1, var);
                lemma_table_has(v1, j);
            },
            None => {
                lemma_table_push(v1, (var, v1.len()));
            },
        }
    }
}

/// A table has the key of each of its entries.
pub proof fn lemma_table_has<V>(e: Seq<(Seq<char>, V)>, j: int)
    requires
        0 <= j < e.len(),
    ensures
        table(e).contains_key(e[j].0),
    decreases e.len(),
{
    if j < e.len() - 1 {
        lemma_table_has(e.drop_last(), j);
        assert(e.drop_last()[j] == e[j]);
    }
}

/// The frame slots of a function, as `spec_initial_locals` says.
pub fn initial_locals(params: &Vec<String>, code: &Vec<IrInst>) -> (r: Result<Vec<(String, usize)>, NativeError>)
    ensures
        match spec_initial_locals(strings_view(params@), crate::ir::code_view(code@)) {
            Ok(s) => r is Ok && slots_view(r->Ok_0@) == s,
            Err(e) => r is Err && r->Err_0@ == e,
        },
{
    let ghost ps = strings_view(params@);
    let ghost cv = crate::ir::code_view(code@);
    if params.len() > 8 {
        return Err(NativeError::TooManyParameters);
    }
    let mut locals: Vec<(String, usize)> = Vec::new();
    let mut i: usize = 0;
    assert(ps.take(0) =~= Seq::<Seq<char>>::empty());
    assert(slots_view(locals@) =~= Seq::<(Seq<char>, nat)>::empty());
    while i < params.len()
        invariant
            i <= params.len() <= 8,
            ps == strings_view(params@),
            slots_view(locals@) == param_slots(ps.take(i as int)),
            locals.len() <= i,
        decreases params.len() - i,
    {
        assert(ps.take(i + 1).drop_last() =~= ps.take(i as int));
        assert(ps.take(i + 1).last() == params@[i as int]@);
        let ghost before = slots_view(locals@);
        match slot_index(&locals, &params[i]) {
            Some(j) => {
                locals.set(j, (params[i].clone(), i));
                assert(slots_view(locals@) =~= before.update(j as int, (params@[i as int]@, i as nat)));
            },
            None => {
                locals.push((params[i].clone(), i));
                assert(slots_view(locals@) =~= before.push((params@[i as int]@, i as nat)));
            },
        }
        i += 1;
    }
    assert(ps.take(params.len() as int) =~= ps);
    let ghost base = slots_view(locals@);
    let mut k: usize = 0;
    assert(cv.take(0) =~= Seq::<SInst>::empty());
    while k < code.len()
        invariant
            k <= code.len(),
            cv == crate::ir::code_view(code@),
            slots_view(locals@) == store_slots(base, cv.take(k as int)),
        decreases code.len() - k,
    {
        assert(cv.take(k + 1).drop_last() =~= cv.take(k as int));
        assert(cv.take(k + 1).last() == code@[k as int]@);
        match &code[k] {
            IrInst::Store(var) => {
                let ghost before = slots_view(locals@);
                match slot_index(&locals, var) {
                    Some(_) => {},
                    None => {
                        let index = locals.len();
                        locals.push((var.clone(), index));
                        assert(slots_view(locals@) =~= before.push((var@, index as nat)));
                    },
                }
            },
            _ => {},
        }
        k += 1;
    }
    assert(cv.take(code.len() as int) =~= cv);
    Ok(locals)
}


/// Whether a popped value passes an instruction's check: a number, or any
/// scalar.
pub open spec fn kind_ok(k: Kind, numbers_only: bool) -> bool {
    if numbers_only { k == Kind::Number } else { scalar(k) }
}

/// Pops `n` values one at a time, each checked: the rest of the stack, or
/// `Err(true)` when the stack runs out and `Err(false)` at a value that
/// fails the check.
pub open spec fn pop_checked(stack: Seq<Kind>, n: nat, numbers_only: bool) -> Result<Seq<Kind>, bool>
    decreases n,
{
    if n == 0 {
        Ok(stack)
    } else if stack.len() == 0 {
        Err(true)
    } else if !kind_ok(stack.last(), numbers_only) {
        Err(false)
    } else {
        pop_checked(stack.drop_last(), (n - 1) as nat, numbers_only)
    }
}

/// The kind of a binary operation's result, if its operands suit it.
pub open spec fn binary_kind(op: Op, left: Kind, right: Kind) -> Option<Kind> {
    match op {
        Op::Eq | Op::Ne => if left == right && scalar(left) { Some(Kind::Boolean) } else { None },
        Op::Gt | Op::Ge | Op::Lt | Op::Le => if left == Kind::Number && right == Kind::Number { Some(Kind::Boolean) } else { None },
        Op::And | Op::Or => if scalar(left) && scalar(right) { Some(Kind::Boolean) } else { None },
        _ => if left == Kind::Number && right == Kind::Number { Some(Kind::Number) } else { None },
    }
}

/// The error for operands that do not suit a binary operation.
pub open spec fn binary_error(ip: nat, op: Op) -> SNativeError {
    match op {
        Op::Eq | Op::Ne => SNativeError::EqualityOperands(ip),
        Op::Gt | Op::Ge | Op::Lt | Op::Le => SNativeError::OrderOperands(ip),
        Op::And | Op::Or => SNativeError::LogicOperands(ip),
        _ => SNativeError::ArithmeticOperands(ip),
    }
}

/// What the instruction at `ip` does to the stack of kinds, the kinds of
/// the variables and the function's return kind; `locals` are the frame
/// slots and `fn_returns` the return kinds of the functions analyzed so far.
pub open spec fn transfer(
    ip: nat,
    inst: SInst,
    stack: Seq<Kind>,
    kinds: Map<Seq<char>, Kind>,
    ret: Option<Kind>,
    locals: Map<Seq<char>, nat>,
    fn_returns: Map<Seq<char>, Kind>,
) -> Result<(Seq<Kind>, Map<Seq<char>, Kind>, Option<Kind>), SNativeError> {
    match inst {
        SInst::Const(SValue::Number(_)) => Ok((stack.push(Kind::Number), kinds, ret)),
        SInst::Const(SValue::Boolean(_)) => Ok((stack.push(Kind::Boolean), kinds, ret)),
        SInst::Const(SValue::Text(_)) => Ok((stack.push(Kind::Text), kinds, ret)),
        SInst::Const(SValue::Null) => Err(SNativeError::UnsupportedConst(ip)),
        SInst::Load(var) => if !locals.contains_key(var) {
            Err(SNativeError::UnknownVariable(ip))
        } else {
            Ok((stack.push(if kinds.contains_key(var) { kinds[var] } else { Kind::Number }), kinds, ret))
        },
        SInst::Store(var) => if stack.len() == 0 {
            Err(SNativeError::StoreEmpty(ip))
        } else if !scalar(stack.last()) {
            Err(SNativeError::StoreKind(ip))
        } else if !kinds.contains_key(var) {
            Ok((stack.drop_last(), kinds.insert(var, stack.last()), ret))
        } else if kinds[var] == stack.last() {
            Ok((stack.drop_last(), kinds, ret))
        } else {
            Err(SNativeError::KindChange(ip, kinds[var], stack.last()))
        },
        SInst::Binary(op) => if stack.len() == 0 {
            Err(SNativeError::BinaryRight(ip))
        } else if stack.len() == 1 {
            Err(SNativeError::BinaryLeft(ip))
        } else {
            match binary_kind(op, stack[stack.len() - 2], stack.last()) {
                Some(k) => Ok((stack.drop_last().drop_last().push(k), kinds, ret)),
                None => Err(binary_error(ip, op)),
            }
        },
        SInst::Unary(op) => if stack.len() == 0 {
            Err(SNativeError::UnaryEmpty(ip))
        } else {
            match op {
                UnaryOp::Neg => if stack.last() == Kind::Number {
                    Ok((stack.drop_last().push(Kind::Number), kinds, ret))
                } else {
                    Err(SNativeError::UnaryOperand(ip))
                },
                UnaryOp::Not => if scalar(stack.last()) {
                    Ok((stack.drop_last().push(Kind::Boolean), kinds, ret))
                } else {
                    Err(SNativeError::UnaryOperand(ip))
                },
            }
        },
        SInst::FusedMulAdd => match pop_checked(stack, 3, true) {
            Ok(rest) => Ok((rest.push(Kind::Number), kinds, ret)),
            Err(empty) => Err(if empty { SNativeError::FmaEmpty(ip) } else { SNativeError::FmaKind(ip) }),
        },
        SInst::Call(callee, count) => if count > 8 {
            Err(SNativeError::TooManyArguments(ip))
        } else {
            match pop_checked(stack, count, false) {
                Ok(rest) => Ok((rest.push(if fn_returns.contains_key(callee) { fn_returns[callee] } else { Kind::Number }), kinds, ret)),
                Err(empty) => Err(if empty { SNativeError::CallMissingArguments(ip) } else { SNativeError::CallArgumentKind(ip) }),
            }
        },
        SInst::Print => if stack.len() == 0 { Err(SNativeError::PrintEmpty(ip)) } else { Ok((stack.drop_last(), kinds, ret)) },
        SInst::Pop => if stack.len() == 0 { Err(SNativeError::PopEmpty(ip)) } else { Ok((stack.drop_last(), kinds, ret)) },
        SInst::JumpIfFalse(_) => if stack.len() == 0 {
            Err(SNativeError::ConditionEmpty(ip))
        } else if !scalar(stack.last()) {
            Err(SNativeError::ConditionKind(ip))
        } else {
            Ok((stack.drop_last(), kinds, ret))
        },
        SInst::Jump(_) => Ok((stack, kinds, ret)),
        SInst::Return => if stack.len() == 0 {
            Err(SNativeError::ReturnEmpty(ip))
        } else if !scalar(stack.last()) {
            Err(SNativeError::ReturnKind(ip))
        } else {
            match ret {
                None => Ok((stack.drop_last(), kinds, Some(stack.last()))),
                Some(previous) => if previous == stack.last() {
                    Ok((stack.drop_last(), kinds, ret))
                } else {
                    Err(SNativeError::ReturnMismatch(ip, previous, stack.last()))
                },
            }
        },
        _ => Err(SNativeError::Unsupported(ip)),
    }
}

/// The instructions control can reach next from `ip`.
pub open spec fn successors(ip: nat, inst: SInst, len: nat) -> Seq<nat> {
    match inst {
        SInst::Jump(t) => seq![t],
        SInst::JumpIfFalse(t) => if ip + 1 < len { seq![ip + 1, t] } else { seq![t] },
        SInst::Return => Seq::empty(),
        _ => if ip + 1 < len { seq![(ip + 1) as nat] } else { Seq::empty() },
    }
}

/// Hands a stack on to the successors in order: one inside the code that
/// has no stack yet gets it and joins the queue; one that has must have the
/// same.
pub open spec fn merge(
    states: Seq<Option<Seq<Kind>>>,
    work: Seq<nat>,
    succ: Seq<nat>,
    next: Seq<Kind>,
) -> Result<(Seq<Option<Seq<Kind>>>, Seq<nat>), SNativeError>
    decreases succ.len(),
{
    if succ.len() == 0 {
        Ok((states, work))
    } else {
        let s = succ[0];
        if s >= states.len() {
            merge(states, work, succ.drop_first(), next)
        } else {
            match states[s as int] {
                None => merge(states.update(s as int, Some(next)), work.push(s), succ.drop_first(), next),
                Some(existing) => if existing == next {
                    merge(states, work, succ.drop_first(), next)
                } else {
                    Err(SNativeError::Divergent(s, existing, next))
                },
            }
        }
    }
}

/// The number of instructions with no stack yet.
pub open spec fn unvisited(states: Seq<Option<Seq<Kind>>>) -> nat
    decreases states.len(),
{
    if states.len() == 0 {
        0
    } else {
        unvisited(states.drop_last()) + if states.last() is None { 1nat } else { 0nat }
    }
}

proof fn lemma_unreached_update(states: Seq<Option<Seq<Kind>>>, i: int, x: Seq<Kind>)
    requires
        0 <= i < states.len(),
        states[i] is None,
    ensures
        unvisited(states.update(i, Some(x))) + 1 == unvisited(states),
    decreases states.len(),
{
    let u = states.update(i, Some(x));
    if i < states.len() - 1 {
        assert(u.drop_last() =~= states.drop_last().update(i, Some(x)));
        lemma_unreached_update(states.drop_last(), i, x);
    } else {
        assert(u.drop_last() =~= states.drop_last());
    }
}

pub proof fn lemma_merge(states: Seq<Option<Seq<Kind>>>, work: Seq<nat>, succ: Seq<nat>, next: Seq<Kind>)
    ensures
        match merge(states, work, succ, next) {
            Ok((s2, w2)) => s2.len() == states.len()
                && unvisited(s2) + w2.len() == unvisited(states) + work.len()
                && unvisited(s2) <= unvisited(states),
            Err(_) => true,
        },
    decreases succ.len(),
{
    if succ.len() > 0 {
        let s = succ[0];
        if s >= states.len() {
            lemma_merge(states, work, succ.drop_first(), next);
        } else {
            match states[s as int] {
                None => {
                    lemma_unreached_update(states, s as int, next);
                    lemma_merge(states.update(s as int, Some(next)), work.push(s), succ.drop_first(), next);
                },
                Some(_) => {
                    lemma_merge(states, work, succ.drop_first(), next);
                },
            }
        }
    }
}

/// The analysis between two steps: the stack recorded for each
/// instruction, the queue of instructions to visit, the deepest stack seen,
/// the kinds of the variables and the return kind.
pub struct Analysis {
    pub states: Seq<Option<Seq<Kind>>>,
    pub work: Seq<nat>,
    pub max_stack: nat,
    pub kinds: Map<Seq<char>, Kind>,
    pub ret: Option<Kind>,
}

pub open spec fn max_nat(a: nat, b: nat) -> nat {
    if a >= b { a } else { b }
}

/// Visits the queued instructions in order until the queue is empty.
pub open spec fn run(code: Seq<SInst>, locals: Map<Seq<char>, nat>, fn_returns: Map<Seq<char>, Kind>, st: Analysis) -> Result<Analysis, SNativeError>
    decreases unvisited(st.states), st.work.len(),
{
    if st.work.len() == 0 {
        Ok(st)
    } else {
        let ip = st.work[0];
        let work = st.work.drop_first();
        if ip >= st.states.len() || st.states[ip as int] is None || st.states.len() != code.len() {
            Err(SNativeError::MissingState(ip))
        } else {
            let state = st.states[ip as int]->0;
            match transfer(ip, code[ip as int], state, st.kinds, st.ret, locals, fn_returns) {
                Err(e) => Err(e),
                Ok((next, kinds, ret)) => {
                    let max = max_nat(max_nat(st.max_stack, state.len()), next.len());
                    match merge(st.states, work, successors(ip, code[ip as int], code.len()), next) {
                        Err(e) => Err(e),
                        Ok((states, work2)) => {
                            proof { lemma_merge(st.states, work, successors(ip, code[ip as int], code.len()), next); }
                            run(code, locals, fn_returns, Analysis { states, work: work2, max_stack: max, kinds, ret })
                        },
                    }
                },
            }
        }
    }
}

/// Every recorded stack is at most `m` deep.
pub open spec fn within(states: Seq<Option<Seq<Kind>>>, m: nat) -> bool {
    forall|i: int| 0 <= i < states.len() && (#[trigger] states[i]) is Some ==> states[i]->0.len() <= m
}

proof fn lemma_merge_within(states: Seq<Option<Seq<Kind>>>, work: Seq<nat>, succ: Seq<nat>, next: Seq<Kind>, m: nat)
    requires
        within(states, m),
        next.len() <= m,
    ensures
        merge(states, work, succ, next) is Ok ==> within(merge(states, work, succ, next)->Ok_0.0, m),
    decreases succ.len(),
{
    if succ.len() > 0 {
        let s = succ[0];
        if s >= states.len() {
            lemma_merge_within(states, work, succ.drop_first(), next, m);
        } else {
            match states[s as int] {
                None => {
                    let u = states.update(s as int, Some(next));
                    assert forall|i: int| 0 <= i < u.len() && (#[trigger] u[i]) is Some implies u[i]->0.len() <= m by {
                        if i != s {
                            assert(u[i] == states[i]);
                        }
                    }
                    lemma_merge_within(u, work.push(s), succ.drop_first(), next, m);
                },
                Some(_) => {
                    lemma_merge_within(states, work, succ.drop_first(), next, m);
                },
            }
        }
    }
}

/// What every run of the analysis keeps: the recorded stacks stay one per
/// instruction, none deeper than the deepest stack reported.
pub proof fn lemma_run_within(code: Seq<SInst>, locals: Map<Seq<char>, nat>, fn_returns: Map<Seq<char>, Kind>, st: Analysis)
    requires
        within(st.states, st.max_stack),
        st.states.len() == code.len(),
    ensures
        run(code, locals, fn_returns, st) is Ok ==> {
            let a = run(code, locals, fn_returns, st)->Ok_0;
            within(a.states, a.max_stack) && a.states.len() == code.len()
        },
    decreases unvisited(st.states), st.work.len(),
{
    if st.work.len() > 0 {
        let ip = st.work[0];
        let work = st.work.drop_first();
        if !(ip >= st.states.len() || st.states[ip as int] is None || st.states.len() != code.len()) {
            let state = st.states[ip as int]->0;
            match transfer(ip, code[ip as int], state, st.kinds, st.ret, locals, fn_returns) {
                Err(e) => {},
                Ok((next, kinds, ret)) => {
                    let max = max_nat(max_nat(st.max_stack, state.len()), next.len());
                    let sv = successors(ip, code[ip as int], code.len());
                    lemma_merge(st.states, work, sv, next);
                    assert(within(st.states, max));
                    lemma_merge_within(st.states, work, sv, next, max);
                    match merge(st.states, work, sv, next) {
                        Err(e) => {},
                        Ok((states, work2)) => {
                            lemma_run_within(code, locals, fn_returns, Analysis { states, work: work2, max_stack: max, kinds, ret });
                        },
                    }
                },
            }
        }
    }
}

/// Every stack the analysis records is at most as deep as the deepest
/// stack it reports, and there is one entry per instruction.
pub proof fn lemma_analysis_within(code: Seq<SInst>, locals: Map<Seq<char>, nat>, params: Seq<Seq<char>>, fn_returns: Map<Seq<char>, Kind>)
    ensures
        spec_analyze_stack(code, locals, params, fn_returns) is Ok ==> {
            let a = spec_analyze_stack(code, locals, params, fn_returns)->Ok_0;
            within(a.states, a.max_stack) && a.states.len() == code.len()
        },
{
    let st = initial_analysis(code.len(), params);
    assert(within(st.states, st.max_stack));
    lemma_run_within(code, locals, fn_returns, st);
}

/// The kinds of the parameters: all numbers.
pub open spec fn param_kinds(params: Seq<Seq<char>>) -> Map<Seq<char>, Kind>
    decreases params.len(),
{
    if params.len() == 0 {
        Map::empty()
    } else {
        param_kinds(params.drop_last()).insert(params.last(), Kind::Number)
    }
}

/// The analysis before the first step: only the entry has a stack, the
/// empty one.
pub open spec fn initial_analysis(len: nat, params: Seq<Seq<char>>) -> Analysis {
    Analysis {
        states: if len > 0 { Seq::new(len, |i: int| None::<Seq<Kind>>).update(0, Some(Seq::empty())) } else { Seq::empty() },
        work: if len > 0 { seq![0nat] } else { Seq::empty() },
        max_stack: 0,
        kinds: param_kinds(params),
        ret: None,
    }
}

/// The stack analysis of a function's code.
pub open spec fn spec_analyze_stack(code: Seq<SInst>, locals: Map<Seq<char>, nat>, params: Seq<Seq<char>>, fn_returns: Map<Seq<char>, Kind>) -> Result<Analysis, SNativeError> {
    run(code, locals, fn_returns, initial_analysis(code.len(), params))
}


/// The entries of a list of variable or function kinds.
pub open spec fn kind_entries(v: Seq<(String, Kind)>) -> Seq<(Seq<char>, Kind)> {
    Seq::new(v.len(), |i: int| (v[i].0@, v[i].1))
}

/// The recorded stacks.
pub open spec fn states_view(v: Seq<Option<Vec<Kind>>>) -> Seq<Option<Seq<Kind>>> {
    Seq::new(v.len(), |i: int| match v[i] { Some(s) => Some(s@), None => None })
}

/// The queue: the entries from `head` on.
pub open spec fn queue_view(v: Seq<usize>, head: int) -> Seq<nat> {
    Seq::new((v.len() - head) as nat, |i: int| v[head + i] as nat)
}

/// The kind recorded for `k` (its last entry).
fn kind_get(v: &Vec<(String, Kind)>, k: &String) -> (r: Option<Kind>)
    ensures
        match r {
            Some(x) => table(kind_entries(v@)).contains_key(k@) && table(kind_entries(v@))[k@] == x,
            None => !table(kind_entries(v@)).contains_key(k@),
        },
{
    let ghost e = kind_entries(v@);
    assert(e.take(e.len() as int) =~= e);
    let mut i = v.len();
    while i > 0
        invariant
            i <= v.len(),
            e == kind_entries(v@),
            table(e.take(i as int)).contains_key(k@) == table(e).contains_key(k@),
            table(e.take(i as int)).contains_key(k@) ==> table(e.take(i as int))[k@] == table(e)[k@],
        decreases i,
    {
        proof { lemma_table_take(e, i as int); }
        if v[i - 1].0 == *k {
            return Some(v[i - 1].1);
        }
        i -= 1;
    }
    assert(e.take(0) =~= Seq::<(Seq<char>, Kind)>::empty());
    None
}

/// Whether a slot list has an entry for `k`.
fn slot_known(v: &Vec<(String, usize)>, k: &String) -> (r: bool)
    ensures
        r == table(slots_view(v@)).contains_key(k@),
{
    let ghost e = slots_view(v@);
    assert(e.take(e.len() as int) =~= e);
    let mut i = v.len();
    while i > 0
        invariant
            i <= v.len(),
            e == slots_view(v@),
            table(e.take(i as int)).contains_key(k@) == table(e).contains_key(k@),
        decreases i,
    {
        proof { lemma_table_take(e, i as int); }
        if v[i - 1].0 == *k {
            return true;
        }
        i -= 1;
    }
    assert(e.take(0) =~= Seq::<(Seq<char>, nat)>::empty());
    false
}

fn copy_kinds(v: &Vec<Kind>) -> (r: Vec<Kind>)
    ensures
        r@ == v@,
{
    let mut out: Vec<Kind> = Vec::new();
    let mut i: usize = 0;
    while i < v.len()
        invariant
            i <= v.len(),
            out@ == v@.take(i as int),
        decreases v.len() - i,
    {
        out.push(v[i]);
        assert(out@ =~= v@.take(i + 1));
        i += 1;
    }
    assert(v@.take(v.len() as int) =~= v@);
    out
}

fn kinds_eq(a: &Vec<Kind>, b: &Vec<Kind>) -> (r: bool)
    ensures
        r == (a@ == b@),
{
    if a.len() != b.len() {
        return false;
    }
    let mut i: usize = 0;
    while i < a.len()
        invariant
            i <= a.len() == b.len(),
            forall|j: int| 0 <= j < i ==> a@[j] == b@[j],
        decreases a.len() - i,
    {
        if a[i] != b[i] {
            return false;
        }
        i += 1;
    }
    assert(a@ =~= b@);
    true
}

/// Pops `n` checked values, as `pop_checked` says.
fn pop_n(stack: &mut Vec<Kind>, n: usize, numbers_only: bool) -> (r: Result<(), bool>)
    ensures
        match pop_checked(old(stack)@, n as nat, numbers_only) {
            Ok(rest) => r is Ok && final(stack)@ == rest,
            Err(b) => r == Err::<(), bool>(b),
        },
{
    let mut k: usize = 0;
    while k < n
        invariant
            k <= n,
            pop_checked(old(stack)@, n as nat, numbers_only) == pop_checked(stack@, (n - k) as nat, numbers_only),
        decreases n - k,
    {
        if stack.len() == 0 {
            return Err(true);
        }
        let top = stack[stack.len() - 1];
        let ok = if numbers_only { top == Kind::Number } else { top == Kind::Number || top == Kind::Boolean };
        if !ok {
            return Err(false);
        }
        stack.pop();
        k += 1;
    }
    Ok(())
}

/// A store, as `transfer` says.
fn step_store(ip: usize, var: &String, next: &mut Vec<Kind>, kinds: &mut Vec<(String, Kind)>) -> (r: Result<(), NativeError>)
    ensures
        forall|ret: Option<Kind>, l: Map<Seq<char>, nat>, f: Map<Seq<char>, Kind>|
            match #[trigger] transfer(ip as nat, SInst::Store(var@), old(next)@, table(kind_entries(old(kinds)@)), ret, l, f) {
                Ok((n, k, rk)) => r is Ok && final(next)@ == n && table(kind_entries(final(kinds)@)) == k && rk == ret,
                Err(e) => r is Err && r->Err_0@ == e,
            },
{
    if next.len() == 0 {
        return Err(NativeError::StoreEmpty(ip));
    }
    let value = next[next.len() - 1];
    if !(value == Kind::Number || value == Kind::Boolean) {
        return Err(NativeError::StoreKind(ip));
    }
    match kind_get(kinds, var) {
        None => {
            let ghost before = kind_entries(kinds@);
            kinds.push((var.clone(), value));
            assert(kind_entries(kinds@) =~= before.push((var@, value)));
            proof { lemma_table_push(before, (var@, value)); }
        },
        Some(previous) => {
            if previous != value {
                return Err(NativeError::KindChange(ip, previous, value));
            }
        },
    }
    next.pop();
    Ok(())
}

/// A binary operation, as `transfer` says.
fn step_binary(ip: usize, op: Op, next: &mut Vec<Kind>) -> (r: Result<(), NativeError>)
    ensures
        forall|k: Map<Seq<char>, Kind>, ret: Option<Kind>, l: Map<Seq<char>, nat>, f: Map<Seq<char>, Kind>|
            match #[trigger] transfer(ip as nat, SInst::Binary(op), old(next)@, k, ret, l, f) {
                Ok((n, k2, rk)) => r is Ok && final(next)@ == n && k2 == k && rk == ret,
                Err(e) => r is Err && r->Err_0@ == e,
            },
{
    if next.len() == 0 {
        return Err(NativeError::BinaryRight(ip));
    }
    if next.len() == 1 {
        return Err(NativeError::BinaryLeft(ip));
    }
    let right = next[next.len() - 1];
    let left = next[next.len() - 2];
    let result = match op {
        Op::Eq | Op::Ne => if left == right && (left == Kind::Number || left == Kind::Boolean) { Ok(Kind::Boolean) } else { Err(NativeError::EqualityOperands(ip)) },
        Op::Gt | Op::Ge | Op::Lt | Op::Le => if left == Kind::Number && right == Kind::Number { Ok(Kind::Boolean) } else { Err(NativeError::OrderOperands(ip)) },
        Op::And | Op::Or => if (left == Kind::Number || left == Kind::Boolean) && (right == Kind::Number || right == Kind::Boolean) { Ok(Kind::Boolean) } else { Err(NativeError::LogicOperands(ip)) },
        _ => if left == Kind::Number && right == Kind::Number { Ok(Kind::Number) } else { Err(NativeError::ArithmeticOperands(ip)) },
    };
    match result {
        Err(e) => Err(e),
        Ok(k) => {
            next.pop();
            next.pop();
            next.push(k);
            Ok(())
        },
    }
}

/// A unary operation, as `transfer` says.
fn step_unary(ip: usize, op: UnaryOp, next: &mut Vec<Kind>) -> (r: Result<(), NativeError>)
    ensures
        forall|k: Map<Seq<char>, Kind>, ret: Option<Kind>, l: Map<Seq<char>, nat>, f: Map<Seq<char>, Kind>|
            match #[trigger] transfer(ip as nat, SInst::Unary(op), old(next)@, k, ret, l, f) {
                Ok((n, k2, rk)) => r is Ok && final(next)@ == n && k2 == k && rk == ret,
                Err(e) => r is Err && r->Err_0@ == e,
            },
{
    if next.len() == 0 {
        return Err(NativeError::UnaryEmpty(ip));
    }
    let value = next[next.len() - 1];
    match op {
        UnaryOp::Neg => {
            if value != Kind::Number {
                return Err(NativeError::UnaryOperand(ip));
            }
            next.pop();
            next.push(Kind::Number);
        },
        UnaryOp::Not => {
            if !(value == Kind::Number || value == Kind::Boolean) {
                return Err(NativeError::UnaryOperand(ip));
            }
            next.pop();
            next.push(Kind::Boolean);
        },
    }
    Ok(())
}

/// A return, as `transfer` says.
fn step_return(ip: usize, next: &mut Vec<Kind>, ret: &mut Option<Kind>) -> (r: Result<(), NativeError>)
    ensures
        forall|k: Map<Seq<char>, Kind>, l: Map<Seq<char>, nat>, f: Map<Seq<char>, Kind>|
            match #[trigger] transfer(ip as nat, SInst::Return, old(next)@, k, *old(ret), l, f) {
                Ok((n, k2, rk)) => r is Ok && final(next)@ == n && k2 == k && rk == *final(ret),
                Err(e) => r is Err && r->Err_0@ == e,
            },
{
    if next.len() == 0 {
        return Err(NativeError::ReturnEmpty(ip));
    }
    let value = next[next.len() - 1];
    if !(value == Kind::Number || value == Kind::Boolean) {
        return Err(NativeError::ReturnKind(ip));
    }
    match *ret {
        None => { *ret = Some(value); },
        Some(previous) => {
            if previous != value {
                return Err(NativeError::ReturnMismatch(ip, previous, value));
            }
        },
    }
    next.pop();
    Ok(())
}

/// One instruction of the analysis, as `transfer` says.
#[verifier::rlimit(40)]
fn step(
    ip: usize,
    inst: &IrInst,
    next: &mut Vec<Kind>,
    kinds: &mut Vec<(String, Kind)>,
    ret: &mut Option<Kind>,
    locals: &Vec<(String, usize)>,
    fn_returns: &Vec<(String, Kind)>,
) -> (r: Result<(), NativeError>)
    ensures
        match transfer(ip as nat, inst@, old(next)@, table(kind_entries(old(kinds)@)), *old(ret), table(slots_view(locals@)), table(kind_entries(fn_returns@))) {
            Ok((n, k, rk)) => r is Ok && final(next)@ == n && table(kind_entries(final(kinds)@)) == k && *final(ret) == rk,
            Err(e) => r is Err && r->Err_0@ == e,
        },
{
    let ghost l = table(slots_view(locals@));
    let ghost f = table(kind_entries(fn_returns@));
    let ghost k0 = table(kind_entries(kinds@));
    match inst {
        IrInst::Const(Value::Number(_)) => { next.push(Kind::Number); Ok(()) },
        IrInst::Const(Value::Boolean(_)) => { next.push(Kind::Boolean); Ok(()) },
        IrInst::Const(Value::Text(_)) => { next.push(Kind::Text); Ok(()) },
        IrInst::Const(Value::Null) => Err(NativeError::UnsupportedConst(ip)),
        IrInst::Load(var) => {
            if !slot_known(locals, var) {
                return Err(NativeError::UnknownVariable(ip));
            }
            let k = match kind_get(kinds, var) { Some(k) => k, None => Kind::Number };
            next.push(k);
            Ok(())
        },
        IrInst::Store(var) => {
            let r = step_store(ip, var, next, kinds);
            assert(transfer(ip as nat, SInst::Store(var@), old(next)@, k0, *old(ret), l, f) == transfer(ip as nat, inst@, old(next)@, k0, *old(ret), l, f));
            r
        },
        IrInst::Binary(op) => {
            let r = step_binary(ip, *op, next);
            assert(transfer(ip as nat, SInst::Binary(*op), old(next)@, k0, *old(ret), l, f) == transfer(ip as nat, inst@, old(next)@, k0, *old(ret), l, f));
            r
        },
        IrInst::Unary(op) => {
            let r = step_unary(ip, *op, next);
            assert(transfer(ip as nat, SInst::Unary(*op), old(next)@, k0, *old(ret), l, f) == transfer(ip as nat, inst@, old(next)@, k0, *old(ret), l, f));
            r
        },
        IrInst::FusedMulAdd => {
            match pop_n(next, 3, true) {
                Err(empty) => Err(if empty { NativeError::FmaEmpty(ip) } else { NativeError::FmaKind(ip) }),
                Ok(()) => { next.push(Kind::Number); Ok(()) },
            }
        },
        IrInst::Call(callee, count) => {
            if *count > 8 {
                return Err(NativeError::TooManyArguments(ip));
            }
            match pop_n(next, *count, false) {
                Err(empty) => Err(if empty { NativeError::CallMissingArguments(ip) } else { NativeError::CallArgumentKind(ip) }),
                Ok(()) => {
                    let k = match kind_get(fn_returns, callee) { Some(k) => k, None => Kind::Number };
                    next.push(k);
                    Ok(())
                },
            }
        },
        IrInst::Print => {
            if next.len() == 0 {
                return Err(NativeError::PrintEmpty(ip));
            }
            next.pop();
            Ok(())
        },
        IrInst::Pop => {
            if next.len() == 0 {
                return Err(NativeError::PopEmpty(ip));
            }
            next.pop();
            Ok(())
        },
        IrInst::JumpIfFalse(_) => {
            if next.len() == 0 {
                return Err(NativeError::ConditionEmpty(ip));
            }
            let value = next[next.len() - 1];
            if !(value == Kind::Number || value == Kind::Boolean) {
                return Err(NativeError::ConditionKind(ip));
            }
            next.pop();
            Ok(())
        },
        IrInst::Jump(_) => Ok(()),
        IrInst::Return => {
            let r = step_return(ip, next, ret);
            assert(transfer(ip as nat, SInst::Return, old(next)@, k0, *old(ret), l, f) == transfer(ip as nat, inst@, old(next)@, k0, *old(ret), l, f));
            r
        },
        _ => Err(NativeError::Unsupported(ip)),
    }
}

/// The instructions that follow `ip`, as `successors` says.
fn successors_of(ip: usize, inst: &IrInst, len: usize) -> (r: Vec<usize>)
    requires
        ip < len,
    ensures
        r@.len() == successors(ip as nat, inst@, len as nat).len(),
        forall|i: int| 0 <= i < r@.len() ==> r@[i] as nat == #[trigger] successors(ip as nat, inst@, len as nat)[i],
{
    let mut v: Vec<usize> = Vec::new();
    match inst {
        IrInst::Jump(t) => { v.push(*t); },
        IrInst::JumpIfFalse(t) => {
            if ip + 1 < len { v.push(ip + 1); }
            v.push(*t);
        },
        IrInst::Return => {},
        _ => { if ip + 1 < len { v.push(ip + 1); } },
    }
    v
}


/// The analysis state of the executable walk.
pub open spec fn analysis_of(states: Seq<Option<Vec<Kind>>>, work: Seq<usize>, head: int, max_stack: usize, kinds: Seq<(String, Kind)>, ret: Option<Kind>) -> Analysis {
    Analysis {
        states: states_view(states),
        work: queue_view(work, head),
        max_stack: max_stack as nat,
        kinds: table(kind_entries(kinds)),
        ret,
    }
}

/// Hands `next` on to the successors, as `merge` says.
fn merge_into(states: &mut Vec<Option<Vec<Kind>>>, work: &mut Vec<usize>, head: usize, succ: &Vec<usize>, next: &Vec<Kind>) -> (r: Result<(), NativeError>)
    requires
        head <= old(work).len(),
    ensures
        final(work).len() >= head,
        match merge(states_view(old(states)@), queue_view(old(work)@, head as int), Seq::new(succ@.len(), |i: int| succ@[i] as nat), next@) {
            Ok((s2, w2)) => r is Ok && states_view(final(states)@) == s2 && queue_view(final(work)@, head as int) == w2,
            Err(e) => r is Err && r->Err_0@ == e,
        },
{
    let ghost sv = Seq::new(succ@.len(), |i: int| succ@[i] as nat);
    let ghost goal = merge(states_view(states@), queue_view(work@, head as int), sv, next@);
    let mut j: usize = 0;
    assert(sv.skip(0) =~= sv);
    while j < succ.len()
        invariant
            j <= succ.len(),
            head <= work.len(),
            sv == Seq::new(succ@.len(), |i: int| succ@[i] as nat),
            goal == merge(states_view(states@), queue_view(work@, head as int), sv.skip(j as int), next@),
            goal == merge(states_view(old(states)@), queue_view(old(work)@, head as int), sv, next@),
        decreases succ.len() - j,
    {
        let s = succ[j];
        let ghost rest = sv.skip(j as int);
        assert(rest[0] == s as nat);
        assert(rest.drop_first() =~= sv.skip(j + 1));
        if s < states.len() {
            let known = states[s].is_some();
            if !known {
                let ghost sv0 = states_view(states@);
                let ghost q0 = queue_view(work@, head as int);
                states.set(s, Some(copy_kinds(next)));
                work.push(s);
                assert(states_view(states@) =~= sv0.update(s as int, Some(next@)));
                assert(queue_view(work@, head as int) =~= q0.push(s as nat));
            } else {
                let same = match &states[s] { Some(existing) => kinds_eq(existing, next), None => true };
                if !same {
                    let existing = match &states[s] { Some(e) => copy_kinds(e), None => Vec::new() };
                    return Err(NativeError::Divergent(s, existing, copy_kinds(next)));
                }
            }
        }
        j += 1;
    }
    assert(sv.skip(j as int) =~= Seq::<nat>::empty());
    Ok(())
}

/// The stack analysis of a function's code, as `spec_analyze_stack` says:
/// the stack of kinds on entry to each instruction that control reaches,
/// the deepest stack, the kinds of the variables and the return kind.
pub fn analyze_stack(code: &Vec<IrInst>, locals: &Vec<(String, usize)>, params: &Vec<String>, fn_returns: &Vec<(String, Kind)>)
    -> (r: Result<(Vec<Option<Vec<Kind>>>, usize, Vec<(String, Kind)>, Option<Kind>), NativeError>)
    ensures
        match spec_analyze_stack(crate::ir::code_view(code@), table(slots_view(locals@)), strings_view(params@), table(kind_entries(fn_returns@))) {
            Ok(a) => r is Ok && states_view(r->Ok_0.0@) == a.states && r->Ok_0.0.len() == code.len() && r->Ok_0.1 as nat == a.max_stack
                && table(kind_entries(r->Ok_0.2@)) == a.kinds && r->Ok_0.3 == a.ret,
            Err(e) => r is Err && r->Err_0@ == e,
        },
{
    let ghost cv = crate::ir::code_view(code@);
    let ghost lm = table(slots_view(locals@));
    let ghost fm = table(kind_entries(fn_returns@));
    let ghost goal = spec_analyze_stack(cv, lm, strings_view(params@), fm);
    let mut states: Vec<Option<Vec<Kind>>> = Vec::new();
    let mut i: usize = 0;
    while i < code.len()
        invariant
            i <= code.len(),
            states.len() == i,
            forall|j: int| 0 <= j < i ==> states@[j] is None,
        decreases code.len() - i,
    {
        states.push(None);
        i += 1;
    }
    let mut kinds: Vec<(String, Kind)> = Vec::new();
    let mut p: usize = 0;
    let ghost ps = strings_view(params@);
    assert(ps.take(0) =~= Seq::<Seq<char>>::empty());
    assert(table(kind_entries(kinds@)) =~= Map::<Seq<char>, Kind>::empty());
    while p < params.len()
        invariant
            p <= params.len(),
            ps == strings_view(params@),
            table(kind_entries(kinds@)) == param_kinds(ps.take(p as int)),
        decreases params.len() - p,
    {
        let ghost before = kind_entries(kinds@);
        kinds.push((params[p].clone(), Kind::Number));
        assert(kind_entries(kinds@) =~= before.push((params@[p as int]@, Kind::Number)));
        proof { lemma_table_push(before, (params@[p as int]@, Kind::Number)); }
        assert(ps.take(p + 1).drop_last() =~= ps.take(p as int));
        p += 1;
    }
    assert(ps.take(params.len() as int) =~= ps);
    let mut work: Vec<usize> = Vec::new();
    if code.len() > 0 {
        states.set(0, Some(Vec::new()));
        work.push(0);
    }
    let mut head: usize = 0;
    let mut max_stack: usize = 0;
    let mut ret: Option<Kind> = None;
    proof {
        let a = analysis_of(states@, work@, 0, 0, kinds@, None);
        let b = initial_analysis(cv.len(), ps);
        if code.len() > 0 {
            assert(states_view(states@) =~= Seq::new(cv.len(), |i: int| None::<Seq<Kind>>).update(0, Some(Seq::<Kind>::empty())));
            assert(queue_view(work@, 0) =~= seq![0nat]);
        } else {
            assert(states_view(states@) =~= Seq::<Option<Seq<Kind>>>::empty());
            assert(queue_view(work@, 0) =~= Seq::<nat>::empty());
        }
        assert(a == b);
    }
    while head < work.len()
        invariant
            head <= work.len(),
            states.len() == code.len(),
            cv == crate::ir::code_view(code@),
            lm == table(slots_view(locals@)),
            fm == table(kind_entries(fn_returns@)),
            goal == run(cv, lm, fm, analysis_of(states@, work@, head as int, max_stack, kinds@, ret)),
            goal == spec_analyze_stack(cv, lm, strings_view(params@), fm),
        decreases unvisited(states_view(states@)), work.len() - head,
    {
        let ghost a = analysis_of(states@, work@, head as int, max_stack, kinds@, ret);
        let ip = work[head];
        assert(a.work[0] == ip as nat);
        assert(a.work.drop_first() =~= queue_view(work@, head + 1));
        head += 1;
        if ip >= states.len() || states[ip].is_none() {
            return Err(NativeError::MissingState(ip));
        }
        let state = match &states[ip] { Some(s) => copy_kinds(s), None => Vec::new() };
        assert(a.states[ip as int] == Some(state@));
        if state.len() > max_stack {
            max_stack = state.len();
        }
        let mut next = copy_kinds(&state);
        match step(ip, &code[ip], &mut next, &mut kinds, &mut ret, locals, fn_returns) {
            Err(e) => return Err(e),
            Ok(()) => {},
        }
        if next.len() > max_stack {
            max_stack = next.len();
        }
        let succ = successors_of(ip, &code[ip], code.len());
        let ghost sv = successors(ip as nat, cv[ip as int], cv.len());
        assert(Seq::new(succ@.len(), |i: int| succ@[i] as nat) =~= sv);
        let ghost st0 = states_view(states@);
        let ghost q0 = queue_view(work@, head as int);
        match merge_into(&mut states, &mut work, head, &succ, &next) {
            Err(e) => return Err(e),
            Ok(()) => {},
        }
        proof { lemma_merge(st0, q0, sv, next@); }
        assert(states.len() == code.len()) by {
            assert(states_view(states@).len() == states@.len());
        }
    }
    assert(queue_view(work@, head as int) =~= Seq::<nat>::empty());
    Ok((states, max_stack, kinds, ret))
}

} // verus!
