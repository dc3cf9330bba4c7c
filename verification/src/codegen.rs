//! The native backend's code generator: x86-64 assembly text for each
//! function, from the stacks the analysis found, and the module's data
//! section.
use vstd::prelude::*;
use crate::ir::{IrInst, SInst};
use crate::native::{Kind, NativeError, SNativeError};
use crate::ir::{IrFunction, IrProgram, code_view, functions_view};
use crate::native::{kind_entries, slots_view, states_view};
use crate::semantic::{lemma_table_push, lemma_table_take, table};
use crate::syntax::strings_view;
use crate::syntax::{Op, SValue, UnaryOp, Value};
use crate::text::{push_chars, push_str};

verus! {

/// The decimal digit for `d < 10`.
pub open spec fn digit(d: nat) -> char {
    if d == 0 { '0' } else if d == 1 { '1' } else if d == 2 { '2' } else if d == 3 { '3' } else if d == 4 { '4' }
    else if d == 5 { '5' } else if d == 6 { '6' } else if d == 7 { '7' } else if d == 8 { '8' } else { '9' }
}

/// The decimal text of a natural number.
pub open spec fn dec(n: nat) -> Seq<char>
    decreases n,
{
    if n < 10 { seq![digit(n)] } else { dec(n / 10).push(digit(n % 10)) }
}

/// The decimal text of an integer.
pub open spec fn int_text(i: int) -> Seq<char> {
    if i < 0 { seq!['-'] + dec((-i) as nat) } else { dec(i as nat) }
}

fn digit_of(d: usize) -> (r: char)
    requires
        d < 10,
    ensures
        r == digit(d as nat),
{
    if d == 0 { '0' } else if d == 1 { '1' } else if d == 2 { '2' } else if d == 3 { '3' } else if d == 4 { '4' }
    else if d == 5 { '5' } else if d == 6 { '6' } else if d == 7 { '7' } else if d == 8 { '8' } else { '9' }
}

/// Appends the decimal text of `n`.
pub fn push_dec(out: &mut Vec<char>, n: usize)
    ensures
        final(out)@ == old(out)@ + dec(n as nat),
    decreases n,
{
    if n >= 10 {
        push_dec(out, n / 10);
    }
    out.push(digit_of(n % 10));
    proof {
        if n >= 10 {
            assert(old(out)@ + dec(n as nat) =~= old(out)@ + dec((n / 10) as nat) + seq![digit((n % 10) as nat)]);
        } else {
            assert(dec(n as nat) =~= seq![digit(n as nat)]);
        }
    }
    assert(final(out)@ =~= old(out)@ + dec(n as nat)) by {
        if n >= 10 {
            assert(dec(n as nat) =~= dec((n / 10) as nat).push(digit((n % 10) as nat)));
        }
    }
}

/// Appends the decimal text of an offset.
pub fn push_int(out: &mut Vec<char>, i: isize)
    ensures
        final(out)@ == old(out)@ + int_text(i as int),
{
    if i < 0 {
        out.push('-');
        let m: usize = if i == isize::MIN { (isize::MAX as usize) + 1 } else { (-i) as usize };
        push_dec(out, m);
        assert(final(out)@ =~= old(out)@ + int_text(i as int));
    } else {
        push_dec(out, i as usize);
    }
}


/// A bound on the slots of a frame that x86-64 can address: a frame fits
/// when its size fits the signed 32-bit immediate of `subq`, and then it has
/// fewer variable slots and a shallower evaluation stack than this bound;
/// every slot address below it fits a signed 32-bit displacement.
pub const FRAME_LIMIT: usize = 268435200;

proof fn lemma_frame_fits(slots: nat, max_stack: nat)
    requires
        frame_size(slots, max_stack) <= i32::MAX,
    ensures
        slots <= FRAME_LIMIT,
        max_stack <= FRAME_LIMIT,
{
    let x = 4096 + (if slots >= 1 { slots } else { 1 }) * 8 + max_stack * 8 + 15;
    assert(x / 16 * 16 > x - 16);
}

/// The frame address of evaluation stack slot `d`.
pub open spec fn stack_slot(d: nat) -> Seq<char> {
    int_text(-2048 - 8 * d) + "(%rbp)"@
}

/// The frame address of variable slot `i`.
pub open spec fn local_slot(i: nat) -> Seq<char> {
    int_text(-64 - 8 * i) + "(%rbp)"@
}

/// Loads stack slot `slot` into register `reg`.
pub open spec fn load_asm(slot: nat, reg: Seq<char>) -> Seq<char> {
    "    movsd "@ + stack_slot(slot) + ", "@ + reg + "\n"@
}

/// Stores `%xmm0` into stack slot `slot`.
pub open spec fn store_xmm0(slot: nat) -> Seq<char> {
    "    movsd %xmm0, "@ + stack_slot(slot) + "\n"@
}

pub open spec fn float_label(id: nat) -> Seq<char> {
    ".LCF"@ + dec(id)
}

pub open spec fn text_label(id: nat) -> Seq<char> {
    ".LCT"@ + dec(id)
}

/// The label of instruction `ip` of a function.
pub open spec fn ip_label(symbol: Seq<char>, ip: nat) -> Seq<char> {
    ".L"@ + symbol + "_"@ + dec(ip)
}

/// The label of a function's epilogue.
pub open spec fn end_label(symbol: Seq<char>) -> Seq<char> {
    ".L"@ + symbol + "_end"@
}

/// Where a jump to `t` goes: its instruction, or the epilogue when `t` is
/// past the end.
pub open spec fn jump_label(symbol: Seq<char>, t: nat, len: nat) -> Seq<char> {
    if t < len { ip_label(symbol, t) } else { end_label(symbol) }
}

pub open spec fn xmm(r: nat) -> Seq<char> {
    "%xmm"@ + dec(r)
}

/// The operation of a binary instruction on `%xmm0` and `%xmm1`, given the
/// label of the zero constant.
pub open spec fn op_asm(op: Op, zero: Seq<char>) -> Seq<char> {
    match op {
        Op::Add => "    addsd %xmm1, %xmm0\n"@,
        Op::Sub => "    subsd %xmm1, %xmm0\n"@,
        Op::Mul => "    mulsd %xmm1, %xmm0\n"@,
        Op::Div => "    divsd %xmm1, %xmm0\n"@,
        Op::Mod => "    call fmod@PLT\n"@,
        Op::And | Op::Or => "    ucomisd "@ + zero + "(%rip), %xmm0\n    setne %al\n    movzbl %al, %eax\n"@
            + "    ucomisd "@ + zero + "(%rip), %xmm1\n    setne %cl\n    movzbl %cl, %ecx\n"@
            + (if op == Op::And { "    andl %ecx, %eax\n"@ } else { "    orl %ecx, %eax\n"@ })
            + "    cvtsi2sd %eax, %xmm0\n"@,
        _ => "    xorl %eax, %eax\n    ucomisd %xmm1, %xmm0\n"@ + "    "@ + set_asm(op) + " %al\n    movzbl %al, %eax\n    cvtsi2sd %eax, %xmm0\n"@,
    }
}

/// The `set` instruction of a comparison.
pub open spec fn set_asm(op: Op) -> Seq<char> {
    match op {
        Op::Eq => "sete"@,
        Op::Ne => "setne"@,
        Op::Gt => "seta"@,
        Op::Ge => "setae"@,
        Op::Lt => "setb"@,
        _ => "setbe"@,
    }
}

/// Whether an operation needs the zero constant.
pub open spec fn op_uses_zero(op: Op) -> bool {
    op == Op::And || op == Op::Or
}

/// Loads the first `k` call arguments, from stack slot `start` on, into
/// `%xmm0`, `%xmm1`, ….
pub open spec fn call_args(start: nat, k: nat) -> Seq<char>
    decreases k,
{
    if k == 0 { Seq::empty() } else { call_args(start, (k - 1) as nat) + load_asm((start + k - 1) as nat, xmm((k - 1) as nat)) }
}

/// What one instruction adds to the module.
#[verifier::ext_equal]
pub struct Emitted {
    pub text: Seq<char>,
    pub floats: Seq<Seq<char>>,
    pub texts: Seq<Seq<char>>,
}

pub open spec fn emitted(text: Seq<char>) -> Emitted {
    Emitted { text, floats: Seq::empty(), texts: Seq::empty() }
}

pub open spec fn emitted_zero(text: Seq<char>) -> Emitted {
    Emitted { text, floats: seq!["0"@], texts: Seq::empty() }
}

/// The assembly of the instruction at `ip`, entered with the stack
/// `entry`; `nf` and `nt` are the numbers of float and text constants so
/// far, `len` the length of the code.
pub open spec fn inst_asm(symbol: Seq<char>, ip: nat, inst: SInst, entry: Seq<Kind>, locals: Map<Seq<char>, nat>, nf: nat, nt: nat, len: nat) -> Result<Emitted, SNativeError> {
    let depth = entry.len();
    let zero = float_label(nf);
    match inst {
        SInst::Const(SValue::Number(v)) => Ok(Emitted {
            text: "    movsd "@ + float_label(nf) + "(%rip), %xmm0\n"@ + store_xmm0(depth),
            floats: seq![v],
            texts: Seq::empty(),
        }),
        SInst::Const(SValue::Boolean(b)) => Ok(Emitted {
            text: "    movsd "@ + float_label(nf) + "(%rip), %xmm0\n"@ + store_xmm0(depth),
            floats: seq![if b { "1"@ } else { "0"@ }],
            texts: Seq::empty(),
        }),
        SInst::Const(SValue::Text(v)) => Ok(Emitted {
            text: "    leaq "@ + text_label(nt) + "(%rip), %rax\n"@ + "    movq %rax, "@ + stack_slot(depth) + "\n"@,
            floats: Seq::empty(),
            texts: seq![v],
        }),
        SInst::Load(var) => if !locals.contains_key(var) {
            Err(SNativeError::UnknownVariable(ip))
        } else {
            Ok(emitted("    movsd "@ + local_slot(locals[var]) + ", %xmm0\n"@ + store_xmm0(depth)))
        },
        SInst::Store(var) => if depth == 0 {
            Err(SNativeError::StoreEmpty(ip))
        } else {
            Ok(emitted("    movsd "@ + stack_slot((depth - 1) as nat) + ", %xmm0\n"@ + "    movsd %xmm0, "@ + local_slot(locals[var]) + "\n"@))
        },
        SInst::Binary(op) => if depth == 0 {
            Err(SNativeError::BinaryRight(ip))
        } else if depth == 1 {
            Err(SNativeError::BinaryLeft(ip))
        } else {
            let text = load_asm((depth - 1) as nat, "%xmm1"@) + load_asm((depth - 2) as nat, "%xmm0"@) + op_asm(op, zero) + store_xmm0((depth - 2) as nat);
            Ok(if op_uses_zero(op) { emitted_zero(text) } else { emitted(text) })
        },
        SInst::Unary(op) => if depth == 0 {
            Err(SNativeError::UnaryEmpty(ip))
        } else {
            let slot = (depth - 1) as nat;
            match op {
                UnaryOp::Neg => Ok(emitted(load_asm(slot, "%xmm0"@) + "    xorpd %xmm1, %xmm1\n    subsd %xmm0, %xmm1\n    movsd %xmm1, %xmm0\n"@ + store_xmm0(slot))),
                UnaryOp::Not => Ok(emitted_zero(load_asm(slot, "%xmm0"@) + "    ucomisd "@ + zero + "(%rip), %xmm0\n    sete %al\n    movzbl %al, %eax\n    cvtsi2sd %eax, %xmm0\n"@ + store_xmm0(slot))),
            }
        },
        SInst::FusedMulAdd => if depth < 3 {
            Err(SNativeError::FmaEmpty(ip))
        } else {
            Ok(emitted(load_asm((depth - 2) as nat, "%xmm1"@) + load_asm((depth - 3) as nat, "%xmm0"@) + "    mulsd %xmm1, %xmm0\n"@
                + load_asm((depth - 1) as nat, "%xmm1"@) + "    addsd %xmm1, %xmm0\n"@ + store_xmm0((depth - 3) as nat)))
        },
        SInst::Call(callee, count) => if depth < count {
            Err(SNativeError::CallMissingArguments(ip))
        } else {
            let start = (depth - count) as nat;
            Ok(emitted(call_args(start, if count < 8 { count } else { 8 }) + "    call nano_fn_"@ + crate::native::spec_sanitize(callee) + "\n"@ + store_xmm0(start)))
        },
        SInst::Print => if depth == 0 {
            Err(SNativeError::PrintEmpty(ip))
        } else {
            let slot = (depth - 1) as nat;
            match entry.last() {
                Kind::Number => Ok(emitted("    movsd "@ + stack_slot(slot) + ", %xmm0\n    leaq nano_fmt(%rip), %rdi\n    movl $1, %eax\n    call printf@PLT\n"@)),
                Kind::Boolean => Ok(emitted_zero(bool_print_asm(symbol, ip, slot, zero))),
                Kind::Text => Ok(emitted("    movq "@ + stack_slot(slot) + ", %rdi\n    call puts@PLT\n"@)),
            }
        },
        SInst::Pop => Ok(emitted(Seq::empty())),
        SInst::JumpIfFalse(t) => if depth == 0 {
            Err(SNativeError::ConditionEmpty(ip))
        } else {
            Ok(emitted_zero(load_asm((depth - 1) as nat, "%xmm0"@) + "    ucomisd "@ + zero + "(%rip), %xmm0\n    je "@ + jump_label(symbol, t, len) + "\n"@))
        },
        SInst::Jump(t) => Ok(emitted("    jmp "@ + jump_label(symbol, t, len) + "\n"@)),
        SInst::Return => if depth == 0 {
            Err(SNativeError::ReturnEmpty(ip))
        } else {
            Ok(emitted(load_asm((depth - 1) as nat, "%xmm0"@) + "    movq %rbp, %rsp\n    popq %rbp\n    ret\n"@))
        },
        _ => Err(SNativeError::Unsupported(ip)),
    }
}

/// Prints a boolean as `true` or `false`.
pub open spec fn bool_print_asm(symbol: Seq<char>, ip: nat, slot: nat, zero: Seq<char>) -> Seq<char> {
    let fl = ".L"@ + symbol + "_bool_false_"@ + dec(ip);
    let el = ".L"@ + symbol + "_bool_end_"@ + dec(ip);
    "    movsd "@ + stack_slot(slot) + ", %xmm0\n    ucomisd "@ + zero + "(%rip), %xmm0\n    je "@ + fl
        + "\n    leaq nano_true(%rip), %rdi\n    jmp "@ + el + "\n"@ + fl + ":\n    leaq nano_false(%rip), %rdi\n"@ + el + ":\n    call puts@PLT\n"@
}

/// The module's text and constants.
#[verifier::ext_equal]
pub struct SModule {
    pub text: Seq<char>,
    pub floats: Seq<Seq<char>>,
    pub texts: Seq<Seq<char>>,
}

/// The module after the instructions before `n`: each one control reaches
/// gets its label and its assembly.
pub open spec fn body_asm(symbol: Seq<char>, code: Seq<SInst>, states: Seq<Option<Seq<Kind>>>, locals: Map<Seq<char>, nat>, m: SModule, n: nat) -> Result<SModule, SNativeError>
    decreases n,
{
    if n == 0 {
        Ok(m)
    } else {
        match body_asm(symbol, code, states, locals, m, (n - 1) as nat) {
            Err(e) => Err(e),
            Ok(m1) => {
                let ip = (n - 1) as nat;
                match states[ip as int] {
                    None => Ok(m1),
                    Some(entry) => match inst_asm(symbol, ip, code[ip as int], entry, locals, m1.floats.len(), m1.texts.len(), code.len()) {
                        Err(e) => Err(e),
                        Ok(em) => Ok(SModule {
                            text: m1.text + ip_label(symbol, ip) + ":\n"@ + em.text,
                            floats: m1.floats + em.floats,
                            texts: m1.texts + em.texts,
                        }),
                    },
                }
            },
        }
    }
}

/// Once an instruction fails, the whole body fails with its error.
pub proof fn lemma_body_err(symbol: Seq<char>, code: Seq<SInst>, states: Seq<Option<Seq<Kind>>>, locals: Map<Seq<char>, nat>, m: SModule, n: nat, k: nat)
    requires
        n <= k,
        body_asm(symbol, code, states, locals, m, n) is Err,
    ensures
        body_asm(symbol, code, states, locals, m, k) == body_asm(symbol, code, states, locals, m, n),
    decreases k - n,
{
    if n < k {
        lemma_body_err(symbol, code, states, locals, m, n, (k - 1) as nat);
    }
}

/// Moves the first `n` parameters from their registers to their slots.
pub open spec fn param_moves(n: nat) -> Seq<char>
    decreases n,
{
    if n == 0 { Seq::empty() } else { param_moves((n - 1) as nat) + "    movsd "@ + xmm((n - 1) as nat) + ", "@ + local_slot((n - 1) as nat) + "\n"@ }
}

/// The size of a frame: 4 KiB, the variable slots (at least one) and the
/// stack slots, rounded up to 16 bytes.
pub open spec fn frame_size(slots: nat, max_stack: nat) -> nat {
    (((4096 + (if slots >= 1 { slots } else { 1 }) * 8 + max_stack * 8) + 15) / 16 * 16) as nat
}

/// A function's prologue: its symbol, the frame and the parameters saved.
pub open spec fn prologue(symbol: Seq<char>, frame: nat, nparams: nat) -> Seq<char> {
    "\n    .text\n    .globl "@ + symbol + "\n"@ + symbol + ":\n    pushq %rbp\n    movq %rsp, %rbp\n    subq "@ + "$"@ + dec(frame) + ", %rsp\n"@ + param_moves(nparams)
}

/// A function's epilogue, reached by falling off its end: it returns 0.
pub open spec fn epilogue(symbol: Seq<char>) -> Seq<char> {
    end_label(symbol) + ":\n    xorpd %xmm0, %xmm0\n    movq %rbp, %rsp\n    popq %rbp\n    ret\n"@
}

/// The module after compiling a function: its slots and stacks found, its
/// prologue, the assembly of each instruction control reaches, and its
/// epilogue.
pub open spec fn spec_compile_function(m: SModule, name: Seq<char>, code: Seq<SInst>, params: Seq<Seq<char>>, fn_returns: Map<Seq<char>, Kind>) -> Result<SModule, SNativeError> {
    let symbol = "nano_fn_"@ + crate::native::spec_sanitize(name);
    match crate::native::spec_initial_locals(params, code) {
        Err(e) => Err(e),
        Ok(slots) => match crate::native::spec_analyze_stack(code, table(slots), params, fn_returns) {
            Err(e) => Err(e),
            Ok(a) => if frame_size(slots.len(), a.max_stack) > i32::MAX {
                Err(SNativeError::FrameTooLarge)
            } else {
                let start = SModule { text: m.text + prologue(symbol, frame_size(slots.len(), a.max_stack), params.len()), ..m };
                match body_asm(symbol, code, a.states, table(slots), start, code.len()) {
                    Err(e) => Err(e),
                    Ok(m2) => Ok(SModule { text: m2.text + epilogue(symbol), ..m2 }),
                }
            },
        },
    }
}


fn push_stack_slot(out: &mut Vec<char>, d: usize)
    requires
        d <= FRAME_LIMIT,
    ensures
        final(out)@ == old(out)@ + stack_slot(d as nat),
{
    let off = crate::native::stack_offset(d);
    push_int(out, off);
    push_str(out, "(%rbp)");
    assert(final(out)@ =~= old(out)@ + stack_slot(d as nat));
}

fn push_local_slot(out: &mut Vec<char>, i: usize)
    requires
        i < FRAME_LIMIT + 8,
    ensures
        final(out)@ == old(out)@ + local_slot(i as nat),
{
    let off = crate::native::local_offset(i);
    push_int(out, off);
    push_str(out, "(%rbp)");
    assert(final(out)@ =~= old(out)@ + local_slot(i as nat));
}

fn push_load(out: &mut Vec<char>, slot: usize, reg: &str)
    requires
        slot <= FRAME_LIMIT,
    ensures
        final(out)@ == old(out)@ + load_asm(slot as nat, reg@),
{
    push_str(out, "    movsd ");
    push_stack_slot(out, slot);
    push_str(out, ", ");
    push_str(out, reg);
    push_str(out, "\n");
    assert(final(out)@ =~= old(out)@ + load_asm(slot as nat, reg@));
}

fn push_xmm(out: &mut Vec<char>, r: usize)
    ensures
        final(out)@ == old(out)@ + xmm(r as nat),
{
    push_str(out, "%xmm");
    push_dec(out, r);
    assert(final(out)@ =~= old(out)@ + xmm(r as nat));
}

fn push_load_reg(out: &mut Vec<char>, slot: usize, r: usize)
    requires
        slot <= FRAME_LIMIT,
    ensures
        final(out)@ == old(out)@ + load_asm(slot as nat, xmm(r as nat)),
{
    push_str(out, "    movsd ");
    push_stack_slot(out, slot);
    push_str(out, ", ");
    push_xmm(out, r);
    push_str(out, "\n");
    assert(final(out)@ =~= old(out)@ + load_asm(slot as nat, xmm(r as nat)));
}

fn push_store_xmm0(out: &mut Vec<char>, slot: usize)
    requires
        slot <= FRAME_LIMIT,
    ensures
        final(out)@ == old(out)@ + store_xmm0(slot as nat),
{
    push_str(out, "    movsd %xmm0, ");
    push_stack_slot(out, slot);
    push_str(out, "\n");
    assert(final(out)@ =~= old(out)@ + store_xmm0(slot as nat));
}

fn push_label(out: &mut Vec<char>, prefix: &str, id: usize)
    ensures
        final(out)@ == old(out)@ + prefix@ + dec(id as nat),
{
    push_str(out, prefix);
    push_dec(out, id);
}

fn push_ip_label(out: &mut Vec<char>, symbol: &Vec<char>, ip: usize)
    ensures
        final(out)@ == old(out)@ + ip_label(symbol@, ip as nat),
{
    push_str(out, ".L");
    push_chars(out, symbol);
    push_str(out, "_");
    push_dec(out, ip);
    assert(final(out)@ =~= old(out)@ + ip_label(symbol@, ip as nat));
}

fn push_end_label(out: &mut Vec<char>, symbol: &Vec<char>)
    ensures
        final(out)@ == old(out)@ + end_label(symbol@),
{
    push_str(out, ".L");
    push_chars(out, symbol);
    push_str(out, "_end");
    assert(final(out)@ =~= old(out)@ + end_label(symbol@));
}

fn push_jump_label(out: &mut Vec<char>, symbol: &Vec<char>, t: usize, len: usize)
    ensures
        final(out)@ == old(out)@ + jump_label(symbol@, t as nat, len as nat),
{
    if t < len {
        push_ip_label(out, symbol, t);
    } else {
        push_end_label(out, symbol);
    }
}

/// A module of assembly being built: the text so far and the float and
/// text constants its instructions refer to.
pub struct NativeModule {
    pub text: Vec<char>,
    /// Each float constant as the text of its number.
    pub float_constants: Vec<String>,
    pub text_constants: Vec<String>,
}

impl View for NativeModule {
    type V = SModule;

    open spec fn view(&self) -> SModule {
        SModule { text: self.text@, floats: strings_view(self.float_constants@), texts: strings_view(self.text_constants@) }
    }
}

/// The lookup of a variable's slot.
fn slot_get(v: &Vec<(String, usize)>, k: &String) -> (r: Option<usize>)
    ensures
        match r {
            Some(x) => table(slots_view(v@)).contains_key(k@) && table(slots_view(v@))[k@] == x as nat,
            None => !table(slots_view(v@)).contains_key(k@),
        },
{
    let ghost e = slots_view(v@);
    assert(e.take(e.len() as int) =~= e);
    let mut i = v.len();
    while i > 0
        invariant
            i <= v.len(),
            e == slots_view(v@),
            table(e.take(i as int)).contains_key(k@) == table(e).contains_key(k@),
            table(e.take(i as int)).contains_key(k@) ==> table(e.take(i as int))[k@] == table(e)[k@],
        decreases i,
    {
        proof { lemma_table_take(e, i as int); }
        if v[i - 1].0 == *k {
            return Some(v[i - 1].1);
        }
        i -= 1;
    }
    assert(e.take(0) =~= Seq::<(Seq<char>, nat)>::empty());
    None
}

fn copy_strings(v: &Vec<String>) -> (r: Vec<String>)
    ensures
        strings_view(r@) == strings_view(v@),
{
    let mut out: Vec<String> = Vec::new();
    let mut i: usize = 0;
    while i < v.len()
        invariant
            i <= v.len(),
            out.len() == i,
            strings_view(out@) == strings_view(v@).take(i as int),
        decreases v.len() - i,
    {
        let s = v[i].clone();
        assert(s@ == v@[i as int]@);
        let ghost before = out@;
        out.push(s);
        assert(out@ == before.push(s));
        assert(strings_view(before).len() == before.len());
        assert forall|k: int| 0 <= k < i + 1 implies #[trigger] strings_view(out@)[k] == strings_view(v@)[k] by {
            if k < i {
                assert(strings_view(before)[k] == strings_view(v@).take(i as int)[k]);
            }
        }
        assert(strings_view(out@) =~= strings_view(v@).take(i + 1));
        i += 1;
    }
    assert(strings_view(v@).take(i as int) =~= strings_view(v@));
    out
}

/// Whether every slot of a table fits a frame.
pub open spec fn slots_fit(locals: Map<Seq<char>, nat>) -> bool {
    forall|k: Seq<char>| #[trigger] locals.contains_key(k) ==> locals[k] < FRAME_LIMIT + 8
}

/// The module with an instruction's assembly added.
pub open spec fn with_emitted(m: SModule, em: Emitted) -> SModule {
    SModule { text: m.text + em.text, floats: m.floats + em.floats, texts: m.texts + em.texts }
}

impl NativeModule {
    /// An empty module.
    pub fn new() -> (r: NativeModule)
        ensures
            r@ == (SModule { text: Seq::empty(), floats: Seq::empty(), texts: Seq::empty() }),
    {
        let r = NativeModule { text: Vec::new(), float_constants: Vec::new(), text_constants: Vec::new() };
        assert(r@ =~= (SModule { text: Seq::empty(), floats: Seq::empty(), texts: Seq::empty() }));
        r
    }

    fn add_float(&mut self, v: String)
        ensures
            final(self)@ == (SModule { floats: old(self)@.floats.push(v@), ..old(self)@ }),
    {
        let ghost f = self.float_constants@;
        self.float_constants.push(v);
        assert(strings_view(self.float_constants@) =~= strings_view(f).push(v@));
    }

    fn add_text(&mut self, v: String)
        ensures
            final(self)@ == (SModule { texts: old(self)@.texts.push(v@), ..old(self)@ }),
    {
        let ghost f = self.text_constants@;
        self.text_constants.push(v);
        assert(strings_view(self.text_constants@) =~= strings_view(f).push(v@));
    }

    fn zero_text() -> (r: String)
        ensures
            r@ == "0"@,
    {
        let cs = crate::text::chars_of("0");
        crate::text::string_of(&cs)
    }

    fn emit_const(&mut self, symbol: &Vec<char>, ip: usize, v: &Value, entry: &Vec<Kind>, locals: &Vec<(String, usize)>, len: usize) -> (r: Result<(), NativeError>)
        requires
            entry.len() <= FRAME_LIMIT,
        ensures
            emits(old(self)@, final(self)@, inst_asm(symbol@, ip as nat, SInst::Const(v@), entry@, table(slots_view(locals@)), old(self)@.floats.len(), old(self)@.texts.len(), len as nat), r),
    {
        let nf = self.float_constants.len();
        let nt = self.text_constants.len();
        let depth = entry.len();
        match v {
            Value::Number(n) => {
                push_str(&mut self.text, "    movsd ");
                push_label(&mut self.text, ".LCF", nf);
                push_str(&mut self.text, "(%rip), %xmm0\n");
                push_store_xmm0(&mut self.text, depth);
                self.add_float(n.clone());
            },
            Value::Boolean(b) => {
                push_str(&mut self.text, "    movsd ");
                push_label(&mut self.text, ".LCF", nf);
                push_str(&mut self.text, "(%rip), %xmm0\n");
                push_store_xmm0(&mut self.text, depth);
                let t = if *b { crate::text::string_of(&crate::text::chars_of("1")) } else { Self::zero_text() };
                self.add_float(t);
            },
            Value::Text(t) => {
                push_str(&mut self.text, "    leaq ");
                push_label(&mut self.text, ".LCT", nt);
                push_str(&mut self.text, "(%rip), %rax\n");
                push_str(&mut self.text, "    movq %rax, ");
                push_stack_slot(&mut self.text, depth);
                push_str(&mut self.text, "\n");
                self.add_text(t.clone());
            },
            Value::Null => {
                return Err(NativeError::Unsupported(ip));
            },
        }
        proof {
            match inst_asm(symbol@, ip as nat, SInst::Const(v@), entry@, table(slots_view(locals@)), old(self)@.floats.len(), old(self)@.texts.len(), len as nat) {
                Ok(em) => { assert(self@ =~= with_emitted(old(self)@, em)); },
                Err(e) => {},
            }
        }
        Ok(())
    }

    fn emit_variable(&mut self, symbol: &Vec<char>, ip: usize, inst: &IrInst, entry: &Vec<Kind>, locals: &Vec<(String, usize)>, len: usize) -> (r: Result<(), NativeError>)
        requires
            entry.len() <= FRAME_LIMIT,
            slots_fit(table(slots_view(locals@))),
            inst is Load || inst is Store,
            inst is Store ==> table(slots_view(locals@)).contains_key(inst->Store_0@),
        ensures
            emits(old(self)@, final(self)@, inst_asm(symbol@, ip as nat, inst@, entry@, table(slots_view(locals@)), old(self)@.floats.len(), old(self)@.texts.len(), len as nat), r),
    {
        let depth = entry.len();
        match inst {
            IrInst::Load(var) => {
                let index = match slot_get(locals, var) {
                    None => return Err(NativeError::UnknownVariable(ip)),
                    Some(i) => i,
                };
                push_str(&mut self.text, "    movsd ");
                push_local_slot(&mut self.text, index);
                push_str(&mut self.text, ", %xmm0\n");
                push_store_xmm0(&mut self.text, depth);
            },
            IrInst::Store(var) => {
                if depth == 0 {
                    return Err(NativeError::StoreEmpty(ip));
                }
                let index = match slot_get(locals, var) {
                    None => 0,
                    Some(i) => i,
                };
                push_str(&mut self.text, "    movsd ");
                push_stack_slot(&mut self.text, depth - 1);
                push_str(&mut self.text, ", %xmm0\n");
                push_str(&mut self.text, "    movsd %xmm0, ");
                push_local_slot(&mut self.text, index);
                push_str(&mut self.text, "\n");
            },
            _ => {},
        }
        proof {
            match inst_asm(symbol@, ip as nat, inst@, entry@, table(slots_view(locals@)), old(self)@.floats.len(), old(self)@.texts.len(), len as nat) {
                Ok(em) => { assert(self@ =~= with_emitted(old(self)@, em)); },
                Err(e) => {},
            }
        }
        Ok(())
    }

    fn push_op(&mut self, op: Op)
        ensures
            final(self)@ == with_emitted(old(self)@, (if op_uses_zero(op) { emitted_zero(op_asm(op, float_label(old(self)@.floats.len()))) } else { emitted(op_asm(op, float_label(old(self)@.floats.len()))) })),
    {
        let nf = self.float_constants.len();
        let ghost m0 = self@;
        match op {
            Op::Add => push_str(&mut self.text, "    addsd %xmm1, %xmm0\n"),
            Op::Sub => push_str(&mut self.text, "    subsd %xmm1, %xmm0\n"),
            Op::Mul => push_str(&mut self.text, "    mulsd %xmm1, %xmm0\n"),
            Op::Div => push_str(&mut self.text, "    divsd %xmm1, %xmm0\n"),
            Op::Mod => push_str(&mut self.text, "    call fmod@PLT\n"),
            Op::And | Op::Or => {
                push_str(&mut self.text, "    ucomisd ");
                push_label(&mut self.text, ".LCF", nf);
                push_str(&mut self.text, "(%rip), %xmm0\n    setne %al\n    movzbl %al, %eax\n");
                push_str(&mut self.text, "    ucomisd ");
                push_label(&mut self.text, ".LCF", nf);
                push_str(&mut self.text, "(%rip), %xmm1\n    setne %cl\n    movzbl %cl, %ecx\n");
                if op == Op::And {
                    push_str(&mut self.text, "    andl %ecx, %eax\n");
                } else {
                    push_str(&mut self.text, "    orl %ecx, %eax\n");
                }
                push_str(&mut self.text, "    cvtsi2sd %eax, %xmm0\n");
                self.add_float(Self::zero_text());
            },
            _ => {
                push_str(&mut self.text, "    xorl %eax, %eax\n    ucomisd %xmm1, %xmm0\n");
                push_str(&mut self.text, "    ");
                match op {
                    Op::Eq => push_str(&mut self.text, "sete"),
                    Op::Ne => push_str(&mut self.text, "setne"),
                    Op::Gt => push_str(&mut self.text, "seta"),
                    Op::Ge => push_str(&mut self.text, "setae"),
                    Op::Lt => push_str(&mut self.text, "setb"),
                    _ => push_str(&mut self.text, "setbe"),
                }
                push_str(&mut self.text, " %al\n    movzbl %al, %eax\n    cvtsi2sd %eax, %xmm0\n");
            },
        }
        proof {
            let em = if op_uses_zero(op) { emitted_zero(op_asm(op, float_label(m0.floats.len()))) } else { emitted(op_asm(op, float_label(m0.floats.len()))) };
            assert(self@ =~= with_emitted(m0, em));
        }
    }

    fn emit_binary(&mut self, symbol: &Vec<char>, ip: usize, op: Op, entry: &Vec<Kind>, locals: &Vec<(String, usize)>, len: usize) -> (r: Result<(), NativeError>)
        requires
            entry.len() <= FRAME_LIMIT,
        ensures
            emits(old(self)@, final(self)@, inst_asm(symbol@, ip as nat, SInst::Binary(op), entry@, table(slots_view(locals@)), old(self)@.floats.len(), old(self)@.texts.len(), len as nat), r),
    {
        let depth = entry.len();
        if depth == 0 {
            return Err(NativeError::BinaryRight(ip));
        }
        if depth == 1 {
            return Err(NativeError::BinaryLeft(ip));
        }
        let ghost m0 = self@;
        push_load(&mut self.text, depth - 1, "%xmm1");
        push_load(&mut self.text, depth - 2, "%xmm0");
        let ghost m1 = self@;
        self.push_op(op);
        let ghost m2 = self@;
        push_store_xmm0(&mut self.text, depth - 2);
        proof {
            let zero = float_label(m0.floats.len());
            let text = load_asm((depth - 1) as nat, "%xmm1"@) + load_asm((depth - 2) as nat, "%xmm0"@) + op_asm(op, zero) + store_xmm0((depth - 2) as nat);
            let em = if op_uses_zero(op) { emitted_zero(text) } else { emitted(text) };
            assert(self@ =~= with_emitted(m0, em));
        }
        Ok(())
    }

    fn emit_unary(&mut self, symbol: &Vec<char>, ip: usize, op: UnaryOp, entry: &Vec<Kind>, locals: &Vec<(String, usize)>, len: usize) -> (r: Result<(), NativeError>)
        requires
            entry.len() <= FRAME_LIMIT,
        ensures
            emits(old(self)@, final(self)@, inst_asm(symbol@, ip as nat, SInst::Unary(op), entry@, table(slots_view(locals@)), old(self)@.floats.len(), old(self)@.texts.len(), len as nat), r),
    {
        let depth = entry.len();
        if depth == 0 {
            return Err(NativeError::UnaryEmpty(ip));
        }
        let nf = self.float_constants.len();
        let ghost m0 = self@;
        push_load(&mut self.text, depth - 1, "%xmm0");
        match op {
            UnaryOp::Neg => {
                push_str(&mut self.text, "    xorpd %xmm1, %xmm1\n    subsd %xmm0, %xmm1\n    movsd %xmm1, %xmm0\n");
            },
            UnaryOp::Not => {
                push_str(&mut self.text, "    ucomisd ");
                push_label(&mut self.text, ".LCF", nf);
                push_str(&mut self.text, "(%rip), %xmm0\n    sete %al\n    movzbl %al, %eax\n    cvtsi2sd %eax, %xmm0\n");
                self.add_float(Self::zero_text());
            },
        }
        push_store_xmm0(&mut self.text, depth - 1);
        proof {
            match inst_asm(symbol@, ip as nat, SInst::Unary(op), entry@, table(slots_view(locals@)), m0.floats.len(), m0.texts.len(), len as nat) {
                Ok(em) => { assert(self@ =~= with_emitted(m0, em)); },
                Err(e) => {},
            }
        }
        Ok(())
    }

    fn emit_fma(&mut self, symbol: &Vec<char>, ip: usize, entry: &Vec<Kind>, locals: &Vec<(String, usize)>, len: usize) -> (r: Result<(), NativeError>)
        requires
            entry.len() <= FRAME_LIMIT,
        ensures
            emits(old(self)@, final(self)@, inst_asm(symbol@, ip as nat, SInst::FusedMulAdd, entry@, table(slots_view(locals@)), old(self)@.floats.len(), old(self)@.texts.len(), len as nat), r),
    {
        let depth = entry.len();
        if depth < 3 {
            return Err(NativeError::FmaEmpty(ip));
        }
        let ghost m0 = self@;
        push_load(&mut self.text, depth - 2, "%xmm1");
        push_load(&mut self.text, depth - 3, "%xmm0");
        push_str(&mut self.text, "    mulsd %xmm1, %xmm0\n");
        push_load(&mut self.text, depth - 1, "%xmm1");
        push_str(&mut self.text, "    addsd %xmm1, %xmm0\n");
        push_store_xmm0(&mut self.text, depth - 3);
        proof {
            match inst_asm(symbol@, ip as nat, SInst::FusedMulAdd, entry@, table(slots_view(locals@)), m0.floats.len(), m0.texts.len(), len as nat) {
                Ok(em) => { assert(self@ =~= with_emitted(m0, em)); },
                Err(e) => {},
            }
        }
        Ok(())
    }

    fn emit_call(&mut self, symbol: &Vec<char>, ip: usize, callee: &String, count: usize, entry: &Vec<Kind>, locals: &Vec<(String, usize)>, len: usize) -> (r: Result<(), NativeError>)
        requires
            entry.len() <= FRAME_LIMIT,
        ensures
            emits(old(self)@, final(self)@, inst_asm(symbol@, ip as nat, SInst::Call(callee@, count as nat), entry@, table(slots_view(locals@)), old(self)@.floats.len(), old(self)@.texts.len(), len as nat), r),
    {
        let depth = entry.len();
        if depth < count {
            return Err(NativeError::CallMissingArguments(ip));
        }
        let start = depth - count;
        let k = if count < 8 { count } else { 8 };
        let ghost m0 = self@;
        let mut r: usize = 0;
        while r < k
            invariant
                r <= k <= 8,
                k <= count,
                start + count <= FRAME_LIMIT,
                self@ == (SModule { text: m0.text + call_args(start as nat, r as nat), ..m0 }),
            decreases k - r,
        {
            push_load_reg(&mut self.text, start + r, r);
            assert(self.text@ =~= m0.text + call_args(start as nat, (r + 1) as nat));
            r += 1;
        }
        push_str(&mut self.text, "    call nano_fn_");
        let sym = crate::native::sanitize(callee.as_str());
        let sym_chars = crate::text::chars_of(sym.as_str());
        push_chars(&mut self.text, &sym_chars);
        push_str(&mut self.text, "\n");
        push_store_xmm0(&mut self.text, start);
        proof {
            match inst_asm(symbol@, ip as nat, SInst::Call(callee@, count as nat), entry@, table(slots_view(locals@)), m0.floats.len(), m0.texts.len(), len as nat) {
                Ok(em) => { assert(self@ =~= with_emitted(m0, em)); },
                Err(e) => {},
            }
        }
        Ok(())
    }

    #[verifier::rlimit(40)]
    fn emit_bool_print(&mut self, symbol: &Vec<char>, ip: usize, slot: usize)
        requires
            slot <= FRAME_LIMIT,
        ensures
            final(self)@ == with_emitted(old(self)@, emitted_zero(bool_print_asm(symbol@, ip as nat, slot as nat, float_label(old(self)@.floats.len())))),
    {
        let nf = self.float_constants.len();
        let ghost m0 = self@;
        let mut fl: Vec<char> = Vec::new();
        push_str(&mut fl, ".L");
        push_chars(&mut fl, symbol);
        push_label(&mut fl, "_bool_false_", ip);
        let mut el: Vec<char> = Vec::new();
        push_str(&mut el, ".L");
        push_chars(&mut el, symbol);
        push_label(&mut el, "_bool_end_", ip);
        push_str(&mut self.text, "    movsd ");
        push_stack_slot(&mut self.text, slot);
        push_str(&mut self.text, ", %xmm0\n    ucomisd ");
        push_label(&mut self.text, ".LCF", nf);
        push_str(&mut self.text, "(%rip), %xmm0\n    je ");
        push_chars(&mut self.text, &fl);
        push_str(&mut self.text, "\n    leaq nano_true(%rip), %rdi\n    jmp ");
        push_chars(&mut self.text, &el);
        push_str(&mut self.text, "\n");
        push_chars(&mut self.text, &fl);
        push_str(&mut self.text, ":\n    leaq nano_false(%rip), %rdi\n");
        push_chars(&mut self.text, &el);
        push_str(&mut self.text, ":\n    call puts@PLT\n");
        self.add_float(Self::zero_text());
        assert(fl@ =~= ".L"@ + symbol@ + "_bool_false_"@ + dec(ip as nat));
        assert(el@ =~= ".L"@ + symbol@ + "_bool_end_"@ + dec(ip as nat));
        assert(self@ =~= with_emitted(m0, emitted_zero(bool_print_asm(symbol@, ip as nat, slot as nat, float_label(m0.floats.len())))));
    }

    fn emit_print(&mut self, symbol: &Vec<char>, ip: usize, entry: &Vec<Kind>, locals: &Vec<(String, usize)>, len: usize) -> (r: Result<(), NativeError>)
        requires
            entry.len() <= FRAME_LIMIT,
        ensures
            emits(old(self)@, final(self)@, inst_asm(symbol@, ip as nat, SInst::Print, entry@, table(slots_view(locals@)), old(self)@.floats.len(), old(self)@.texts.len(), len as nat), r),
    {
        let depth = entry.len();
        if depth == 0 {
            return Err(NativeError::PrintEmpty(ip));
        }
        let slot = depth - 1;
        let nf = self.float_constants.len();
        let ghost m0 = self@;
        match entry[depth - 1] {
            Kind::Number => {
                push_str(&mut self.text, "    movsd ");
                push_stack_slot(&mut self.text, slot);
                push_str(&mut self.text, ", %xmm0\n    leaq nano_fmt(%rip), %rdi\n    movl $1, %eax\n    call printf@PLT\n");
            },
            Kind::Boolean => {
                self.emit_bool_print(symbol, ip, slot);
            },
            Kind::Text => {
                push_str(&mut self.text, "    movq ");
                push_stack_slot(&mut self.text, slot);
                push_str(&mut self.text, ", %rdi\n    call puts@PLT\n");
            },
        }
        proof {
            assert(entry@.last() == entry@[depth - 1]);
            match inst_asm(symbol@, ip as nat, SInst::Print, entry@, table(slots_view(locals@)), m0.floats.len(), m0.texts.len(), len as nat) {
                Ok(em) => { assert(self@ =~= with_emitted(m0, em)); },
                Err(e) => {},
            }
        }
        Ok(())
    }

    fn emit_control(&mut self, symbol: &Vec<char>, ip: usize, inst: &IrInst, entry: &Vec<Kind>, locals: &Vec<(String, usize)>, len: usize) -> (r: Result<(), NativeError>)
        requires
            entry.len() <= FRAME_LIMIT,
            inst is Pop || inst is JumpIfFalse || inst is Jump || inst is Return,
        ensures
            emits(old(self)@, final(self)@, inst_asm(symbol@, ip as nat, inst@, entry@, table(slots_view(locals@)), old(self)@.floats.len(), old(self)@.texts.len(), len as nat), r),
    {
        let depth = entry.len();
        let nf = self.float_constants.len();
        let ghost m0 = self@;
        match inst {
            IrInst::JumpIfFalse(t) => {
                if depth == 0 {
                    return Err(NativeError::ConditionEmpty(ip));
                }
                push_load(&mut self.text, depth - 1, "%xmm0");
                push_str(&mut self.text, "    ucomisd ");
                push_label(&mut self.text, ".LCF", nf);
                push_str(&mut self.text, "(%rip), %xmm0\n    je ");
                push_jump_label(&mut self.text, symbol, *t, len);
                push_str(&mut self.text, "\n");
                self.add_float(Self::zero_text());
            },
            IrInst::Jump(t) => {
                push_str(&mut self.text, "    jmp ");
                push_jump_label(&mut self.text, symbol, *t, len);
                push_str(&mut self.text, "\n");
            },
            IrInst::Return => {
                if depth == 0 {
                    return Err(NativeError::ReturnEmpty(ip));
                }
                push_load(&mut self.text, depth - 1, "%xmm0");
                push_str(&mut self.text, "    movq %rbp, %rsp\n    popq %rbp\n    ret\n");
            },
            _ => {},
        }
        proof {
            match inst_asm(symbol@, ip as nat, inst@, entry@, table(slots_view(locals@)), m0.floats.len(), m0.texts.len(), len as nat) {
                Ok(em) => { assert(self@ =~= with_emitted(m0, em)); },
                Err(e) => {},
            }
        }
        Ok(())
    }

    /// The assembly of one instruction, as `inst_asm` says.
    fn emit_inst(&mut self, symbol: &Vec<char>, ip: usize, inst: &IrInst, entry: &Vec<Kind>, locals: &Vec<(String, usize)>, len: usize) -> (r: Result<(), NativeError>)
        requires
            entry.len() <= FRAME_LIMIT,
            slots_fit(table(slots_view(locals@))),
            inst is Store ==> table(slots_view(locals@)).contains_key(inst->Store_0@),
        ensures
            emits(old(self)@, final(self)@, inst_asm(symbol@, ip as nat, inst@, entry@, table(slots_view(locals@)), old(self)@.floats.len(), old(self)@.texts.len(), len as nat), r),
    {
        match inst {
            IrInst::Const(v) => self.emit_const(symbol, ip, v, entry, locals, len),
            IrInst::Load(_) | IrInst::Store(_) => self.emit_variable(symbol, ip, inst, entry, locals, len),
            IrInst::Binary(op) => self.emit_binary(symbol, ip, *op, entry, locals, len),
            IrInst::Unary(op) => self.emit_unary(symbol, ip, *op, entry, locals, len),
            IrInst::FusedMulAdd => self.emit_fma(symbol, ip, entry, locals, len),
            IrInst::Call(callee, count) => self.emit_call(symbol, ip, callee, *count, entry, locals, len),
            IrInst::Print => self.emit_print(symbol, ip, entry, locals, len),
            IrInst::Pop | IrInst::JumpIfFalse(_) | IrInst::Jump(_) | IrInst::Return => self.emit_control(symbol, ip, inst, entry, locals, len),
            _ => Err(NativeError::Unsupported(ip)),
        }
    }
}

/// How an emitter's result relates to the instruction's assembly.
pub open spec fn emits(m0: SModule, m1: SModule, res: Result<Emitted, SNativeError>, r: Result<(), NativeError>) -> bool {
    match res {
        Ok(em) => r is Ok && m1 == with_emitted(m0, em),
        Err(e) => r is Err && r->Err_0@ == e,
    }
}


impl NativeModule {
    fn push_prologue(&mut self, symbol: &Vec<char>, frame: usize, nparams: usize)
        requires
            nparams <= 8,
        ensures
            final(self)@ == (SModule { text: old(self)@.text + prologue(symbol@, frame as nat, nparams as nat), ..old(self)@ }),
    {
        let ghost m0 = self@;
        push_str(&mut self.text, "\n    .text\n    .globl ");
        push_chars(&mut self.text, symbol);
        push_str(&mut self.text, "\n");
        push_chars(&mut self.text, symbol);
        push_str(&mut self.text, ":\n    pushq %rbp\n    movq %rsp, %rbp\n    subq ");
        push_str(&mut self.text, "$");
        push_dec(&mut self.text, frame);
        push_str(&mut self.text, ", %rsp\n");
        let ghost t0 = self.text@;
        let mut index: usize = 0;
        while index < nparams
            invariant
                index <= nparams <= 8,
                self.text@ == t0 + param_moves(index as nat),
                self.float_constants@ == old(self).float_constants@,
                self.text_constants@ == old(self).text_constants@,
            decreases nparams - index,
        {
            push_str(&mut self.text, "    movsd ");
            push_xmm(&mut self.text, index);
            push_str(&mut self.text, ", ");
            push_local_slot(&mut self.text, index);
            push_str(&mut self.text, "\n");
            assert(self.text@ =~= t0 + param_moves((index + 1) as nat));
            index += 1;
        }
        assert(self@ =~= (SModule { text: m0.text + prologue(symbol@, frame as nat, nparams as nat), ..m0 }));
    }

    /// A copy of the module.
    fn copy(&self) -> (r: NativeModule)
        ensures
            r@ == self@,
    {
        let mut text: Vec<char> = Vec::new();
        let mut i: usize = 0;
        while i < self.text.len()
            invariant
                i <= self.text.len(),
                text@ == self.text@.take(i as int),
            decreases self.text.len() - i,
        {
            text.push(self.text[i]);
            assert(text@ =~= self.text@.take(i + 1));
            i += 1;
        }
        assert(self.text@.take(i as int) =~= self.text@);
        NativeModule { text, float_constants: copy_strings(&self.float_constants), text_constants: copy_strings(&self.text_constants) }
    }

    /// Compiles a function into the module, as `spec_compile_function`
    /// says; when compilation fails the module stays as it was.
    pub fn compile_function(&mut self, name: &str, code: &Vec<IrInst>, params: &Vec<String>, fn_returns: &Vec<(String, Kind)>) -> (r: Result<(), NativeError>)
        ensures
            match spec_compile_function(old(self)@, name@, code_view(code@), strings_view(params@), table(kind_entries(fn_returns@))) {
                Ok(m) => r is Ok && final(self)@ == m,
                Err(e) => r is Err && r->Err_0@ == e && final(self)@ == old(self)@,
            },
    {
        let mut work = self.copy();
        match work.compile_into(name, code, params, fn_returns) {
            Ok(()) => {
                *self = work;
                Ok(())
            },
            Err(e) => Err(e),
        }
    }

    fn compile_into(&mut self, name: &str, code: &Vec<IrInst>, params: &Vec<String>, fn_returns: &Vec<(String, Kind)>) -> (r: Result<(), NativeError>)
        ensures
            match spec_compile_function(old(self)@, name@, code_view(code@), strings_view(params@), table(kind_entries(fn_returns@))) {
                Ok(m) => r is Ok && final(self)@ == m,
                Err(e) => r is Err && r->Err_0@ == e,
            },
    {
        let ghost cv = code_view(code@);
        let ghost ps = strings_view(params@);
        let ghost fm = table(kind_entries(fn_returns@));
        let mut symbol: Vec<char> = Vec::new();
        push_str(&mut symbol, "nano_fn_");
        let san = crate::native::sanitize(name);
        let sc = crate::text::chars_of(san.as_str());
        push_chars(&mut symbol, &sc);
        let locals = match crate::native::initial_locals(params, code) {
            Err(e) => return Err(e),
            Ok(l) => l,
        };
        let ghost lt = table(slots_view(locals@));
        let (states, max_stack, _kinds, _ret) = match crate::native::analyze_stack(code, &locals, params, fn_returns) {
            Err(e) => return Err(e),
            Ok(a) => a,
        };
        let slots = if locals.len() >= 1 { locals.len() } else { 1 };
        if locals.len() > FRAME_LIMIT || max_stack > FRAME_LIMIT {
            proof {
                if frame_size(locals.len() as nat, max_stack as nat) <= i32::MAX {
                    lemma_frame_fits(locals.len() as nat, max_stack as nat);
                }
            }
            return Err(NativeError::FrameTooLarge);
        }
        let wide = ((4096 + slots as u64 * 8 + max_stack as u64 * 8) + 15) / 16 * 16;
        assert(wide as nat == frame_size(locals.len() as nat, max_stack as nat));
        if wide > 2147483647 {
            return Err(NativeError::FrameTooLarge);
        }
        let frame = wide as usize;
        let ghost a = crate::native::spec_analyze_stack(cv, lt, ps, fm)->Ok_0;
        proof {
            crate::native::lemma_analysis_within(cv, lt, ps, fm);
            assert forall|k: Seq<char>| #[trigger] lt.contains_key(k) implies lt[k] < FRAME_LIMIT + 8 by {
                crate::native::lemma_slots_bound(ps, cv, k);
            }
        }
        assert(frame as nat == frame_size(locals.len() as nat, max_stack as nat));
        self.push_prologue(&symbol, frame, params.len());
        let ghost start = self@;
        assert(symbol@ =~= "nano_fn_"@ + crate::native::spec_sanitize(name@));
        let ghost finish = match body_asm(symbol@, cv, a.states, lt, start, cv.len()) {
            Err(e) => Err(e),
            Ok(m2) => Ok(SModule { text: m2.text + epilogue(symbol@), ..m2 }),
        };
        assert(spec_compile_function(old(self)@, name@, cv, ps, fm) == finish);
        let mut ip: usize = 0;
        while ip < code.len()
            invariant
                ip <= code.len(),
                states.len() == code.len(),
                cv == code_view(code@),
                lt == table(slots_view(locals@)),
                slots_fit(lt),
                states_view(states@) == a.states,
                a.max_stack == max_stack as nat,
                max_stack <= FRAME_LIMIT,
                crate::native::within(a.states, a.max_stack),
                ps == strings_view(params@),
                ps.len() <= 8,
                slots_view(locals@) == crate::native::store_slots(crate::native::param_slots(ps), cv),
                body_asm(symbol@, cv, a.states, lt, start, ip as nat) == Ok::<SModule, SNativeError>(self@),
                spec_compile_function(old(self)@, name@, cv, ps, fm) == finish,
                fm == table(kind_entries(fn_returns@)),
                finish == match body_asm(symbol@, cv, a.states, lt, start, cv.len()) {
                    Err(e) => Err(e),
                    Ok(m2) => Ok(SModule { text: m2.text + epilogue(symbol@), ..m2 }),
                },
            decreases code.len() - ip,
        {
            let ghost m1 = self@;
            assert(a.states[ip as int] == match states@[ip as int] { Some(s) => Some(s@), None => None::<Seq<Kind>> });
            match &states[ip] {
                None => {},
                Some(entry) => {
                    assert(a.states[ip as int] == Some(entry@));
                    assert(entry@.len() <= max_stack);
                    proof {
                        if code@[ip as int] is Store {
                            crate::native::lemma_store_has_slot(crate::native::param_slots(ps), cv, ip as int);
                            assert(cv[ip as int] == code@[ip as int]@);
                        }
                    }
                    push_ip_label(&mut self.text, &symbol, ip);
                    push_str(&mut self.text, ":\n");
                    let ghost m2 = self@;
                    assert(m2 == (SModule { text: m1.text + ip_label(symbol@, ip as nat) + ":\n"@, ..m1 }));
                    let res = self.emit_inst(&symbol, ip, &code[ip], entry, &locals, code.len());
                    assert(cv[ip as int] == code@[ip as int]@);
                    match res {
                        Err(e) => {
                            assert(m2.floats.len() == m1.floats.len() && m2.texts.len() == m1.texts.len());
                            assert(inst_asm(symbol@, ip as nat, cv[ip as int], entry@, lt, m1.floats.len(), m1.texts.len(), cv.len()) is Err);
                            assert(body_asm(symbol@, cv, a.states, lt, start, (ip + 1) as nat) == Err::<SModule, SNativeError>(e@));
                            proof { lemma_body_err(symbol@, cv, a.states, lt, start, (ip + 1) as nat, cv.len()); }
                            return Err(e);
                        },
                        Ok(()) => {},
                    }
                    proof {
                        let em = inst_asm(symbol@, ip as nat, cv[ip as int], entry@, lt, m1.floats.len(), m1.texts.len(), cv.len())->Ok_0;
                        assert(self@ =~= (SModule {
                            text: m1.text + ip_label(symbol@, ip as nat) + ":\n"@ + em.text,
                            floats: m1.floats + em.floats,
                            texts: m1.texts + em.texts,
                        }));
                    }
                },
            }
            ip += 1;
        }
        let ghost m3 = self@;
        push_end_label(&mut self.text, &symbol);
        push_str(&mut self.text, ":\n    xorpd %xmm0, %xmm0\n    movq %rbp, %rsp\n    popq %rbp\n    ret\n");
        assert(self@ =~= (SModule { text: m3.text + epilogue(symbol@), ..m3 }));
        assert(symbol@ =~= "nano_fn_"@ + crate::native::spec_sanitize(name@));
        Ok(())
    }
}


/// Whether function `i` is the last of its name: an earlier one of the
/// same name is hidden by it.
pub open spec fn visible(fs: Seq<(Seq<char>, Seq<Seq<char>>, Seq<SInst>)>, i: int) -> bool {
    forall|j: int| i < j < fs.len() ==> (#[trigger] fs[j]).0 != fs[i].0
}

/// The return kinds of the first `n` functions, each analyzed with the
/// kinds found before it (a number where a function never returns).
pub open spec fn spec_return_kinds(fs: Seq<(Seq<char>, Seq<Seq<char>>, Seq<SInst>)>, n: nat) -> Result<Map<Seq<char>, Kind>, SNativeError>
    decreases n,
{
    if n == 0 {
        Ok(Map::empty())
    } else {
        match spec_return_kinds(fs, (n - 1) as nat) {
            Err(e) => Err(e),
            Ok(r) => {
                let f = fs[n - 1];
                if !visible(fs, n - 1) {
                    Ok(r)
                } else {
                    match crate::native::spec_initial_locals(f.1, f.2) {
                        Err(e) => Err(e),
                        Ok(slots) => match crate::native::spec_analyze_stack(f.2, table(slots), f.1, r) {
                            Err(e) => Err(e),
                            Ok(a) => Ok(r.insert(f.0, match a.ret { Some(k) => k, None => Kind::Number })),
                        },
                    }
                }
            },
        }
    }
}

/// The module after compiling the first `n` functions in order.
pub open spec fn compile_all(fs: Seq<(Seq<char>, Seq<Seq<char>>, Seq<SInst>)>, n: nat, m: SModule, kinds: Map<Seq<char>, Kind>) -> Result<SModule, SNativeError>
    decreases n,
{
    if n == 0 {
        Ok(m)
    } else {
        match compile_all(fs, (n - 1) as nat, m, kinds) {
            Err(e) => Err(e),
            Ok(m1) => if visible(fs, n - 1) {
                spec_compile_function(m1, fs[n - 1].0, fs[n - 1].2, fs[n - 1].1, kinds)
            } else {
                Ok(m1)
            },
        }
    }
}

pub open spec fn empty_module() -> SModule {
    SModule { text: Seq::empty(), floats: Seq::empty(), texts: Seq::empty() }
}

/// The module of a program: the return kinds of its functions found
/// first, then its top level compiled as `_main`, then each function.
pub open spec fn spec_compile_program(code: Seq<SInst>, fs: Seq<(Seq<char>, Seq<Seq<char>>, Seq<SInst>)>) -> Result<SModule, SNativeError> {
    match spec_return_kinds(fs, fs.len()) {
        Err(e) => Err(e),
        Ok(kinds) => match spec_compile_function(empty_module(), "_main"@, code, Seq::empty(), kinds) {
            Err(e) => Err(e),
            Ok(m1) => compile_all(fs, fs.len(), m1, kinds),
        },
    }
}

/// Whether no later function has the same name as function `i`.
fn is_visible(fs: &Vec<(String, IrFunction)>, i: usize) -> (r: bool)
    requires
        i < fs.len(),
    ensures
        r == visible(functions_view(fs@), i as int),
{
    let ghost fv = functions_view(fs@);
    let mut j = i + 1;
    while j < fs.len()
        invariant
            i < j <= fs.len(),
            fv == functions_view(fs@),
            forall|k: int| i < k < j ==> (#[trigger] fv[k]).0 != fv[i as int].0,
        decreases fs.len() - j,
    {
        if fs[j].0 == fs[i].0 {
            assert(fv[j as int].0 == fv[i as int].0);
            return false;
        }
        j += 1;
    }
    true
}

proof fn lemma_kinds_err(fs: Seq<(Seq<char>, Seq<Seq<char>>, Seq<SInst>)>, n: nat, k: nat)
    requires
        n <= k,
        spec_return_kinds(fs, n) is Err,
    ensures
        spec_return_kinds(fs, k) == spec_return_kinds(fs, n),
    decreases k - n,
{
    if n < k {
        lemma_kinds_err(fs, n, (k - 1) as nat);
    }
}

proof fn lemma_all_err(fs: Seq<(Seq<char>, Seq<Seq<char>>, Seq<SInst>)>, n: nat, k: nat, m: SModule, kinds: Map<Seq<char>, Kind>)
    requires
        n <= k,
        compile_all(fs, n, m, kinds) is Err,
    ensures
        compile_all(fs, k, m, kinds) == compile_all(fs, n, m, kinds),
    decreases k - n,
{
    if n < k {
        lemma_all_err(fs, n, (k - 1) as nat, m, kinds);
    }
}

/// Compiles a program to a module of assembly, as `spec_compile_program`
/// says.
pub fn compile_program(ir: &IrProgram) -> (r: Result<NativeModule, NativeError>)
    ensures
        match spec_compile_program(code_view(ir.code@), functions_view(ir.functions@)) {
            Ok(m) => r is Ok && r->Ok_0@ == m,
            Err(e) => r is Err && r->Err_0@ == e,
        },
{
    let ghost fv = functions_view(ir.functions@);
    let ghost goal_kinds = spec_return_kinds(fv, fv.len());
    let mut kinds: Vec<(String, Kind)> = Vec::new();
    let mut i: usize = 0;
    assert(table(kind_entries(kinds@)) =~= Map::<Seq<char>, Kind>::empty());
    while i < ir.functions.len()
        invariant
            i <= ir.functions.len(),
            fv == functions_view(ir.functions@),
            goal_kinds == spec_return_kinds(fv, fv.len()),
            spec_return_kinds(fv, i as nat) == Ok::<Map<Seq<char>, Kind>, SNativeError>(table(kind_entries(kinds@))),
        decreases ir.functions.len() - i,
    {
        let f = &ir.functions[i];
        if is_visible(&ir.functions, i) {
            let locals = match crate::native::initial_locals(&f.1.params, &f.1.code) {
                Err(e) => {
                    proof { lemma_kinds_err(fv, (i + 1) as nat, fv.len()); }
                    return Err(e);
                },
                Ok(l) => l,
            };
            let res = crate::native::analyze_stack(&f.1.code, &locals, &f.1.params, &kinds);
            match res {
                Err(e) => {
                    proof { lemma_kinds_err(fv, (i + 1) as nat, fv.len()); }
                    return Err(e);
                },
                Ok((_, _, _, ret)) => {
                    let k = match ret { Some(k) => k, None => Kind::Number };
                    let ghost before = kind_entries(kinds@);
                    kinds.push((f.0.clone(), k));
                    assert(kind_entries(kinds@) =~= before.push((f.0@, k)));
                    proof { lemma_table_push(before, (f.0@, k)); }
                },
            }
        }
        i += 1;
    }
    assert(fv.len() == ir.functions.len());
    let mut module = NativeModule::new();
    let no_params: Vec<String> = Vec::new();
    assert(strings_view(no_params@) =~= Seq::<Seq<char>>::empty());
    match module.compile_function("_main", &ir.code, &no_params, &kinds) {
        Err(e) => return Err(e),
        Ok(()) => {},
    }
    match compile_functions(&mut module, &ir.functions, &kinds) {
        Err(e) => Err(e),
        Ok(()) => Ok(module),
    }
}

/// Compiles each visible function into the module, as `compile_all` says.
#[verifier::rlimit(40)]
fn compile_functions(module: &mut NativeModule, fs: &Vec<(String, IrFunction)>, kinds: &Vec<(String, Kind)>) -> (r: Result<(), NativeError>)
    ensures
        match compile_all(functions_view(fs@), fs.len() as nat, old(module)@, table(kind_entries(kinds@))) {
            Ok(m) => r is Ok && final(module)@ == m,
            Err(e) => r is Err && r->Err_0@ == e,
        },
{
    let ghost fv = functions_view(fs@);
    let ghost km = table(kind_entries(kinds@));
    let ghost m1 = module@;
    let mut j: usize = 0;
    while j < fs.len()
        invariant
            j <= fs.len(),
            fv == functions_view(fs@),
            fv.len() == fs.len(),
            km == table(kind_entries(kinds@)),
            m1 == old(module)@,
            compile_all(fv, j as nat, m1, km) == Ok::<SModule, SNativeError>(module@),
        decreases fs.len() - j,
    {
        let f = &fs[j];
        assert(fv[j as int] == (f.0@, strings_view(f.1.params@), code_view(f.1.code@)));
        if is_visible(fs, j) {
            match module.compile_function(f.0.as_str(), &f.1.code, &f.1.params, kinds) {
                Err(e) => {
                    proof { lemma_all_err(fv, (j + 1) as nat, fv.len(), m1, km); }
                    return Err(e);
                },
                Ok(()) => {},
            }
        }
        j += 1;
    }
    Ok(())
}


/// The first `n` bytes, each followed by `, `.
pub open spec fn bytes_prefix(b: Seq<u8>, n: nat) -> Seq<char>
    decreases n,
{
    if n == 0 { Seq::empty() } else { bytes_prefix(b, (n - 1) as nat) + dec(b[n - 1] as nat) + ", "@ }
}

/// The operand of a `.byte` line for a string: its bytes, then the
/// terminating zero.
pub open spec fn byte_list(b: Seq<u8>) -> Seq<char> {
    bytes_prefix(b, b.len()) + "0"@
}

/// The first `n` float constants, given the text of each as a double.
pub open spec fn float_data(doubles: Seq<Seq<char>>, n: nat) -> Seq<char>
    decreases n,
{
    if n == 0 { Seq::empty() } else { float_data(doubles, (n - 1) as nat) + float_label((n - 1) as nat) + ":\n    .double "@ + doubles[n - 1] + "\n"@ }
}

/// The first `n` text constants as zero-terminated UTF-8 bytes.
pub open spec fn text_data(texts: Seq<Seq<char>>, n: nat) -> Seq<char>
    decreases n,
{
    if n == 0 { Seq::empty() } else { text_data(texts, (n - 1) as nat) + text_label((n - 1) as nat) + ":\n    .byte "@ + byte_list(vstd::utf8::encode_utf8(texts[n - 1])) + "\n"@ }
}

/// The whole assembly file: the functions, the read-only data (the
/// formats of `print`, the float constants, each given as the text of a
/// double, and the text constants), the `main` that calls `_main`, and
/// the note that the stack is not executable.
pub open spec fn spec_render(m: SModule, doubles: Seq<Seq<char>>) -> Seq<char> {
    m.text + "\n    .section .rodata\n"@ + "nano_fmt:\n    .byte 37,103,10,0\n"@ + "nano_true:\n    .byte 116,114,117,101,0\n"@
        + "nano_false:\n    .byte 102,97,108,115,101,0\n"@ + float_data(doubles, doubles.len()) + text_data(m.texts, m.texts.len())
        + "\n    .section .text\n    .globl main\nmain:\n    subq $8, %rsp\n    call nano_fn__main\n    addq $8, %rsp\n    xorl %eax, %eax\n    ret\n"@
        + "\n    .section .note.GNU-stack,\"\",@progbits\n"@
}

fn push_byte_list(out: &mut Vec<char>, b: &[u8])
    ensures
        final(out)@ == old(out)@ + byte_list(b@),
{
    let ghost o = out@;
    let mut i: usize = 0;
    while i < b.len()
        invariant
            i <= b.len(),
            out@ == o + bytes_prefix(b@, i as nat),
        decreases b.len() - i,
    {
        push_dec(out, b[i] as usize);
        push_str(out, ", ");
        assert(out@ =~= o + bytes_prefix(b@, (i + 1) as nat));
        i += 1;
    }
    push_str(out, "0");
    assert(out@ =~= o + byte_list(b@));
}

impl NativeModule {
    /// The assembly file of the module, as `spec_render` says; `doubles`
    /// holds the text of each float constant as a double, in order.
    pub fn render(self, doubles: &Vec<String>) -> (r: String)
        requires
            doubles.len() == self.float_constants.len(),
        ensures
            r@ == spec_render(self@, strings_view(doubles@)),
    {
        let ghost m = self@;
        let ghost dv = strings_view(doubles@);
        let mut text = self.text;
        push_str(&mut text, "\n    .section .rodata\n");
        push_str(&mut text, "nano_fmt:\n    .byte 37,103,10,0\n");
        push_str(&mut text, "nano_true:\n    .byte 116,114,117,101,0\n");
        push_str(&mut text, "nano_false:\n    .byte 102,97,108,115,101,0\n");
        let ghost t0 = text@;
        let mut i: usize = 0;
        while i < doubles.len()
            invariant
                i <= doubles.len(),
                dv == strings_view(doubles@),
                text@ == t0 + float_data(dv, i as nat),
            decreases doubles.len() - i,
        {
            push_label(&mut text, ".LCF", i);
            push_str(&mut text, ":\n    .double ");
            let d = crate::text::chars_of(doubles[i].as_str());
            push_chars(&mut text, &d);
            push_str(&mut text, "\n");
            assert(text@ =~= t0 + float_data(dv, (i + 1) as nat));
            i += 1;
        }
        let ghost t1 = text@;
        let mut k: usize = 0;
        while k < self.text_constants.len()
            invariant
                k <= self.text_constants.len(),
                m.texts == strings_view(self.text_constants@),
                text@ == t1 + text_data(m.texts, k as nat),
            decreases self.text_constants.len() - k,
        {
            push_label(&mut text, ".LCT", k);
            push_str(&mut text, ":\n    .byte ");
            let bytes = self.text_constants[k].as_str().as_bytes();
            push_byte_list(&mut text, bytes);
            push_str(&mut text, "\n");
            assert(text@ =~= t1 + text_data(m.texts, (k + 1) as nat));
            k += 1;
        }
        push_str(&mut text, "\n    .section .text\n    .globl main\nmain:\n    subq $8, %rsp\n    call nano_fn__main\n    addq $8, %rsp\n    xorl %eax, %eax\n    ret\n");
        push_str(&mut text, "\n    .section .note.GNU-stack,\"\",@progbits\n");
        assert(text@ =~= spec_render(m, dv));
        crate::text::string_of(&text)
    }
}

} // verus!
