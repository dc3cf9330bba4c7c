//! Reading the text form of the IR that the self-hosted compiler writes:
//! `function name(params)` … `end_function` blocks of one instruction per
//! line, with named labels for jump targets.
use vstd::prelude::*;
use crate::ir::{IrFunction, IrInst, IrProgram, SInst, code_view, functions_view, lemma_code_push, lemma_code_set};
use crate::semantic::{eq_lit, lemma_table_take, table};
use crate::syntax::{Op, SValue, UnaryOp, Value, strings_view};
use crate::text::{chars_eq_str, chars_of, is_whitespace, spec_ascii_lower, spec_is_whitespace, spec_trim, string_of, trim_chars};

verus! {

/// Why a text is not self-hosted IR.
#[derive(Debug)]
pub enum SelfhostError {
    /// A `function` line that is not `function name(params)`.
    Signature(String),
    /// A jump to a label the function does not define.
    MissingLabel(String),
    /// An instruction outside any function.
    OutsideFunction(String),
    /// A string constant that is not a JSON string; the decoder's message.
    InvalidString(String),
    /// A constant that is neither a literal, a JSON string nor a number.
    InvalidConstant(String),
    UnknownOperator(String),
    UnknownUnary(String),
    /// A `call` without a function name.
    MissingCallName,
    /// A `call` whose argument count is not a number.
    InvalidCount,
    InvalidCallValue,
    InvalidMakeList,
    /// An `iter_next` without a variable.
    IterNextName,
    /// An `iter_next` without a target label.
    IterNextTarget,
    /// An instruction the compiler marked as unsupported (the whole line).
    Unsupported(String),
    /// A `break` left unresolved by the compiler.
    UnresolvedBreak,
    UnknownOpcode(String),
}

/// The mathematical view of a [`SelfhostError`].
pub enum SSelfhostError {
    Signature(Seq<char>),
    MissingLabel(Seq<char>),
    OutsideFunction(Seq<char>),
    InvalidString(Seq<char>),
    InvalidConstant(Seq<char>),
    UnknownOperator(Seq<char>),
    UnknownUnary(Seq<char>),
    MissingCallName,
    InvalidCount,
    InvalidCallValue,
    InvalidMakeList,
    IterNextName,
    IterNextTarget,
    Unsupported(Seq<char>),
    UnresolvedBreak,
    UnknownOpcode(Seq<char>),
}

impl View for SelfhostError {
    type V = SSelfhostError;

    open spec fn view(&self) -> SSelfhostError {
        match self {
            SelfhostError::Signature(s) => SSelfhostError::Signature(s@),
            SelfhostError::MissingLabel(s) => SSelfhostError::MissingLabel(s@),
            SelfhostError::OutsideFunction(s) => SSelfhostError::OutsideFunction(s@),
            SelfhostError::InvalidString(s) => SSelfhostError::InvalidString(s@),
            SelfhostError::InvalidConstant(s) => SSelfhostError::InvalidConstant(s@),
            SelfhostError::UnknownOperator(s) => SSelfhostError::UnknownOperator(s@),
            SelfhostError::UnknownUnary(s) => SSelfhostError::UnknownUnary(s@),
            SelfhostError::MissingCallName => SSelfhostError::MissingCallName,
            SelfhostError::InvalidCount => SSelfhostError::InvalidCount,
            SelfhostError::InvalidCallValue => SSelfhostError::InvalidCallValue,
            SelfhostError::InvalidMakeList => SSelfhostError::InvalidMakeList,
            SelfhostError::IterNextName => SSelfhostError::IterNextName,
            SelfhostError::IterNextTarget => SSelfhostError::IterNextTarget,
            SelfhostError::Unsupported(s) => SSelfhostError::Unsupported(s@),
            SelfhostError::UnresolvedBreak => SSelfhostError::UnresolvedBreak,
            SelfhostError::UnknownOpcode(s) => SSelfhostError::UnknownOpcode(s@),
        }
    }
}

pub open spec fn spec_parse_op(v: Seq<char>) -> Result<Op, SSelfhostError> {
    if v == "+"@ { Ok(Op::Add) }
    else if v == "-"@ { Ok(Op::Sub) }
    else if v == "*"@ { Ok(Op::Mul) }
    else if v == "/"@ { Ok(Op::Div) }
    else if v == "%"@ { Ok(Op::Mod) }
    else if v == "=="@ { Ok(Op::Eq) }
    else if v == "!="@ { Ok(Op::Ne) }
    else if v == ">"@ { Ok(Op::Gt) }
    else if v == ">="@ { Ok(Op::Ge) }
    else if v == "<"@ { Ok(Op::Lt) }
    else if v == "<="@ { Ok(Op::Le) }
    else if v == "&&"@ { Ok(Op::And) }
    else if v == "||"@ { Ok(Op::Or) }
    else { Err(SSelfhostError::UnknownOperator(v)) }
}

fn owned(v: &str) -> (r: String)
    ensures
        r@ == v@,
{
    let cs = chars_of(v);
    string_of(&cs)
}

/// The binary operator written `value`.
pub fn parse_op(value: &str) -> (r: Result<Op, SelfhostError>)
    ensures
        match spec_parse_op(value@) {
            Ok(op) => r == Ok::<Op, SelfhostError>(op),
            Err(e) => r is Err && r->Err_0@ == e,
        },
{
    let v = chars_of(value);
    if chars_eq_str(&v, "+") { Ok(Op::Add) }
    else if chars_eq_str(&v, "-") { Ok(Op::Sub) }
    else if chars_eq_str(&v, "*") { Ok(Op::Mul) }
    else if chars_eq_str(&v, "/") { Ok(Op::Div) }
    else if chars_eq_str(&v, "%") { Ok(Op::Mod) }
    else if chars_eq_str(&v, "==") { Ok(Op::Eq) }
    else if chars_eq_str(&v, "!=") { Ok(Op::Ne) }
    else if chars_eq_str(&v, ">") { Ok(Op::Gt) }
    else if chars_eq_str(&v, ">=") { Ok(Op::Ge) }
    else if chars_eq_str(&v, "<") { Ok(Op::Lt) }
    else if chars_eq_str(&v, "<=") { Ok(Op::Le) }
    else if chars_eq_str(&v, "&&") { Ok(Op::And) }
    else if chars_eq_str(&v, "||") { Ok(Op::Or) }
    else { Err(SelfhostError::UnknownOperator(owned(value))) }
}

pub open spec fn spec_parse_unary(v: Seq<char>) -> Result<UnaryOp, SSelfhostError> {
    if v == "-"@ { Ok(UnaryOp::Neg) } else if v == "!"@ { Ok(UnaryOp::Not) } else { Err(SSelfhostError::UnknownUnary(v)) }
}

/// The unary operator written `value`.
pub fn parse_unary(value: &str) -> (r: Result<UnaryOp, SelfhostError>)
    ensures
        match spec_parse_unary(value@) {
            Ok(op) => r == Ok::<UnaryOp, SelfhostError>(op),
            Err(e) => r is Err && r->Err_0@ == e,
        },
{
    let v = chars_of(value);
    if chars_eq_str(&v, "-") {
        Ok(UnaryOp::Neg)
    } else if chars_eq_str(&v, "!") {
        Ok(UnaryOp::Not)
    } else {
        Err(SelfhostError::UnknownUnary(owned(value)))
    }
}

pub open spec fn is_digit(c: char) -> bool {
    '0' <= c && c <= '9'
}

/// The number of leading ASCII digits of `s`.
pub open spec fn digit_run(s: Seq<char>) -> nat
    decreases s.len(),
{
    if s.len() > 0 && is_digit(s[0]) { 1 + digit_run(s.drop_first()) } else { 0 }
}

/// An exponent part, or nothing: `e` or `E`, an optional sign, digits.
pub open spec fn exponent_or_empty(r: Seq<char>) -> bool {
    ||| r.len() == 0
    ||| {
        &&& (r[0] == 'e' || r[0] == 'E')
        &&& {
            let r2 = r.drop_first();
            let r3 = if r2.len() > 0 && (r2[0] == '+' || r2[0] == '-') { r2.drop_first() } else { r2 };
            r3.len() > 0 && digit_run(r3) == r3.len()
        }
    }
}

/// A decimal number as `f64::from_str` reads it: digits with an optional
/// fraction (at least one digit in all) and an optional exponent.
pub open spec fn is_decimal(t: Seq<char>) -> bool {
    let m = digit_run(t);
    let after = t.skip(m as int);
    if after.len() > 0 && after[0] == '.' {
        let f = digit_run(after.drop_first());
        m + f > 0 && exponent_or_empty(after.skip(1 + f as int))
    } else {
        m > 0 && exponent_or_empty(after)
    }
}

/// The lower-case form of a text, ASCII letters only.
pub open spec fn lower_seq(s: Seq<char>) -> Seq<char> {
    Seq::new(s.len(), |i: int| spec_ascii_lower(s[i]))
}

/// Whether `f64::from_str` accepts a text: an optional sign, then `inf`,
/// `infinity` or `nan` in any case, or a decimal number.
pub open spec fn is_float_text(s: Seq<char>) -> bool {
    let t = if s.len() > 0 && (s[0] == '+' || s[0] == '-') { s.drop_first() } else { s };
    let l = lower_seq(t);
    l == "inf"@ || l == "infinity"@ || l == "nan"@ || is_decimal(t)
}

/// The value of a run of decimal digits.
pub open spec fn digits_value(s: Seq<char>) -> nat
    decreases s.len(),
{
    if s.len() == 0 { 0 } else { digits_value(s.drop_last()) * 10 + ((s.last() as u32) - ('0' as u32)) as nat }
}

/// `usize::from_str`: an optional `+` and decimal digits of a value that
/// fits.
pub open spec fn spec_parse_usize(s: Seq<char>) -> Option<nat> {
    let t = if s.len() > 0 && s[0] == '+' { s.drop_first() } else { s };
    if t.len() > 0 && digit_run(t) == t.len() && digits_value(t) <= usize::MAX {
        Some(digits_value(t))
    } else {
        None
    }
}

/// What the JSON decoder reads from a text as a string: the string, or its
/// error message.
pub uninterp spec fn json_string(text: Seq<char>) -> Result<Seq<char>, Seq<char>>;

/// `serde_json::from_str::<String>`, its error turned into its message.
#[verifier::external_body]
fn decode_json_string(text: &str) -> (r: Result<String, String>)
    ensures
        match r {
            Ok(s) => json_string(text@) == Ok::<Seq<char>, Seq<char>>(s@),
            Err(m) => json_string(text@) == Err::<Seq<char>, Seq<char>>(m@),
        },
{
    serde_json::from_str::<String>(text).map_err(|e| e.to_string())
}

/// A constant: `true`, `false`, `null`, a JSON string (starting with `"`)
/// or a number as `f64::from_str` reads it, kept as written.
pub open spec fn spec_parse_const(v: Seq<char>) -> Result<SValue, SSelfhostError> {
    if v == "true"@ {
        Ok(SValue::Boolean(true))
    } else if v == "false"@ {
        Ok(SValue::Boolean(false))
    } else if v == "null"@ {
        Ok(SValue::Null)
    } else if v.len() > 0 && v[0] == '"' {
        string_constant(json_string(v))
    } else if is_float_text(v) {
        Ok(SValue::Number(v))
    } else {
        Err(SSelfhostError::InvalidConstant(v))
    }
}

/// The constant of a decoded JSON string.
pub open spec fn string_constant(decoded: Result<Seq<char>, Seq<char>>) -> Result<SValue, SSelfhostError> {
    match decoded {
        Ok(s) => Ok(SValue::Text(s)),
        Err(m) => Err(SSelfhostError::InvalidString(m)),
    }
}

/// The constant of what the JSON decoder gave for a string constant.
pub fn const_from_json(decoded: Result<String, String>) -> (r: Result<Value, SelfhostError>)
    ensures
        match string_constant(match decoded { Ok(s) => Ok(s@), Err(m) => Err(m@) }) {
            Ok(v) => r is Ok && r->Ok_0@ == v,
            Err(e) => r is Err && r->Err_0@ == e,
        },
{
    match decoded {
        Ok(s) => Ok(Value::Text(s)),
        Err(m) => Err(SelfhostError::InvalidString(m)),
    }
}

/// The first index of `c` in `s`.
pub open spec fn index_of(s: Seq<char>, c: char) -> Option<int>
    decreases s.len(),
{
    if s.len() == 0 {
        None
    } else if s[0] == c {
        Some(0)
    } else {
        match index_of(s.drop_first(), c) {
            Some(i) => Some(i + 1),
            None => None,
        }
    }
}

/// The last index of `c` in `s`.
pub open spec fn last_index_of(s: Seq<char>, c: char) -> Option<int>
    decreases s.len(),
{
    if s.len() == 0 {
        None
    } else if s.last() == c {
        Some(s.len() - 1)
    } else {
        last_index_of(s.drop_last(), c)
    }
}

/// `str::split` on a character: the pieces between its occurrences.
pub open spec fn split_seq(s: Seq<char>, c: char) -> Seq<Seq<char>>
    decreases s.len(),
{
    match index_of(s, c) {
        None => seq![s],
        Some(i) => if 0 <= i < s.len() { seq![s.take(i)] + split_seq(s.skip(i + 1), c) } else { seq![s] },
    }
}

/// `str::split_whitespace`: the maximal runs of non-whitespace characters.
pub open spec fn ws_tokens(s: Seq<char>) -> Seq<Seq<char>>
    decreases s.len(),
{
    if s.len() == 0 {
        Seq::empty()
    } else if spec_is_whitespace(s[0]) {
        ws_tokens(s.drop_first())
    } else {
        let k = token_len(s);
        proof { lemma_token_len(s); }
        seq![s.take(k as int)] + ws_tokens(s.skip(k as int))
    }
}

/// The length of the leading run of non-whitespace characters.
pub open spec fn token_len(s: Seq<char>) -> nat
    decreases s.len(),
{
    if s.len() > 0 && !spec_is_whitespace(s[0]) { 1 + token_len(s.drop_first()) } else { 0 }
}

pub proof fn lemma_token_len(s: Seq<char>)
    ensures
        token_len(s) <= s.len(),
        s.len() > 0 && !spec_is_whitespace(s[0]) ==> token_len(s) >= 1,
    decreases s.len(),
{
    if s.len() > 0 && !spec_is_whitespace(s[0]) {
        lemma_token_len(s.drop_first());
    }
}

/// Each text trimmed.
pub open spec fn trim_each(v: Seq<Seq<char>>) -> Seq<Seq<char>> {
    Seq::new(v.len(), |i: int| spec_trim(v[i]))
}

pub open spec fn strip_prefix(s: Seq<char>, p: Seq<char>) -> Option<Seq<char>> {
    if p.len() <= s.len() && s.take(p.len() as int) == p { Some(s.skip(p.len() as int)) } else { None }
}

/// A `call` line: the argument count after the last space, the function
/// name before it.
pub open spec fn spec_call(rest: Seq<char>) -> Result<SInst, SSelfhostError> {
    let (count_text, name_part) = match last_index_of(rest, ' ') {
        Some(i) => (rest.skip(i + 1), rest.take(i)),
        None => (rest, Seq::<char>::empty()),
    };
    match spec_parse_usize(count_text) {
        None => Err(SSelfhostError::InvalidCount),
        Some(n) => if spec_trim(name_part).len() == 0 {
            Err(SSelfhostError::MissingCallName)
        } else {
            Ok(SInst::Call(spec_trim(name_part), n))
        },
    }
}

/// A `make_object` line: its comma-separated keys.
pub open spec fn spec_make_object(rest: Seq<char>) -> SInst {
    if rest.len() == 0 { SInst::MakeObject(Seq::empty()) } else { SInst::MakeObject(trim_each(split_seq(rest, ','))) }
}

/// An `iter_next` line: the loop variable, then the label to leave to.
pub open spec fn spec_iter_next(rest: Seq<char>) -> Result<(SInst, Option<(Seq<char>, u8, Seq<char>)>), SSelfhostError> {
    let toks = ws_tokens(rest);
    if toks.len() == 0 {
        Err(SSelfhostError::IterNextName)
    } else if toks.len() == 1 {
        Err(SSelfhostError::IterNextTarget)
    } else {
        Ok((SInst::IterNext(toks[0], usize::MAX as nat), Some((toks[1], 2u8, toks[0]))))
    }
}

/// An instruction of a line and, for a jump, the fixup its target needs:
/// the label, the kind (0 jump, 1 jump-if-false, 2 iteration) and the loop
/// variable.
pub open spec fn spec_parse_inst(opcode: Seq<char>, rest: Seq<char>, line: Seq<char>) -> Result<(SInst, Option<(Seq<char>, u8, Seq<char>)>), SSelfhostError> {
    let placeholder = usize::MAX as nat;
    if opcode == "const"@ {
        match spec_parse_const(rest) { Ok(v) => Ok((SInst::Const(v), None)), Err(e) => Err(e) }
    } else if opcode == "load"@ {
        Ok((SInst::Load(rest), None))
    } else if opcode == "store"@ {
        Ok((SInst::Store(rest), None))
    } else if opcode == "set_index"@ {
        Ok((SInst::SetIndex, None))
    } else if opcode == "set_field"@ {
        Ok((SInst::SetField(rest), None))
    } else if opcode == "binary"@ {
        match spec_parse_op(rest) { Ok(op) => Ok((SInst::Binary(op), None)), Err(e) => Err(e) }
    } else if opcode == "unary"@ {
        match spec_parse_unary(rest) { Ok(op) => Ok((SInst::Unary(op), None)), Err(e) => Err(e) }
    } else if opcode == "call"@ {
        match spec_call(rest) { Ok(i) => Ok((i, None)), Err(e) => Err(e) }
    } else if opcode == "call_value"@ {
        match spec_parse_usize(rest) { Some(n) => Ok((SInst::CallValue(n), None)), None => Err(SSelfhostError::InvalidCallValue) }
    } else if opcode == "make_list"@ {
        match spec_parse_usize(rest) { Some(n) => Ok((SInst::MakeList(n), None)), None => Err(SSelfhostError::InvalidMakeList) }
    } else if opcode == "make_object"@ {
        Ok((spec_make_object(rest), None))
    } else if opcode == "index"@ {
        Ok((SInst::Index, None))
    } else if opcode == "field"@ {
        Ok((SInst::Field(rest), None))
    } else if opcode == "print"@ {
        Ok((SInst::Print, None))
    } else if opcode == "pop"@ {
        Ok((SInst::Pop, None))
    } else if opcode == "return"@ {
        Ok((SInst::Return, None))
    } else if opcode == "iter_init"@ {
        Ok((SInst::IterInit, None))
    } else if opcode == "iter_next"@ {
        spec_iter_next(rest)
    } else if opcode == "jump"@ {
        Ok((SInst::Jump(placeholder), Some((rest, 0u8, Seq::empty()))))
    } else if opcode == "jump_if_false"@ {
        Ok((SInst::JumpIfFalse(placeholder), Some((rest, 1u8, Seq::empty()))))
    } else if opcode == "use"@ {
        Ok((SInst::Use(rest), None))
    } else if opcode == "unsupported"@ || opcode == "unsupported_stmt"@ {
        Err(SSelfhostError::Unsupported(line))
    } else if opcode == "break"@ {
        Err(SSelfhostError::UnresolvedBreak)
    } else {
        Err(SSelfhostError::UnknownOpcode(opcode))
    }
}

/// The reader's state between lines.
#[verifier::ext_equal]
pub struct ReadState {
    pub functions: Seq<(Seq<char>, Seq<Seq<char>>, Seq<SInst>)>,
    pub main: Seq<SInst>,
    pub current: Option<Seq<char>>,
    pub params: Seq<Seq<char>>,
    pub code: Seq<SInst>,
    pub labels: Map<Seq<char>, nat>,
    pub unresolved: Seq<(nat, Seq<char>, u8, Seq<char>)>,
}

/// The instruction a fixup puts at its index.
pub open spec fn fixup_inst(kind: u8, target: nat, name: Seq<char>) -> SInst {
    if kind == 0 { SInst::Jump(target) } else if kind == 1 { SInst::JumpIfFalse(target) } else { SInst::IterNext(name, target) }
}

/// The code with its fixups applied in order, or the first missing label.
pub open spec fn resolve(code: Seq<SInst>, labels: Map<Seq<char>, nat>, fixups: Seq<(nat, Seq<char>, u8, Seq<char>)>) -> Result<Seq<SInst>, SSelfhostError>
    decreases fixups.len(),
{
    if fixups.len() == 0 {
        Ok(code)
    } else {
        let (index, label, kind, name) = fixups[0];
        if !labels.contains_key(label) {
            Err(SSelfhostError::MissingLabel(label))
        } else {
            resolve(code.update(index as int, fixup_inst(kind, labels[label], name)), labels, fixups.drop_first())
        }
    }
}

/// Ending the current function: its jumps resolved, then it becomes the
/// top-level code (`_main`) or is added to the functions.
pub open spec fn spec_finish(st: ReadState) -> Result<ReadState, SSelfhostError> {
    match st.current {
        None => Ok(st),
        Some(name) => match resolve(st.code, st.labels, st.unresolved) {
            Err(e) => Err(e),
            Ok(code) => Ok(if name == "_main"@ {
                ReadState { main: code, code: Seq::empty(), labels: Map::empty(), unresolved: Seq::empty(), ..st }
            } else {
                ReadState {
                    functions: st.functions.push((name, st.params, code)),
                    params: Seq::empty(),
                    code: Seq::empty(),
                    labels: Map::empty(),
                    unresolved: Seq::empty(),
                    ..st
                }
            }),
        },
    }
}

/// The parameters written between the parentheses of a signature.
pub open spec fn param_list(text: Seq<char>) -> Seq<Seq<char>> {
    if spec_trim(text).len() == 0 { Seq::empty() } else { trim_each(split_seq(text, ',')) }
}

/// Reading one line.
pub open spec fn read_line(st: ReadState, raw: Seq<char>) -> Result<ReadState, SSelfhostError> {
    let line = spec_trim(raw);
    if line.len() == 0 {
        Ok(st)
    } else if strip_prefix(line, "function "@) is Some {
        let sig = strip_prefix(line, "function "@)->0;
        if !(line.last() == ')') {
            Err(SSelfhostError::Signature(line))
        } else {
            match spec_finish(st) {
                Err(e) => Err(e),
                Ok(st1) => match index_of(sig, '(') {
                    None => Err(SSelfhostError::Signature(line)),
                    Some(open) => Ok(ReadState {
                        current: Some(spec_trim(sig.take(open))),
                        params: param_list(sig.subrange(open + 1, sig.len() - 1)),
                        code: Seq::empty(),
                        labels: Map::empty(),
                        unresolved: Seq::empty(),
                        ..st1
                    }),
                },
            }
        }
    } else if line == "end_function"@ {
        match spec_finish(st) {
            Err(e) => Err(e),
            Ok(st1) => Ok(ReadState { current: None, ..st1 }),
        }
    } else if st.current is None {
        Err(SSelfhostError::OutsideFunction(line))
    } else if strip_prefix(line, "label "@) is Some {
        Ok(ReadState { labels: st.labels.insert(spec_trim(strip_prefix(line, "label "@)->0), st.code.len()), ..st })
    } else {
        let (opcode, rest) = match index_of(line, ' ') {
            Some(i) => (line.take(i), spec_trim(line.skip(i + 1))),
            None => (line, Seq::<char>::empty()),
        };
        match spec_parse_inst(opcode, rest, line) {
            Err(e) => Err(e),
            Ok((inst, fixup)) => Ok(ReadState {
                code: st.code.push(inst),
                unresolved: match fixup {
                    Some((label, kind, name)) => st.unresolved.push((st.code.len(), label, kind, name)),
                    None => st.unresolved,
                },
                ..st
            }),
        }
    }
}

/// Reading lines in order.
pub open spec fn read_lines(st: ReadState, lines: Seq<Seq<char>>) -> Result<ReadState, SSelfhostError>
    decreases lines.len(),
{
    if lines.len() == 0 {
        Ok(st)
    } else {
        match read_line(st, lines[0]) {
            Err(e) => Err(e),
            Ok(st1) => read_lines(st1, lines.drop_first()),
        }
    }
}

pub open spec fn initial_state() -> ReadState {
    ReadState {
        functions: Seq::empty(),
        main: Seq::empty(),
        current: None,
        params: Seq::empty(),
        code: Seq::empty(),
        labels: Map::empty(),
        unresolved: Seq::empty(),
    }
}

/// The program a text of self-hosted IR describes: the top-level code of
/// `_main` and the other functions in order.
pub open spec fn spec_parse(src: Seq<char>) -> Result<(Seq<SInst>, Seq<(Seq<char>, Seq<Seq<char>>, Seq<SInst>)>), SSelfhostError> {
    match read_lines(initial_state(), crate::lsp::spec_lines(src)) {
        Err(e) => Err(e),
        Ok(st) => match spec_finish(st) {
            Err(e) => Err(e),
            Ok(st2) => Ok((st2.main, st2.functions)),
        },
    }
}

pub(crate) fn sub_chars(v: &Vec<char>, a: usize, b: usize) -> (r: Vec<char>)
    requires
        a <= b <= v.len(),
    ensures
        r@ == v@.subrange(a as int, b as int),
{
    let mut out: Vec<char> = Vec::new();
    let mut i = a;
    while i < b
        invariant
            a <= i <= b <= v.len(),
            out@ == v@.subrange(a as int, i as int),
        decreases b - i,
    {
        out.push(v[i]);
        assert(out@ =~= v@.subrange(a as int, i + 1));
        i += 1;
    }
    out
}

fn digit_run_from(v: &Vec<char>, a: usize) -> (r: usize)
    requires
        a <= v.len(),
    ensures
        a + r <= v.len(),
        r == digit_run(v@.skip(a as int)),
{
    let mut i = a;
    assert(v@.skip(a as int).skip(0) =~= v@.skip(a as int));
    while i < v.len() && '0' <= v[i] && v[i] <= '9'
        invariant
            a <= i <= v.len(),
            digit_run(v@.skip(a as int)) == (i - a) + digit_run(v@.skip(i as int)),
        decreases v.len() - i,
    {
        assert(v@.skip(i as int).drop_first() =~= v@.skip(i + 1));
        i += 1;
    }
    if i < v.len() {
        assert(v@.skip(i as int)[0] == v@[i as int]);
    }
    i - a
}

/// Whether a text from index `k` on is an exponent part or nothing.
fn exponent_ok(t: &Vec<char>, k: usize) -> (r: bool)
    requires
        k <= t.len(),
    ensures
        r == exponent_or_empty(t@.skip(k as int)),
{
    let ghost ex = t@.skip(k as int);
    if k == t.len() {
        assert(ex.len() == 0);
        return true;
    }
    assert(ex[0] == t@[k as int]);
    if !(t[k] == 'e' || t[k] == 'E') {
        return false;
    }
    let mut j = k + 1;
    assert(ex.drop_first() =~= t@.skip(j as int));
    if j < t.len() && (t[j] == '+' || t[j] == '-') {
        assert(ex.drop_first()[0] == t@[j as int]);
        j += 1;
    }
    let ghost r3 = t@.skip(j as int);
    assert(r3 =~= (if ex.drop_first().len() > 0 && (ex.drop_first()[0] == '+' || ex.drop_first()[0] == '-') { ex.drop_first().drop_first() } else { ex.drop_first() }));
    if j == t.len() {
        return false;
    }
    let d = digit_run_from(t, j);
    d == t.len() - j
}

/// Whether a text is a decimal number as `f64::from_str` reads it.
fn is_decimal_chars(t: &Vec<char>) -> (r: bool)
    ensures
        r == is_decimal(t@),
{
    let m = digit_run_from(t, 0);
    assert(t@.skip(0) =~= t@);
    let ghost aft = t@.skip(m as int);
    if m < t.len() && t[m] == '.' {
        assert(aft[0] == t@[m as int]);
        let f = digit_run_from(t, m + 1);
        assert(aft.drop_first() =~= t@.skip(m + 1));
        assert(aft.skip(1 + f as int) =~= t@.skip(m + 1 + f));
        if m + f == 0 {
            return false;
        }
        exponent_ok(t, m + 1 + f)
    } else {
        if m < t.len() {
            assert(aft[0] == t@[m as int]);
        }
        if m == 0 {
            return false;
        }
        exponent_ok(t, m)
    }
}

/// Whether `f64::from_str` accepts a text.
pub(crate) fn is_float_chars(v: &Vec<char>) -> (r: bool)
    ensures
        r == is_float_text(v@),
{
    let start: usize = if v.len() > 0 && (v[0] == '+' || v[0] == '-') { 1 } else { 0 };
    let t = sub_chars(v, start, v.len());
    assert(t@ =~= (if v@.len() > 0 && (v@[0] == '+' || v@[0] == '-') { v@.drop_first() } else { v@ }));
    let mut l: Vec<char> = Vec::new();
    let mut i: usize = 0;
    while i < t.len()
        invariant
            i <= t.len(),
            l@ == lower_seq(t@).take(i as int),
        decreases t.len() - i,
    {
        l.push(crate::text::ascii_lower(t[i]));
        assert(l@ =~= lower_seq(t@).take(i + 1));
        i += 1;
    }
    assert(l@ =~= lower_seq(t@));
    if chars_eq_str(&l, "inf") || chars_eq_str(&l, "infinity") || chars_eq_str(&l, "nan") {
        return true;
    }
    is_decimal_chars(&t)
}

proof fn lemma_digits_monotone(t: Seq<char>, j: int)
    requires
        0 <= j <= t.len(),
    ensures
        digits_value(t.take(j)) <= digits_value(t),
    decreases t.len() - j,
{
    if j < t.len() {
        lemma_digits_monotone(t, j + 1);
        assert(t.take(j + 1).drop_last() =~= t.take(j));
    } else {
        assert(t.take(j) =~= t);
    }
}

/// `usize::from_str`.
pub(crate) fn parse_usize_chars(v: &Vec<char>) -> (r: Option<usize>)
    ensures
        match spec_parse_usize(v@) {
            Some(n) => r == Some(n as usize),
            None => r is None,
        },
{
    let start: usize = if v.len() > 0 && v[0] == '+' { 1 } else { 0 };
    let ghost t = if v@.len() > 0 && v@[0] == '+' { v@.drop_first() } else { v@ };
    assert(t =~= v@.skip(start as int));
    if start == v.len() {
        return None;
    }
    let mut value: usize = 0;
    let mut i = start;
    assert(t.take(0) =~= Seq::<char>::empty());
    while i < v.len()
        invariant
            start <= i <= v.len(),
            t == v@.skip(start as int),
            t == (if v@.len() > 0 && v@[0] == '+' { v@.drop_first() } else { v@ }),
            forall|j: int| 0 <= j < i - start ==> is_digit(#[trigger] t[j]),
            value == digits_value(t.take(i - start)),
        decreases v.len() - i,
    {
        let c = v[i];
        if !('0' <= c && c <= '9') {
            assert(t[i - start] == c);
            proof { lemma_digit_run_stops(t, (i - start) as int); }
            return None;
        }
        assert(t.take(i - start + 1).drop_last() =~= t.take(i - start));
        assert(t[i - start] == c);
        let d = (c as u32 - '0' as u32) as usize;
        let m = value.checked_mul(10);
        match m {
            None => {
                proof { lemma_digits_monotone(t, i - start + 1); }
                return None;
            }
            Some(m) => match m.checked_add(d) {
                None => {
                    proof { lemma_digits_monotone(t, i - start + 1); }
                    return None;
                }
                Some(x) => {
                    value = x;
                }
            },
        }
        i += 1;
    }
    assert(t.take(t.len() as int) =~= t);
    proof { lemma_all_digits(t); }
    Some(value)
}

proof fn lemma_digit_run_stops(t: Seq<char>, k: int)
    requires
        0 <= k < t.len(),
        !is_digit(t[k]),
    ensures
        digit_run(t) <= k,
    decreases k,
{
    if k > 0 && is_digit(t[0]) {
        lemma_digit_run_stops(t.drop_first(), k - 1);
    }
}

proof fn lemma_all_digits(t: Seq<char>)
    requires
        forall|j: int| 0 <= j < t.len() ==> is_digit(#[trigger] t[j]),
    ensures
        digit_run(t) == t.len(),
    decreases t.len(),
{
    if t.len() > 0 {
        assert forall|j: int| 0 <= j < t.drop_first().len() implies is_digit(#[trigger] t.drop_first()[j]) by {
            assert(t.drop_first()[j] == t[j + 1]);
        }
        lemma_all_digits(t.drop_first());
    }
}


/// The text after a literal prefix, if the text starts with it.
fn strip_lit(v: &Vec<char>, lit: &str) -> (r: Option<Vec<char>>)
    ensures
        match strip_prefix(v@, lit@) {
            Some(t) => r is Some && r->0@ == t,
            None => r is None,
        },
{
    let p = chars_of(lit);
    if p.len() > v.len() {
        return None;
    }
    let mut i: usize = 0;
    while i < p.len()
        invariant
            i <= p.len() <= v.len(),
            p@ == lit@,
            forall|j: int| 0 <= j < i ==> v@[j] == p@[j],
        decreases p.len() - i,
    {
        if v[i] != p[i] {
            assert(v@.take(p.len() as int)[i as int] != p@[i as int]);
            return None;
        }
        i += 1;
    }
    assert(v@.take(p.len() as int) =~= p@);
    Some(sub_chars(v, p.len(), v.len()))
}

proof fn lemma_index_of_at(s: Seq<char>, c: char, k: int)
    requires
        0 <= k <= s.len(),
        forall|j: int| 0 <= j < k ==> s[j] != c,
        k == s.len() || s[k] == c,
    ensures
        index_of(s, c) == (if k < s.len() { Some(k) } else { None::<int> }),
    decreases k,
{
    if k > 0 {
        lemma_index_of_at(s.drop_first(), c, k - 1);
    }
}

/// The first index of `c` in `v` from `start` on.
pub(crate) fn find_char(v: &Vec<char>, c: char, start: usize) -> (r: Option<usize>)
    requires
        start <= v.len(),
    ensures
        match index_of(v@.skip(start as int), c) {
            Some(i) => 0 <= i && start + i < v.len() && r == Some((start + i) as usize) && v@[start + i] == c,
            None => r is None,
        },
{
    let mut j = start;
    while j < v.len() && v[j] != c
        invariant
            start <= j <= v.len(),
            forall|m: int| start <= m < j ==> v@[m] != c,
        decreases v.len() - j,
    {
        j += 1;
    }
    let ghost t = v@.skip(start as int);
    assert forall|m: int| 0 <= m < j - start implies t[m] != c by {
        assert(t[m] == v@[start + m]);
    }
    if j < v.len() {
        assert(t[j - start] == v@[j as int]);
    }
    proof { lemma_index_of_at(t, c, j - start); }
    if j < v.len() { Some(j) } else { None }
}

proof fn lemma_last_index_of_at(s: Seq<char>, c: char, k: int)
    requires
        0 <= k <= s.len(),
        forall|j: int| k <= j < s.len() ==> s[j] != c,
        k == 0 || s[k - 1] == c,
    ensures
        last_index_of(s, c) == (if k > 0 { Some(k - 1) } else { None::<int> }),
    decreases s.len(),
{
    if s.len() > 0 && k < s.len() {
        lemma_last_index_of_at(s.drop_last(), c, k);
    }
}

/// The last index of `c` in `v`.
fn rfind_char(v: &Vec<char>, c: char) -> (r: Option<usize>)
    ensures
        match last_index_of(v@, c) {
            Some(i) => r == Some(i as usize) && 0 <= i < v.len(),
            None => r is None,
        },
{
    let mut k = v.len();
    while k > 0 && v[k - 1] != c
        invariant
            k <= v.len(),
            forall|m: int| k <= m < v.len() ==> v@[m] != c,
        decreases k,
    {
        k -= 1;
    }
    proof { lemma_last_index_of_at(v@, c, k as int); }
    if k > 0 { Some(k - 1) } else { None }
}

/// The pieces of `v` between the occurrences of `c`.
fn split_chars(v: &Vec<char>, c: char) -> (r: Vec<Vec<char>>)
    ensures
        crate::lsp::rows_view(r@) == split_seq(v@, c),
{
    let mut out: Vec<Vec<char>> = Vec::new();
    let mut start: usize = 0;
    assert(v@.skip(0) =~= v@);
    assert(crate::lsp::rows_view(out@) + split_seq(v@.skip(0), c) =~= split_seq(v@, c));
    loop
        invariant
            start <= v.len(),
            crate::lsp::rows_view(out@) + split_seq(v@.skip(start as int), c) == split_seq(v@, c),
        decreases v.len() - start,
    {
        let ghost rest = v@.skip(start as int);
        match find_char(v, c, start) {
            None => {
                let piece = sub_chars(v, start, v.len());
                assert(piece@ =~= rest);
                let ghost before = crate::lsp::rows_view(out@);
                out.push(piece);
                assert(crate::lsp::rows_view(out@) =~= before.push(rest));
                assert(crate::lsp::rows_view(out@) =~= before + split_seq(rest, c));
                return out;
            }
            Some(j) => {
                let piece = sub_chars(v, start, j);
                let ghost i = j - start;
                assert(piece@ =~= rest.take(i));
                assert(rest.skip(i + 1) =~= v@.skip(j + 1));
                let ghost before = crate::lsp::rows_view(out@);
                out.push(piece);
                assert(crate::lsp::rows_view(out@) =~= before.push(rest.take(i)));
                assert(split_seq(rest, c) == seq![rest.take(i)] + split_seq(v@.skip(j + 1), c));
                assert(crate::lsp::rows_view(out@) + split_seq(v@.skip(j + 1), c) =~= before + split_seq(rest, c));
                start = j + 1;
            }
        }
    }
}

/// Each piece trimmed, as strings.
fn trim_all(v: &Vec<Vec<char>>) -> (r: Vec<String>)
    ensures
        strings_view(r@) == trim_each(crate::lsp::rows_view(v@)),
{
    let mut out: Vec<String> = Vec::new();
    let mut i: usize = 0;
    while i < v.len()
        invariant
            i <= v.len(),
            strings_view(out@) == trim_each(crate::lsp::rows_view(v@)).take(i as int),
        decreases v.len() - i,
    {
        let row = &v[i];
        let t = trim_chars(row);
        let st = string_of(&t);
        assert(st@ == spec_trim(v@[i as int]@));
        let ghost before = out@;
        assert(strings_view(before).len() == before.len());
        out.push(st);
        assert(crate::lsp::rows_view(v@)[i as int] == v@[i as int]@);
        assert(strings_view(out@) =~= strings_view(before).push(spec_trim(v@[i as int]@)));
        assert(strings_view(out@) =~= trim_each(crate::lsp::rows_view(v@)).take(i + 1));
        i += 1;
    }
    assert(trim_each(crate::lsp::rows_view(v@)).take(v.len() as int) =~= trim_each(crate::lsp::rows_view(v@)));
    out
}

proof fn lemma_token_len_at(t: Seq<char>, m: int)
    requires
        0 <= m <= t.len(),
        forall|j: int| 0 <= j < m ==> !spec_is_whitespace(t[j]),
        m == t.len() || spec_is_whitespace(t[m]),
    ensures
        token_len(t) == m,
    decreases m,
{
    if m > 0 {
        lemma_token_len_at(t.drop_first(), m - 1);
    }
}

/// The whitespace-separated words of `v`.
pub(crate) fn words(v: &Vec<char>) -> (r: Vec<Vec<char>>)
    ensures
        crate::lsp::rows_view(r@) == ws_tokens(v@),
{
    let mut out: Vec<Vec<char>> = Vec::new();
    let mut i: usize = 0;
    assert(v@.skip(0) =~= v@);
    assert(crate::lsp::rows_view(out@) + ws_tokens(v@.skip(0)) =~= ws_tokens(v@));
    while i < v.len()
        invariant
            i <= v.len(),
            crate::lsp::rows_view(out@) + ws_tokens(v@.skip(i as int)) == ws_tokens(v@),
        decreases v.len() - i,
    {
        let ghost rest = v@.skip(i as int);
        assert(rest[0] == v@[i as int]);
        if is_whitespace(v[i]) {
            assert(rest.drop_first() =~= v@.skip(i + 1));
            i += 1;
        } else {
            let mut j = i;
            while j < v.len() && !is_whitespace(v[j])
                invariant
                    i <= j <= v.len(),
                    forall|m: int| i <= m < j ==> !spec_is_whitespace(v@[m]),
                decreases v.len() - j,
            {
                j += 1;
            }
            assert forall|m: int| 0 <= m < j - i implies !spec_is_whitespace(rest[m]) by {
                assert(rest[m] == v@[i + m]);
            }
            if j < v.len() {
                assert(rest[j - i] == v@[j as int]);
            }
            proof { lemma_token_len_at(rest, j - i); }
            let piece = sub_chars(v, i, j);
            assert(piece@ =~= rest.take(j - i));
            assert(rest.skip(j - i) =~= v@.skip(j as int));
            let ghost before = crate::lsp::rows_view(out@);
            out.push(piece);
            assert(crate::lsp::rows_view(out@) =~= before.push(rest.take(j - i)));
            assert(crate::lsp::rows_view(out@) + ws_tokens(v@.skip(j as int)) =~= before + ws_tokens(rest));
            i = j;
        }
    }
    assert(v@.skip(i as int) =~= Seq::<char>::empty());
    assert(crate::lsp::rows_view(out@) + ws_tokens(v@.skip(i as int)) =~= crate::lsp::rows_view(out@));
    out
}

/// A constant as `spec_parse_const` reads it.
fn parse_const(value: &Vec<char>) -> (r: Result<Value, SelfhostError>)
    ensures
        match spec_parse_const(value@) {
            Ok(v) => r is Ok && r->Ok_0@ == v,
            Err(e) => r is Err && r->Err_0@ == e,
        },
{
    if chars_eq_str(value, "true") {
        return Ok(Value::Boolean(true));
    }
    if chars_eq_str(value, "false") {
        return Ok(Value::Boolean(false));
    }
    if chars_eq_str(value, "null") {
        return Ok(Value::Null);
    }
    let text = string_of(value);
    if value.len() > 0 && value[0] == '"' {
        let decoded = decode_json_string(text.as_str());
        return const_from_json(decoded);
    }
    if is_float_chars(value) {
        Ok(Value::Number(text))
    } else {
        Err(SelfhostError::InvalidConstant(text))
    }
}


/// The view of a pending jump fixup.
pub open spec fn fixup_view(f: Option<(String, u8, String)>) -> Option<(Seq<char>, u8, Seq<char>)> {
    match f {
        Some((label, kind, name)) => Some((label@, kind, name@)),
        None => None,
    }
}

/// The instruction of a `call` line: its argument count after the last
/// space, the function name before it.
fn parse_call(rest: &Vec<char>) -> (r: Result<IrInst, SelfhostError>)
    ensures
        match spec_call(rest@) {
            Ok(i) => r is Ok && r->Ok_0@ == i,
            Err(e) => r is Err && r->Err_0@ == e,
        },
{
    let (count_text, name_part) = match rfind_char(rest, ' ') {
        Some(i) => (sub_chars(rest, i + 1, rest.len()), sub_chars(rest, 0, i)),
        None => (sub_chars(rest, 0, rest.len()), Vec::new()),
    };
    assert(rest@.subrange(0, rest@.len() as int) =~= rest@);
    proof {
        match last_index_of(rest@, ' ') {
            Some(i) => {
                assert(count_text@ =~= rest@.skip(i + 1));
                assert(name_part@ =~= rest@.take(i));
            },
            None => {
                assert(name_part@ =~= Seq::<char>::empty());
            },
        }
    }
    match parse_usize_chars(&count_text) {
        None => Err(SelfhostError::InvalidCount),
        Some(n) => {
            let name = trim_chars(&name_part);
            if name.len() == 0 {
                Err(SelfhostError::MissingCallName)
            } else {
                Ok(IrInst::Call(string_of(&name), n))
            }
        },
    }
}

/// The instruction of a `make_object` line: its comma-separated keys.
fn parse_make_object(rest: &Vec<char>) -> (r: IrInst)
    ensures
        r@ == spec_make_object(rest@),
{
    if rest.len() == 0 {
        let keys: Vec<String> = Vec::new();
        assert(strings_view(keys@) =~= Seq::<Seq<char>>::empty());
        IrInst::MakeObject(keys)
    } else {
        let pieces = split_chars(rest, ',');
        let keys = trim_all(&pieces);
        IrInst::MakeObject(keys)
    }
}

/// The instruction and fixup of an `iter_next` line: the loop variable and
/// the label to leave to.
fn parse_iter_next(rest: &Vec<char>) -> (r: Result<(IrInst, Option<(String, u8, String)>), SelfhostError>)
    ensures
        match spec_iter_next(rest@) {
            Ok((i, f)) => r is Ok && r->Ok_0.0@ == i && fixup_view(r->Ok_0.1) == f,
            Err(e) => r is Err && r->Err_0@ == e,
        },
{
    let toks = words(rest);
    assert(crate::lsp::rows_view(toks@).len() == toks.len());
    if toks.len() == 0 {
        return Err(SelfhostError::IterNextName);
    }
    if toks.len() == 1 {
        return Err(SelfhostError::IterNextTarget);
    }
    let name = string_of(&toks[0]);
    let name2 = string_of(&toks[0]);
    let label = string_of(&toks[1]);
    assert(crate::lsp::rows_view(toks@)[0] == toks@[0]@);
    assert(crate::lsp::rows_view(toks@)[1] == toks@[1]@);
    Ok((IrInst::IterNext(name, usize::MAX), Some((label, 2u8, name2))))
}

/// The instruction of a line, given its opcode and the trimmed text after
/// it, and the fixup its jump target needs.
#[verifier::rlimit(40)]
fn parse_inst(opcode: &Vec<char>, rest: &Vec<char>, line: &Vec<char>) -> (r: Result<(IrInst, Option<(String, u8, String)>), SelfhostError>)
    ensures
        match spec_parse_inst(opcode@, rest@, line@) {
            Ok((i, f)) => r is Ok && r->Ok_0.0@ == i && fixup_view(r->Ok_0.1) == f,
            Err(e) => r is Err && r->Err_0@ == e,
        },
{
    if chars_eq_str(opcode, "const") {
        match parse_const(rest) {
            Ok(v) => Ok((IrInst::Const(v), None)),
            Err(e) => Err(e),
        }
    } else if chars_eq_str(opcode, "load") {
        Ok((IrInst::Load(string_of(rest)), None))
    } else if chars_eq_str(opcode, "store") {
        Ok((IrInst::Store(string_of(rest)), None))
    } else if chars_eq_str(opcode, "set_index") {
        Ok((IrInst::SetIndex, None))
    } else if chars_eq_str(opcode, "set_field") {
        Ok((IrInst::SetField(string_of(rest)), None))
    } else if chars_eq_str(opcode, "binary") {
        let text = string_of(rest);
        match parse_op(text.as_str()) {
            Ok(op) => Ok((IrInst::Binary(op), None)),
            Err(e) => Err(e),
        }
    } else if chars_eq_str(opcode, "unary") {
        let text = string_of(rest);
        match parse_unary(text.as_str()) {
            Ok(op) => Ok((IrInst::Unary(op), None)),
            Err(e) => Err(e),
        }
    } else if chars_eq_str(opcode, "call") {
        match parse_call(rest) {
            Ok(i) => Ok((i, None)),
            Err(e) => Err(e),
        }
    } else if chars_eq_str(opcode, "call_value") {
        match parse_usize_chars(rest) {
            Some(n) => Ok((IrInst::CallValue(n), None)),
            None => Err(SelfhostError::InvalidCallValue),
        }
    } else if chars_eq_str(opcode, "make_list") {
        match parse_usize_chars(rest) {
            Some(n) => Ok((IrInst::MakeList(n), None)),
            None => Err(SelfhostError::InvalidMakeList),
        }
    } else if chars_eq_str(opcode, "make_object") {
        Ok((parse_make_object(rest), None))
    } else if chars_eq_str(opcode, "index") {
        Ok((IrInst::Index, None))
    } else if chars_eq_str(opcode, "field") {
        Ok((IrInst::Field(string_of(rest)), None))
    } else if chars_eq_str(opcode, "print") {
        Ok((IrInst::Print, None))
    } else if chars_eq_str(opcode, "pop") {
        Ok((IrInst::Pop, None))
    } else if chars_eq_str(opcode, "return") {
        Ok((IrInst::Return, None))
    } else if chars_eq_str(opcode, "iter_init") {
        Ok((IrInst::IterInit, None))
    } else if chars_eq_str(opcode, "iter_next") {
        parse_iter_next(rest)
    } else if chars_eq_str(opcode, "jump") {
        Ok((IrInst::Jump(usize::MAX), Some((string_of(rest), 0u8, String::new()))))
    } else if chars_eq_str(opcode, "jump_if_false") {
        Ok((IrInst::JumpIfFalse(usize::MAX), Some((string_of(rest), 1u8, String::new()))))
    } else if chars_eq_str(opcode, "use") {
        Ok((IrInst::Use(string_of(rest)), None))
    } else if chars_eq_str(opcode, "unsupported") || chars_eq_str(opcode, "unsupported_stmt") {
        Err(SelfhostError::Unsupported(string_of(line)))
    } else if chars_eq_str(opcode, "break") {
        Err(SelfhostError::UnresolvedBreak)
    } else {
        Err(SelfhostError::UnknownOpcode(string_of(opcode)))
    }
}


/// The labels of a function as names and code indices.
pub open spec fn label_entries(v: Seq<(String, usize)>) -> Seq<(Seq<char>, nat)> {
    Seq::new(v.len(), |i: int| (v[i].0@, v[i].1 as nat))
}

/// The pending fixups as code index, label, kind and loop variable.
pub open spec fn fixups_view(v: Seq<(usize, String, u8, String)>) -> Seq<(nat, Seq<char>, u8, Seq<char>)> {
    Seq::new(v.len(), |i: int| (v[i].0 as nat, v[i].1@, v[i].2, v[i].3@))
}

/// The index a label stands for: its last definition.
fn label_get(labels: &Vec<(String, usize)>, k: &String) -> (r: Option<usize>)
    ensures
        match r {
            Some(n) => table(label_entries(labels@)).contains_key(k@) && table(label_entries(labels@))[k@] == n as nat,
            None => !table(label_entries(labels@)).contains_key(k@),
        },
{
    let ghost e = label_entries(labels@);
    assert(e.take(e.len() as int) =~= e);
    let mut i = labels.len();
    while i > 0
        invariant
            i <= labels.len(),
            e == label_entries(labels@),
            table(e.take(i as int)).contains_key(k@) == table(e).contains_key(k@),
            table(e.take(i as int)).contains_key(k@) ==> table(e.take(i as int))[k@] == table(e)[k@],
        decreases i,
    {
        proof { lemma_table_take(e, i as int); }
        if labels[i - 1].0 == *k {
            return Some(labels[i - 1].1);
        }
        i -= 1;
    }
    assert(e.take(0) =~= Seq::<(Seq<char>, nat)>::empty());
    None
}

/// The instruction a fixup puts in place.
fn fixup_of(kind: u8, target: usize, name: &String) -> (r: IrInst)
    ensures
        r@ == fixup_inst(kind, target as nat, name@),
{
    if kind == 0 {
        IrInst::Jump(target)
    } else if kind == 1 {
        IrInst::JumpIfFalse(target)
    } else {
        IrInst::IterNext(name.clone(), target)
    }
}

/// Applies the fixups to the code in order.
fn resolve_code(code: &mut Vec<IrInst>, labels: &Vec<(String, usize)>, fixups: &Vec<(usize, String, u8, String)>) -> (r: Result<(), SelfhostError>)
    requires
        forall|i: int| 0 <= i < fixups.len() ==> (#[trigger] fixups@[i]).0 < old(code).len(),
    ensures
        match resolve(code_view(old(code)@), table(label_entries(labels@)), fixups_view(fixups@)) {
            Ok(c) => r is Ok && code_view(final(code)@) == c,
            Err(e) => r is Err && r->Err_0@ == e,
        },
{
    let ghost lt = table(label_entries(labels@));
    let ghost fv = fixups_view(fixups@);
    let ghost goal = resolve(code_view(code@), lt, fv);
    let mut k: usize = 0;
    assert(fv.skip(0) =~= fv);
    while k < fixups.len()
        invariant
            k <= fixups.len(),
            lt == table(label_entries(labels@)),
            fv == fixups_view(fixups@),
            code.len() == old(code).len(),
            forall|i: int| 0 <= i < fixups.len() ==> (#[trigger] fixups@[i]).0 < old(code).len(),
            goal == resolve(code_view(code@), lt, fv.skip(k as int)),
            goal == resolve(code_view(old(code)@), lt, fv),
        decreases fixups.len() - k,
    {
        let ghost rest = fv.skip(k as int);
        assert(rest[0] == fv[k as int]);
        assert(rest.drop_first() =~= fv.skip(k + 1));
        let entry = &fixups[k];
        match label_get(labels, &entry.1) {
            None => {
                assert(rest[0].1 == entry.1@);
                assert(resolve(code_view(code@), lt, rest) == Err::<Seq<SInst>, SSelfhostError>(SSelfhostError::MissingLabel(entry.1@)));
                return Err(SelfhostError::MissingLabel(entry.1.clone()));
            }
            Some(target) => {
                let inst = fixup_of(entry.2, target, &entry.3);
                let ghost before = code@;
                code.set(entry.0, inst);
                proof { lemma_code_set(before, entry.0 as int, inst); }
            }
        }
        k += 1;
    }
    assert(fv.skip(k as int) =~= Seq::<(nat, Seq<char>, u8, Seq<char>)>::empty());
    Ok(())
}

/// The reader's executable state.
struct Reader {
    functions: Vec<(String, IrFunction)>,
    main: Vec<IrInst>,
    current: Option<String>,
    params: Vec<String>,
    code: Vec<IrInst>,
    labels: Vec<(String, usize)>,
    unresolved: Vec<(usize, String, u8, String)>,
}

impl Reader {
    spec fn state(&self) -> ReadState {
        ReadState {
            functions: functions_view(self.functions@),
            main: code_view(self.main@),
            current: match self.current { Some(n) => Some(n@), None => None },
            params: strings_view(self.params@),
            code: code_view(self.code@),
            labels: table(label_entries(self.labels@)),
            unresolved: fixups_view(self.unresolved@),
        }
    }

    /// Every pending fixup points into the current code.
    spec fn wf(&self) -> bool {
        forall|i: int| 0 <= i < self.unresolved.len() ==> (#[trigger] self.unresolved@[i]).0 < self.code.len()
    }

    fn new() -> (r: Reader)
        ensures
            r.state() == initial_state(),
            r.wf(),
    {
        let r = Reader {
            functions: Vec::new(),
            main: Vec::new(),
            current: None,
            params: Vec::new(),
            code: Vec::new(),
            labels: Vec::new(),
            unresolved: Vec::new(),
        };
        assert(r.state() =~= initial_state());
        r
    }

    /// Ends the current function, as `spec_finish` says.
    fn finish(&mut self) -> (r: Result<(), SelfhostError>)
        requires
            old(self).wf(),
        ensures
            match spec_finish(old(self).state()) {
                Ok(st) => r is Ok && final(self).state() == st && final(self).wf(),
                Err(e) => r is Err && r->Err_0@ == e,
            },
    {
        let name = match &self.current {
            None => return Ok(()),
            Some(n) => n.clone(),
        };
        let mut code: Vec<IrInst> = Vec::new();
        std::mem::swap(&mut code, &mut self.code);
        match resolve_code(&mut code, &self.labels, &self.unresolved) {
            Err(e) => return Err(e),
            Ok(()) => {},
        }
        self.labels = Vec::new();
        self.unresolved = Vec::new();
        if eq_lit(&name, "_main") {
            self.main = code;
        } else {
            let mut params: Vec<String> = Vec::new();
            std::mem::swap(&mut params, &mut self.params);
            let ghost fs = self.functions@;
            self.functions.push((name, IrFunction { params, code }));
            assert(functions_view(self.functions@) =~= functions_view(fs).push((name@, strings_view(params@), code_view(code@))));
        }
        assert(strings_view(Seq::<String>::empty()) =~= Seq::<Seq<char>>::empty());
        assert(code_view(Seq::<IrInst>::empty()) =~= Seq::<SInst>::empty());
        assert(table(label_entries(Seq::<(String, usize)>::empty())) =~= Map::<Seq<char>, nat>::empty());
        assert(fixups_view(Seq::<(usize, String, u8, String)>::empty()) =~= Seq::<(nat, Seq<char>, u8, Seq<char>)>::empty());
        proof {
            match spec_finish(old(self).state()) {
                Ok(st) => { assert(self.state() =~= st); },
                Err(e) => {},
            }
        }
        Ok(())
    }

    /// Starts a function from the text after `function ` of a signature
    /// line that ends with `)`.
    fn start_function(&mut self, sig: &Vec<char>, line: &Vec<char>) -> (r: Result<(), SelfhostError>)
        requires
            old(self).wf(),
            sig.len() > 0,
            sig@.last() == ')',
        ensures
            match index_of(sig@, '(') {
                None => r is Err && r->Err_0@ == SSelfhostError::Signature(line@),
                Some(open) => r is Ok && final(self).wf() && final(self).state() == (ReadState {
                    current: Some(spec_trim(sig@.take(open))),
                    params: param_list(sig@.subrange(open + 1, sig@.len() - 1)),
                    code: Seq::empty(),
                    labels: Map::empty(),
                    unresolved: Seq::empty(),
                    ..old(self).state()
                }),
            },
    {
        match find_char(sig, '(', 0) {
            None => {
                assert(sig@.skip(0) =~= sig@);
                Err(SelfhostError::Signature(string_of(line)))
            },
            Some(open) => {
                assert(sig@.skip(0) =~= sig@);
                assert(open < sig.len() - 1);
                let head = sub_chars(sig, 0, open);
                let name = trim_chars(&head);
                let inner = sub_chars(sig, open + 1, sig.len() - 1);
                let params = param_list_of(&inner);
                assert(head@ =~= sig@.take(open as int));
                self.current = Some(string_of(&name));
                self.params = params;
                self.code = Vec::new();
                self.labels = Vec::new();
                self.unresolved = Vec::new();
                assert(code_view(Seq::<IrInst>::empty()) =~= Seq::<SInst>::empty());
                assert(table(label_entries(Seq::<(String, usize)>::empty())) =~= Map::<Seq<char>, nat>::empty());
                assert(fixups_view(Seq::<(usize, String, u8, String)>::empty()) =~= Seq::<(nat, Seq<char>, u8, Seq<char>)>::empty());
                Ok(())
            },
        }
    }

    /// Adds the instruction of a line inside a function.
    fn add_instruction(&mut self, line: &Vec<char>) -> (r: Result<(), SelfhostError>)
        requires
            old(self).wf(),
        ensures
            match ({
                let (opcode, rest) = match index_of(line@, ' ') {
                    Some(i) => (line@.take(i), spec_trim(line@.skip(i + 1))),
                    None => (line@, Seq::<char>::empty()),
                };
                spec_parse_inst(opcode, rest, line@)
            }) {
                Err(e) => r is Err && r->Err_0@ == e,
                Ok((inst, fixup)) => r is Ok && final(self).wf() && final(self).state() == (ReadState {
                    code: old(self).state().code.push(inst),
                    unresolved: match fixup {
                        Some((label, kind, name)) => old(self).state().unresolved.push((old(self).state().code.len(), label, kind, name)),
                        None => old(self).state().unresolved,
                    },
                    ..old(self).state()
                }),
            },
    {
        let (opcode, rest) = match find_char(line, ' ', 0) {
            Some(i) => {
                let after = sub_chars(line, i + 1, line.len());
                (sub_chars(line, 0, i), trim_chars(&after))
            },
            None => (sub_chars(line, 0, line.len()), Vec::new()),
        };
        assert(line@.skip(0) =~= line@);
        assert(line@.subrange(0, line@.len() as int) =~= line@);
        proof {
            match index_of(line@, ' ') {
                Some(i) => {
                    assert(opcode@ =~= line@.take(i));
                    assert(line@.subrange(i + 1, line@.len() as int) =~= line@.skip(i + 1));
                },
                None => {
                    assert(rest@ =~= Seq::<char>::empty());
                },
            }
        }
        match parse_inst(&opcode, &rest, line) {
            Err(e) => Err(e),
            Ok((inst, fixup)) => {
                let index = self.code.len();
                let ghost before = self.state();
                let ghost fx = self.unresolved@;
                match fixup {
                    Some((label, kind, name)) => {
                        self.unresolved.push((index, label, kind, name));
                        assert(fixups_view(self.unresolved@) =~= fixups_view(fx).push((index as nat, label@, kind, name@)));
                    },
                    None => {},
                }
                let ghost c = self.code@;
                self.code.push(inst);
                proof { lemma_code_push(c, inst); }
                assert(self.state() =~= (ReadState {
                    code: before.code.push(inst@),
                    unresolved: match fixup_view(fixup) {
                        Some((label, kind, name)) => before.unresolved.push((before.code.len(), label, kind, name)),
                        None => before.unresolved,
                    },
                    ..before
                }));
                Ok(())
            },
        }
    }

    /// Reads one line, as `read_line` says.
    fn take_line(&mut self, raw: &Vec<char>) -> (r: Result<(), SelfhostError>)
        requires
            old(self).wf(),
        ensures
            match read_line(old(self).state(), raw@) {
                Ok(st) => r is Ok && final(self).state() == st && final(self).wf(),
                Err(e) => r is Err && r->Err_0@ == e,
            },
    {
        let line = trim_chars(raw);
        if line.len() == 0 {
            return Ok(());
        }
        match strip_lit(&line, "function ") {
            Some(sig) => {
                if line[line.len() - 1] != ')' {
                    return Err(SelfhostError::Signature(string_of(&line)));
                }
                proof { reveal_strlit("function "); }
                assert(sig@ =~= line@.skip(9));
                assert(line@.take(9) == "function "@);
                assert(line@.take(9)[8] == ' ');
                assert(line@[8] == ' ');
                assert(sig.len() > 0);
                assert(sig@.last() == line@.last());
                match self.finish() {
                    Err(e) => return Err(e),
                    Ok(()) => {},
                }
                self.start_function(&sig, &line)
            },
            None => {
                if chars_eq_str(&line, "end_function") {
                    let res = self.finish();
                    match res {
                        Err(e) => return Err(e),
                        Ok(()) => {},
                    }
                    self.current = None;
                    return Ok(());
                }
                if self.current.is_none() {
                    return Err(SelfhostError::OutsideFunction(string_of(&line)));
                }
                match strip_lit(&line, "label ") {
                    Some(l) => {
                        let t = trim_chars(&l);
                        let ghost lb = self.labels@;
                        let index = self.code.len();
                        self.labels.push((string_of(&t), index));
                        assert(label_entries(self.labels@) =~= label_entries(lb).push((t@, index as nat)));
                        proof { crate::semantic::lemma_table_push(label_entries(lb), (t@, index as nat)); }
                        Ok(())
                    },
                    None => self.add_instruction(&line),
                }
            },
        }
    }
}


/// The parameters of a signature as `param_list` says.
fn param_list_of(text: &Vec<char>) -> (r: Vec<String>)
    ensures
        strings_view(r@) == param_list(text@),
{
    let t = trim_chars(text);
    if t.len() == 0 {
        let r: Vec<String> = Vec::new();
        assert(strings_view(r@) =~= Seq::<Seq<char>>::empty());
        r
    } else {
        let pieces = split_chars(text, ',');
        trim_all(&pieces)
    }
}


/// Reads a text of self-hosted IR into a program: the code of `_main` at
/// the top level and the other functions in the order they end, each jump
/// pointing at the index of its label.
pub fn parse(source: &str) -> (r: Result<IrProgram, SelfhostError>)
    ensures
        match spec_parse(source@) {
            Ok((main, fs)) => r is Ok && code_view(r->Ok_0.code@) == main && functions_view(r->Ok_0.functions@) == fs,
            Err(e) => r is Err && r->Err_0@ == e,
        },
{
    let chars = chars_of(source);
    let lines = crate::lsp::lines_of(&chars);
    let ghost all = crate::lsp::rows_view(lines@);
    let mut rd = Reader::new();
    let mut i: usize = 0;
    assert(all.skip(0) =~= all);
    while i < lines.len()
        invariant
            i <= lines.len(),
            all == crate::lsp::rows_view(lines@),
            all == crate::lsp::spec_lines(source@),
            rd.wf(),
            read_lines(initial_state(), all) == read_lines(rd.state(), all.skip(i as int)),
        decreases lines.len() - i,
    {
        let ghost rest = all.skip(i as int);
        assert(rest[0] == lines@[i as int]@);
        assert(rest.drop_first() =~= all.skip(i + 1));
        match rd.take_line(&lines[i]) {
            Err(e) => return Err(e),
            Ok(()) => {},
        }
        i += 1;
    }
    assert(all.skip(i as int) =~= Seq::<Seq<char>>::empty());
    match rd.finish() {
        Err(e) => return Err(e),
        Ok(()) => {},
    }
    Ok(IrProgram { code: rd.main, functions: rd.functions })
}


/// Whether an instruction jumps.
pub open spec fn is_jump(i: SInst) -> bool {
    i is Jump || i is JumpIfFalse || i is IterNext
}

/// Where a jumping instruction goes.
pub open spec fn jump_target(i: SInst) -> nat {
    match i {
        SInst::Jump(t) => t,
        SInst::JumpIfFalse(t) => t,
        SInst::IterNext(_, t) => t,
        _ => 0,
    }
}

/// Every jump of the code goes to one of its instructions or to its end.
pub open spec fn targets_within(code: Seq<SInst>) -> bool {
    forall|i: int| 0 <= i < code.len() && is_jump(#[trigger] code[i]) ==> jump_target(code[i]) <= code.len()
}

/// Whether a fixup is pending for index `i`.
pub open spec fn pending(u: Seq<(nat, Seq<char>, u8, Seq<char>)>, i: int) -> bool {
    exists|j: int| 0 <= j < u.len() && (#[trigger] u[j]).0 == i
}

/// What the reader keeps between lines: finished code jumps within
/// itself; the current function's labels are within its code, its fixups
/// point into it, and each of its jumps is done or has a fixup pending.
pub open spec fn reader_ok(st: ReadState) -> bool {
    &&& targets_within(st.main)
    &&& forall|f: int| 0 <= f < st.functions.len() ==> targets_within(#[trigger] st.functions[f].2)
    &&& forall|k: Seq<char>| #[trigger] st.labels.contains_key(k) ==> st.labels[k] <= st.code.len()
    &&& forall|j: int| 0 <= j < st.unresolved.len() ==> (#[trigger] st.unresolved[j]).0 < st.code.len()
    &&& forall|i: int| 0 <= i < st.code.len() && is_jump(#[trigger] st.code[i]) ==> pending(st.unresolved, i)
}

proof fn lemma_resolve_within(code: Seq<SInst>, labels: Map<Seq<char>, nat>, fixups: Seq<(nat, Seq<char>, u8, Seq<char>)>)
    requires
        forall|k: Seq<char>| #[trigger] labels.contains_key(k) ==> labels[k] <= code.len(),
        forall|j: int| 0 <= j < fixups.len() ==> (#[trigger] fixups[j]).0 < code.len(),
        forall|i: int| 0 <= i < code.len() && is_jump(#[trigger] code[i]) ==> jump_target(code[i]) <= code.len() || pending(fixups, i),
    ensures
        resolve(code, labels, fixups) is Ok ==> targets_within(resolve(code, labels, fixups)->Ok_0)
            && resolve(code, labels, fixups)->Ok_0.len() == code.len(),
    decreases fixups.len(),
{
    if fixups.len() > 0 {
        let (index, label, kind, name) = fixups[0];
        if labels.contains_key(label) {
            let code2 = code.update(index as int, fixup_inst(kind, labels[label], name));
            let rest = fixups.drop_first();
            assert forall|j: int| 0 <= j < rest.len() implies (#[trigger] rest[j]).0 < code2.len() by {
                assert(rest[j] == fixups[j + 1]);
            }
            assert forall|i: int| 0 <= i < code2.len() && is_jump(#[trigger] code2[i]) implies jump_target(code2[i]) <= code2.len() || pending(rest, i) by {
                if i != index {
                    assert(code2[i] == code[i]);
                    if jump_target(code[i]) > code.len() {
                        let j = choose|j: int| 0 <= j < fixups.len() && (#[trigger] fixups[j]).0 == i;
                        assert(j != 0);
                        assert(rest[j - 1] == fixups[j]);
                    }
                }
            }
            lemma_resolve_within(code2, labels, rest);
        }
    }
}

proof fn lemma_finish_ok(st: ReadState)
    requires
        reader_ok(st),
    ensures
        spec_finish(st) is Ok ==> reader_ok(spec_finish(st)->Ok_0),
{
    match st.current {
        None => {},
        Some(name) => {
            lemma_resolve_within(st.code, st.labels, st.unresolved);
            match resolve(st.code, st.labels, st.unresolved) {
                Err(_) => {},
                Ok(code) => {
                    let st2 = spec_finish(st)->Ok_0;
                    assert(st2.code.len() == 0);
                    assert(st2.labels =~= Map::<Seq<char>, nat>::empty());
                    if name != "_main"@ {
                        assert forall|f: int| 0 <= f < st2.functions.len() implies targets_within(#[trigger] st2.functions[f].2) by {
                            if f < st.functions.len() {
                                assert(st2.functions[f] == st.functions[f]);
                            }
                        }
                    }
                },
            }
        },
    }
}

proof fn lemma_read_line_ok(st: ReadState, raw: Seq<char>)
    requires
        reader_ok(st),
    ensures
        read_line(st, raw) is Ok ==> reader_ok(read_line(st, raw)->Ok_0),
{
    let line = spec_trim(raw);
    if line.len() == 0 {
    } else if strip_prefix(line, "function "@) is Some {
        lemma_finish_ok(st);
        if line.last() == ')' && spec_finish(st) is Ok {
            let st1 = spec_finish(st)->Ok_0;
            let sig = strip_prefix(line, "function "@)->0;
            match index_of(sig, '(') {
                None => {},
                Some(open) => {
                    let st2 = read_line(st, raw)->Ok_0;
                    assert(st2.labels =~= Map::<Seq<char>, nat>::empty());
                    assert(st2.functions == st1.functions);
                    assert(st2.main == st1.main);
                },
            }
        }
    } else if line == "end_function"@ {
        lemma_finish_ok(st);
    } else if st.current is None {
    } else if strip_prefix(line, "label "@) is Some {
        let st2 = read_line(st, raw)->Ok_0;
        assert forall|k: Seq<char>| #[trigger] st2.labels.contains_key(k) implies st2.labels[k] <= st2.code.len() by {
            if k != spec_trim(strip_prefix(line, "label "@)->0) {
                assert(st.labels.contains_key(k));
            }
        }
    } else {
        let (opcode, rest) = match index_of(line, ' ') {
            Some(i) => (line.take(i), spec_trim(line.skip(i + 1))),
            None => (line, Seq::<char>::empty()),
        };
        match spec_parse_inst(opcode, rest, line) {
            Err(_) => {},
            Ok((inst, fixup)) => {
                let st2 = read_line(st, raw)->Ok_0;
                let n = st.code.len();
                assert(st2.code == st.code.push(inst));
                assert(fixup is Some <==> is_jump(inst));
                assert forall|j: int| 0 <= j < st2.unresolved.len() implies (#[trigger] st2.unresolved[j]).0 < st2.code.len() by {
                    if j < st.unresolved.len() {
                        assert(st2.unresolved[j] == st.unresolved[j]);
                    }
                }
                assert forall|i: int| 0 <= i < st2.code.len() && is_jump(#[trigger] st2.code[i]) implies pending(st2.unresolved, i) by {
                    if i < n {
                        assert(st2.code[i] == st.code[i]);
                        let j = choose|j: int| 0 <= j < st.unresolved.len() && (#[trigger] st.unresolved[j]).0 == i;
                        assert(st2.unresolved[j] == st.unresolved[j]);
                    } else {
                        assert(st2.unresolved[st.unresolved.len() as int].0 == n);
                    }
                }
            },
        }
    }
}

proof fn lemma_read_lines_ok(st: ReadState, lines: Seq<Seq<char>>)
    requires
        reader_ok(st),
    ensures
        read_lines(st, lines) is Ok ==> reader_ok(read_lines(st, lines)->Ok_0),
    decreases lines.len(),
{
    if lines.len() > 0 {
        lemma_read_line_ok(st, lines[0]);
        match read_line(st, lines[0]) {
            Err(_) => {},
            Ok(st1) => { lemma_read_lines_ok(st1, lines.drop_first()); },
        }
    }
}

/// Every jump the reader resolves stays inside its code: in the top-level
/// code and in each function, a jump goes to one of the instructions or to
/// the end.
pub proof fn law_parse_targets_within(src: Seq<char>)
    ensures
        spec_parse(src) matches Ok((main, fs)) ==> targets_within(main)
            && forall|f: int| 0 <= f < fs.len() ==> targets_within(#[trigger] fs[f].2),
{
    let st0 = initial_state();
    assert(reader_ok(st0));
    lemma_read_lines_ok(st0, crate::lsp::spec_lines(src));
    match read_lines(st0, crate::lsp::spec_lines(src)) {
        Err(_) => {},
        Ok(st) => { lemma_finish_ok(st); },
    }
}

} // verus!
