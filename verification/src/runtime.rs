//! Runtime identifiers, the NPU provider protocol version, value kinds for
//! the debugger, the built-in bitmap font and the GPU compute shaders.
use vstd::prelude::*;
use crate::semantic::eq_lit;
use crate::text::{ascii_upper, spec_ascii_upper};

verus! {

/// A counter that gives out identifiers 1, 2, 3, … (wrapping after the
/// largest `u64`).
pub struct IdCounter {
    next: u64,
}

impl IdCounter {
    /// The identifier the counter gives out next.
    pub closed spec fn peek(&self) -> u64 {
        self.next
    }

    pub fn new() -> (r: Self)
        ensures
            r.peek() == 1,
    {
        IdCounter { next: 1 }
    }

    /// Gives out the next identifier.
    pub fn take(&mut self) -> (r: u64)
        ensures
            r == old(self).peek(),
            final(self).peek() == (if old(self).peek() == u64::MAX { 0 } else { old(self).peek() + 1 }),
    {
        let id = self.next;
        self.next = self.next.wrapping_add(1);
        id
    }
}

/// Ids taken one after another differ until the counter wraps: the next
/// id is one more than the last.
pub proof fn law_ids_increase(c: IdCounter, d: IdCounter, id: u64)
    requires
        id == c.peek(),
        d.peek() == (if c.peek() == u64::MAX { 0 } else { c.peek() + 1 }),
        c.peek() < u64::MAX,
    ensures
        d.peek() > id,
{
}

/// The identifier of a new tensor.
pub fn next_tensor_id(ids: &mut IdCounter) -> (r: u64)
    ensures
        r == old(ids).peek(),
        final(ids).peek() == (if old(ids).peek() == u64::MAX { 0 } else { old(ids).peek() + 1 }),
{
    ids.take()
}

/// The identifier of a new request to the NPU provider.
pub fn next_request_id(ids: &mut IdCounter) -> (r: u64)
    ensures
        r == old(ids).peek(),
        final(ids).peek() == (if old(ids).peek() == u64::MAX { 0 } else { old(ids).peek() + 1 }),
{
    ids.take()
}

/// The version of the protocol spoken with NPU providers.
pub const ABI_VERSION: u32 = 1;

/// The operations an NPU provider must declare in its handshake.
pub open spec fn required_ops() -> Seq<Seq<char>> {
    seq!["matmul"@, "elementwise"@, "fused_mul_add"@, "reduce"@, "upload"@, "read"@, "release"@, "transfer"@]
}

/// The kinds of runtime values, as the debugger names them.
#[derive(Debug, Clone, Copy, PartialEq, Eq, Structural)]
pub enum ValueKind {
    Number,
    Text,
    Boolean,
    Function,
    List,
    Object,
    Tensor,
    Null,
}

pub open spec fn spec_value_type(k: ValueKind) -> Seq<char> {
    match k {
        ValueKind::Number => "Number"@,
        ValueKind::Text => "Text"@,
        ValueKind::Boolean => "Boolean"@,
        ValueKind::Function => "Function"@,
        ValueKind::List => "List"@,
        ValueKind::Object => "Object"@,
        ValueKind::Tensor => "Tensor"@,
        ValueKind::Null => "Null"@,
    }
}

/// The type name the debugger shows for a value of kind `k`.
pub fn value_type(k: ValueKind) -> (r: &'static str)
    ensures
        r@ == spec_value_type(k),
{
    match k {
        ValueKind::Number => "Number",
        ValueKind::Text => "Text",
        ValueKind::Boolean => "Boolean",
        ValueKind::Function => "Function",
        ValueKind::List => "List",
        ValueKind::Object => "Object",
        ValueKind::Tensor => "Tensor",
        ValueKind::Null => "Null",
    }
}

/// The rows of the 5×7 bitmap of an upper-case character, top first, the
/// leftmost pixel in bit 4; characters without a bitmap are blank.
pub open spec fn font_rows(c: char) -> Seq<u8> {
    if c == 'A' {
        seq![14u8, 17u8, 17u8, 31u8, 17u8, 17u8, 17u8]
    } else if c == 'B' {
        seq![30u8, 17u8, 17u8, 30u8, 17u8, 17u8, 30u8]
    } else if c == 'C' {
        seq![15u8, 16u8, 16u8, 16u8, 16u8, 16u8, 15u8]
    } else if c == 'D' {
        seq![30u8, 17u8, 17u8, 17u8, 17u8, 17u8, 30u8]
    } else if c == 'E' {
        seq![31u8, 16u8, 16u8, 30u8, 16u8, 16u8, 31u8]
    } else if c == 'F' {
        seq![31u8, 16u8, 16u8, 30u8, 16u8, 16u8, 16u8]
    } else if c == 'G' {
        seq![15u8, 16u8, 16u8, 23u8, 17u8, 17u8, 15u8]
    } else if c == 'H' {
        seq![17u8, 17u8, 17u8, 31u8, 17u8, 17u8, 17u8]
    } else if c == 'I' {
        seq![31u8, 4u8, 4u8, 4u8, 4u8, 4u8, 31u8]
    } else if c == 'J' {
        seq![7u8, 2u8, 2u8, 2u8, 2u8, 18u8, 12u8]
    } else if c == 'K' {
        seq![17u8, 18u8, 20u8, 24u8, 20u8, 18u8, 17u8]
    } else if c == 'L' {
        seq![16u8, 16u8, 16u8, 16u8, 16u8, 16u8, 31u8]
    } else if c == 'M' {
        seq![17u8, 27u8, 21u8, 21u8, 17u8, 17u8, 17u8]
    } else if c == 'N' {
        seq![17u8, 25u8, 21u8, 19u8, 17u8, 17u8, 17u8]
    } else if c == 'O' {
        seq![14u8, 17u8, 17u8, 17u8, 17u8, 17u8, 14u8]
    } else if c == 'P' {
        seq![30u8, 17u8, 17u8, 30u8, 16u8, 16u8, 16u8]
    } else if c == 'Q' {
        seq![14u8, 17u8, 17u8, 17u8, 21u8, 18u8, 13u8]
    } else if c == 'R' {
        seq![30u8, 17u8, 17u8, 30u8, 20u8, 18u8, 17u8]
    } else if c == 'S' {
        seq![15u8, 16u8, 16u8, 14u8, 1u8, 1u8, 30u8]
    } else if c == 'T' {
        seq![31u8, 4u8, 4u8, 4u8, 4u8, 4u8, 4u8]
    } else if c == 'U' {
        seq![17u8, 17u8, 17u8, 17u8, 17u8, 17u8, 14u8]
    } else if c == 'V' {
        seq![17u8, 17u8, 17u8, 17u8, 17u8, 10u8, 4u8]
    } else if c == 'W' {
        seq![17u8, 17u8, 17u8, 21u8, 21u8, 27u8, 17u8]
    } else if c == 'X' {
        seq![17u8, 17u8, 10u8, 4u8, 10u8, 17u8, 17u8]
    } else if c == 'Y' {
        seq![17u8, 17u8, 10u8, 4u8, 4u8, 4u8, 4u8]
    } else if c == 'Z' {
        seq![31u8, 1u8, 2u8, 4u8, 8u8, 16u8, 31u8]
    } else if c == '0' {
        seq![14u8, 19u8, 21u8, 21u8, 21u8, 25u8, 14u8]
    } else if c == '1' {
        seq![4u8, 12u8, 4u8, 4u8, 4u8, 4u8, 14u8]
    } else if c == '2' {
        seq![14u8, 17u8, 1u8, 2u8, 4u8, 8u8, 31u8]
    } else if c == '3' {
        seq![30u8, 1u8, 1u8, 14u8, 1u8, 1u8, 30u8]
    } else if c == '4' {
        seq![2u8, 6u8, 10u8, 18u8, 31u8, 2u8, 2u8]
    } else if c == '5' {
        seq![31u8, 16u8, 16u8, 30u8, 1u8, 1u8, 30u8]
    } else if c == '6' {
        seq![14u8, 16u8, 16u8, 30u8, 17u8, 17u8, 14u8]
    } else if c == '7' {
        seq![31u8, 1u8, 2u8, 4u8, 8u8, 8u8, 8u8]
    } else if c == '8' {
        seq![14u8, 17u8, 17u8, 14u8, 17u8, 17u8, 14u8]
    } else if c == '9' {
        seq![14u8, 17u8, 17u8, 15u8, 1u8, 1u8, 14u8]
    } else if c == '!' {
        seq![4u8, 4u8, 4u8, 4u8, 4u8, 0u8, 4u8]
    } else if c == '.' {
        seq![0u8, 0u8, 0u8, 0u8, 0u8, 6u8, 6u8]
    } else if c == ':' {
        seq![0u8, 6u8, 6u8, 0u8, 6u8, 6u8, 0u8]
    } else if c == '-' {
        seq![0u8, 0u8, 0u8, 31u8, 0u8, 0u8, 0u8]
    } else if c == '_' {
        seq![0u8, 0u8, 0u8, 0u8, 0u8, 0u8, 31u8]
    } else if c == '/' {
        seq![1u8, 2u8, 2u8, 4u8, 8u8, 8u8, 16u8]
    } else {
        seq![0u8, 0u8, 0u8, 0u8, 0u8, 0u8, 0u8]
    }
}

/// The bitmap of a character; lower-case letters use the upper-case ones.
pub fn glyph(c: char) -> (r: [u8; 7])
    ensures
        r@ == font_rows(spec_ascii_upper(c)),
{
    let u = ascii_upper(c);
    match u {
        'A' => [14u8, 17u8, 17u8, 31u8, 17u8, 17u8, 17u8],
        'B' => [30u8, 17u8, 17u8, 30u8, 17u8, 17u8, 30u8],
        'C' => [15u8, 16u8, 16u8, 16u8, 16u8, 16u8, 15u8],
        'D' => [30u8, 17u8, 17u8, 17u8, 17u8, 17u8, 30u8],
        'E' => [31u8, 16u8, 16u8, 30u8, 16u8, 16u8, 31u8],
        'F' => [31u8, 16u8, 16u8, 30u8, 16u8, 16u8, 16u8],
        'G' => [15u8, 16u8, 16u8, 23u8, 17u8, 17u8, 15u8],
        'H' => [17u8, 17u8, 17u8, 31u8, 17u8, 17u8, 17u8],
        'I' => [31u8, 4u8, 4u8, 4u8, 4u8, 4u8, 31u8],
        'J' => [7u8, 2u8, 2u8, 2u8, 2u8, 18u8, 12u8],
        'K' => [17u8, 18u8, 20u8, 24u8, 20u8, 18u8, 17u8],
        'L' => [16u8, 16u8, 16u8, 16u8, 16u8, 16u8, 31u8],
        'M' => [17u8, 27u8, 21u8, 21u8, 17u8, 17u8, 17u8],
        'N' => [17u8, 25u8, 21u8, 19u8, 17u8, 17u8, 17u8],
        'O' => [14u8, 17u8, 17u8, 17u8, 17u8, 17u8, 14u8],
        'P' => [30u8, 17u8, 17u8, 30u8, 16u8, 16u8, 16u8],
        'Q' => [14u8, 17u8, 17u8, 17u8, 21u8, 18u8, 13u8],
        'R' => [30u8, 17u8, 17u8, 30u8, 20u8, 18u8, 17u8],
        'S' => [15u8, 16u8, 16u8, 14u8, 1u8, 1u8, 30u8],
        'T' => [31u8, 4u8, 4u8, 4u8, 4u8, 4u8, 4u8],
        'U' => [17u8, 17u8, 17u8, 17u8, 17u8, 17u8, 14u8],
        'V' => [17u8, 17u8, 17u8, 17u8, 17u8, 10u8, 4u8],
        'W' => [17u8, 17u8, 17u8, 21u8, 21u8, 27u8, 17u8],
        'X' => [17u8, 17u8, 10u8, 4u8, 10u8, 17u8, 17u8],
        'Y' => [17u8, 17u8, 10u8, 4u8, 4u8, 4u8, 4u8],
        'Z' => [31u8, 1u8, 2u8, 4u8, 8u8, 16u8, 31u8],
        '0' => [14u8, 19u8, 21u8, 21u8, 21u8, 25u8, 14u8],
        '1' => [4u8, 12u8, 4u8, 4u8, 4u8, 4u8, 14u8],
        '2' => [14u8, 17u8, 1u8, 2u8, 4u8, 8u8, 31u8],
        '3' => [30u8, 1u8, 1u8, 14u8, 1u8, 1u8, 30u8],
        '4' => [2u8, 6u8, 10u8, 18u8, 31u8, 2u8, 2u8],
        '5' => [31u8, 16u8, 16u8, 30u8, 1u8, 1u8, 30u8],
        '6' => [14u8, 16u8, 16u8, 30u8, 17u8, 17u8, 14u8],
        '7' => [31u8, 1u8, 2u8, 4u8, 8u8, 8u8, 8u8],
        '8' => [14u8, 17u8, 17u8, 14u8, 17u8, 17u8, 14u8],
        '9' => [14u8, 17u8, 17u8, 15u8, 1u8, 1u8, 14u8],
        '!' => [4u8, 4u8, 4u8, 4u8, 4u8, 0u8, 4u8],
        '.' => [0u8, 0u8, 0u8, 0u8, 0u8, 6u8, 6u8],
        ':' => [0u8, 6u8, 6u8, 0u8, 6u8, 6u8, 0u8],
        '-' => [0u8, 0u8, 0u8, 31u8, 0u8, 0u8, 0u8],
        '_' => [0u8, 0u8, 0u8, 0u8, 0u8, 0u8, 31u8],
        '/' => [1u8, 2u8, 2u8, 4u8, 8u8, 8u8, 16u8],
        _ => [0u8, 0u8, 0u8, 0u8, 0u8, 0u8, 0u8],
    }
}

/// Matrix product, one invocation per output element.
pub const MATMUL_SHADER: &'static str = r#"
struct Params { m: u32, k: u32, n: u32, _pad: u32 };
@group(0) @binding(0) var<storage, read> a: array<f32>;
@group(0) @binding(1) var<storage, read> b: array<f32>;
@group(0) @binding(2) var<storage, read_write> out: array<f32>;
@group(0) @binding(3) var<uniform> params: Params;
@compute @workgroup_size(8, 8, 1)
fn main(@builtin(global_invocation_id) gid: vec3<u32>) {
    let col = gid.x; let row = gid.y;
    if (row >= params.m || col >= params.n) { return; }
    var acc = 0.0;
    for (var i = 0u; i < params.k; i = i + 1u) {
        acc = acc + a[row * params.k + i] * b[i * params.n + col];
    }
    out[row * params.n + col] = acc;
}
"#;

/// Fused multiply-add, one invocation per element.
pub const FMA_SHADER: &'static str = r#"
struct Params { len: u32, _pad0: u32, _pad1: u32, _pad2: u32 };
@group(0) @binding(0) var<storage, read> left: array<f32>;
@group(0) @binding(1) var<storage, read> right: array<f32>;
@group(0) @binding(2) var<storage, read> bias: array<f32>;
@group(0) @binding(3) var<storage, read_write> out: array<f32>;
@group(0) @binding(4) var<uniform> params: Params;

@compute @workgroup_size(256, 1, 1)
fn main(@builtin(global_invocation_id) gid: vec3<u32>) {
    let i = gid.x;
    if (i >= params.len) { return; }
    out[i] = left[i] * right[i] + bias[i];
}
"#;

/// Element-wise arithmetic selected by `params.op`.
pub const ELEMENTWISE_SHADER: &'static str = r#"
struct Params { len: u32, op: u32, _pad0: u32, _pad1: u32 };
@group(0) @binding(0) var<storage, read> left: array<f32>;
@group(0) @binding(1) var<storage, read> right: array<f32>;
@group(0) @binding(2) var<storage, read_write> out: array<f32>;
@group(0) @binding(3) var<uniform> params: Params;
@compute @workgroup_size(256, 1, 1)
fn main(@builtin(global_invocation_id) gid: vec3<u32>) {
    let i = gid.x;
    if (i >= params.len) { return; }
    let a = left[i]; let b = right[i];
    if (params.op == 0u) { out[i] = a + b; }
    else if (params.op == 1u) { out[i] = a - b; }
    else if (params.op == 2u) { out[i] = a * b; }
    else { out[i] = a / b; }
}
"#;

/// Sum of all elements in one workgroup.
pub const REDUCE_SHADER: &'static str = r#"
struct Params { len: u32, _pad0: u32, _pad1: u32, _pad2: u32 };
@group(0) @binding(0) var<storage, read> input: array<f32>;
@group(0) @binding(1) var<storage, read_write> out: array<f32>;
@group(0) @binding(2) var<uniform> params: Params;
var<workgroup> scratch: array<f32, 256>;
@compute @workgroup_size(256, 1, 1)
fn main(@builtin(local_invocation_id) lid: vec3<u32>, @builtin(global_invocation_id) gid: vec3<u32>) {
    let lane = lid.x; var index = gid.x; var value = 0.0;
    while (index < params.len) { value = value + input[index]; index = index + 256u; }
    scratch[lane] = value; workgroupBarrier();
    var stride = 128u;
    while (stride > 0u) {
        if (lane < stride) { scratch[lane] = scratch[lane] + scratch[lane + stride]; }
        workgroupBarrier(); stride = stride / 2u;
    }
    if (lane == 0u) { out[0] = scratch[0]; }
}
"#;


/// The short name of a standard library function: a `std.` path is
/// mapped to the builtin it names; any other name is itself.
pub open spec fn spec_builtin_name(name: Seq<char>) -> Seq<char> {
    if name == "std.fs.read_text"@ { "fs_read_text"@ } else
    if name == "std.fs.write_text"@ { "fs_write_text"@ } else
    if name == "std.fs.append_text"@ { "fs_append_text"@ } else
    if name == "std.fs.exists"@ { "fs_exists"@ } else
    if name == "std.fs.list"@ { "fs_list"@ } else
    if name == "std.fs.mkdir"@ { "fs_mkdir"@ } else
    if name == "std.fs.remove"@ { "fs_remove"@ } else
    if name == "std.process.spawn"@ { "process_spawn"@ } else
    if name == "std.process.wait"@ { "process_wait"@ } else
    if name == "std.time.now_ms"@ { "time_now_ms"@ } else
    if name == "std.time.sleep_ms"@ { "time_sleep_ms"@ } else
    if name == "std.net.tcp_connect"@ { "net_tcp_connect"@ } else
    if name == "std.net.tcp_listen"@ { "net_tcp_listen"@ } else
    if name == "std.net.tcp_accept"@ { "net_tcp_accept"@ } else
    if name == "std.net.tcp_send"@ { "net_tcp_send"@ } else
    if name == "std.net.tcp_recv"@ { "net_tcp_recv"@ } else
    if name == "std.net.tcp_close"@ { "net_tcp_close"@ } else
    if name == "std.net.http_get"@ { "net_http_get"@ } else
    if name == "std.http.get"@ { "net_http_get"@ } else
    if name == "std.env.get"@ { "env_get"@ } else
    if name == "std.env.set"@ { "env_set"@ } else
    if name == "std.math.abs"@ { "abs"@ } else
    if name == "std.math.sqrt"@ { "sqrt"@ } else
    if name == "std.math.floor"@ { "floor"@ } else
    if name == "std.math.ceil"@ { "ceil"@ } else
    if name == "std.math.round"@ { "round"@ } else
    if name == "std.math.sin"@ { "sin"@ } else
    if name == "std.math.cos"@ { "cos"@ } else
    if name == "std.math.tan"@ { "tan"@ } else
    if name == "std.math.exp"@ { "exp"@ } else
    if name == "std.math.log"@ { "log"@ } else
    if name == "std.math.pow"@ { "pow"@ } else
    if name == "std.math.min"@ { "min"@ } else
    if name == "std.math.max"@ { "max"@ } else
    if name == "std.ui.window"@ { "ui_window"@ } else
    if name == "std.ui.set_title"@ { "ui_set_title"@ } else
    if name == "std.ui.close"@ { "ui_close"@ } else
    if name == "std.ui.poll_event"@ { "ui_poll_event"@ } else
    if name == "std.async.channel"@ { "channel"@ } else
    if name == "std.async.send"@ { "send"@ } else
    if name == "std.async.recv"@ { "recv"@ } else
    if name == "std.async.close_channel"@ { "close_channel"@ } else
    { name }
}

fn text_of(lit: &str) -> (r: String)
    ensures
        r@ == lit@,
{
    let cs = crate::text::chars_of(lit);
    crate::text::string_of(&cs)
}

/// The builtin a called name stands for, as `spec_builtin_name` says.
#[verifier::rlimit(40)]
pub fn builtin_name(name: &String) -> (r: String)
    ensures
        r@ == spec_builtin_name(name@),
{
    if eq_lit(name, "std.fs.read_text") { return text_of("fs_read_text"); }
    if eq_lit(name, "std.fs.write_text") { return text_of("fs_write_text"); }
    if eq_lit(name, "std.fs.append_text") { return text_of("fs_append_text"); }
    if eq_lit(name, "std.fs.exists") { return text_of("fs_exists"); }
    if eq_lit(name, "std.fs.list") { return text_of("fs_list"); }
    if eq_lit(name, "std.fs.mkdir") { return text_of("fs_mkdir"); }
    if eq_lit(name, "std.fs.remove") { return text_of("fs_remove"); }
    if eq_lit(name, "std.process.spawn") { return text_of("process_spawn"); }
    if eq_lit(name, "std.process.wait") { return text_of("process_wait"); }
    if eq_lit(name, "std.time.now_ms") { return text_of("time_now_ms"); }
    if eq_lit(name, "std.time.sleep_ms") { return text_of("time_sleep_ms"); }
    if eq_lit(name, "std.net.tcp_connect") { return text_of("net_tcp_connect"); }
    if eq_lit(name, "std.net.tcp_listen") { return text_of("net_tcp_listen"); }
    if eq_lit(name, "std.net.tcp_accept") { return text_of("net_tcp_accept"); }
    if eq_lit(name, "std.net.tcp_send") { return text_of("net_tcp_send"); }
    if eq_lit(name, "std.net.tcp_recv") { return text_of("net_tcp_recv"); }
    if eq_lit(name, "std.net.tcp_close") { return text_of("net_tcp_close"); }
    if eq_lit(name, "std.net.http_get") { return text_of("net_http_get"); }
    if eq_lit(name, "std.http.get") { return text_of("net_http_get"); }
    if eq_lit(name, "std.env.get") { return text_of("env_get"); }
    if eq_lit(name, "std.env.set") { return text_of("env_set"); }
    if eq_lit(name, "std.math.abs") { return text_of("abs"); }
    if eq_lit(name, "std.math.sqrt") { return text_of("sqrt"); }
    if eq_lit(name, "std.math.floor") { return text_of("floor"); }
    if eq_lit(name, "std.math.ceil") { return text_of("ceil"); }
    if eq_lit(name, "std.math.round") { return text_of("round"); }
    if eq_lit(name, "std.math.sin") { return text_of("sin"); }
    if eq_lit(name, "std.math.cos") { return text_of("cos"); }
    if eq_lit(name, "std.math.tan") { return text_of("tan"); }
    if eq_lit(name, "std.math.exp") { return text_of("exp"); }
    if eq_lit(name, "std.math.log") { return text_of("log"); }
    if eq_lit(name, "std.math.pow") { return text_of("pow"); }
    if eq_lit(name, "std.math.min") { return text_of("min"); }
    if eq_lit(name, "std.math.max") { return text_of("max"); }
    if eq_lit(name, "std.ui.window") { return text_of("ui_window"); }
    if eq_lit(name, "std.ui.set_title") { return text_of("ui_set_title"); }
    if eq_lit(name, "std.ui.close") { return text_of("ui_close"); }
    if eq_lit(name, "std.ui.poll_event") { return text_of("ui_poll_event"); }
    if eq_lit(name, "std.async.channel") { return text_of("channel"); }
    if eq_lit(name, "std.async.send") { return text_of("send"); }
    if eq_lit(name, "std.async.recv") { return text_of("recv"); }
    if eq_lit(name, "std.async.close_channel") { return text_of("close_channel"); }
    name.clone()
}

} // verus!
