use nanolang::codegen::{compile_program, NativeModule};
use nanolang::dtype::DType;
use nanolang::memory::{MemoryBlock, MemoryPlanner};
use nanolang::http::{build_request, parse_response};
use nanolang::ir::{Compiler, IrFunction, IrInst, IrProgram, Optimizer};
use nanolang::lint::{lint, Severity};
use nanolang::native::{analyze_stack, initial_locals, local_offset, sanitize, stack_offset, Kind, NativeError};
use nanolang::parser::parse_source;
use nanolang::runtime::{next_request_id, next_tensor_id, IdCounter};
use nanolang::selfhost::{parse, parse_op, parse_unary, SelfhostError};
use nanolang::semantic::{Semantic, Type};
use nanolang::sync::{channel_new, channel_recv, channel_send, channel_try_recv, mutex_get, mutex_new, mutex_set, semaphore_acquire, semaphore_new, semaphore_release, Registry, Shared, SyncError};
use nanolang::sync::mutex_swap;
use nanolang::syntax::{Op, UnaryOp, Value};

fn num(s: &str) -> IrInst {
    IrInst::Const(Value::Number(s.into()))
}

fn messages(program: &str) -> Vec<(Severity, String)> {
    let stmts = parse_source(program).ok().unwrap();
    lint(&stmts).into_iter().map(|d| (d.severity, d.message)).collect()
}

#[test]
fn pipeline_compiles_jumps_inside_code() {
    let program = parse_source("x = 1\nwhile x < 3 {\nx = x + 1\n}\nprint x\n").ok().unwrap();
    let mut checker = Semantic::new();
    assert!(checker.check(&program).is_ok());
    let ir = Compiler::new().compile(&program).ok().unwrap();
    for inst in &ir.code {
        match inst {
            IrInst::Jump(t) | IrInst::JumpIfFalse(t) => assert!(*t <= ir.code.len()),
            _ => {}
        }
    }
}

#[test]
fn merge_is_symmetric_and_any_absorbs() {
    assert_eq!(Semantic::merge(Type::Number, Type::Any, "x").ok(), Some(Type::Any));
    assert_eq!(Semantic::merge(Type::Any, Type::Number, "x").ok(), Some(Type::Any));
    assert!(Semantic::merge(Type::Number, Type::Text, "x").is_err());
    assert!(Semantic::merge(Type::Text, Type::Number, "x").is_err());
    assert_eq!(Semantic::merge(Type::Text, Type::Text, "x").ok(), Some(Type::Text));
}

#[test]
fn ids_increase_one_by_one() {
    let mut ids = IdCounter::new();
    let a = next_tensor_id(&mut ids);
    let b = next_request_id(&mut ids);
    assert_eq!(a, 1);
    assert_eq!(b, 2);
}

#[test]
fn mutex_set_then_get_and_missing_cell() {
    let mut reg = Registry::new();
    let id = mutex_new(&mut reg, Shared::Boolean(false));
    mutex_set(&mut reg, id, Shared::Boolean(true)).ok().unwrap();
    assert!(matches!(mutex_get(&reg, id), Ok(Shared::Boolean(true))));
    assert!(matches!(mutex_get(&reg, id + 100), Err(SyncError::NoMutex(k)) if k == id + 100));
}

#[test]
fn channel_is_first_in_first_out() {
    let mut reg = Registry::new();
    let id = channel_new(&mut reg);
    channel_send(&mut reg, id, Shared::Text("a".into())).ok().unwrap();
    channel_send(&mut reg, id, Shared::Text("b".into())).ok().unwrap();
    assert!(matches!(channel_try_recv(&mut reg, id), Ok(Some(Shared::Text(s))) if s == "a"));
    assert!(matches!(channel_recv(&mut reg, id, None), Ok(Shared::Text(s)) if s == "b"));
    assert!(matches!(channel_try_recv(&mut reg, id), Ok(None)));
    assert!(matches!(channel_recv(&mut reg, id, Some(5)), Err(SyncError::Timeout(k)) if k == id));
    assert!(matches!(channel_send(&mut reg, id + 7, Shared::Null), Err(SyncError::NoChannel(_))));
}

#[test]
fn released_permit_is_taken_at_once() {
    let mut reg = Registry::new();
    let id = semaphore_new(&mut reg, 0);
    semaphore_release(&mut reg, id).ok().unwrap();
    assert!(matches!(semaphore_acquire(&mut reg, id, None), Ok(true)));
    assert!(matches!(semaphore_acquire(&mut reg, id + 1, None), Err(SyncError::NoSemaphore(_))));
}

#[test]
fn requests_without_timeout_are_told_to_wait() {
    let mut reg = Registry::new();
    let sem = semaphore_new(&mut reg, 0);
    assert!(matches!(semaphore_acquire(&mut reg, sem, None), Err(SyncError::MustWait(k)) if k == sem));
    semaphore_release(&mut reg, sem).ok().unwrap();
    assert!(matches!(semaphore_acquire(&mut reg, sem, None), Ok(true)));
    let ch = channel_new(&mut reg);
    assert!(matches!(channel_recv(&mut reg, ch, None), Err(SyncError::MustWait(k)) if k == ch));
    channel_send(&mut reg, ch, Shared::Boolean(true)).ok().unwrap();
    assert!(matches!(channel_recv(&mut reg, ch, None), Ok(Shared::Boolean(true))));
}

#[test]
fn offsets_and_symbols() {
    assert_eq!(local_offset(0), -64);
    assert_eq!(local_offset(3), -88);
    assert_eq!(stack_offset(2), -2064);
    assert_eq!(sanitize("a-b.c_1"), "a_b_c_1");
}

#[test]
fn locals_take_params_then_stores() {
    let params = vec!["a".to_string(), "b".to_string()];
    let code = vec![num("1"), IrInst::Store("c".into()), num("2"), IrInst::Store("a".into())];
    let locals = initial_locals(&params, &code).ok().unwrap();
    assert_eq!(locals, vec![("a".to_string(), 0), ("b".to_string(), 1), ("c".to_string(), 2)]);
    let many: Vec<String> = (0..9).map(|i| format!("p{i}")).collect();
    assert!(matches!(initial_locals(&many, &Vec::new()), Err(NativeError::TooManyParameters)));
}

#[test]
fn analysis_records_stacks_within_max() {
    let code = vec![num("1"), num("2"), IrInst::Binary(Op::Add), IrInst::Print];
    let (states, max, _, ret) = analyze_stack(&code, &Vec::new(), &Vec::new(), &Vec::new()).ok().unwrap();
    assert_eq!(max, 2);
    assert_eq!(states[2], Some(vec![Kind::Number, Kind::Number]));
    assert_eq!(states[3], Some(vec![Kind::Number]));
    for s in states.iter().flatten() {
        assert!(s.len() <= max);
    }
    assert_eq!(ret, None);
}

#[test]
fn analysis_errors() {
    let none: Vec<(String, usize)> = Vec::new();
    let unknown = vec![IrInst::Load("x".into())];
    assert!(matches!(analyze_stack(&unknown, &none, &Vec::new(), &Vec::new()), Err(NativeError::UnknownVariable(0))));
    let empty_store = vec![IrInst::Store("x".into())];
    assert!(matches!(analyze_stack(&empty_store, &none, &Vec::new(), &Vec::new()), Err(NativeError::StoreEmpty(0))));
    let null = vec![IrInst::Const(Value::Null)];
    assert!(matches!(analyze_stack(&null, &none, &Vec::new(), &Vec::new()), Err(NativeError::UnsupportedConst(0))));
    let text_sum = vec![IrInst::Const(Value::Text("a".into())), num("1"), IrInst::Binary(Op::Sub)];
    assert!(matches!(analyze_stack(&text_sum, &none, &Vec::new(), &Vec::new()), Err(NativeError::ArithmeticOperands(2))));
    let neg_bool = vec![IrInst::Const(Value::Boolean(true)), IrInst::Unary(UnaryOp::Neg)];
    assert!(matches!(analyze_stack(&neg_bool, &none, &Vec::new(), &Vec::new()), Err(NativeError::UnaryOperand(1))));
    let diverge = vec![IrInst::Const(Value::Boolean(true)), IrInst::JumpIfFalse(3), num("1"), IrInst::Print];
    match analyze_stack(&diverge, &none, &Vec::new(), &Vec::new()) {
        Err(NativeError::Divergent(3, first, second)) => {
            assert!(first.is_empty());
            assert_eq!(second, vec![Kind::Number]);
        }
        _ => panic!("expected a divergent stack"),
    }
    let mixed = vec![num("1"), IrInst::Return, IrInst::Const(Value::Boolean(true)), IrInst::Return];
    let jump_over = vec![IrInst::Jump(2), num("1"), IrInst::Const(Value::Boolean(true)), IrInst::Return];
    assert!(analyze_stack(&mixed, &none, &Vec::new(), &Vec::new()).is_ok());
    assert!(matches!(analyze_stack(&jump_over, &none, &Vec::new(), &Vec::new()), Ok((_, _, _, Some(Kind::Boolean)))));
}

#[test]
fn native_module_renders_assembly() {
    let ir = IrProgram { code: vec![num("1.5"), IrInst::Print], functions: Vec::new() };
    let module = compile_program(&ir).ok().unwrap();
    assert_eq!(module.float_constants, vec!["1.5".to_string()]);
    let text: String = module.text.iter().collect();
    assert!(text.contains("nano_fn__main:\n    pushq %rbp\n    movq %rsp, %rbp\n    subq $4112, %rsp\n"));
    assert!(text.contains(".Lnano_fn__main_0:\n    movsd .LCF0(%rip), %xmm0\n    movsd %xmm0, -2048(%rbp)\n"));
    assert!(text.contains("call printf@PLT"));
    assert!(text.ends_with(".Lnano_fn__main_end:\n    xorpd %xmm0, %xmm0\n    movq %rbp, %rsp\n    popq %rbp\n    ret\n"));
    let listing = module.render(&vec!["1.50000000000000000e0".to_string()]);
    assert!(listing.contains(".LCF0:\n    .double 1.50000000000000000e0\n"));
    assert!(listing.ends_with("\n    .section .note.GNU-stack,\"\",@progbits\n"));
}

#[test]
fn native_text_constants_are_zero_terminated_bytes() {
    let ir = IrProgram { code: vec![IrInst::Const(Value::Text("hé".into())), IrInst::Print], functions: Vec::new() };
    let module = compile_program(&ir).ok().unwrap();
    let listing = module.render(&Vec::new());
    assert!(listing.contains(".LCT0:\n    .byte 104, 195, 169, 0\n"));
}

#[test]
fn native_functions_get_return_kinds() {
    let f = IrFunction { params: vec!["n".into()], code: vec![IrInst::Load("n".into()), IrInst::Return] };
    let ir = IrProgram {
        code: vec![num("2"), IrInst::Call("twice".into(), 1), IrInst::Print],
        functions: vec![("twice".into(), f)],
    };
    let mut module = NativeModule::new();
    assert!(module.compile_function("_main", &ir.code, &Vec::new(), &vec![("twice".into(), Kind::Number)]).is_ok());
    let whole = compile_program(&ir).ok().unwrap();
    let text: String = whole.text.iter().collect();
    assert!(text.contains("    call nano_fn_twice\n"));
    assert!(text.contains("nano_fn_twice:\n"));
    assert!(text.contains("    movsd %xmm0, -64(%rbp)\n"));
}

#[test]
fn lint_reports_program_findings() {
    let found = messages("function f(a) {\nreturn 1\nprint 2\n}\nif true {\nprint 1\n}\nx = 4 / 0\n");
    assert!(found.contains(&(Severity::Warning, "função 'f' não é chamada".to_string())));
    assert!(found.contains(&(Severity::Warning, "parâmetro 'a' não é usado".to_string())));
    assert!(found.contains(&(Severity::Warning, "código inalcançável após terminador do bloco".to_string())));
    assert!(found.contains(&(Severity::Warning, "condição do if é sempre verdadeira".to_string())));
    assert!(found.contains(&(Severity::Warning, "divisão ou resto por zero detectado estaticamente".to_string())));
}

#[test]
fn lint_reports_duplicates_and_empty_program() {
    let found = messages("function main() {\nprint 1\n}\nfunction main() {\nprint 2\n}\n");
    assert_eq!(found[0], (Severity::Error, "função 'main' declarada mais de uma vez".to_string()));
    assert_eq!(found[1], (Severity::Error, "main deve ser única".to_string()));
    assert_eq!(messages(""), vec![(Severity::Warning, "bloco vazio".to_string())]);
    let more = messages("while false {\nprint 1\n}\nfor x in [] {\nprint x\n}\ny = \"a\" + \"\"\n");
    assert!(more.contains(&(Severity::Warning, "while nunca será executado".to_string())));
    assert!(more.contains(&(Severity::Warning, "for sobre lista vazia não executa".to_string())));
    assert!(more.contains(&(Severity::Warning, "concatenação com texto vazio".to_string())));
}

#[test]
fn selfhost_resolves_labels_and_functions() {
    let src = "function add(a, b)\nload a\nload b\nbinary +\nreturn\nend_function\nfunction _main()\nlabel top\nconst true\njump_if_false done\njump top\nlabel done\nconst \"hi\\n\"\nprint\nend_function\n";
    let ir = parse(src).ok().unwrap();
    assert_eq!(ir.functions.len(), 1);
    assert_eq!(ir.functions[0].0, "add");
    assert_eq!(ir.functions[0].1.params, vec!["a".to_string(), "b".to_string()]);
    assert!(matches!(ir.code[1], IrInst::JumpIfFalse(3)));
    assert!(matches!(ir.code[2], IrInst::Jump(0)));
    assert!(matches!(&ir.code[3], IrInst::Const(Value::Text(s)) if s == "hi\n"));
}

#[test]
fn selfhost_errors() {
    assert!(matches!(parse("print\n"), Err(SelfhostError::OutsideFunction(_))));
    assert!(matches!(parse("function f()\njump nowhere\nend_function\n"), Err(SelfhostError::MissingLabel(l)) if l == "nowhere"));
    assert!(matches!(parse("function f(\n"), Err(SelfhostError::Signature(_))));
    assert!(matches!(parse("function f()\nconst zz\nend_function\n"), Err(SelfhostError::InvalidConstant(_))));
    assert!(matches!(parse("function f()\nconst \"abc\nend_function\n"), Err(SelfhostError::InvalidString(_))));
    assert!(matches!(parse("function f()\ncall 2\nend_function\n"), Err(SelfhostError::MissingCallName)));
    assert!(matches!(parse("function f()\ncall g x\nend_function\n"), Err(SelfhostError::InvalidCount)));
    assert!(matches!(parse("function f()\niter_next x\nend_function\n"), Err(SelfhostError::IterNextTarget)));
    assert!(matches!(parse("function f()\nbreak\nend_function\n"), Err(SelfhostError::UnresolvedBreak)));
    assert!(matches!(parse("function f()\nfoo\nend_function\n"), Err(SelfhostError::UnknownOpcode(o)) if o == "foo"));
    assert!(matches!(parse_op("**"), Err(SelfhostError::UnknownOperator(_))));
    assert!(matches!(parse_unary("~"), Err(SelfhostError::UnknownUnary(_))));
    assert!(matches!(parse_op(">="), Ok(Op::Ge)));
}

#[test]
fn selfhost_numbers_keep_their_text() {
    let ir = parse("function _main()\nconst -2.5e3\nmake_object a, b\ncall f 2\nend_function\n").ok().unwrap();
    assert!(matches!(&ir.code[0], IrInst::Const(Value::Number(s)) if s == "-2.5e3"));
    assert!(matches!(&ir.code[1], IrInst::MakeObject(k) if *k == vec!["a".to_string(), "b".to_string()]));
    assert!(matches!(&ir.code[2], IrInst::Call(n, 2) if n == "f"));
}

#[test]
fn http_request_text() {
    let headers = vec![("Accept".to_string(), "*/*".to_string())];
    let req = build_request("post", "example.org", "/x", &headers, "hé");
    assert_eq!(req, "POST /x HTTP/1.1\r\nHost: example.org\r\nConnection: close\r\nUser-Agent: Nano/1.0\r\nAccept: */*\r\nContent-Length: 3\r\n\r\nhé");
}

#[test]
fn http_response_headers_and_errors() {
    let r = parse_response("HTTP/1.1 404 Not Found\r\nX-A:  1 \r\nx-a: 2\r\n\r\n").ok().unwrap();
    assert_eq!(r.status, "404");
    assert_eq!(r.reason, "Not Found");
    assert_eq!(r.headers, vec![("x-a".to_string(), "1".to_string()), ("x-a".to_string(), "2".to_string())]);
    assert_eq!(r.body, "");
    assert_eq!(parse_response("HTTP/1.1 200 OK").err(), Some("Nano HTTP: resposta inválida".to_string()));
    assert_eq!(parse_response("\r\n\r\nbody").err(), Some("Nano HTTP: status ausente".to_string()));
    assert_eq!(parse_response("HTTP/1.1 abc\r\n\r\n").err(), Some("Nano HTTP: código de status inválido".to_string()));
}

#[test]
fn builtin_names_map_std_paths() {
    assert_eq!(nanolang::runtime::builtin_name(&"std.math.sqrt".to_string()), "sqrt");
    assert_eq!(nanolang::runtime::builtin_name(&"std.fs.read_text".to_string()), "fs_read_text");
    assert_eq!(nanolang::runtime::builtin_name(&"len".to_string()), "len");
}

#[test]
fn tls_body_needs_a_success_status() {
    assert_eq!(nanolang::http::tls_body("HTTP/1.1 200 OK\r\nA: b\r\n\r\nbody").ok(), Some("body".to_string()));
    assert_eq!(nanolang::http::tls_body("HTTP/1.1 404 Not Found\r\n\r\n").err(), Some("Nano HTTPS: servidor devolveu HTTP 404".to_string()));
    assert_eq!(nanolang::http::tls_body("HTTP/1.1 x\r\n\r\n").err(), Some("Nano TLS: status HTTP inválido".to_string()));
    assert_eq!(nanolang::http::tls_body("no blank line").err(), Some("Nano TLS: resposta HTTP inválida".to_string()));
}

#[test]
fn native_build_output_defaults_to_stem() {
    assert_eq!(nanolang::cli::default_output(Some("app".to_string())), "app");
    assert_eq!(nanolang::cli::default_output(None), "nano_app");
    let args: Vec<String> = vec!["nano".into(), "build".into(), "--native".into(), "dir/prog.nano".into()];
    let (_, _, _, _, output) = nanolang::cli::parse_cli(&args).unwrap();
    assert_eq!(output, Some("prog".to_string()));
}

#[test]
fn selfhost_string_constants_come_from_the_decoder() {
    assert!(matches!(nanolang::selfhost::const_from_json(Ok("x".to_string())), Ok(Value::Text(s)) if s == "x"));
    assert!(matches!(nanolang::selfhost::const_from_json(Err("bad".to_string())), Err(SelfhostError::InvalidString(m)) if m == "bad"));
}

#[test]
fn failed_native_compile_leaves_module_unchanged() {
    let mut module = NativeModule::new();
    assert!(module.compile_function("_main", &vec![num("1"), IrInst::Print], &Vec::new(), &Vec::new()).is_ok());
    let before: String = module.text.iter().collect();
    let floats = module.float_constants.clone();
    let params: Vec<String> = (0..9).map(|i| format!("p{}", i)).collect();
    let body = vec![IrInst::Load("p0".into()), IrInst::Return];
    assert!(module.compile_function("wide", &body, &params, &Vec::new()).is_err());
    let after: String = module.text.iter().collect();
    assert_eq!(before, after);
    assert_eq!(floats, module.float_constants);
}

fn multiply(a: &Value, op: Op, b: &Value) -> Option<Value> {
    match (a, op, b) {
        (Value::Number(x), Op::Mul, Value::Number(y)) => {
            let p = x.parse::<f64>().ok()? * y.parse::<f64>().ok()?;
            Some(Value::Number(format!("{p:?}")))
        }
        _ => None,
    }
}

#[test]
fn optimizer_does_not_fold_across_a_jump_target() {
    let code = vec![
        IrInst::Load("c".into()),
        IrInst::JumpIfFalse(4),
        num("1"),
        IrInst::Jump(5),
        num("2"),
        num("10"),
        IrInst::Binary(Op::Mul),
        IrInst::Print,
    ];
    let before = format!("{:?}", code);
    let out = Optimizer::new().optimize_code(code, multiply);
    assert_eq!(format!("{:?}", out), before);
}

#[test]
fn optimizer_folds_constants_away_from_jump_targets() {
    let code = vec![
        IrInst::Load("c".into()),
        IrInst::JumpIfFalse(6),
        num("2"),
        num("10"),
        IrInst::Binary(Op::Mul),
        IrInst::Print,
        IrInst::Load("c".into()),
    ];
    let out = Optimizer::new().optimize_code(code, multiply);
    assert_eq!(
        format!("{:?}", out),
        format!("{:?}", vec![
            IrInst::Load("c".into()),
            IrInst::JumpIfFalse(4),
            num("20.0"),
            IrInst::Print,
            IrInst::Load("c".into()),
        ])
    );
}

#[test]
fn formatter_keeps_nested_layout() {
    assert_eq!(
        nanolang::fmt::format_source("if a {\nif b {\nx\n}\ny\n}\n"),
        "if a {\n    if b {\n        x\n    }\n    y\n}\n"
    );
}

#[test]
fn planned_blocks_stay_apart() {
    let mut p = MemoryPlanner::new();
    let a = p.allocate(100, DType::F32);
    let b = p.allocate(10, DType::F16);
    p.release(a);
    let c = p.allocate(50, DType::F32);
    let d = p.allocate(300, DType::F32);
    let apart = |x: MemoryBlock, y: MemoryBlock| x.offset + x.size <= y.offset || y.offset + y.size <= x.offset;
    assert_eq!(c, a);
    let live = [b, c, d];
    for i in 0..live.len() {
        assert!(live[i].offset + live[i].size <= p.planned_bytes());
        for j in i + 1..live.len() {
            assert!(apart(live[i], live[j]));
        }
    }
    assert_eq!(p.planned_bytes(), 512 + 256 + 1280);
}

#[test]
fn editor_format_shape_and_fixed_point() {
    let once = nanolang::lsp::format_source("\n\n\nif a {\n\n\n\nx\n}\n\n\n");
    assert_eq!(once, "if a {\n\n    x\n}\n");
    assert_eq!(nanolang::lsp::format_source(&once), once);
    assert_eq!(nanolang::lsp::format_source("   \n\t\n"), "");
}

#[test]
fn mutex_holds_lists_and_objects() {
    let mut reg = Registry::new();
    let list = Shared::List(vec![Shared::Number("1".into()), Shared::Text("a".into())]);
    let id = mutex_new(&mut reg, list);
    let got = mutex_get(&reg, id).ok().unwrap();
    assert_eq!(format!("{:?}", got), format!("{:?}", Shared::List(vec![Shared::Number("1".into()), Shared::Text("a".into())])));
    let object = Shared::Object(vec![("k".into(), Shared::List(vec![Shared::Null]))]);
    let before = mutex_swap(&mut reg, id, object).ok().unwrap();
    assert_eq!(format!("{:?}", before), format!("{:?}", got));
    assert!(matches!(mutex_get(&reg, id), Ok(Shared::Object(fs)) if fs.len() == 1 && fs[0].0 == "k"));
}
