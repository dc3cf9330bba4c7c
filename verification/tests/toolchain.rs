use nanolang::backend::BackendKind;
use nanolang::cli::{parse_cli, CliCommand};
use nanolang::dtype::DType;
use nanolang::memory::{MemoryPlanner, DEFAULT_ALIGNMENT};
use nanolang::runtime::{ABI_VERSION, ELEMENTWISE_SHADER, MATMUL_SHADER, REDUCE_SHADER};
use nanolang::sync::{
    channel_close, channel_new, channel_recv, channel_send, mutex_get, mutex_new, mutex_swap, semaphore_acquire,
    semaphore_new, semaphore_release, semaphore_remove, sync_remove, Registry, Shared,
};

fn shared_text(v: &Shared) -> Option<&str> {
    match v {
        Shared::Text(s) => Some(s.as_str()),
        _ => None,
    }
}

fn shared_number(v: &Shared) -> Option<&str> {
    match v {
        Shared::Number(s) => Some(s.as_str()),
        _ => None,
    }
}

#[test]
fn parses_backend_names() {
    assert_eq!(BackendKind::parse("cpu").unwrap(), BackendKind::Cpu);
    assert_eq!(BackendKind::parse("GPU").unwrap(), BackendKind::Gpu);
    assert!(BackendKind::parse("npu").is_err());
}

#[test]
fn gpu_backend_is_registered() {
    assert_eq!(BackendKind::Gpu.name(), "gpu");
}

#[test]
fn formats_blocks() {
    assert_eq!(nanolang::fmt::format_source("if true {\nprint 1\n}\n"), "if true {\n    print 1\n}\n");
}

#[test]
fn dtype_parsing_and_size() {
    assert_eq!(DType::parse("f32").unwrap(), DType::F32);
    assert_eq!(DType::parse("F16").unwrap(), DType::F16);
    assert_eq!(DType::parse("bf16").unwrap(), DType::BF16);
    assert_eq!(DType::F32.bytes(), 4);
    assert_eq!(DType::F16.bytes(), 2);
    assert_eq!(DType::promote(DType::F16, DType::BF16), DType::BF16);
}

#[test]
fn gpu_backend_contains_real_compute_shaders() {
    assert!(!MATMUL_SHADER.is_empty());
    assert!(!ELEMENTWISE_SHADER.is_empty());
    assert!(!REDUCE_SHADER.is_empty());
}

#[test]
fn cli_defaults_to_run_and_main() {
    let args: Vec<String> = vec!["nano".into(), "run".into()];
    let (command, path, backend, dtype, output) = parse_cli(&args).unwrap();
    assert_eq!(command, CliCommand::Run);
    assert_eq!(path, "main.nano");
    assert_eq!(backend, None);
    assert_eq!(dtype, None);
    assert_eq!(output, None);
}

#[test]
fn cli_supports_check_and_backend() {
    let args: Vec<String> = vec!["nano".into(), "check".into(), "--backend=cpu".into(), "examples/tensor.nano".into()];
    let (command, path, backend, dtype, output) = parse_cli(&args).unwrap();
    assert_eq!(command, CliCommand::Check);
    assert_eq!(path, "examples/tensor.nano");
    assert_eq!(backend, Some(BackendKind::Cpu));
    assert_eq!(dtype, None);
    assert_eq!(output, None);
}

#[test]
fn cli_rejects_unknown_options() {
    let args: Vec<String> = vec!["nano".into(), "run".into(), "--wat".into()];
    assert!(parse_cli(&args).is_err());
}

#[test]
fn cli_supports_native_build() {
    let args: Vec<String> =
        vec!["nano".into(), "build".into(), "--native".into(), "--output=app".into(), "program.nano".into()];
    let (command, path, backend, dtype, output) = parse_cli(&args).unwrap();
    assert_eq!(command, CliCommand::BuildNative);
    assert_eq!(path, "program.nano");
    assert_eq!(backend, None);
    assert_eq!(dtype, None);
    assert_eq!(output, Some("app".into()));
}

#[test]
fn planner_reuses_aligned_blocks() {
    let mut planner = MemoryPlanner::new();
    let first = planner.allocate(10, DType::F16);
    assert_eq!(first.size, DEFAULT_ALIGNMENT);
    planner.release(first);
    let second = planner.allocate(10, DType::F16);
    assert_eq!(second.offset, first.offset);
}

#[test]
fn provider_abi_is_stable() {
    assert_eq!(ABI_VERSION, 1);
}

#[test]
fn shared_mutex_round_trip() {
    let mut reg = Registry::new();
    let id = mutex_new(&mut reg, Shared::Number("1.0".into()));
    assert_eq!(shared_number(&mutex_get(&reg, id).unwrap()), Some("1.0"));
    assert_eq!(shared_number(&mutex_swap(&mut reg, id, Shared::Text("ok".into())).unwrap()), Some("1.0"));
    assert_eq!(shared_text(&mutex_get(&reg, id).unwrap()), Some("ok"));
    assert!(sync_remove(&mut reg, id));
}

#[test]
fn semaphore_timeout_and_release() {
    let mut reg = Registry::new();
    let id = semaphore_new(&mut reg, 0);
    assert!(!semaphore_acquire(&mut reg, id, Some(1)).unwrap());
    semaphore_release(&mut reg, id).unwrap();
    assert!(semaphore_acquire(&mut reg, id, Some(1)).unwrap());
    assert!(semaphore_remove(&mut reg, id));
}

#[test]
fn shared_channel_round_trip() {
    let mut reg = Registry::new();
    let id = channel_new(&mut reg);
    channel_send(&mut reg, id, Shared::Text("hello".into())).unwrap();
    assert_eq!(shared_text(&channel_recv(&mut reg, id, Some(10)).unwrap()), Some("hello"));
    channel_close(&mut reg, id);
}

#[test]
fn parses_selfhost_function_and_labels() {
    let ir = nanolang::selfhost::parse("function _main()\nconst 1\nstore x\nload x\nprint\nend_function\n").ok().unwrap();
    assert!(ir.code.len() == 4);
    assert!(ir.functions.is_empty());
}

#[test]
fn parses_http_response() {
    let value = nanolang::http::parse_response("HTTP/1.1 201 Created\r\nContent-Type: text/plain\r\n\r\nhello").ok().unwrap();
    assert_eq!(value.status, "201");
    assert_eq!(value.body, "hello");
}

#[test]
fn tls_entrypoint_is_native() {
    let _ = nanolang::http::tls_body as fn(&str) -> Result<String, String>;
}
