//! The command line of the `nano` tool.
use vstd::prelude::*;
use crate::backend::{BackendKind, spec_backend_of_name, spec_unknown_backend_message};
use crate::dtype::{DType, spec_dtype_of_name, spec_unknown_dtype_message};
use crate::semantic::eq_lit;
use crate::syntax::strings_view;
use crate::text::{chars_of, push_chars, push_str, spec_normalize_name, string_of};

verus! {

/// What the tool is asked to do.
#[derive(Debug, Clone, Copy, PartialEq, Eq, Structural)]
pub enum CliCommand {
    Run,
    Check,
    BuildNative,
}

/// The stem of the last component of a path (`Path::file_stem`), when it
/// has one that is valid text.
pub uninterp spec fn file_stem_of(path: Seq<char>) -> Option<Seq<char>>;

/// `Path::new(path).file_stem()` as text.
#[verifier::external_body]
fn file_stem(path: &str) -> (r: Option<String>)
    ensures
        match r {
            Some(s) => file_stem_of(path@) == Some(s@),
            None => file_stem_of(path@) is None,
        },
{
    std::path::Path::new(path).file_stem().and_then(|v| v.to_str()).map(|v| v.to_string())
}

/// The output name of a native build given the stem of its source path:
/// the stem, or `nano_app` when the path has none.
pub open spec fn spec_default_output(stem: Option<Seq<char>>) -> Seq<char> {
    match stem {
        Some(s) => s,
        None => "nano_app"@,
    }
}

/// The output name of a native build, as `spec_default_output` says.
pub fn default_output(stem: Option<String>) -> (r: String)
    ensures
        r@ == spec_default_output(match stem { Some(s) => Some(s@), None => None }),
{
    match stem {
        Some(s) => s,
        None => lit_string("nano_app"),
    }
}

/// What the options read so far set.
pub struct CliOptions {
    pub path: Option<Seq<char>>,
    pub backend: Option<BackendKind>,
    pub dtype: Option<DType>,
    pub output: Option<Seq<char>>,
    pub native: bool,
}

/// The view of an optional string.
pub open spec fn opt_view(o: Option<String>) -> Option<Seq<char>> {
    match o {
        Some(s) => Some(s@),
        None => None,
    }
}

pub open spec fn starts_with(s: Seq<char>, p: Seq<char>) -> bool {
    p.len() <= s.len() && s.take(p.len() as int) == p
}

/// `str::trim_start_matches` with a text pattern: every leading copy of
/// `p` removed.
pub open spec fn strip_all(s: Seq<char>, p: Seq<char>) -> Seq<char>
    decreases s.len(),
{
    if p.len() > 0 && starts_with(s, p) { strip_all(s.skip(p.len() as int), p) } else { s }
}

pub open spec fn usage_message() -> Seq<char> {
    "uso: nano run|check|build --native [--output arquivo] [--backend cpu|gpu|npu] [--dtype f32|f16|bf16] [arquivo.nano]"@
}

/// The reading of a backend name as `parse_cli` reports it.
pub open spec fn backend_arg(v: Seq<char>) -> Result<BackendKind, Seq<char>> {
    match spec_backend_of_name(spec_normalize_name(v)) {
        Some(k) => Ok(k),
        None => Err(spec_unknown_backend_message(spec_normalize_name(v))),
    }
}

/// The reading of a dtype name as `parse_cli` reports it.
pub open spec fn dtype_arg(v: Seq<char>) -> Result<DType, Seq<char>> {
    match spec_dtype_of_name(spec_normalize_name(v)) {
        Some(d) => Ok(d),
        None => Err(spec_unknown_dtype_message(spec_normalize_name(v))),
    }
}

/// Reading the options from index `i` on.
pub open spec fn cli_options(args: Seq<Seq<char>>, i: int, st: CliOptions) -> Result<CliOptions, Seq<char>>
    decreases args.len() - i,
{
    if i >= args.len() || i < 0 {
        Ok(st)
    } else {
        let a = args[i];
        if a == "--native"@ {
            cli_options(args, i + 1, CliOptions { native: true, ..st })
        } else if a == "-o"@ || a == "--output"@ {
            if i + 1 < args.len() {
                cli_options(args, i + 2, CliOptions { output: Some(args[i + 1]), ..st })
            } else {
                Err("Nano: --output requer um caminho"@)
            }
        } else if starts_with(a, "--output="@) {
            cli_options(args, i + 1, CliOptions { output: Some(strip_all(a, "--output="@)), ..st })
        } else if a == "--backend"@ {
            if i + 1 < args.len() {
                match backend_arg(args[i + 1]) {
                    Ok(k) => cli_options(args, i + 2, CliOptions { backend: Some(k), ..st }),
                    Err(m) => Err(m),
                }
            } else {
                Err("Nano: --backend requer cpu ou gpu"@)
            }
        } else if starts_with(a, "--backend="@) {
            match backend_arg(strip_all(a, "--backend="@)) {
                Ok(k) => cli_options(args, i + 1, CliOptions { backend: Some(k), ..st }),
                Err(m) => Err(m),
            }
        } else if a == "--dtype"@ {
            if i + 1 < args.len() {
                match dtype_arg(args[i + 1]) {
                    Ok(d) => cli_options(args, i + 2, CliOptions { dtype: Some(d), ..st }),
                    Err(m) => Err(m),
                }
            } else {
                Err("Nano: --dtype requer f32, f16 ou bf16"@)
            }
        } else if starts_with(a, "--dtype="@) {
            match dtype_arg(strip_all(a, "--dtype="@)) {
                Ok(d) => cli_options(args, i + 1, CliOptions { dtype: Some(d), ..st }),
                Err(m) => Err(m),
            }
        } else if a.len() > 0 && a[0] == '-' {
            Err("Nano: opção desconhecida '"@ + a + "'"@)
        } else if st.path is Some {
            Err("Nano: apenas um arquivo .nano pode ser informado"@)
        } else {
            cli_options(args, i + 1, CliOptions { path: Some(a), ..st })
        }
    }
}

/// The command named by the first argument after the program name.
pub open spec fn spec_command(args: Seq<Seq<char>>) -> Option<CliCommand> {
    if args.len() > 1 && args[1] == "run"@ {
        Some(CliCommand::Run)
    } else if args.len() > 1 && args[1] == "check"@ {
        Some(CliCommand::Check)
    } else if args.len() > 1 && args[1] == "build"@ {
        Some(CliCommand::BuildNative)
    } else {
        None
    }
}

/// The parsed command line: command, source path (`main.nano` by default),
/// backend, dtype, and output (for a native build, the stem of the source
/// path when not given).
pub open spec fn spec_parse_cli(args: Seq<Seq<char>>) -> Result<(CliCommand, Seq<char>, Option<BackendKind>, Option<DType>, Option<Seq<char>>), Seq<char>> {
    let command = spec_command(args);
    match command {
        None => Err(usage_message()),
        Some(c) => match cli_options(args, 2, CliOptions { path: None, backend: None, dtype: None, output: None, native: false }) {
            Err(m) => Err(m),
            Ok(st) => if c == CliCommand::BuildNative && !st.native {
                Err("Nano: use 'nano build --native [arquivo.nano]' para o backend CPU nativo"@)
            } else if c != CliCommand::BuildNative && st.native {
                Err("Nano: --native só é válido com 'build'"@)
            } else {
                let path = match st.path { Some(p) => p, None => "main.nano"@ };
                let output = if c == CliCommand::BuildNative && st.output is None {
                    Some(spec_default_output(file_stem_of(path)))
                } else {
                    st.output
                };
                Ok((c, path, st.backend, st.dtype, output))
            },
        },
    }
}

fn starts_with_lit(s: &String, p: &str) -> (r: bool)
    ensures
        r == starts_with(s@, p@),
{
    let a = chars_of(s.as_str());
    let b = chars_of(p);
    if b.len() > a.len() {
        return false;
    }
    let mut i: usize = 0;
    while i < b.len()
        invariant
            i <= b.len(),
            b.len() <= a.len(),
            a@ == s@,
            b@ == p@,
            forall|j: int| 0 <= j < i ==> a@[j] == b@[j],
        decreases b.len() - i,
    {
        if a[i] != b[i] {
            assert(s@.take(p@.len() as int)[i as int] != p@[i as int]);
            return false;
        }
        i += 1;
    }
    assert(s@.take(p@.len() as int) =~= p@);
    true
}

fn strip_all_lit(s: &String, p: &str) -> (r: String)
    requires
        p@.len() > 0,
    ensures
        r@ == strip_all(s@, p@),
{
    let a = chars_of(s.as_str());
    let b = chars_of(p);
    let mut start: usize = 0;
    assert(s@.skip(0) =~= s@);
    loop
        invariant
            start <= a.len(),
            a@ == s@,
            b@ == p@,
            b.len() > 0,
            strip_all(s@, p@) == strip_all(s@.skip(start as int), p@),
        ensures
            start <= a.len(),
            strip_all(s@, p@) == s@.skip(start as int),
        decreases a.len() - start,
    {
        let ghost rest = s@.skip(start as int);
        if b.len() > a.len() - start {
            assert(!starts_with(rest, p@));
            break;
        }
        let mut i: usize = 0;
        let mut same = true;
        while i < b.len()
            invariant
                i <= b.len(),
                start + b.len() <= a.len(),
                a@ == s@,
                b@ == p@,
                same == forall|j: int| 0 <= j < i ==> a@[start + j] == b@[j],
            decreases b.len() - i,
        {
            if a[start + i] != b[i] {
                same = false;
            }
            i += 1;
        }
        if !same {
            assert(!starts_with(rest, p@)) by {
                if starts_with(rest, p@) {
                    assert forall|j: int| 0 <= j < b.len() implies a@[start + j] == b@[j] by {
                        assert(rest.take(p@.len() as int)[j] == rest[j]);
                    }
                }
            }
            break;
        }
        assert(rest.take(p@.len() as int) =~= p@);
        assert(rest.skip(p@.len() as int) =~= s@.skip(start + b.len()));
        start = start + b.len();
    }
    let mut out: Vec<char> = Vec::new();
    let mut k = start;
    while k < a.len()
        invariant
            start <= k <= a.len(),
            a@ == s@,
            out@ == s@.subrange(start as int, k as int),
        decreases a.len() - k,
    {
        out.push(a[k]);
        assert(out@ =~= s@.subrange(start as int, k + 1));
        k += 1;
    }
    assert(s@.subrange(start as int, a.len() as int) =~= s@.skip(start as int));
    string_of(&out)
}

fn lit_string(p: &str) -> (r: String)
    ensures
        r@ == p@,
{
    let cs = chars_of(p);
    string_of(&cs)
}

fn backend_arg_of(v: &String) -> (r: Result<BackendKind, String>)
    ensures
        match backend_arg(v@) {
            Ok(k) => r == Ok::<BackendKind, String>(k),
            Err(m) => r is Err && r->Err_0@ == m,
        },
{
    match BackendKind::parse(v.as_str()) {
        Ok(k) => Ok(k),
        Err(e) => Err(e.0),
    }
}

fn dtype_arg_of(v: &String) -> (r: Result<DType, String>)
    ensures
        match dtype_arg(v@) {
            Ok(d) => r == Ok::<DType, String>(d),
            Err(m) => r is Err && r->Err_0@ == m,
        },
{
    DType::parse(v.as_str())
}

/// Reads the command line `args` (the program name first).
pub fn parse_cli(args: &[String]) -> (r: Result<(CliCommand, String, Option<BackendKind>, Option<DType>, Option<String>), String>)
    ensures
        match spec_parse_cli(strings_view(args@)) {
            Ok((c, p, b, d, o)) => r is Ok && ({
                let (c2, p2, b2, d2, o2) = r->Ok_0;
                &&& c2 == c
                &&& p2@ == p
                &&& b2 == b
                &&& d2 == d
                &&& match o { Some(x) => o2 is Some && o2->0@ == x, None => o2 is None }
            }),
            Err(m) => r is Err && r->Err_0@ == m,
        },
{
    let ghost av = strings_view(args@);
    proof {
        reveal_strlit("--output=");
        reveal_strlit("--backend=");
        reveal_strlit("--dtype=");
        reveal_strlit("-");
        if args.len() > 1 {
            assert(av[1] == args@[1]@);
        }
    }
    let command = if args.len() > 1 && eq_lit(&args[1], "run") {
        CliCommand::Run
    } else if args.len() > 1 && eq_lit(&args[1], "check") {
        CliCommand::Check
    } else if args.len() > 1 && eq_lit(&args[1], "build") {
        CliCommand::BuildNative
    } else {
        return Err(lit_string("uso: nano run|check|build --native [--output arquivo] [--backend cpu|gpu|npu] [--dtype f32|f16|bf16] [arquivo.nano]"));
    };
    let mut path: Option<String> = None;
    let mut selected_backend: Option<BackendKind> = None;
    let mut selected_dtype: Option<DType> = None;
    let mut output: Option<String> = None;
    let mut native_requested = false;
    let mut index: usize = 2;
    let ghost start = CliOptions { path: None, backend: None, dtype: None, output: None, native: false };
    while index < args.len()
        invariant
            2 <= index,
            av == strings_view(args@),
            spec_command(av) == Some(command),
            start == (CliOptions { path: None, backend: None, dtype: None, output: None, native: false }),
            cli_options(av, 2, start) == cli_options(av, index as int, CliOptions {
                path: opt_view(path),
                backend: selected_backend,
                dtype: selected_dtype,
                output: opt_view(output),
                native: native_requested,
            }),
        decreases args.len() - index,
    {
        proof {
            reveal_strlit("--output=");
            reveal_strlit("--backend=");
            reveal_strlit("--dtype=");
            reveal_strlit("-");
        }
        let a = &args[index];
        assert(av[index as int] == a@);
        assert(starts_with(a@, "-"@) == (a@.len() > 0 && a@[0] == '-')) by {
            reveal_strlit("-");
            assert("-"@ =~= seq!['-']);
            if a@.len() > 0 {
                assert(a@.take(1) =~= seq![a@[0]]);
                if a@[0] == '-' {
                    assert(a@.take(1) =~= "-"@);
                }
                if starts_with(a@, "-"@) {
                    assert(a@.take(1)[0] == "-"@[0]);
                }
            }
        }
        if eq_lit(a, "--native") {
            native_requested = true;
        } else if eq_lit(a, "-o") || eq_lit(a, "--output") {
            index += 1;
            if index >= args.len() {
                return Err(lit_string("Nano: --output requer um caminho"));
            }
            assert(av[index as int] == args@[index as int]@);
            output = Some(args[index].clone());
        } else if starts_with_lit(a, "--output=") {
            output = Some(strip_all_lit(a, "--output="));
        } else if eq_lit(a, "--backend") {
            index += 1;
            if index >= args.len() {
                return Err(lit_string("Nano: --backend requer cpu ou gpu"));
            }
            assert(av[index as int] == args@[index as int]@);
            match backend_arg_of(&args[index]) {
                Ok(k) => selected_backend = Some(k),
                Err(m) => return Err(m),
            }
        } else if starts_with_lit(a, "--backend=") {
            let v = strip_all_lit(a, "--backend=");
            match backend_arg_of(&v) {
                Ok(k) => selected_backend = Some(k),
                Err(m) => return Err(m),
            }
        } else if eq_lit(a, "--dtype") {
            index += 1;
            if index >= args.len() {
                return Err(lit_string("Nano: --dtype requer f32, f16 ou bf16"));
            }
            assert(av[index as int] == args@[index as int]@);
            match dtype_arg_of(&args[index]) {
                Ok(d) => selected_dtype = Some(d),
                Err(m) => return Err(m),
            }
        } else if starts_with_lit(a, "--dtype=") {
            let v = strip_all_lit(a, "--dtype=");
            match dtype_arg_of(&v) {
                Ok(d) => selected_dtype = Some(d),
                Err(m) => return Err(m),
            }
        } else if starts_with_lit(a, "-") {
            let mut msg: Vec<char> = Vec::new();
            push_str(&mut msg, "Nano: opção desconhecida '");
            let cs = chars_of(a.as_str());
            push_chars(&mut msg, &cs);
            push_str(&mut msg, "'");
            return Err(string_of(&msg));
        } else {
            if path.is_some() {
                return Err(lit_string("Nano: apenas um arquivo .nano pode ser informado"));
            }
            path = Some(a.clone());
        }
        index += 1;
    }
    if command == CliCommand::BuildNative && !native_requested {
        return Err(lit_string("Nano: use 'nano build --native [arquivo.nano]' para o backend CPU nativo"));
    }
    if command != CliCommand::BuildNative && native_requested {
        return Err(lit_string("Nano: --native só é válido com 'build'"));
    }
    let source_path = match &path {
        Some(p) => p.clone(),
        None => lit_string("main.nano"),
    };
    if command == CliCommand::BuildNative && output.is_none() {
        output = Some(default_output(file_stem(source_path.as_str())));
    }
    Ok((command, source_path, selected_backend, selected_dtype, output))
}

} // verus!
