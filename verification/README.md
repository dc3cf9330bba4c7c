# nanolang

A verified library for the Nano language toolchain, written in Verus.

- `src/` — the library, every function verified against its contract:
  lexer (`lexer`), parser (`parser`), semantic checker (`semantic`), IR
  compiler and constant-folding optimizer (`ir`), linter (`lint`), reader
  of the self-hosted compiler's IR text (`selfhost`), native backend
  analysis (`native`) and x86-64 code generator (`codegen`), memory planner
  (`memory`), sync registry (`sync`), the interpreter's control steps
  (`vm`) and its builtins on plain values (`builtins`), editor services
  (`lsp`, `fmt`), command line (`cli`), HTTP texts (`http`) and small
  runtime tables (`runtime`, `dtype`, `backend`).
- `tests/` — tests run against the compiled library.
- `app/` — the `nano` command around the library: file and network I/O,
  the interpreter's values (`f64` numbers, `f32` tensors and their
  gradients), tasks, the CPU and wgpu tensor backends, and the language
  server's JSON-RPC loop (run as `nano-lsp`) and formatter (run as
  `nano-fmt`).
