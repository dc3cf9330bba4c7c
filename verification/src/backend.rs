use vstd::prelude::*;
use crate::text::{chars_eq_str, normalize_name, push_chars, push_str, string_of, spec_normalize_name, lemma_normalize_lower_word};

verus! {

/// A compute backend that tensors can live on.
#[derive(Debug, Clone, Copy, PartialEq, Eq, Structural)]
pub enum BackendKind {
    Cpu,
    Gpu,
}

/// A backend failure, with its message.
#[derive(Debug, Clone)]
pub struct BackendError(pub String);

/// Elementwise tensor operators.
#[derive(Debug, Clone, Copy, PartialEq, Eq, Structural)]
pub enum ElementwiseOp {
    Add,
    Sub,
    Mul,
    Div,
}

/// The name of a backend.
pub open spec fn spec_backend_name(k: BackendKind) -> Seq<char> {
    match k {
        BackendKind::Cpu => "cpu"@,
        BackendKind::Gpu => "gpu"@,
    }
}

/// The backend named by a normalized name.
pub open spec fn spec_backend_of_name(n: Seq<char>) -> Option<BackendKind> {
    if n == "cpu"@ {
        Some(BackendKind::Cpu)
    } else if n == "gpu"@ {
        Some(BackendKind::Gpu)
    } else {
        None
    }
}

/// The message of a refused backend name.
pub open spec fn spec_unknown_backend_message(n: Seq<char>) -> Seq<char> {
    "backend desconhecido: '"@ + n + "'"@
}

impl BackendKind {
    pub fn name(self) -> (r: &'static str)
        ensures
            r@ == spec_backend_name(self),
    {
        match self {
            Self::Cpu => "cpu",
            Self::Gpu => "gpu",
        }
    }

    /// Reads a backend name, ignoring surrounding whitespace and ASCII case.
    pub fn parse(value: &str) -> (r: Result<Self, BackendError>)
        ensures
            match r {
                Ok(k) => spec_backend_of_name(spec_normalize_name(value@)) == Some(k),
                Err(e) => spec_backend_of_name(spec_normalize_name(value@)) is None
                    && e.0@ == spec_unknown_backend_message(spec_normalize_name(value@)),
            },
    {
        let n = normalize_name(value);
        if chars_eq_str(&n, "cpu") {
            Ok(Self::Cpu)
        } else if chars_eq_str(&n, "gpu") {
            Ok(Self::Gpu)
        } else {
            let mut msg: Vec<char> = Vec::new();
            push_str(&mut msg, "backend desconhecido: '");
            push_chars(&mut msg, &n);
            push_str(&mut msg, "'");
            Err(BackendError(string_of(&msg)))
        }
    }
}

/// Every backend name reads back as the backend it names.
pub proof fn lemma_parse_backend_name(k: BackendKind)
    ensures
        spec_backend_of_name(spec_normalize_name(spec_backend_name(k))) == Some(k),
{
    reveal_strlit("cpu");
    reveal_strlit("gpu");
    lemma_normalize_lower_word(spec_backend_name(k));
}

} // verus!
