use vstd::prelude::*;
use crate::text::{chars_eq_str, normalize_name, push_chars, push_str, string_of, spec_normalize_name, lemma_normalize_lower_word};

verus! {

/// Element type of a tensor.
#[derive(Debug, Clone, Copy, PartialEq, Eq, Structural)]
pub enum DType {
    F32,
    F16,
    BF16,
}

/// The name of a dtype.
pub open spec fn spec_dtype_name(d: DType) -> Seq<char> {
    match d {
        DType::F32 => "f32"@,
        DType::F16 => "f16"@,
        DType::BF16 => "bf16"@,
    }
}

/// The dtype named by a normalized name.
pub open spec fn spec_dtype_of_name(n: Seq<char>) -> Option<DType> {
    if n == "f32"@ {
        Some(DType::F32)
    } else if n == "f16"@ {
        Some(DType::F16)
    } else if n == "bf16"@ {
        Some(DType::BF16)
    } else {
        None
    }
}

/// Bytes per element of a dtype.
pub open spec fn spec_dtype_bytes(d: DType) -> nat {
    match d {
        DType::F32 => 4,
        DType::F16 | DType::BF16 => 2,
    }
}

/// The common dtype of two operands: F32 wins, then BF16, then F16.
pub open spec fn spec_promote(a: DType, b: DType) -> DType {
    if a == DType::F32 || b == DType::F32 {
        DType::F32
    } else if a == DType::BF16 || b == DType::BF16 {
        DType::BF16
    } else {
        DType::F16
    }
}

/// The message of a refused dtype name.
pub open spec fn spec_unknown_dtype_message(n: Seq<char>) -> Seq<char> {
    "dtype desconhecido: '"@ + n + "'"@
}

impl DType {
    pub fn name(self) -> (r: &'static str)
        ensures
            r@ == spec_dtype_name(self),
    {
        match self {
            Self::F32 => "f32",
            Self::F16 => "f16",
            Self::BF16 => "bf16",
        }
    }

    pub fn bytes(self) -> (r: usize)
        ensures
            r == spec_dtype_bytes(self),
    {
        match self {
            Self::F32 => 4,
            Self::F16 | Self::BF16 => 2,
        }
    }

    /// Reads a dtype name, ignoring surrounding whitespace and ASCII case.
    pub fn parse(value: &str) -> (r: Result<Self, String>)
        ensures
            match r {
                Ok(d) => spec_dtype_of_name(spec_normalize_name(value@)) == Some(d),
                Err(e) => spec_dtype_of_name(spec_normalize_name(value@)) is None
                    && e@ == spec_unknown_dtype_message(spec_normalize_name(value@)),
            },
    {
        let n = normalize_name(value);
        if chars_eq_str(&n, "f32") {
            Ok(Self::F32)
        } else if chars_eq_str(&n, "f16") {
            Ok(Self::F16)
        } else if chars_eq_str(&n, "bf16") {
            Ok(Self::BF16)
        } else {
            let mut msg: Vec<char> = Vec::new();
            push_str(&mut msg, "dtype desconhecido: '");
            push_chars(&mut msg, &n);
            push_str(&mut msg, "'");
            Err(string_of(&msg))
        }
    }

    pub fn promote(a: Self, b: Self) -> (r: Self)
        ensures
            r == spec_promote(a, b),
    {
        if a == Self::F32 || b == Self::F32 {
            Self::F32
        } else if a == Self::BF16 || b == Self::BF16 {
            Self::BF16
        } else {
            Self::F16
        }
    }
}

/// Promotion does not depend on the order of its operands, is associative,
/// keeps a dtype promoted with itself, and F32 absorbs every other dtype.
pub proof fn lemma_promote_laws(a: DType, b: DType, c: DType)
    ensures
        spec_promote(a, b) == spec_promote(b, a),
        spec_promote(spec_promote(a, b), c) == spec_promote(a, spec_promote(b, c)),
        spec_promote(a, a) == a,
        spec_promote(a, DType::F32) == DType::F32,
        spec_dtype_bytes(spec_promote(a, b)) >= spec_dtype_bytes(a),
{
}

/// Every dtype name reads back as the dtype it names, whatever the ASCII case
/// and surrounding whitespace.
pub proof fn lemma_parse_name(d: DType)
    ensures
        spec_dtype_of_name(spec_normalize_name(spec_dtype_name(d))) == Some(d),
{
    reveal_strlit("f32");
    reveal_strlit("f16");
    reveal_strlit("bf16");
    lemma_normalize_lower_word(spec_dtype_name(d));
}

} // verus!
