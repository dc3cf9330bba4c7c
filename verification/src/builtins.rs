//! The builtins of the interpreter that compute on plain values: `len`,
//! `range` and the text functions. The interpreter hands each call over as
//! a name and arguments; a number arrives as a whole count when it is one.
use vstd::prelude::*;
use crate::lsp::rows_view;
use crate::text::{chars_of, chars_eq_str, spec_trim, string_of, trim_chars};

verus! {

/// An argument or result of a builtin.
#[derive(Debug)]
pub enum Arg {
    /// A number with a whole, non-negative value below 2^64.
    Count(u64),
    /// Any other number.
    Number,
    Text(String),
    Bool(bool),
    Null,
    List(Vec<Arg>),
    /// An object, by its keys.
    Object(Vec<String>),
    /// A tensor, by its number of elements.
    Tensor(u64),
}

/// The mathematical view of an [`Arg`].
pub enum SArg {
    Count(u64),
    Number,
    Text(Seq<char>),
    Bool(bool),
    Null,
    List(Seq<SArg>),
    Object(Seq<Seq<char>>),
    Tensor(u64),
}

impl Arg {
    pub open spec fn sv(&self) -> SArg
        decreases self,
    {
        match self {
            Arg::Count(n) => SArg::Count(*n),
            Arg::Number => SArg::Number,
            Arg::Text(s) => SArg::Text(s@),
            Arg::Bool(b) => SArg::Bool(*b),
            Arg::Null => SArg::Null,
            Arg::List(v) => SArg::List(Seq::new(v.len() as nat, |i: int| if 0 <= i < v.len() { v[i].sv() } else { SArg::Null })),
            Arg::Object(keys) => SArg::Object(Seq::new(keys.len() as nat, |i: int| keys[i]@)),
            Arg::Tensor(n) => SArg::Tensor(*n),
        }
    }
}

/// The views of a sequence of arguments.
pub open spec fn args_view(v: Seq<Arg>) -> Seq<SArg> {
    Seq::new(v.len(), |i: int| v[i].sv())
}

proof fn lemma_args_push(v: Seq<Arg>, x: Arg)
    ensures
        args_view(v.push(x)) == args_view(v).push(x.sv()),
{
    assert(args_view(v.push(x)) =~= args_view(v).push(x.sv()));
}

proof fn lemma_rows_push(v: Seq<Vec<char>>, x: Vec<char>)
    ensures
        rows_view(v.push(x)) == rows_view(v).push(x@),
{
    assert(rows_view(v.push(x)) =~= rows_view(v).push(x@));
}

proof fn lemma_list_view(v: Vec<Arg>)
    ensures
        Arg::List(v).sv() == SArg::List(args_view(v@)),
{
    assert(Arg::List(v).sv()->List_0 =~= args_view(v@));
}

/// Which argument of a builtin is meant.
#[derive(Debug, Clone, Copy, PartialEq, Eq, Structural)]
pub enum Label {
    Text,
    Old,
    New,
    Start,
    End,
    Index,
    Separator,
}

/// Why a builtin refused its arguments.
#[derive(Debug, Clone, Copy, PartialEq, Eq, Structural)]
pub enum BuiltinError {
    /// The wrong number of arguments.
    Arity,
    /// The argument is not a text.
    NeedsText(Label),
    /// The argument is not a number.
    NeedsNumber(Label),
    /// The argument is a number but not a whole, non-negative one.
    NeedsWhole(Label),
    /// `len` of a value that has no length.
    LenType,
    /// `range` of something other than a whole, non-negative number.
    RangeType,
    /// `substring` with limits outside the text.
    SubstringBounds,
    /// `char_at` past the end of the text.
    CharAtBounds,
}

/// The view of a builtin's answer.
pub open spec fn call_view(r: Option<Result<Arg, BuiltinError>>) -> Option<Result<SArg, BuiltinError>> {
    match r {
        None => None,
        Some(Ok(a)) => Some(Ok(a.sv())),
        Some(Err(e)) => Some(Err(e)),
    }
}

/// The Unicode uppercase of a text, as `str::to_uppercase` gives it.
pub uninterp spec fn upper_of(s: Seq<char>) -> Seq<char>;

/// The Unicode lowercase of a text, as `str::to_lowercase` gives it.
pub uninterp spec fn lower_of(s: Seq<char>) -> Seq<char>;

/// `str::to_uppercase`; its result is named `upper_of`.
#[verifier::external_body]
fn to_upper(s: &str) -> (r: String)
    ensures
        r@ == upper_of(s@),
{
    s.to_uppercase()
}

/// `str::to_lowercase`; its result is named `lower_of`.
#[verifier::external_body]
fn to_lower(s: &str) -> (r: String)
    ensures
        r@ == lower_of(s@),
{
    s.to_lowercase()
}

/// Whether `p` occurs in `t` at index `i`.
pub open spec fn matches_at(t: Seq<char>, p: Seq<char>, i: int) -> bool {
    0 <= i && i + p.len() <= t.len() && t.subrange(i, i + p.len()) == p
}

/// The first index from `i` on where `p` occurs in `t`.
pub open spec fn first_match(t: Seq<char>, p: Seq<char>, i: int) -> Option<int>
    decreases t.len() + 1 - i,
{
    if i < 0 || i + p.len() > t.len() {
        None
    } else if t.subrange(i, i + p.len()) == p {
        Some(i)
    } else {
        first_match(t, p, i + 1)
    }
}

/// Where `first_match` points `p` occurs, and where it finds nothing, `p`
/// occurs nowhere from `i` on.
pub proof fn lemma_first_match(t: Seq<char>, p: Seq<char>, i: int)
    ensures
        first_match(t, p, i) matches Some(k) ==> i <= k && matches_at(t, p, k),
        first_match(t, p, i) is None && 0 <= i ==> forall|k: int| i <= k ==> !#[trigger] matches_at(t, p, k),
    decreases t.len() + 1 - i,
{
    if i < 0 || i + p.len() > t.len() {
    } else if t.subrange(i, i + p.len()) == p {
    } else {
        lemma_first_match(t, p, i + 1);
    }
}

/// The pieces of `t` between the occurrences of `p`, as `str::split` gives
/// them: occurrences are taken from the left without overlap, and an empty
/// `p` occurs at every character boundary.
pub open spec fn spec_split(t: Seq<char>, p: Seq<char>) -> Seq<Seq<char>>
    decreases t.len(),
{
    if p.len() == 0 {
        seq![Seq::<char>::empty()] + Seq::new(t.len(), |k: int| seq![t[k]]) + seq![Seq::<char>::empty()]
    } else {
        match first_match(t, p, 0) {
            Some(i) => {
                proof {
                    lemma_first_match(t, p, 0);
                }
                seq![t.take(i)] + spec_split(t.skip(i + p.len()), p)
            },
            None => seq![t],
        }
    }
}

/// The pieces joined with `sep` between them.
pub open spec fn spec_join(ps: Seq<Seq<char>>, sep: Seq<char>) -> Seq<char>
    decreases ps.len(),
{
    if ps.len() == 0 {
        Seq::empty()
    } else if ps.len() == 1 {
        ps[0]
    } else {
        spec_join(ps.drop_last(), sep) + sep + ps.last()
    }
}

/// `str::replace`: every occurrence of `from`, taken from the left without
/// overlap, replaced with `to`.
pub open spec fn spec_replace(t: Seq<char>, from: Seq<char>, to: Seq<char>) -> Seq<char> {
    spec_join(spec_split(t, from), to)
}

/// The text an argument holds.
pub open spec fn spec_text(a: SArg, label: Label) -> Result<Seq<char>, BuiltinError> {
    match a {
        SArg::Text(t) => Ok(t),
        _ => Err(BuiltinError::NeedsText(label)),
    }
}

/// The whole, non-negative number an argument holds.
pub open spec fn spec_whole(a: SArg, label: Label) -> Result<u64, BuiltinError> {
    match a {
        SArg::Count(n) => Ok(n),
        SArg::Number => Err(BuiltinError::NeedsWhole(label)),
        _ => Err(BuiltinError::NeedsNumber(label)),
    }
}

/// The texts as arguments.
pub open spec fn text_args(ps: Seq<Seq<char>>) -> Seq<SArg> {
    Seq::new(ps.len(), |i: int| SArg::Text(ps[i]))
}

/// `len`: the characters of a text, the items of a list, the keys of an
/// object or the elements of a tensor.
pub open spec fn spec_len(args: Seq<SArg>) -> Result<SArg, BuiltinError> {
    if args.len() != 1 {
        Err(BuiltinError::Arity)
    } else {
        match args[0] {
            SArg::Text(t) => Ok(SArg::Count(t.len() as u64)),
            SArg::List(v) => Ok(SArg::Count(v.len() as u64)),
            SArg::Object(k) => Ok(SArg::Count(k.len() as u64)),
            SArg::Tensor(n) => Ok(SArg::Count(n)),
            _ => Err(BuiltinError::LenType),
        }
    }
}

/// `range(n)`: the whole numbers from 0 up to `n`, `n` left out.
pub open spec fn spec_range(args: Seq<SArg>) -> Result<SArg, BuiltinError> {
    if args.len() != 1 {
        Err(BuiltinError::Arity)
    } else {
        match args[0] {
            SArg::Count(n) => Ok(SArg::List(Seq::new(n as nat, |k: int| SArg::Count(k as u64)))),
            _ => Err(BuiltinError::RangeType),
        }
    }
}

/// `upper`, `lower` and `trim` of one text.
pub open spec fn spec_case(name: Seq<char>, args: Seq<SArg>) -> Result<SArg, BuiltinError> {
    if args.len() != 1 {
        Err(BuiltinError::Arity)
    } else {
        match spec_text(args[0], Label::Text) {
            Err(e) => Err(e),
            Ok(t) => Ok(SArg::Text(if name == "upper"@ { upper_of(t) } else if name == "lower"@ { lower_of(t) } else { spec_trim(t) })),
        }
    }
}

/// `contains`, `starts_with` and `ends_with` of two texts.
pub open spec fn spec_search(name: Seq<char>, args: Seq<SArg>) -> Result<SArg, BuiltinError> {
    if args.len() != 2 {
        Err(BuiltinError::Arity)
    } else {
        match (spec_text(args[0], Label::Text), spec_text(args[1], Label::Text)) {
            (Err(e), _) => Err(e),
            (Ok(_), Err(e)) => Err(e),
            (Ok(t), Ok(p)) => Ok(SArg::Bool(
                if name == "contains"@ {
                    first_match(t, p, 0) is Some
                } else if name == "starts_with"@ {
                    matches_at(t, p, 0)
                } else {
                    matches_at(t, p, t.len() - p.len())
                },
            )),
        }
    }
}

/// `replace(text, old, new)`.
pub open spec fn spec_replace_call(args: Seq<SArg>) -> Result<SArg, BuiltinError> {
    if args.len() != 3 {
        Err(BuiltinError::Arity)
    } else {
        match (spec_text(args[0], Label::Text), spec_text(args[1], Label::Old), spec_text(args[2], Label::New)) {
            (Err(e), _, _) => Err(e),
            (Ok(_), Err(e), _) => Err(e),
            (Ok(_), Ok(_), Err(e)) => Err(e),
            (Ok(t), Ok(from), Ok(to)) => Ok(SArg::Text(spec_replace(t, from, to))),
        }
    }
}

/// `substring(text, start, end)`: the characters from `start` up to `end`.
pub open spec fn spec_substring(args: Seq<SArg>) -> Result<SArg, BuiltinError> {
    if args.len() != 3 {
        Err(BuiltinError::Arity)
    } else {
        match (spec_text(args[0], Label::Text), spec_whole(args[1], Label::Start), spec_whole(args[2], Label::End)) {
            (Err(e), _, _) => Err(e),
            (Ok(_), Err(e), _) => Err(e),
            (Ok(_), Ok(_), Err(e)) => Err(e),
            (Ok(t), Ok(s), Ok(e)) => if s > e || e > t.len() {
                Err(BuiltinError::SubstringBounds)
            } else {
                Ok(SArg::Text(t.subrange(s as int, e as int)))
            },
        }
    }
}

/// `char_at(text, index)`: the character at `index`, as a text.
pub open spec fn spec_char_at(args: Seq<SArg>) -> Result<SArg, BuiltinError> {
    if args.len() != 2 {
        Err(BuiltinError::Arity)
    } else {
        match (spec_text(args[0], Label::Text), spec_whole(args[1], Label::Index)) {
            (Err(e), _) => Err(e),
            (Ok(_), Err(e)) => Err(e),
            (Ok(t), Ok(i)) => if i >= t.len() {
                Err(BuiltinError::CharAtBounds)
            } else {
                Ok(SArg::Text(seq![t[i as int]]))
            },
        }
    }
}

/// `split(text, separator)`: the pieces as a list of texts.
pub open spec fn spec_split_call(args: Seq<SArg>) -> Result<SArg, BuiltinError> {
    if args.len() != 2 {
        Err(BuiltinError::Arity)
    } else {
        match (spec_text(args[0], Label::Text), spec_text(args[1], Label::Separator)) {
            (Err(e), _) => Err(e),
            (Ok(_), Err(e)) => Err(e),
            (Ok(t), Ok(p)) => Ok(SArg::List(text_args(spec_split(t, p)))),
        }
    }
}

/// What a builtin call answers: `None` for a name that is not one of these
/// builtins, else its result or why it refused the arguments.
pub open spec fn spec_builtin_call(name: Seq<char>, args: Seq<SArg>) -> Option<Result<SArg, BuiltinError>> {
    if name == "len"@ {
        Some(spec_len(args))
    } else if name == "range"@ {
        Some(spec_range(args))
    } else if name == "upper"@ || name == "lower"@ || name == "trim"@ {
        Some(spec_case(name, args))
    } else if name == "contains"@ || name == "starts_with"@ || name == "ends_with"@ {
        Some(spec_search(name, args))
    } else if name == "replace"@ {
        Some(spec_replace_call(args))
    } else if name == "substring"@ {
        Some(spec_substring(args))
    } else if name == "char_at"@ {
        Some(spec_char_at(args))
    } else if name == "split"@ {
        Some(spec_split_call(args))
    } else {
        None
    }
}

fn matches_here(t: &Vec<char>, p: &Vec<char>, i: usize) -> (r: bool)
    requires
        i <= t.len(),
    ensures
        r == matches_at(t@, p@, i as int),
{
    if p.len() > t.len() - i {
        return false;
    }
    let mut j: usize = 0;
    while j < p.len()
        invariant
            i + p.len() <= t.len(),
            j <= p.len(),
            forall|k: int| 0 <= k < j ==> t@[i + k] == p@[k],
        decreases p.len() - j,
    {
        if t[i + j] != p[j] {
            assert(t@.subrange(i as int, i + p.len())[j as int] != p@[j as int]);
            return false;
        }
        j += 1;
    }
    assert(t@.subrange(i as int, i + p.len()) =~= p@);
    true
}

fn find_from(t: &Vec<char>, p: &Vec<char>, i: usize) -> (r: Option<usize>)
    requires
        i <= t.len(),
    ensures
        match r {
            Some(k) => first_match(t@, p@, i as int) == Some(k as int),
            None => first_match(t@, p@, i as int) is None,
        },
{
    if p.len() == 0 {
        assert(t@.subrange(i as int, i as int) =~= p@);
        return Some(i);
    }
    let mut j = i;
    while p.len() <= t.len() && j <= t.len() - p.len()
        invariant
            i <= j <= t.len(),
            p.len() > 0,
            first_match(t@, p@, i as int) == first_match(t@, p@, j as int),
        decreases t.len() - j,
    {
        if matches_here(t, p, j) {
            return Some(j);
        }
        j += 1;
    }
    None
}

fn slice(t: &Vec<char>, a: usize, b: usize) -> (r: Vec<char>)
    requires
        a <= b <= t.len(),
    ensures
        r@ == t@.subrange(a as int, b as int),
{
    let mut out: Vec<char> = Vec::new();
    let mut k = a;
    while k < b
        invariant
            a <= k <= b <= t.len(),
            out@ == t@.subrange(a as int, k as int),
        decreases b - k,
    {
        out.push(t[k]);
        assert(out@ =~= t@.subrange(a as int, k + 1));
        k += 1;
    }
    out
}

/// The pieces of `t` between the occurrences of `p`, as `spec_split` says.
pub fn split_chars(t: &Vec<char>, p: &Vec<char>) -> (r: Vec<Vec<char>>)
    ensures
        rows_view(r@) == spec_split(t@, p@),
    decreases t.len(),
{
    let mut out: Vec<Vec<char>> = Vec::new();
    if p.len() == 0 {
        let first: Vec<char> = Vec::new();
        proof {
            lemma_rows_push(out@, first);
        }
        out.push(first);
        assert(rows_view(out@) =~= seq![Seq::<char>::empty()] + Seq::new(0, |m: int| seq![t@[m]]));
        let mut k: usize = 0;
        while k < t.len()
            invariant
                k <= t.len(),
                p.len() == 0,
                rows_view(out@) == seq![Seq::<char>::empty()] + Seq::new(k as nat, |m: int| seq![t@[m]]),
            decreases t.len() - k,
        {
            let mut one: Vec<char> = Vec::new();
            one.push(t[k]);
            assert(one@ =~= seq![t@[k as int]]);
            proof {
                lemma_rows_push(out@, one);
            }
            out.push(one);
            assert(rows_view(out@) =~= seq![Seq::<char>::empty()] + Seq::new((k + 1) as nat, |m: int| seq![t@[m]]));
            k += 1;
        }
        let last: Vec<char> = Vec::new();
        proof {
            lemma_rows_push(out@, last);
        }
        out.push(last);
        assert(rows_view(out@) =~= spec_split(t@, p@));
        return out;
    }
    match find_from(t, p, 0) {
        Some(i) => {
            proof {
                lemma_first_match(t@, p@, 0);
            }
            let head = slice(t, 0, i);
            let rest = slice(t, i + p.len(), t.len());
            let tail = split_chars(&rest, p);
            proof {
                lemma_rows_push(out@, head);
            }
            out.push(head);
            assert(rows_view(out@) =~= seq![head@] + rows_view(tail@).take(0));
            let mut k: usize = 0;
            while k < tail.len()
                invariant
                    k <= tail.len(),
                    rows_view(out@) == seq![head@] + rows_view(tail@).take(k as int),
                decreases tail.len() - k,
            {
                let piece = slice(&tail[k], 0, tail[k].len());
                assert(piece@ =~= tail@[k as int]@);
                proof {
                    lemma_rows_push(out@, piece);
                }
                out.push(piece);
                assert(rows_view(out@) =~= seq![head@] + rows_view(tail@).take(k + 1));
                k += 1;
            }
            assert(head@ =~= t@.take(i as int));
            assert(rest@ =~= t@.skip(i + p.len()));
            assert(rows_view(tail@).take(k as int) =~= rows_view(tail@));
            assert(rows_view(out@) =~= spec_split(t@, p@));
            out
        }
        None => {
            let whole = slice(t, 0, t.len());
            proof {
                lemma_rows_push(out@, whole);
            }
            out.push(whole);
            assert(whole@ =~= t@);
            assert(rows_view(out@) =~= spec_split(t@, p@));
            out
        }
    }
}

/// The pieces joined with `sep` between them.
pub fn join_chars(ps: &Vec<Vec<char>>, sep: &Vec<char>) -> (r: Vec<char>)
    ensures
        r@ == spec_join(rows_view(ps@), sep@),
{
    let ghost rows = rows_view(ps@);
    if ps.len() == 0 {
        return Vec::new();
    }
    let mut out = slice(&ps[0], 0, ps[0].len());
    assert(rows.take(1).drop_last() =~= Seq::<Seq<char>>::empty());
    assert(out@ =~= spec_join(rows.take(1), sep@));
    let mut i: usize = 1;
    while i < ps.len()
        invariant
            1 <= i <= ps.len(),
            rows == rows_view(ps@),
            out@ == spec_join(rows.take(i as int), sep@),
        decreases ps.len() - i,
    {
        let ghost before = out@;
        let mut k: usize = 0;
        while k < sep.len()
            invariant
                k <= sep.len(),
                out@ == before + sep@.take(k as int),
            decreases sep.len() - k,
        {
            out.push(sep[k]);
            assert(out@ =~= before + sep@.take(k + 1));
            k += 1;
        }
        let ghost mid = out@;
        let mut k: usize = 0;
        while k < ps[i].len()
            invariant
                i < ps.len(),
                k <= ps@[i as int].len(),
                out@ == mid + ps@[i as int]@.take(k as int),
            decreases ps@[i as int].len() - k,
        {
            out.push(ps[i][k]);
            assert(out@ =~= mid + ps@[i as int]@.take(k + 1));
            k += 1;
        }
        assert(rows.take(i + 1).drop_last() =~= rows.take(i as int));
        assert(sep@.take(sep.len() as int) =~= sep@);
        assert(ps@[i as int]@.take(k as int) =~= ps@[i as int]@);
        assert(out@ =~= spec_join(rows.take(i + 1), sep@));
        i += 1;
    }
    assert(rows.take(i as int) =~= rows);
    out
}

fn text_arg(a: &Arg, label: Label) -> (r: Result<Vec<char>, BuiltinError>)
    ensures
        match spec_text(a.sv(), label) {
            Ok(t) => r is Ok && r->Ok_0@ == t,
            Err(e) => r == Err::<Vec<char>, BuiltinError>(e),
        },
{
    match a {
        Arg::Text(s) => Ok(chars_of(s.as_str())),
        _ => Err(BuiltinError::NeedsText(label)),
    }
}

fn whole_arg(a: &Arg, label: Label) -> (r: Result<u64, BuiltinError>)
    ensures
        r == spec_whole(a.sv(), label),
{
    match a {
        Arg::Count(n) => Ok(*n),
        Arg::Number => Err(BuiltinError::NeedsWhole(label)),
        _ => Err(BuiltinError::NeedsNumber(label)),
    }
}

fn text_result(v: &Vec<char>) -> (r: Arg)
    ensures
        r.sv() == SArg::Text(v@),
{
    Arg::Text(string_of(v))
}

fn len_call(args: &Vec<Arg>) -> (r: Result<Arg, BuiltinError>)
    ensures
        call_view(Some(r)) == Some(spec_len(args_view(args@))),
{
    if args.len() != 1 {
        return Err(BuiltinError::Arity);
    }
    assert(args_view(args@)[0] == args@[0].sv());
    match &args[0] {
        Arg::Text(s) => {
            let cs = chars_of(s.as_str());
            Ok(Arg::Count(cs.len() as u64))
        }
        Arg::List(v) => {
            proof {
                lemma_list_view(*v);
            }
            Ok(Arg::Count(v.len() as u64))
        }
        Arg::Object(keys) => Ok(Arg::Count(keys.len() as u64)),
        Arg::Tensor(n) => Ok(Arg::Count(*n)),
        _ => Err(BuiltinError::LenType),
    }
}

fn range_call(args: &Vec<Arg>) -> (r: Result<Arg, BuiltinError>)
    ensures
        call_view(Some(r)) == Some(spec_range(args_view(args@))),
{
    if args.len() != 1 {
        return Err(BuiltinError::Arity);
    }
    assert(args_view(args@)[0] == args@[0].sv());
    match &args[0] {
        Arg::Count(n) => {
            let n = *n;
            let mut v: Vec<Arg> = Vec::new();
            let mut k: u64 = 0;
            while k < n
                invariant
                    k <= n,
                    args_view(v@) == Seq::new(k as nat, |m: int| SArg::Count(m as u64)),
                decreases n - k,
            {
                proof {
                    lemma_args_push(v@, Arg::Count(k));
                }
                v.push(Arg::Count(k));
                assert(args_view(v@) =~= Seq::new((k + 1) as nat, |m: int| SArg::Count(m as u64)));
                k += 1;
            }
            proof {
                lemma_list_view(v);
            }
            Ok(Arg::List(v))
        }
        _ => Err(BuiltinError::RangeType),
    }
}

fn case_call(name: &Vec<char>, args: &Vec<Arg>) -> (r: Result<Arg, BuiltinError>)
    ensures
        call_view(Some(r)) == Some(spec_case(name@, args_view(args@))),
{
    if args.len() != 1 {
        return Err(BuiltinError::Arity);
    }
    assert(args_view(args@)[0] == args@[0].sv());
    let t = match text_arg(&args[0], Label::Text) {
        Err(e) => return Err(e),
        Ok(t) => t,
    };
    if chars_eq_str(name, "upper") {
        let s = string_of(&t);
        Ok(Arg::Text(to_upper(s.as_str())))
    } else if chars_eq_str(name, "lower") {
        let s = string_of(&t);
        Ok(Arg::Text(to_lower(s.as_str())))
    } else {
        Ok(text_result(&trim_chars(&t)))
    }
}

fn search_call(name: &Vec<char>, args: &Vec<Arg>) -> (r: Result<Arg, BuiltinError>)
    ensures
        call_view(Some(r)) == Some(spec_search(name@, args_view(args@))),
{
    if args.len() != 2 {
        return Err(BuiltinError::Arity);
    }
    assert(args_view(args@)[0] == args@[0].sv());
    assert(args_view(args@)[1] == args@[1].sv());
    let t = match text_arg(&args[0], Label::Text) {
        Err(e) => return Err(e),
        Ok(t) => t,
    };
    let p = match text_arg(&args[1], Label::Text) {
        Err(e) => return Err(e),
        Ok(p) => p,
    };
    let found = if chars_eq_str(name, "contains") {
        find_from(&t, &p, 0).is_some()
    } else if chars_eq_str(name, "starts_with") {
        matches_here(&t, &p, 0)
    } else if p.len() <= t.len() {
        matches_here(&t, &p, t.len() - p.len())
    } else {
        false
    };
    Ok(Arg::Bool(found))
}

fn replace_call(args: &Vec<Arg>) -> (r: Result<Arg, BuiltinError>)
    ensures
        call_view(Some(r)) == Some(spec_replace_call(args_view(args@))),
{
    if args.len() != 3 {
        return Err(BuiltinError::Arity);
    }
    assert(args_view(args@)[0] == args@[0].sv());
    assert(args_view(args@)[1] == args@[1].sv());
    assert(args_view(args@)[2] == args@[2].sv());
    let t = match text_arg(&args[0], Label::Text) {
        Err(e) => return Err(e),
        Ok(t) => t,
    };
    let from = match text_arg(&args[1], Label::Old) {
        Err(e) => return Err(e),
        Ok(x) => x,
    };
    let to = match text_arg(&args[2], Label::New) {
        Err(e) => return Err(e),
        Ok(x) => x,
    };
    let pieces = split_chars(&t, &from);
    Ok(text_result(&join_chars(&pieces, &to)))
}

fn substring_call(args: &Vec<Arg>) -> (r: Result<Arg, BuiltinError>)
    ensures
        call_view(Some(r)) == Some(spec_substring(args_view(args@))),
{
    if args.len() != 3 {
        return Err(BuiltinError::Arity);
    }
    assert(args_view(args@)[0] == args@[0].sv());
    assert(args_view(args@)[1] == args@[1].sv());
    assert(args_view(args@)[2] == args@[2].sv());
    let t = match text_arg(&args[0], Label::Text) {
        Err(e) => return Err(e),
        Ok(t) => t,
    };
    let start = match whole_arg(&args[1], Label::Start) {
        Err(e) => return Err(e),
        Ok(x) => x,
    };
    let end = match whole_arg(&args[2], Label::End) {
        Err(e) => return Err(e),
        Ok(x) => x,
    };
    if start > end || end > t.len() as u64 {
        return Err(BuiltinError::SubstringBounds);
    }
    Ok(text_result(&slice(&t, start as usize, end as usize)))
}

fn char_at_call(args: &Vec<Arg>) -> (r: Result<Arg, BuiltinError>)
    ensures
        call_view(Some(r)) == Some(spec_char_at(args_view(args@))),
{
    if args.len() != 2 {
        return Err(BuiltinError::Arity);
    }
    assert(args_view(args@)[0] == args@[0].sv());
    assert(args_view(args@)[1] == args@[1].sv());
    let t = match text_arg(&args[0], Label::Text) {
        Err(e) => return Err(e),
        Ok(t) => t,
    };
    let i = match whole_arg(&args[1], Label::Index) {
        Err(e) => return Err(e),
        Ok(x) => x,
    };
    if i >= t.len() as u64 {
        return Err(BuiltinError::CharAtBounds);
    }
    let one = slice(&t, i as usize, i as usize + 1);
    assert(one@ =~= seq![t@[i as int]]);
    Ok(text_result(&one))
}

fn split_call(args: &Vec<Arg>) -> (r: Result<Arg, BuiltinError>)
    ensures
        call_view(Some(r)) == Some(spec_split_call(args_view(args@))),
{
    if args.len() != 2 {
        return Err(BuiltinError::Arity);
    }
    assert(args_view(args@)[0] == args@[0].sv());
    assert(args_view(args@)[1] == args@[1].sv());
    let t = match text_arg(&args[0], Label::Text) {
        Err(e) => return Err(e),
        Ok(t) => t,
    };
    let p = match text_arg(&args[1], Label::Separator) {
        Err(e) => return Err(e),
        Ok(p) => p,
    };
    let pieces = split_chars(&t, &p);
    let mut items: Vec<Arg> = Vec::new();
    let mut k: usize = 0;
    while k < pieces.len()
        invariant
            k <= pieces.len(),
            args_view(items@) == text_args(rows_view(pieces@)).take(k as int),
        decreases pieces.len() - k,
    {
        let item = text_result(&pieces[k]);
        proof {
            lemma_args_push(items@, item);
        }
        items.push(item);
        assert(args_view(items@) =~= text_args(rows_view(pieces@)).take(k + 1));
        k += 1;
    }
    assert(text_args(rows_view(pieces@)).take(k as int) =~= text_args(rows_view(pieces@)));
    proof {
        lemma_list_view(items);
    }
    Ok(Arg::List(items))
}

/// Calls the builtin `name` with `args`, as `spec_builtin_call` says; `None`
/// when `name` is not one of these builtins.
pub fn builtin_call(name: &str, args: &Vec<Arg>) -> (r: Option<Result<Arg, BuiltinError>>)
    ensures
        call_view(r) == spec_builtin_call(name@, args_view(args@)),
{
    let n = chars_of(name);
    if chars_eq_str(&n, "len") {
        Some(len_call(args))
    } else if chars_eq_str(&n, "range") {
        Some(range_call(args))
    } else if chars_eq_str(&n, "upper") || chars_eq_str(&n, "lower") || chars_eq_str(&n, "trim") {
        Some(case_call(&n, args))
    } else if chars_eq_str(&n, "contains") || chars_eq_str(&n, "starts_with") || chars_eq_str(&n, "ends_with") {
        Some(search_call(&n, args))
    } else if chars_eq_str(&n, "replace") {
        Some(replace_call(args))
    } else if chars_eq_str(&n, "substring") {
        Some(substring_call(args))
    } else if chars_eq_str(&n, "char_at") {
        Some(char_at_call(args))
    } else if chars_eq_str(&n, "split") {
        Some(split_call(args))
    } else {
        None
    }
}

} // verus!
