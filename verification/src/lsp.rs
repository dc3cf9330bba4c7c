//! Editor services for Nano sources: formatting, bracket diagnostics,
//! completion, hover, navigation and renaming. Positions count lines from
//! zero and characters within a line from zero.
use vstd::prelude::*;
use crate::text::{
    chars_eq_str, chars_of, is_whitespace, push_chars, push_str, spec_trim, spec_trim_start,
    string_of, trim_chars,
};

verus! {

/// The index of the first line feed of `s`, or its length.
pub open spec fn first_newline(s: Seq<char>) -> nat
    decreases s.len(),
{
    if s.len() == 0 {
        0
    } else if s[0] == '\n' {
        0
    } else {
        1 + first_newline(s.drop_first())
    }
}

/// The lines of a text (`str::lines`): split at each line feed, a carriage
/// return before it dropped, with no empty line after a final line feed.
pub open spec fn spec_lines(s: Seq<char>) -> Seq<Seq<char>>
    decreases s.len(),
{
    if s.len() == 0 {
        Seq::empty()
    } else {
        let k = first_newline(s);
        if k >= s.len() {
            seq![s]
        } else {
            let line = s.take(k as int);
            let line2 = if line.len() > 0 && line.last() == '\r' { line.drop_last() } else { line };
            seq![line2] + spec_lines(s.skip(k as int + 1))
        }
    }
}

proof fn lemma_first_newline(t: Seq<char>, m: int)
    requires
        0 <= m <= t.len(),
        forall|j: int| 0 <= j < m ==> t[j] != '\n',
        m == t.len() || t[m] == '\n',
    ensures
        first_newline(t) == m,
    decreases m,
{
    if m > 0 {
        lemma_first_newline(t.drop_first(), m - 1);
    }
}

/// The views of lines.
pub open spec fn rows_view(v: Seq<Vec<char>>) -> Seq<Seq<char>> {
    Seq::new(v.len(), |i: int| v[i]@)
}

/// The lines of a text.
pub fn lines_of(s: &Vec<char>) -> (r: Vec<Vec<char>>)
    ensures
        rows_view(r@) == spec_lines(s@),
{
    let n = s.len();
    let mut out: Vec<Vec<char>> = Vec::new();
    let mut start: usize = 0;
    assert(s@.skip(0) =~= s@);
    assert(rows_view(out@) + spec_lines(s@) =~= spec_lines(s@));
    while start < n
        invariant
            n == s.len(),
            start <= n,
            spec_lines(s@) == rows_view(out@) + spec_lines(s@.skip(start as int)),
        decreases n - start,
    {
        let ghost t = s@.skip(start as int);
        let mut k = start;
        while k < n && s[k] != '\n'
            invariant
                start <= k <= n,
                n == s.len(),
                forall|j: int| start <= j < k ==> s@[j] != '\n',
            decreases n - k,
        {
            k += 1;
        }
        proof {
            assert forall|j: int| 0 <= j < k - start implies t[j] != '\n' by {
                assert(t[j] == s@[start + j]);
            }
            lemma_first_newline(t, k - start);
        }
        let mut line: Vec<char> = Vec::new();
        let mut j = start;
        while j < k
            invariant
                start <= j <= k <= n,
                n == s.len(),
                line@ == s@.subrange(start as int, j as int),
            decreases k - j,
        {
            line.push(s[j]);
            assert(line@ =~= s@.subrange(start as int, j + 1));
            j += 1;
        }
        assert(line@ =~= t.take(k - start));
        let ghost before = rows_view(out@);
        if k == n {
            assert(t.len() == k - start);
            assert(line@ =~= t);
            out.push(line);
            assert(rows_view(out@) =~= before + seq![t]);
            assert(s@.skip(n as int) =~= Seq::<char>::empty());
            assert(spec_lines(t) == seq![t]);
            start = n;
            assert(rows_view(out@) + spec_lines(s@.skip(start as int)) =~= before + spec_lines(t));
        } else {
            let ghost raw = line@;
            if line.len() > 0 && line[line.len() - 1] == '\r' {
                line.pop();
            }
            out.push(line);
            assert(t.skip(k - start + 1) =~= s@.skip(k + 1));
            start = k + 1;
            assert(rows_view(out@) + spec_lines(s@.skip(start as int)) =~= before + spec_lines(t));
        }
    }
    assert(s@.skip(n as int) =~= Seq::<char>::empty());
    assert(rows_view(out@) + Seq::<Seq<char>>::empty() =~= rows_view(out@));
    out
}

/// `char::is_ascii_alphanumeric` or `_`: a character of an identifier.
pub open spec fn spec_is_word(c: char) -> bool {
    ('a' <= c && c <= 'z') || ('A' <= c && c <= 'Z') || ('0' <= c && c <= '9') || c == '_'
}

/// Whether `c` can be part of a word.
pub fn is_word(c: char) -> (r: bool)
    ensures
        r == spec_is_word(c),
{
    ('a' <= c && c <= 'z') || ('A' <= c && c <= 'Z') || ('0' <= c && c <= '9') || c == '_'
}

/// The counts of `{` and `}` of a line from some point on, outside string
/// literals and before a `#` comment, added to the counts so far.
pub open spec fn braces_from(s: Seq<char>, opens: nat, closes: nat, in_string: bool, escape: bool) -> (nat, nat)
    decreases s.len(),
{
    if s.len() == 0 {
        (opens, closes)
    } else {
        let c = s[0];
        let rest = s.drop_first();
        if in_string {
            if escape {
                braces_from(rest, opens, closes, true, false)
            } else if c == '\\' {
                braces_from(rest, opens, closes, true, true)
            } else if c == '"' {
                braces_from(rest, opens, closes, false, false)
            } else {
                braces_from(rest, opens, closes, true, false)
            }
        } else if c == '"' {
            braces_from(rest, opens, closes, true, escape)
        } else if c == '#' {
            (opens, closes)
        } else if c == '{' {
            braces_from(rest, opens + 1, closes, false, escape)
        } else if c == '}' {
            braces_from(rest, opens, closes + 1, false, escape)
        } else {
            braces_from(rest, opens, closes, false, escape)
        }
    }
}

/// The numbers of `{` and `}` in a line, outside strings and comments.
pub open spec fn spec_scan_braces(s: Seq<char>) -> (nat, nat) {
    braces_from(s, 0, 0, false, false)
}

/// Counts the `{` and `}` of a line outside strings and comments.
pub fn scan_braces(line: &str) -> (r: (usize, usize))
    ensures
        r.0 == spec_scan_braces(line@).0,
        r.1 == spec_scan_braces(line@).1,
{
    let cs = chars_of(line);
    scan_brace_chars(&cs)
}

fn scan_brace_chars(cs: &Vec<char>) -> (r: (usize, usize))
    ensures
        r.0 == spec_scan_braces(cs@).0,
        r.1 == spec_scan_braces(cs@).1,
{
    let mut opens: usize = 0;
    let mut closes: usize = 0;
    let mut in_string = false;
    let mut escape = false;
    let mut i: usize = 0;
    assert(cs@.skip(0) =~= cs@);
    assert(cs@.skip(cs.len() as int) =~= Seq::<char>::empty());
    while i < cs.len()
        invariant
            i <= cs.len(),
            opens + closes <= i,
            cs@.skip(cs.len() as int) == Seq::<char>::empty(),
            spec_scan_braces(cs@) == braces_from(cs@.skip(i as int), opens as nat, closes as nat, in_string, escape),
        ensures
            spec_scan_braces(cs@) == (opens as nat, closes as nat),
        decreases cs.len() - i,
    {
        assert(cs@.skip(i as int).drop_first() =~= cs@.skip(i + 1));
        let c = cs[i];
        if in_string {
            if escape {
                escape = false;
            } else if c == '\\' {
                escape = true;
            } else if c == '"' {
                in_string = false;
            }
        } else if c == '"' {
            in_string = true;
        } else if c == '#' {
            break;
        } else if c == '{' {
            opens += 1;
        } else if c == '}' {
            closes += 1;
        }
        i += 1;
    }
    (opens, closes)
}

/// `usize::saturating_add`.
pub open spec fn sat_add(a: nat, b: nat) -> nat {
    if a + b > usize::MAX { usize::MAX as nat } else { a + b }
}

/// `usize::saturating_sub`.
pub open spec fn sat_sub(a: nat, b: nat) -> nat {
    if a >= b { (a - b) as nat } else { 0 }
}

/// `n` copies of four spaces.
pub open spec fn indentation(n: nat) -> Seq<char>
    decreases n,
{
    if n == 0 { Seq::empty() } else { indentation((n - 1) as nat) + "    "@ }
}

/// Formatting state: the text so far, the indentation level, and whether
/// the last line was blank.
pub open spec fn format_lines(out: Seq<char>, indent: nat, last_blank: bool, lines: Seq<Seq<char>>) -> Seq<char>
    decreases lines.len(),
{
    if lines.len() == 0 {
        out
    } else {
        let line = spec_trim(lines[0]);
        let rest = lines.drop_first();
        if line.len() == 0 {
            let out2 = if !last_blank && out.len() > 0 { out.push('\n') } else { out };
            format_lines(out2, indent, true, rest)
        } else {
            let starts_with_close = line[0] == '}';
            let ind1 = if starts_with_close { sat_sub(indent, 1) } else { indent };
            let out2 = out + indentation(ind1) + line + seq!['\n'];
            let (opens, closes) = spec_scan_braces(line);
            let non_leading = sat_sub(closes, if starts_with_close { 1 } else { 0 });
            format_lines(out2, sat_sub(sat_add(ind1, opens), non_leading), false, rest)
        }
    }
}

/// The text without trailing spaces, tabs and line feeds.
pub open spec fn trim_end_layout(s: Seq<char>) -> Seq<char>
    decreases s.len(),
{
    if s.len() > 0 && (s.last() == ' ' || s.last() == '\t' || s.last() == '\n') {
        trim_end_layout(s.drop_last())
    } else {
        s
    }
}

/// The formatted text: each non-blank line trimmed and indented four spaces
/// per open block, a `}` that starts a line closing its block first, runs
/// of blank lines kept as one, and one final line feed.
pub open spec fn spec_format_source(src: Seq<char>) -> Seq<char> {
    let out = format_lines(Seq::empty(), 0, false, spec_lines(src));
    if out.len() == 0 { Seq::empty() } else { trim_end_layout(out) + seq!['\n'] }
}

/// Whether some line has a character other than whitespace.
pub open spec fn has_content(lines: Seq<Seq<char>>) -> bool {
    exists|i: int| 0 <= i < lines.len() && #[trigger] spec_trim(lines[i]).len() > 0
}

/// A trimmed text that is not empty starts with a character other than
/// whitespace.
pub proof fn lemma_trim_first(s: Seq<char>)
    ensures
        spec_trim(s).len() > 0 ==> !crate::text::spec_is_whitespace(spec_trim(s)[0]),
{
    lemma_trim_start_first(s);
    lemma_trim_end_prefix(crate::text::spec_trim_start(s));
}

proof fn lemma_trim_start_first(s: Seq<char>)
    ensures
        crate::text::spec_trim_start(s).len() > 0 ==> !crate::text::spec_is_whitespace(crate::text::spec_trim_start(s)[0]),
    decreases s.len(),
{
    if s.len() > 0 && crate::text::spec_is_whitespace(s[0]) {
        lemma_trim_start_first(s.drop_first());
    }
}

proof fn lemma_trim_end_prefix(s: Seq<char>)
    ensures
        crate::text::spec_trim_end(s).len() <= s.len(),
        crate::text::spec_trim_end(s) == s.take(crate::text::spec_trim_end(s).len() as int),
    decreases s.len(),
{
    if s.len() > 0 && crate::text::spec_is_whitespace(s.last()) {
        lemma_trim_end_prefix(s.drop_last());
        assert(s.drop_last().take(crate::text::spec_trim_end(s).len() as int) =~= s.take(crate::text::spec_trim_end(s).len() as int));
    } else {
        assert(s.take(s.len() as int) =~= s);
    }
}

proof fn lemma_layout_trim(s: Seq<char>, i: int)
    ensures
        trim_end_layout(s).len() <= s.len(),
        trim_end_layout(s) == s.take(trim_end_layout(s).len() as int),
        trim_end_layout(s).len() > 0 ==> {
            let l = trim_end_layout(s).last();
            l != ' ' && l != '\t' && l != '\n'
        },
        0 <= i < s.len() && s[i] != ' ' && s[i] != '\t' && s[i] != '\n' ==> trim_end_layout(s).len() > i,
    decreases s.len(),
{
    if s.len() > 0 && (s.last() == ' ' || s.last() == '\t' || s.last() == '\n') {
        lemma_layout_trim(s.drop_last(), i);
        assert(s.drop_last().take(trim_end_layout(s).len() as int) =~= s.take(trim_end_layout(s).len() as int));
    } else {
        assert(s.take(s.len() as int) =~= s);
    }
}

proof fn lemma_format_extends(out: Seq<char>, indent: nat, last_blank: bool, lines: Seq<Seq<char>>)
    ensures
        out.len() <= format_lines(out, indent, last_blank, lines).len(),
        format_lines(out, indent, last_blank, lines).take(out.len() as int) == out,
    decreases lines.len(),
{
    let r = format_lines(out, indent, last_blank, lines);
    if lines.len() == 0 {
        assert(r.take(out.len() as int) =~= out);
    } else {
        let line = spec_trim(lines[0]);
        let rest = lines.drop_first();
        if line.len() == 0 {
            let out2 = if !last_blank && out.len() > 0 { out.push('\n') } else { out };
            lemma_format_extends(out2, indent, true, rest);
            assert(r.take(out.len() as int) =~= r.take(out2.len() as int).take(out.len() as int));
        } else {
            let starts_with_close = line[0] == '}';
            let ind1 = if starts_with_close { sat_sub(indent, 1) } else { indent };
            let out2 = out + indentation(ind1) + line + seq!['\n'];
            let (opens, closes) = spec_scan_braces(line);
            let non_leading = sat_sub(closes, if starts_with_close { 1 } else { 0 });
            lemma_format_extends(out2, sat_sub(sat_add(ind1, opens), non_leading), false, rest);
            assert(r.take(out.len() as int) =~= r.take(out2.len() as int).take(out.len() as int));
        }
    }
}

proof fn lemma_format_from_empty(last_blank: bool, lines: Seq<Seq<char>>)
    ensures
        format_lines(Seq::empty(), 0, last_blank, lines).len() == 0 <==> !has_content(lines),
        has_content(lines) ==> !crate::text::spec_is_whitespace(format_lines(Seq::empty(), 0, last_blank, lines)[0]),
    decreases lines.len(),
{
    if lines.len() > 0 {
        let line = spec_trim(lines[0]);
        let rest = lines.drop_first();
        assert forall|i: int| 0 <= i < rest.len() implies #[trigger] spec_trim(rest[i]) == spec_trim(lines[i + 1]) by {}
        if line.len() == 0 {
            lemma_format_from_empty(true, rest);
            if has_content(lines) {
                let i = choose|i: int| 0 <= i < lines.len() && #[trigger] spec_trim(lines[i]).len() > 0;
                assert(i > 0);
                assert(spec_trim(rest[i - 1]).len() > 0);
            }
            if has_content(rest) {
                let i = choose|i: int| 0 <= i < rest.len() && #[trigger] spec_trim(rest[i]).len() > 0;
                assert(spec_trim(lines[i + 1]).len() > 0);
            }
        } else {
            assert(spec_trim(lines[0]).len() > 0);
            let starts_with_close = line[0] == '}';
            let ind1 = if starts_with_close { sat_sub(0, 1) } else { 0nat };
            assert(ind1 == 0);
            let out2 = Seq::<char>::empty() + indentation(ind1) + line + seq!['\n'];
            assert(out2[0] == line[0]);
            let (opens, closes) = spec_scan_braces(line);
            let non_leading = sat_sub(closes, if starts_with_close { 1 } else { 0 });
            lemma_format_extends(out2, sat_sub(sat_add(ind1, opens), non_leading), false, rest);
            lemma_trim_first(lines[0]);
            let r = format_lines(Seq::empty(), 0, last_blank, lines);
            assert(r.take(out2.len() as int)[0] == r[0]);
        }
    }
}

/// The shape of formatted text: it is empty exactly when no line has
/// anything but whitespace; otherwise it starts with a character that is
/// not a line feed and ends with exactly one line feed.
pub proof fn lemma_format_shape(src: Seq<char>)
    ensures
        spec_format_source(src).len() == 0 <==> !has_content(spec_lines(src)),
        spec_format_source(src).len() > 0 ==> {
            let r = spec_format_source(src);
            &&& r[0] != '\n'
            &&& r.last() == '\n'
            &&& r.len() >= 2 ==> r[r.len() - 2] != '\n'
        },
{
    let lines = spec_lines(src);
    let out = format_lines(Seq::empty(), 0, false, lines);
    lemma_format_from_empty(false, lines);
    if out.len() > 0 {
        lemma_layout_trim(out, 0);
        let t = trim_end_layout(out);
        assert(t.take(t.len() as int)[0] == out.take(t.len() as int)[0]);
        let r = t + seq!['\n'];
        assert(r[0] == t[0]);
        if r.len() >= 2 {
            assert(r[r.len() - 2] == t.last());
        }
    }
}

/// Whether `s` has three line feeds in a row at `i`: two empty lines in a
/// row.
pub open spec fn triple_at(s: Seq<char>, i: int) -> bool {
    s[i] == '\n' && s[i + 1] == '\n' && s[i + 2] == '\n'
}

/// Whether `s` never has two empty lines in a row.
pub open spec fn no_double_blank(s: Seq<char>) -> bool {
    forall|i: int| 0 <= i && i + 2 < s.len() ==> !#[trigger] triple_at(s, i)
}

/// Whether no line has a line feed in it.
pub open spec fn single_lines(lines: Seq<Seq<char>>) -> bool {
    forall|i: int, j: int| 0 <= i < lines.len() && 0 <= j < lines[i].len() ==> #[trigger] lines[i][j] != '\n'
}

proof fn lemma_first_newline_facts(s: Seq<char>)
    ensures
        first_newline(s) <= s.len(),
        forall|j: int| 0 <= j < first_newline(s) ==> s[j] != '\n',
        first_newline(s) < s.len() ==> s[first_newline(s) as int] == '\n',
    decreases s.len(),
{
    if s.len() > 0 && s[0] != '\n' {
        lemma_first_newline_facts(s.drop_first());
        assert forall|j: int| 0 <= j < first_newline(s) implies s[j] != '\n' by {
            if j > 0 {
                assert(s[j] == s.drop_first()[j - 1]);
            }
        }
    }
}

/// No line of a text holds a line feed.
pub proof fn lemma_lines_single(s: Seq<char>)
    ensures
        single_lines(spec_lines(s)),
    decreases s.len(),
{
    if s.len() > 0 {
        let k = first_newline(s);
        lemma_first_newline_facts(s);
        if k < s.len() {
            lemma_lines_single(s.skip(k as int + 1));
            let line = s.take(k as int);
            let line2 = if line.len() > 0 && line.last() == '\r' { line.drop_last() } else { line };
            let ls = spec_lines(s);
            assert(ls == seq![line2] + spec_lines(s.skip(k as int + 1)));
            assert forall|i: int, j: int| 0 <= i < ls.len() && 0 <= j < ls[i].len() implies #[trigger] ls[i][j] != '\n' by {
                if i == 0 {
                    assert(ls[0][j] == s[j]);
                } else {
                    assert(ls[i] == spec_lines(s.skip(k as int + 1))[i - 1]);
                }
            }
        }
    }
}

/// Trimming brings in no character the text did not have.
pub proof fn lemma_trim_keeps_out(x: Seq<char>, c: char)
    requires
        forall|j: int| 0 <= j < x.len() ==> x[j] != c,
    ensures
        forall|j: int| 0 <= j < spec_trim(x).len() ==> spec_trim(x)[j] != c,
{
    lemma_trim_start_sub(x);
    let y = crate::text::spec_trim_start(x);
    lemma_trim_end_prefix(y);
    assert forall|j: int| 0 <= j < spec_trim(x).len() implies spec_trim(x)[j] != c by {
        assert(spec_trim(x)[j] == y[j]);
        assert(y[j] == x[j + (x.len() - y.len())]);
    }
}

proof fn lemma_trim_start_sub(x: Seq<char>)
    ensures
        crate::text::spec_trim_start(x).len() <= x.len(),
        crate::text::spec_trim_start(x) == x.skip(x.len() - crate::text::spec_trim_start(x).len()),
    decreases x.len(),
{
    if x.len() > 0 && crate::text::spec_is_whitespace(x[0]) {
        lemma_trim_start_sub(x.drop_first());
        assert(x.drop_first().skip(x.drop_first().len() - crate::text::spec_trim_start(x).len()) =~= x.skip(x.len() - crate::text::spec_trim_start(x).len()));
    } else {
        assert(x.skip(0) =~= x);
    }
}

/// Indentation is made of spaces only.
pub proof fn lemma_indentation_spaces(n: nat)
    ensures
        forall|j: int| 0 <= j < indentation(n).len() ==> indentation(n)[j] == ' ',
    decreases n,
{
    if n > 0 {
        lemma_indentation_spaces((n - 1) as nat);
        let a = indentation((n - 1) as nat);
        assert forall|j: int| 0 <= j < indentation(n).len() implies indentation(n)[j] == ' ' by {
            if j >= a.len() {
                assert(indentation(n)[j] == "    "@[j - a.len()]);
                reveal_strlit("    ");
            }
        }
    }
}

proof fn lemma_format_no_double_blank(out: Seq<char>, indent: nat, last_blank: bool, lines: Seq<Seq<char>>)
    requires
        no_double_blank(out),
        out.len() > 0 ==> out.last() == '\n',
        out.len() > 0 && !last_blank ==> out.len() >= 2 && out[out.len() - 2] != '\n',
        single_lines(lines),
    ensures
        no_double_blank(format_lines(out, indent, last_blank, lines)),
    decreases lines.len(),
{
    if lines.len() > 0 {
        let line = spec_trim(lines[0]);
        let rest = lines.drop_first();
        assert(single_lines(rest)) by {
            assert forall|i: int, j: int| 0 <= i < rest.len() && 0 <= j < rest[i].len() implies #[trigger] rest[i][j] != '\n' by {
                assert(rest[i] == lines[i + 1]);
                assert(lines[i + 1][j] != '\n');
            }
        }
        if line.len() == 0 {
            let out2 = if !last_blank && out.len() > 0 { out.push('\n') } else { out };
            assert forall|i: int| 0 <= i && i + 2 < out2.len() implies !#[trigger] triple_at(out2, i) by {
                if i + 2 < out.len() {
                    assert(!triple_at(out, i));
                }
            }
            lemma_format_no_double_blank(out2, indent, true, rest);
        } else {
            assert forall|j: int| 0 <= j < lines[0].len() implies lines[0][j] != '\n' by {
                assert(lines[0][j] != '\n');
            }
            lemma_trim_keeps_out(lines[0], '\n');
            let starts_with_close = line[0] == '}';
            let ind1 = if starts_with_close { sat_sub(indent, 1) } else { indent };
            lemma_indentation_spaces(ind1);
            let ind = indentation(ind1);
            let out2 = out + ind + line + seq!['\n'];
            let n = out.len() as int;
            let m = ind.len() as int;
            assert forall|j: int| n <= j < out2.len() - 1 implies out2[j] != '\n' by {
                if j < n + m {
                    assert(out2[j] == ind[j - n]);
                } else {
                    assert(out2[j] == line[j - n - m]);
                }
            }
            assert forall|i: int| 0 <= i && i + 2 < out2.len() implies !#[trigger] triple_at(out2, i) by {
                if i + 2 < n {
                    assert(!triple_at(out, i));
                    assert(out2[i] == out[i] && out2[i + 1] == out[i + 1] && out2[i + 2] == out[i + 2]);
                } else if i + 1 >= n {
                    assert(out2[i + 1] != '\n');
                } else {
                    assert(out2[i + 2] != '\n');
                }
            }
            assert(out2[out2.len() - 2] == line.last());
            let (opens, closes) = spec_scan_braces(line);
            let non_leading = sat_sub(closes, if starts_with_close { 1 } else { 0 });
            lemma_format_no_double_blank(out2, sat_sub(sat_add(ind1, opens), non_leading), false, rest);
        }
    }
}

/// Formatted text never has two empty lines in a row.
pub proof fn lemma_format_no_double_blank_lines(src: Seq<char>)
    ensures
        no_double_blank(spec_format_source(src)),
{
    let lines = spec_lines(src);
    lemma_lines_single(src);
    lemma_format_no_double_blank(Seq::empty(), 0, false, lines);
    let out = format_lines(Seq::empty(), 0, false, lines);
    if out.len() > 0 {
        lemma_layout_trim(out, 0);
        let t = trim_end_layout(out);
        let r = t + seq!['\n'];
        assert forall|i: int| 0 <= i && i + 2 < r.len() implies !#[trigger] triple_at(r, i) by {
            if i + 2 < t.len() {
                assert(t[i] == out[i] && t[i + 1] == out[i + 1] && t[i + 2] == out[i + 2]);
                assert(!triple_at(out, i));
            } else {
                assert(r[i + 1] == t.last());
            }
        }
    }
}

/// The rows the formatter writes, each without its line feed, from the
/// given state: `started` says whether anything was written before.
pub open spec fn format_rows(indent: nat, last_blank: bool, started: bool, lines: Seq<Seq<char>>) -> Seq<Seq<char>>
    decreases lines.len(),
{
    if lines.len() == 0 {
        Seq::empty()
    } else {
        let line = spec_trim(lines[0]);
        let rest = lines.drop_first();
        if line.len() == 0 {
            if !last_blank && started {
                seq![Seq::<char>::empty()] + format_rows(indent, true, true, rest)
            } else {
                format_rows(indent, true, started, rest)
            }
        } else {
            let starts_with_close = line[0] == '}';
            let ind1 = if starts_with_close { sat_sub(indent, 1) } else { indent };
            let (opens, closes) = spec_scan_braces(line);
            let non_leading = sat_sub(closes, if starts_with_close { 1 } else { 0 });
            seq![indentation(ind1) + line] + format_rows(sat_sub(sat_add(ind1, opens), non_leading), false, true, rest)
        }
    }
}

/// Rows, each followed by a line feed.
pub open spec fn concat_rows(rows: Seq<Seq<char>>) -> Seq<char>
    decreases rows.len(),
{
    if rows.len() == 0 {
        Seq::empty()
    } else {
        rows[0] + seq!['\n'] + concat_rows(rows.drop_first())
    }
}

/// Whether a row has no line feed and, unless empty, ends with a character
/// other than whitespace.
pub open spec fn row_ok(x: Seq<char>) -> bool {
    &&& forall|j: int| 0 <= j < x.len() ==> x[j] != '\n'
    &&& x.len() > 0 ==> !crate::text::spec_is_whitespace(x.last())
}

proof fn lemma_format_lines_rows(out: Seq<char>, indent: nat, last_blank: bool, lines: Seq<Seq<char>>)
    ensures
        format_lines(out, indent, last_blank, lines) == out + concat_rows(format_rows(indent, last_blank, out.len() > 0, lines)),
    decreases lines.len(),
{
    if lines.len() == 0 {
        assert(out + concat_rows(Seq::empty()) =~= out);
    } else {
        let line = spec_trim(lines[0]);
        let rest = lines.drop_first();
        if line.len() == 0 {
            if !last_blank && out.len() > 0 {
                lemma_format_lines_rows(out.push('\n'), indent, true, rest);
                let fr = format_rows(indent, true, true, rest);
                assert((seq![Seq::<char>::empty()] + fr).drop_first() =~= fr);
                assert(out.push('\n') + concat_rows(fr) =~= out + concat_rows(seq![Seq::<char>::empty()] + fr));
            } else {
                lemma_format_lines_rows(out, indent, true, rest);
            }
        } else {
            let starts_with_close = line[0] == '}';
            let ind1 = if starts_with_close { sat_sub(indent, 1) } else { indent };
            let (opens, closes) = spec_scan_braces(line);
            let non_leading = sat_sub(closes, if starts_with_close { 1 } else { 0 });
            let ni = sat_sub(sat_add(ind1, opens), non_leading);
            let out2 = out + indentation(ind1) + line + seq!['\n'];
            lemma_format_lines_rows(out2, ni, false, rest);
            let fr = format_rows(ni, false, true, rest);
            let row = indentation(ind1) + line;
            assert((seq![row] + fr).drop_first() =~= fr);
            assert(out2 + concat_rows(fr) =~= out + concat_rows(seq![row] + fr));
        }
    }
}

/// Rows written each with its line feed read back as the same lines.
pub proof fn lemma_lines_of_rows(rows: Seq<Seq<char>>)
    requires
        forall|i: int| 0 <= i < rows.len() ==> row_ok(#[trigger] rows[i]),
    ensures
        spec_lines(concat_rows(rows)) == rows,
    decreases rows.len(),
{
    if rows.len() > 0 {
        let r0 = rows[0];
        let rest = rows.drop_first();
        assert forall|i: int| 0 <= i < rest.len() implies row_ok(#[trigger] rest[i]) by {
            assert(rest[i] == rows[i + 1]);
        }
        lemma_lines_of_rows(rest);
        let c = concat_rows(rows);
        assert(c == r0 + seq!['\n'] + concat_rows(rest));
        assert(row_ok(r0));
        lemma_first_newline(c, r0.len() as int);
        assert(c.take(r0.len() as int) =~= r0);
        assert(c.skip(r0.len() as int + 1) =~= concat_rows(rest));
        if r0.len() > 0 {
            assert(r0.last() != '\r');
        }
        assert(spec_lines(c) =~= seq![r0] + rest);
        assert(seq![r0] + rest =~= rows);
    } else {
        assert(concat_rows(rows) =~= Seq::<char>::empty());
    }
}

/// Rows with one more row at the end are the rows, that row and a line feed.
pub proof fn lemma_concat_rows_push_pub(rows: Seq<Seq<char>>, x: Seq<char>)
    ensures
        concat_rows(rows.push(x)) == concat_rows(rows) + x + seq!['\n'],
{
    lemma_concat_rows_push(rows, x);
}

proof fn lemma_concat_rows_push(rows: Seq<Seq<char>>, x: Seq<char>)
    ensures
        concat_rows(rows.push(x)) == concat_rows(rows) + x + seq!['\n'],
    decreases rows.len(),
{
    if rows.len() == 0 {
        let d = rows.push(x).drop_first();
        assert(d =~= Seq::<Seq<char>>::empty());
        assert(concat_rows(d) == Seq::<char>::empty());
        assert(concat_rows(rows) == Seq::<char>::empty());
        assert(rows.push(x)[0] == x);
        assert(concat_rows(rows.push(x)) =~= concat_rows(rows) + x + seq!['\n']);
    } else {
        lemma_concat_rows_push(rows.drop_first(), x);
        assert(rows.push(x).drop_first() =~= rows.drop_first().push(x));
        assert(concat_rows(rows.push(x)) =~= concat_rows(rows) + x + seq!['\n']);
    }
}

/// A trimmed text that is not empty ends with a character other than
/// whitespace.
pub proof fn lemma_trim_last(s: Seq<char>)
    ensures
        spec_trim(s).len() > 0 ==> !crate::text::spec_is_whitespace(spec_trim(s).last()),
{
    lemma_trim_end_last(crate::text::spec_trim_start(s));
}

proof fn lemma_trim_end_last(s: Seq<char>)
    ensures
        crate::text::spec_trim_end(s).len() > 0 ==> !crate::text::spec_is_whitespace(crate::text::spec_trim_end(s).last()),
    decreases s.len(),
{
    if s.len() > 0 && crate::text::spec_is_whitespace(s.last()) {
        lemma_trim_end_last(s.drop_last());
    }
}

/// Leading spaces make no difference to a text with its start trimmed.
pub proof fn lemma_trim_start_spaces_pub(a: Seq<char>, b: Seq<char>)
    requires
        forall|j: int| 0 <= j < a.len() ==> a[j] == ' ',
    ensures
        crate::text::spec_trim_start(a + b) == crate::text::spec_trim_start(b),
{
    lemma_trim_start_spaces(a, b);
}

proof fn lemma_trim_start_spaces(a: Seq<char>, b: Seq<char>)
    requires
        forall|j: int| 0 <= j < a.len() ==> a[j] == ' ',
    ensures
        crate::text::spec_trim_start(a + b) == crate::text::spec_trim_start(b),
    decreases a.len(),
{
    if a.len() > 0 {
        assert((a + b)[0] == ' ');
        assert((a + b).drop_first() =~= a.drop_first() + b);
        lemma_trim_start_spaces(a.drop_first(), b);
    } else {
        assert(a + b =~= b);
    }
}

/// A trimmed line keeps its text when indented and trimmed again.
pub proof fn lemma_trim_row(k: nat, y: Seq<char>)
    requires
        spec_trim(y).len() > 0,
    ensures
        spec_trim(indentation(k) + spec_trim(y)) == spec_trim(y),
{
    let line = spec_trim(y);
    lemma_indentation_spaces(k);
    lemma_trim_start_spaces(indentation(k), line);
    lemma_trim_first(y);
    lemma_trim_last(y);
    assert(crate::text::spec_trim_start(line) == line);
    assert(crate::text::spec_trim_end(line) == line);
}

proof fn lemma_rows_shape(indent: nat, last_blank: bool, started: bool, lines: Seq<Seq<char>>)
    requires
        single_lines(lines),
    ensures
        forall|i: int| 0 <= i < format_rows(indent, last_blank, started, lines).len() ==> row_ok(#[trigger] format_rows(indent, last_blank, started, lines)[i]),
        format_rows(indent, last_blank, started, lines).len() > 0 && spec_trim(format_rows(indent, last_blank, started, lines)[0]).len() == 0 ==> !last_blank && started,
        forall|i: int| 0 < i < format_rows(indent, last_blank, started, lines).len() && #[trigger] format_rows(indent, last_blank, started, lines)[i].len() == 0
            ==> format_rows(indent, last_blank, started, lines)[i - 1].len() > 0,
    decreases lines.len(),
{
    let r = format_rows(indent, last_blank, started, lines);
    if lines.len() > 0 {
        let line = spec_trim(lines[0]);
        let rest = lines.drop_first();
        assert(single_lines(rest)) by {
            assert forall|i: int, j: int| 0 <= i < rest.len() && 0 <= j < rest[i].len() implies #[trigger] rest[i][j] != '\n' by {
                assert(rest[i] == lines[i + 1]);
                assert(lines[i + 1][j] != '\n');
            }
        }
        if line.len() == 0 {
            if !last_blank && started {
                lemma_rows_shape(indent, true, true, rest);
                let fr = format_rows(indent, true, true, rest);
                assert(r == seq![Seq::<char>::empty()] + fr);
                assert forall|i: int| 0 <= i < r.len() implies row_ok(#[trigger] r[i]) by {
                    if i > 0 {
                        assert(r[i] == fr[i - 1]);
                    }
                }
                assert forall|i: int| 0 < i < r.len() && #[trigger] r[i].len() == 0 implies r[i - 1].len() > 0 by {
                    assert(r[i] == fr[i - 1]);
                    if i == 1 {
                        assert(spec_trim(fr[0]) =~= Seq::<char>::empty());
                    } else {
                        assert(r[i - 1] == fr[i - 2]);
                    }
                }
            } else {
                lemma_rows_shape(indent, true, started, rest);
            }
        } else {
            let starts_with_close = line[0] == '}';
            let ind1 = if starts_with_close { sat_sub(indent, 1) } else { indent };
            let (opens, closes) = spec_scan_braces(line);
            let non_leading = sat_sub(closes, if starts_with_close { 1 } else { 0 });
            let ni = sat_sub(sat_add(ind1, opens), non_leading);
            lemma_rows_shape(ni, false, true, rest);
            let fr = format_rows(ni, false, true, rest);
            let row = indentation(ind1) + line;
            assert(r == seq![row] + fr);
            assert forall|j: int| 0 <= j < lines[0].len() implies lines[0][j] != '\n' by {
                assert(lines[0][j] != '\n');
            }
            lemma_trim_keeps_out(lines[0], '\n');
            lemma_indentation_spaces(ind1);
            lemma_trim_last(lines[0]);
            lemma_trim_row(ind1, lines[0]);
            assert(row_ok(row)) by {
                assert forall|j: int| 0 <= j < row.len() implies row[j] != '\n' by {
                    if j < indentation(ind1).len() {
                        assert(row[j] == indentation(ind1)[j]);
                    } else {
                        assert(row[j] == line[j - indentation(ind1).len()]);
                    }
                }
                assert(row.last() == line.last());
            }
            assert forall|i: int| 0 <= i < r.len() implies row_ok(#[trigger] r[i]) by {
                if i > 0 {
                    assert(r[i] == fr[i - 1]);
                }
            }
            assert forall|i: int| 0 < i < r.len() && #[trigger] r[i].len() == 0 implies r[i - 1].len() > 0 by {
                assert(r[i] == fr[i - 1]);
                if i == 1 {
                    assert(spec_trim(fr[0]) =~= Seq::<char>::empty());
                } else {
                    assert(r[i - 1] == fr[i - 2]);
                }
            }
        }
    }
}

proof fn lemma_rows_fixed(indent: nat, last_blank: bool, started: bool, lines: Seq<Seq<char>>)
    requires
        single_lines(lines),
    ensures
        format_rows(indent, last_blank, started, format_rows(indent, last_blank, started, lines)) == format_rows(indent, last_blank, started, lines),
        format_rows(indent, last_blank, started, lines).len() > 0 && format_rows(indent, last_blank, started, lines).last().len() == 0 ==>
            format_rows(indent, last_blank, started, format_rows(indent, last_blank, started, lines).drop_last()) == format_rows(indent, last_blank, started, lines).drop_last(),
    decreases lines.len(),
{
    let r = format_rows(indent, last_blank, started, lines);
    if lines.len() == 0 {
        assert(r =~= Seq::<Seq<char>>::empty());
    } else {
        let line = spec_trim(lines[0]);
        let rest = lines.drop_first();
        assert(single_lines(rest)) by {
            assert forall|i: int, j: int| 0 <= i < rest.len() && 0 <= j < rest[i].len() implies #[trigger] rest[i][j] != '\n' by {
                assert(rest[i] == lines[i + 1]);
                assert(lines[i + 1][j] != '\n');
            }
        }
        if line.len() == 0 {
            if !last_blank && started {
                lemma_rows_fixed(indent, true, true, rest);
                let fr = format_rows(indent, true, true, rest);
                let e = Seq::<char>::empty();
                assert(r == seq![e] + fr);
                assert(spec_trim(e) =~= e);
                assert((seq![e] + fr).drop_first() =~= fr);
                assert(format_rows(indent, last_blank, started, r) == seq![e] + format_rows(indent, true, true, fr));
                if r.last().len() == 0 {
                    if fr.len() == 0 {
                        assert(r.drop_last() =~= Seq::<Seq<char>>::empty());
                    } else {
                        assert(r.drop_last() =~= seq![e] + fr.drop_last());
                        assert((seq![e] + fr.drop_last()).drop_first() =~= fr.drop_last());
                        assert(fr.last() == r.last());
                    }
                }
            } else {
                lemma_rows_fixed(indent, true, started, rest);
                lemma_rows_shape(indent, true, started, rest);
                let fr = format_rows(indent, true, started, rest);
                assert(r == fr);
                if fr.len() > 0 {
                    assert(format_rows(indent, last_blank, started, fr) == format_rows(indent, true, started, fr));
                    if fr.last().len() == 0 {
                        if fr.len() == 1 {
                            assert(spec_trim(fr[0]) =~= Seq::<char>::empty());
                        }
                        assert(fr.drop_last()[0] == fr[0]);
                        assert(format_rows(indent, last_blank, started, fr.drop_last()) == format_rows(indent, true, started, fr.drop_last()));
                    }
                }
            }
        } else {
            let starts_with_close = line[0] == '}';
            let ind1 = if starts_with_close { sat_sub(indent, 1) } else { indent };
            let (opens, closes) = spec_scan_braces(line);
            let non_leading = sat_sub(closes, if starts_with_close { 1 } else { 0 });
            let ni = sat_sub(sat_add(ind1, opens), non_leading);
            lemma_rows_fixed(ni, false, true, rest);
            let fr = format_rows(ni, false, true, rest);
            let row = indentation(ind1) + line;
            assert(r == seq![row] + fr);
            lemma_trim_row(ind1, lines[0]);
            assert(spec_trim(row) == line);
            assert((seq![row] + fr).drop_first() =~= fr);
            assert(format_rows(indent, last_blank, started, r) == seq![row] + format_rows(ni, false, true, fr));
            if r.last().len() == 0 && fr.len() > 0 {
                assert(r.drop_last() =~= seq![row] + fr.drop_last());
                assert((seq![row] + fr.drop_last()).drop_first() =~= fr.drop_last());
                assert(fr.last() == r.last());
                assert(r.drop_last()[0] == row);
            }
            if r.last().len() == 0 && fr.len() == 0 {
                assert(r.last() == row);
                assert(false);
            }
        }
    }
}

proof fn lemma_trim_layout_newlines(p: Seq<char>, k: nat)
    requires
        p.len() > 0,
        p.last() != ' ' && p.last() != '\t' && p.last() != '\n',
    ensures
        trim_end_layout(p + Seq::new(k, |i: int| '\n')) == p,
    decreases k,
{
    let s = p + Seq::new(k, |i: int| '\n');
    if k > 0 {
        assert(s.last() == '\n');
        assert(s.drop_last() =~= p + Seq::new((k - 1) as nat, |i: int| '\n'));
        lemma_trim_layout_newlines(p, (k - 1) as nat);
    } else {
        assert(s =~= p);
    }
}

/// Formatting formatted text changes nothing.
pub proof fn lemma_format_idempotent(src: Seq<char>)
    ensures
        spec_format_source(spec_format_source(src)) == spec_format_source(src),
{
    let lines = spec_lines(src);
    lemma_lines_single(src);
    let rows = format_rows(0, false, false, lines);
    lemma_format_lines_rows(Seq::empty(), 0, false, lines);
    let out = format_lines(Seq::empty(), 0, false, lines);
    assert(out == Seq::<char>::empty() + concat_rows(rows));
    assert(Seq::<char>::empty() + concat_rows(rows) =~= concat_rows(rows));
    let r = spec_format_source(src);
    if rows.len() == 0 {
        assert(out =~= Seq::<char>::empty());
        assert(r == Seq::<char>::empty());
        assert(spec_lines(r) =~= Seq::<Seq<char>>::empty());
        assert(format_lines(Seq::empty(), 0, false, spec_lines(r)) =~= Seq::<char>::empty());
    } else {
        lemma_rows_shape(0, false, false, lines);
        lemma_rows_fixed(0, false, false, lines);
        let trailing = rows.last().len() == 0;
        let kept = if trailing { rows.drop_last() } else { rows };
        if trailing {
            assert(rows.len() >= 2);
            assert(rows[rows.len() - 2].len() > 0);
        } else {
            assert(spec_trim(rows[0]).len() > 0 || rows.len() > 0);
        }
        assert(kept.len() > 0);
        assert(kept.last().len() > 0);
        assert(row_ok(kept.last()));
        let lastrow = kept.last();
        lemma_concat_rows_push(kept.drop_last(), lastrow);
        assert(kept.drop_last().push(lastrow) =~= kept);
        let p = concat_rows(kept.drop_last()) + lastrow;
        assert(p.last() == lastrow.last());
        assert(concat_rows(kept) == p + seq!['\n']);
        if trailing {
            lemma_concat_rows_push(kept, Seq::<char>::empty());
            assert(rows.last() =~= Seq::<char>::empty());
            assert(kept.push(Seq::<char>::empty()) =~= rows);
            assert(out =~= p + Seq::new(2, |i: int| '\n'));
            lemma_trim_layout_newlines(p, 2);
        } else {
            assert(out =~= p + Seq::new(1, |i: int| '\n'));
            lemma_trim_layout_newlines(p, 1);
        }
        assert(r =~= concat_rows(kept));
        assert forall|i: int| 0 <= i < kept.len() implies row_ok(#[trigger] kept[i]) by {
            assert(kept[i] == rows[i]);
        }
        lemma_lines_of_rows(kept);
        assert(format_rows(0, false, false, kept) == kept);
        lemma_format_lines_rows(Seq::empty(), 0, false, kept);
        let out2 = format_lines(Seq::empty(), 0, false, kept);
        assert(out2 =~= concat_rows(kept));
        lemma_trim_layout_newlines(p, 1);
        assert(r =~= p + Seq::new(1, |i: int| '\n'));
    }
}

/// Appends `n` copies of four spaces.
fn push_indentation(out: &mut Vec<char>, n: usize)
    ensures
        final(out)@ == old(out)@ + indentation(n as nat),
{
    let mut k: usize = 0;
    assert(old(out)@ + indentation(0) =~= old(out)@);
    while k < n
        invariant
            k <= n,
            out@ == old(out)@ + indentation(k as nat),
        decreases n - k,
    {
        push_str(out, "    ");
        assert(old(out)@ + indentation(k as nat) + "    "@ =~= old(out)@ + indentation((k + 1) as nat));
        k += 1;
    }
}

/// Drops trailing spaces, tabs and line feeds.
fn trim_end_layout_chars(v: &Vec<char>) -> (r: Vec<char>)
    ensures
        r@ == trim_end_layout(v@),
{
    let mut end = v.len();
    assert(v@.take(end as int) =~= v@);
    while end > 0 && (v[end - 1] == ' ' || v[end - 1] == '\t' || v[end - 1] == '\n')
        invariant
            end <= v.len(),
            trim_end_layout(v@) == trim_end_layout(v@.take(end as int)),
        decreases end,
    {
        assert(v@.take(end as int).drop_last() =~= v@.take(end - 1));
        end -= 1;
    }
    let mut out: Vec<char> = Vec::new();
    let mut i: usize = 0;
    while i < end
        invariant
            i <= end <= v.len(),
            out@ == v@.take(i as int),
        decreases end - i,
    {
        out.push(v[i]);
        assert(out@ =~= v@.take(i + 1));
        i += 1;
    }
    out
}

/// Formats a Nano source text.
pub fn format_source(src: &str) -> (r: String)
    ensures
        r@ == spec_format_source(src@),
{
    let cs = chars_of(src);
    let lines = lines_of(&cs);
    let ghost lv = rows_view(lines@);
    let mut out: Vec<char> = Vec::new();
    let mut indent: usize = 0;
    let mut last_blank = false;
    let mut i: usize = 0;
    assert(lv.skip(0) =~= lv);
    while i < lines.len()
        invariant
            i <= lines.len(),
            lv == rows_view(lines@),
            lv == spec_lines(src@),
            format_lines(Seq::empty(), 0, false, lv) == format_lines(out@, indent as nat, last_blank, lv.skip(i as int)),
        decreases lines.len() - i,
    {
        assert(lv.skip(i as int).drop_first() =~= lv.skip(i + 1));
        assert(lv.skip(i as int)[0] == lines@[i as int]@);
        let ghost o0 = out@;
        let ghost ind0 = indent as nat;
        let ghost lb0 = last_blank;
        let line = trim_chars(&lines[i]);
        if line.len() == 0 {
            if !last_blank && out.len() > 0 {
                out.push('\n');
            }
            last_blank = true;
        } else {
            last_blank = false;
            let starts_with_close = line[0] == '}';
            if starts_with_close {
                indent = indent.saturating_sub(1);
            }
            push_indentation(&mut out, indent);
            push_chars(&mut out, &line);
            out.push('\n');
            let (opens, closes) = scan_brace_chars(&line);
            let non_leading = closes.saturating_sub(if starts_with_close { 1 } else { 0 });
            indent = indent.saturating_add(opens).saturating_sub(non_leading);
            assert(out@ == o0 + indentation(if starts_with_close { sat_sub(ind0, 1) } else { ind0 }) + line@ + seq!['\n']);
            assert(line@[0] == spec_trim(lv.skip(i as int)[0])[0]);
        }
        assert(format_lines(o0, ind0, lb0, lv.skip(i as int)) == format_lines(out@, indent as nat, last_blank, lv.skip(i + 1)));
        i += 1;
    }
    assert(lv.skip(i as int) =~= Seq::<Seq<char>>::empty());
    if out.len() == 0 {
        String::new()
    } else {
        let mut t = trim_end_layout_chars(&out);
        t.push('\n');
        string_of(&t)
    }
}

/// The last line's index and its length in characters (both 0 for an empty
/// text).
pub open spec fn spec_end_position(text: Seq<char>) -> (nat, nat) {
    let ls = spec_lines(text);
    (sat_sub(ls.len(), 1), if ls.len() == 0 { 0 } else { ls.last().len() })
}

/// Where a text ends, as a line and a character.
pub fn end_position(text: &str) -> (r: (usize, usize))
    ensures
        r.0 == spec_end_position(text@).0,
        r.1 == spec_end_position(text@).1,
{
    let cs = chars_of(text);
    let lines = lines_of(&cs);
    let n = lines.len();
    let line = n.saturating_sub(1);
    let last = if n == 0 { 0 } else { lines[n - 1].len() };
    (line, last)
}

/// A problem found in a source text, with its range and severity (1 for an
/// error, 2 for a warning).
#[derive(Debug)]
pub struct Diagnostic {
    pub line: usize,
    pub character: usize,
    pub end_line: usize,
    pub end_character: usize,
    pub message: String,
    pub severity: u8,
}

/// The mathematical view of a [`Diagnostic`].
pub struct SDiagnostic {
    pub line: nat,
    pub character: nat,
    pub end_line: nat,
    pub end_character: nat,
    pub message: Seq<char>,
    pub severity: u8,
}

pub open spec fn diag_view(d: Diagnostic) -> SDiagnostic {
    SDiagnostic {
        line: d.line as nat,
        character: d.character as nat,
        end_line: d.end_line as nat,
        end_character: d.end_character as nat,
        message: d.message@,
        severity: d.severity,
    }
}

pub open spec fn diags_view(v: Seq<Diagnostic>) -> Seq<SDiagnostic> {
    Seq::new(v.len(), |i: int| diag_view(v[i]))
}

pub open spec fn comment_message() -> Seq<char> {
    "Nano usa # para comentários; // não faz parte da sintaxe atual."@
}

pub open spec fn mismatch_message(ch: char) -> Seq<char> {
    "'"@ + seq![ch] + "' não fecha o bloco esperado."@
}

pub open spec fn unterminated_message(close: char) -> Seq<char> {
    "bloco não terminado: falta '"@ + seq![close] + "'."@
}

pub open spec fn opener_of(ch: char) -> char {
    if ch == ')' { '(' } else if ch == ']' { '[' } else { '{' }
}

pub open spec fn closer_of(open: char) -> char {
    if open == '(' { ')' } else if open == '[' { ']' } else { '}' }
}

/// Scanning a line from column `col`, with the brackets still open and the
/// diagnostics so far.
pub open spec fn scan_line(line: Seq<char>, ln: nat, col: nat, in_string: bool, escape: bool, stack: Seq<(char, nat, nat)>, res: Seq<SDiagnostic>) -> (Seq<(char, nat, nat)>, Seq<SDiagnostic>)
    decreases line.len() - col,
{
    if col >= line.len() {
        (stack, res)
    } else {
        let ch = line[col as int];
        let next = (col + 1) as nat;
        if in_string {
            if escape {
                scan_line(line, ln, next, true, false, stack, res)
            } else if ch == '\\' {
                scan_line(line, ln, next, true, true, stack, res)
            } else if ch == '"' {
                scan_line(line, ln, next, false, false, stack, res)
            } else {
                scan_line(line, ln, next, true, false, stack, res)
            }
        } else if ch == '"' {
            scan_line(line, ln, next, true, escape, stack, res)
        } else if ch == '#' {
            (stack, res)
        } else if ch == '/' && col + 1 < line.len() && line[col as int + 1] == '/' {
            (stack, res.push(SDiagnostic { line: ln, character: col, end_line: ln, end_character: col + 2, message: comment_message(), severity: 2 }))
        } else if ch == '(' || ch == '[' || ch == '{' {
            scan_line(line, ln, next, false, escape, stack.push((ch, ln, col)), res)
        } else if ch == ')' || ch == ']' || ch == '}' {
            if stack.len() > 0 && stack.last().0 == opener_of(ch) {
                scan_line(line, ln, next, false, escape, stack.drop_last(), res)
            } else {
                scan_line(line, ln, next, false, escape, stack, res.push(SDiagnostic {
                    line: ln, character: col, end_line: ln, end_character: col + 1, message: mismatch_message(ch), severity: 1,
                }))
            }
        } else {
            scan_line(line, ln, next, false, escape, stack, res)
        }
    }
}

/// Scanning lines from line `ln` on.
pub open spec fn scan_lines(lines: Seq<Seq<char>>, ln: nat, stack: Seq<(char, nat, nat)>, res: Seq<SDiagnostic>) -> (Seq<(char, nat, nat)>, Seq<SDiagnostic>)
    decreases lines.len() - ln,
{
    if ln >= lines.len() {
        (stack, res)
    } else {
        let (s2, r2) = scan_line(lines[ln as int], ln, 0, false, false, stack, res);
        scan_lines(lines, ln + 1, s2, r2)
    }
}

/// The diagnostic of a bracket left open.
pub open spec fn unterminated_diag(b: (char, nat, nat)) -> SDiagnostic {
    SDiagnostic { line: b.1, character: b.2, end_line: b.1, end_character: b.2 + 1, message: unterminated_message(closer_of(b.0)), severity: 1 }
}

/// The diagnostics of a source text: `//` comments, closing brackets that
/// do not match the open one, in reading order, then the brackets left
/// open, outermost first. Text in string literals and after `#` is skipped.
pub open spec fn spec_analyze(src: Seq<char>) -> Seq<SDiagnostic> {
    let (stack, res) = scan_lines(spec_lines(src), 0, Seq::empty(), Seq::empty());
    res + stack.map_values(|b: (char, nat, nat)| unterminated_diag(b))
}

fn message_with(prefix: &str, c: char, suffix: &str) -> (r: String)
    ensures
        r@ == prefix@ + seq![c] + suffix@,
{
    let mut m: Vec<char> = Vec::new();
    push_str(&mut m, prefix);
    m.push(c);
    push_str(&mut m, suffix);
    string_of(&m)
}

fn comment_text() -> (r: String)
    ensures
        r@ == comment_message(),
{
    let cs = chars_of("Nano usa # para comentários; // não faz parte da sintaxe atual.");
    string_of(&cs)
}

/// The bracket and comment diagnostics of a source text.
pub fn analyze(src: &str) -> (r: Vec<Diagnostic>)
    requires
        src@.len() + 2 < usize::MAX,
    ensures
        diags_view(r@) == spec_analyze(src@),
{
    let cs = chars_of(src);
    let lines = lines_of(&cs);
    let ghost lv = rows_view(lines@);
    proof { lemma_lines_short(src@); }
    let mut result: Vec<Diagnostic> = Vec::new();
    let mut stack: Vec<(char, usize, usize)> = Vec::new();
    let mut ln: usize = 0;
    assert(brackets_view(stack@) =~= Seq::<(char, nat, nat)>::empty());
    assert(diags_view(result@) =~= Seq::<SDiagnostic>::empty());
    while ln < lines.len()
        invariant
            ln <= lines.len(),
            forall|j: int| 0 <= j < stack.len() ==> (#[trigger] stack@[j]).2 <= src@.len(),
            lv == rows_view(lines@),
            lv == spec_lines(src@),
            lines.len() <= src@.len() + 1,
            src@.len() + 2 < usize::MAX,
            forall|k: int| 0 <= k < lv.len() ==> #[trigger] lv[k].len() <= src@.len(),
            scan_lines(lv, 0, Seq::empty(), Seq::empty()) == scan_lines(lv, ln as nat, brackets_view(stack@), diags_view(result@)),
        decreases lines.len() - ln,
    {
        let line = &lines[ln];
        assert(lv[ln as int] == line@);
        assert(line.len() <= src@.len());
        let mut in_string = false;
        let mut escape = false;
        let mut col: usize = 0;
        let ghost st0 = brackets_view(stack@);
        let ghost rs0 = diags_view(result@);
        loop
            invariant_except_break
                scan_line(line@, ln as nat, 0, false, false, st0, rs0)
                    == scan_line(line@, ln as nat, col as nat, in_string, escape, brackets_view(stack@), diags_view(result@)),
            invariant
                col <= line.len(),
                line.len() + 2 < usize::MAX,
                line.len() <= src@.len(),
                ln < lines.len(),
                forall|j: int| 0 <= j < stack.len() ==> (#[trigger] stack@[j]).2 <= src@.len(),
            ensures
                scan_line(line@, ln as nat, 0, false, false, st0, rs0) == (brackets_view(stack@), diags_view(result@)),
            decreases line.len() - col,
        {
            if col >= line.len() {
                break;
            }
            let ch = line[col];
            if in_string {
                if escape {
                    escape = false;
                } else if ch == '\\' {
                    escape = true;
                } else if ch == '"' {
                    in_string = false;
                }
            } else if ch == '"' {
                in_string = true;
            } else if ch == '#' {
                break;
            } else if ch == '/' && col + 1 < line.len() && line[col + 1] == '/' {
                let ghost before = diags_view(result@);
                result.push(Diagnostic { line: ln, character: col, end_line: ln, end_character: col + 2, message: comment_text(), severity: 2 });
                assert(diags_view(result@) =~= before.push(SDiagnostic { line: ln as nat, character: col as nat, end_line: ln as nat, end_character: (col + 2) as nat, message: comment_message(), severity: 2 }));
                break;
            } else if ch == '(' || ch == '[' || ch == '{' {
                let ghost before = brackets_view(stack@);
                stack.push((ch, ln, col));
                assert(brackets_view(stack@) =~= before.push((ch, ln as nat, col as nat)));
            } else if ch == ')' || ch == ']' || ch == '}' {
                let expected = if ch == ')' { '(' } else if ch == ']' { '[' } else { '{' };
                let n = stack.len();
                if n > 0 && stack[n - 1].0 == expected {
                    let ghost before = brackets_view(stack@);
                    stack.pop();
                    assert(brackets_view(stack@) =~= before.drop_last());
                } else {
                    let ghost before = diags_view(result@);
                    result.push(Diagnostic {
                        line: ln, character: col, end_line: ln, end_character: col + 1,
                        message: message_with("'", ch, "' não fecha o bloco esperado."), severity: 1,
                    });
                    assert(diags_view(result@) =~= before.push(SDiagnostic {
                        line: ln as nat, character: col as nat, end_line: ln as nat, end_character: (col + 1) as nat,
                        message: mismatch_message(ch), severity: 1,
                    }));
                }
            }
            col += 1;
        }
        ln += 1;
    }
    let ghost base = diags_view(result@);
    let ghost sv = brackets_view(stack@);
    let mut k: usize = 0;
    while k < stack.len()
        invariant
            k <= stack.len(),
            sv == brackets_view(stack@),
            diags_view(result@) == base + sv.take(k as int).map_values(|b: (char, nat, nat)| unterminated_diag(b)),
            forall|j: int| 0 <= j < stack.len() ==> (#[trigger] stack@[j]).2 <= src@.len(),
            src@.len() + 2 < usize::MAX,
        decreases stack.len() - k,
    {
        let (open, line, column) = stack[k];
        let close = if open == '(' { ')' } else if open == '[' { ']' } else { '}' };
        let ghost before = diags_view(result@);
        let d = Diagnostic {
            line, character: column, end_line: line, end_character: column + 1,
            message: message_with("bloco não terminado: falta '", close, "'."), severity: 1,
        };
        assert(sv[k as int] == (open, line as nat, column as nat));
        assert(diag_view(d) == unterminated_diag(sv[k as int]));
        result.push(d);
        assert(diags_view(result@) =~= before.push(diag_view(d)));
        assert(sv.take(k + 1).map_values(|b: (char, nat, nat)| unterminated_diag(b))
            =~= sv.take(k as int).map_values(|b: (char, nat, nat)| unterminated_diag(b)).push(unterminated_diag(sv[k as int])));
        assert(diags_view(result@) =~= base + sv.take(k + 1).map_values(|b: (char, nat, nat)| unterminated_diag(b)));
        k += 1;
    }
    assert(sv.take(k as int) =~= sv);
    result
}

/// The views of open brackets.
pub open spec fn brackets_view(v: Seq<(char, usize, usize)>) -> Seq<(char, nat, nat)> {
    Seq::new(v.len(), |i: int| (v[i].0, v[i].1 as nat, v[i].2 as nat))
}

/// No line is longer than its text, and there are at most one more lines
/// than characters.
proof fn lemma_lines_short(s: Seq<char>)
    ensures
        spec_lines(s).len() <= s.len() + 1,
        forall|k: int| 0 <= k < spec_lines(s).len() ==> #[trigger] spec_lines(s)[k].len() <= s.len(),
    decreases s.len(),
{
    if s.len() > 0 {
        let k = first_newline(s);
        if k < s.len() {
            lemma_lines_short(s.skip(k as int + 1));
            let line = s.take(k as int);
            let line2 = if line.len() > 0 && line.last() == '\r' { line.drop_last() } else { line };
            assert forall|j: int| 0 <= j < spec_lines(s).len() implies #[trigger] spec_lines(s)[j].len() <= s.len() by {
                if j > 0 {
                    assert(spec_lines(s)[j] == spec_lines(s.skip(k as int + 1))[j - 1]);
                }
            }
        }
    }
}

/// A completion offered to the editor: label (also the text inserted),
/// kind (14 keyword, 3 function) and detail.
#[derive(Debug)]
pub struct CompletionItem {
    pub label: String,
    pub kind: u8,
    pub detail: String,
}

pub open spec fn item_view(c: CompletionItem) -> (Seq<char>, u8, Seq<char>) {
    (c.label@, c.kind, c.detail@)
}

pub open spec fn items_view(v: Seq<CompletionItem>) -> Seq<(Seq<char>, u8, Seq<char>)> {
    Seq::new(v.len(), |i: int| item_view(v[i]))
}

/// The keywords and built-in functions offered for completion.
pub open spec fn builtin_completions_0() -> Seq<(Seq<char>, u8, Seq<char>)> {
    seq![
        ("function"@, 14u8, "declara uma função"@),
        ("if"@, 14u8, "condição"@),
        ("else"@, 14u8, "ramo alternativo"@),
        ("while"@, 14u8, "laço while"@),
        ("for"@, 14u8, "laço for"@),
        ("in"@, 14u8, "iterador"@),
        ("return"@, 14u8, "retorna de uma função"@),
        ("true"@, 14u8, "booleano verdadeiro"@),
        ("false"@, 14u8, "booleano falso"@),
        ("use"@, 14u8, "carrega um módulo"@),
        ("print"@, 3u8, "imprime um valor"@),
        ("len"@, 3u8, "tamanho de texto, lista, objeto ou tensor"@)
    ]
}

pub open spec fn builtin_completions_1() -> Seq<(Seq<char>, u8, Seq<char>)> {
    seq![
        ("range"@, 3u8, "gera números de 0 até limite"@),
        ("tensor"@, 3u8, "cria um tensor"@),
        ("parameter"@, 3u8, "cria um parâmetro treinável"@),
        ("zeros"@, 3u8, "cria um tensor preenchido com zero"@),
        ("shape"@, 3u8, "retorna o shape do tensor"@),
        ("matmul"@, 3u8, "multiplicação de matrizes"@),
        ("sum"@, 3u8, "redução soma"@),
        ("mean"@, 3u8, "redução média"@),
        ("grad"@, 3u8, "gradiente automático"@),
        ("step"@, 3u8, "atualização SGD"@),
        ("adam"@, 3u8, "atualização Adam"@),
        ("cast"@, 3u8, "conversão de dtype"@)
    ]
}

pub open spec fn builtin_completions_2() -> Seq<(Seq<char>, u8, Seq<char>)> {
    seq![
        ("dtype"@, 3u8, "dtype do tensor"@),
        ("device"@, 3u8, "dispositivo do tensor"@),
        ("backend"@, 3u8, "backend ativo"@),
        ("memory_bytes"@, 3u8, "memória do tensor"@),
        ("abs"@, 3u8, "valor absoluto"@),
        ("sqrt"@, 3u8, "raiz quadrada"@),
        ("floor"@, 3u8, "arredonda para baixo"@),
        ("ceil"@, 3u8, "arredonda para cima"@),
        ("round"@, 3u8, "arredondamento"@),
        ("sin"@, 3u8, "seno"@),
        ("cos"@, 3u8, "cosseno"@),
        ("tan"@, 3u8, "tangente"@)
    ]
}

pub open spec fn builtin_completions_3() -> Seq<(Seq<char>, u8, Seq<char>)> {
    seq![
        ("exp"@, 3u8, "exponencial"@),
        ("log"@, 3u8, "logaritmo natural"@),
        ("pow"@, 3u8, "potência"@),
        ("min"@, 3u8, "mínimo"@),
        ("max"@, 3u8, "máximo"@),
        ("to_text"@, 3u8, "converte um valor para Text"@),
        ("to_number"@, 3u8, "converte Text para Number"@),
        ("upper"@, 3u8, "converte texto para maiúsculas"@),
        ("lower"@, 3u8, "converte texto para minúsculas"@),
        ("trim"@, 3u8, "remove espaços nas extremidades"@),
        ("contains"@, 3u8, "verifica substring"@),
        ("starts_with"@, 3u8, "verifica prefixo"@)
    ]
}

pub open spec fn builtin_completions_4() -> Seq<(Seq<char>, u8, Seq<char>)> {
    seq![
        ("ends_with"@, 3u8, "verifica sufixo"@),
        ("replace"@, 3u8, "substitui texto"@),
        ("substring"@, 3u8, "recorta uma faixa de texto"@),
        ("char_at"@, 3u8, "obtém um caractere por índice"@),
        ("split"@, 3u8, "divide texto em uma lista"@),
        ("join"@, 3u8, "junta uma lista em texto"@),
        ("append"@, 3u8, "cria uma lista com um item no final"@),
        ("thread_spawn"@, 3u8, "executa um processo em thread nativa"@),
        ("thread_join"@, 3u8, "aguarda uma thread"@),
        ("ui_window"@, 3u8, "cria uma janela desktop"@),
        ("ui_set_title"@, 3u8, "altera o título da janela"@),
        ("ui_close"@, 3u8, "fecha uma janela"@)
    ]
}

pub open spec fn builtin_completions_5() -> Seq<(Seq<char>, u8, Seq<char>)> {
    seq![
        ("ui_poll_event"@, 3u8, "obtém o próximo evento de UI"@),
        ("assert"@, 3u8, "falha o programa quando a condição é falsa"@),
        ("channel"@, 3u8, "cria um canal de comunicação"@),
        ("send"@, 3u8, "envia um valor para um canal"@),
        ("recv"@, 3u8, "recebe um valor de um canal"@),
        ("close_channel"@, 3u8, "fecha um canal"@)
    ]
}

/// The keywords and built-in functions offered for completion.
pub open spec fn builtin_completions() -> Seq<(Seq<char>, u8, Seq<char>)> {
    builtin_completions_0() + builtin_completions_1() + builtin_completions_2() + builtin_completions_3() + builtin_completions_4() + builtin_completions_5()
}

/// The name a line declares, when it starts (after blanks) with
/// `function `: the text up to the first `(`, space or tab.
pub open spec fn declared_name(line: Seq<char>) -> Option<Seq<char>> {
    let t = spec_trim_start(line);
    let p = "function "@;
    if p.len() <= t.len() && t.take(p.len() as int) == p {
        let rest = t.skip(p.len() as int);
        let k = name_end(rest);
        if k > 0 { Some(rest.take(k as int)) } else { None }
    } else {
        None
    }
}

/// The length of the prefix of `s` before its first `(`, space or tab.
pub open spec fn name_end(s: Seq<char>) -> nat
    decreases s.len(),
{
    if s.len() == 0 || s[0] == '(' || s[0] == ' ' || s[0] == '\t' { 0 } else { 1 + name_end(s.drop_first()) }
}

/// The names of the functions a text declares, in order.
pub open spec fn declared_functions(lines: Seq<Seq<char>>) -> Seq<Seq<char>>
    decreases lines.len(),
{
    if lines.len() == 0 {
        Seq::empty()
    } else {
        let p = declared_functions(lines.drop_last());
        match declared_name(lines.last()) {
            Some(n) => p.push(n),
            None => p,
        }
    }
}

/// The completions for a document: the built-in words, then each function
/// the document declares.
pub open spec fn spec_completion(text: Seq<char>) -> Seq<(Seq<char>, u8, Seq<char>)> {
    builtin_completions() + declared_functions(spec_lines(text)).map_values(|n: Seq<char>| (n, 3u8, "função do arquivo"@))
}

fn push_item(v: &mut Vec<CompletionItem>, label: &str, kind: u8, detail: &str)
    ensures
        items_view(final(v)@) == items_view(old(v)@).push((label@, kind, detail@)),
{
    let l = chars_of(label);
    let d = chars_of(detail);
    let ghost before = items_view(v@);
    v.push(CompletionItem { label: string_of(&l), kind, detail: string_of(&d) });
    assert(items_view(v@) =~= before.push((label@, kind, detail@)));
}

fn push_builtin_items_0(v: &mut Vec<CompletionItem>)
    ensures
        items_view(final(v)@) == items_view(old(v)@) + builtin_completions_0(),
{
    let ghost v0 = items_view(v@);
    push_item(v, "function", 14, "declara uma função");
    push_item(v, "if", 14, "condição");
    push_item(v, "else", 14, "ramo alternativo");
    push_item(v, "while", 14, "laço while");
    push_item(v, "for", 14, "laço for");
    push_item(v, "in", 14, "iterador");
    push_item(v, "return", 14, "retorna de uma função");
    push_item(v, "true", 14, "booleano verdadeiro");
    push_item(v, "false", 14, "booleano falso");
    push_item(v, "use", 14, "carrega um módulo");
    push_item(v, "print", 3, "imprime um valor");
    push_item(v, "len", 3, "tamanho de texto, lista, objeto ou tensor");
    assert(items_view(v@) =~= v0 + builtin_completions_0());
}

fn push_builtin_items_1(v: &mut Vec<CompletionItem>)
    ensures
        items_view(final(v)@) == items_view(old(v)@) + builtin_completions_1(),
{
    let ghost v0 = items_view(v@);
    push_item(v, "range", 3, "gera números de 0 até limite");
    push_item(v, "tensor", 3, "cria um tensor");
    push_item(v, "parameter", 3, "cria um parâmetro treinável");
    push_item(v, "zeros", 3, "cria um tensor preenchido com zero");
    push_item(v, "shape", 3, "retorna o shape do tensor");
    push_item(v, "matmul", 3, "multiplicação de matrizes");
    push_item(v, "sum", 3, "redução soma");
    push_item(v, "mean", 3, "redução média");
    push_item(v, "grad", 3, "gradiente automático");
    push_item(v, "step", 3, "atualização SGD");
    push_item(v, "adam", 3, "atualização Adam");
    push_item(v, "cast", 3, "conversão de dtype");
    assert(items_view(v@) =~= v0 + builtin_completions_1());
}

fn push_builtin_items_2(v: &mut Vec<CompletionItem>)
    ensures
        items_view(final(v)@) == items_view(old(v)@) + builtin_completions_2(),
{
    let ghost v0 = items_view(v@);
    push_item(v, "dtype", 3, "dtype do tensor");
    push_item(v, "device", 3, "dispositivo do tensor");
    push_item(v, "backend", 3, "backend ativo");
    push_item(v, "memory_bytes", 3, "memória do tensor");
    push_item(v, "abs", 3, "valor absoluto");
    push_item(v, "sqrt", 3, "raiz quadrada");
    push_item(v, "floor", 3, "arredonda para baixo");
    push_item(v, "ceil", 3, "arredonda para cima");
    push_item(v, "round", 3, "arredondamento");
    push_item(v, "sin", 3, "seno");
    push_item(v, "cos", 3, "cosseno");
    push_item(v, "tan", 3, "tangente");
    assert(items_view(v@) =~= v0 + builtin_completions_2());
}

fn push_builtin_items_3(v: &mut Vec<CompletionItem>)
    ensures
        items_view(final(v)@) == items_view(old(v)@) + builtin_completions_3(),
{
    let ghost v0 = items_view(v@);
    push_item(v, "exp", 3, "exponencial");
    push_item(v, "log", 3, "logaritmo natural");
    push_item(v, "pow", 3, "potência");
    push_item(v, "min", 3, "mínimo");
    push_item(v, "max", 3, "máximo");
    push_item(v, "to_text", 3, "converte um valor para Text");
    push_item(v, "to_number", 3, "converte Text para Number");
    push_item(v, "upper", 3, "converte texto para maiúsculas");
    push_item(v, "lower", 3, "converte texto para minúsculas");
    push_item(v, "trim", 3, "remove espaços nas extremidades");
    push_item(v, "contains", 3, "verifica substring");
    push_item(v, "starts_with", 3, "verifica prefixo");
    assert(items_view(v@) =~= v0 + builtin_completions_3());
}

fn push_builtin_items_4(v: &mut Vec<CompletionItem>)
    ensures
        items_view(final(v)@) == items_view(old(v)@) + builtin_completions_4(),
{
    let ghost v0 = items_view(v@);
    push_item(v, "ends_with", 3, "verifica sufixo");
    push_item(v, "replace", 3, "substitui texto");
    push_item(v, "substring", 3, "recorta uma faixa de texto");
    push_item(v, "char_at", 3, "obtém um caractere por índice");
    push_item(v, "split", 3, "divide texto em uma lista");
    push_item(v, "join", 3, "junta uma lista em texto");
    push_item(v, "append", 3, "cria uma lista com um item no final");
    push_item(v, "thread_spawn", 3, "executa um processo em thread nativa");
    push_item(v, "thread_join", 3, "aguarda uma thread");
    push_item(v, "ui_window", 3, "cria uma janela desktop");
    push_item(v, "ui_set_title", 3, "altera o título da janela");
    push_item(v, "ui_close", 3, "fecha uma janela");
    assert(items_view(v@) =~= v0 + builtin_completions_4());
}

fn push_builtin_items_5(v: &mut Vec<CompletionItem>)
    ensures
        items_view(final(v)@) == items_view(old(v)@) + builtin_completions_5(),
{
    let ghost v0 = items_view(v@);
    push_item(v, "ui_poll_event", 3, "obtém o próximo evento de UI");
    push_item(v, "assert", 3, "falha o programa quando a condição é falsa");
    push_item(v, "channel", 3, "cria um canal de comunicação");
    push_item(v, "send", 3, "envia um valor para um canal");
    push_item(v, "recv", 3, "recebe um valor de um canal");
    push_item(v, "close_channel", 3, "fecha um canal");
    assert(items_view(v@) =~= v0 + builtin_completions_5());
}

fn builtin_items() -> (r: Vec<CompletionItem>)
    ensures
        items_view(r@) == builtin_completions(),
{
    let mut v: Vec<CompletionItem> = Vec::new();
    assert(items_view(v@) =~= Seq::<(Seq<char>, u8, Seq<char>)>::empty());
    push_builtin_items_0(&mut v);
    push_builtin_items_1(&mut v);
    push_builtin_items_2(&mut v);
    push_builtin_items_3(&mut v);
    push_builtin_items_4(&mut v);
    push_builtin_items_5(&mut v);
    assert(items_view(v@) =~= builtin_completions());
    v
}

fn declared_name_of(line: &Vec<char>) -> (r: Option<Vec<char>>)
    ensures
        match declared_name(line@) {
            Some(n) => r is Some && r->0@ == n,
            None => r is None,
        },
{
    let mut s: usize = 0;
    assert(line@.skip(0) =~= line@);
    while s < line.len() && is_whitespace(line[s])
        invariant
            s <= line.len(),
            spec_trim_start(line@) == spec_trim_start(line@.skip(s as int)),
        decreases line.len() - s,
    {
        assert(line@.skip(s as int).drop_first() =~= line@.skip(s + 1));
        s += 1;
    }
    let ghost t = line@.skip(s as int);
    assert(spec_trim_start(line@) == t);
    let p = chars_of("function ");
    if p.len() > line.len() - s {
        return None;
    }
    let mut i: usize = 0;
    while i < p.len()
        invariant
            i <= p.len(),
            s + p.len() <= line.len(),
            p@ == "function "@,
            t == line@.skip(s as int),
            spec_trim_start(line@) == t,
            forall|j: int| 0 <= j < i ==> line@[s + j] == p@[j],
        decreases p.len() - i,
    {
        if line[s + i] != p[i] {
            assert(t.take(p@.len() as int)[i as int] != p@[i as int]);
            return None;
        }
        i += 1;
    }
    assert(t.take(p@.len() as int) =~= p@);
    let start = s + p.len();
    let ghost rest = t.skip(p@.len() as int);
    assert(rest =~= line@.skip(start as int));
    let mut k = start;
    assert(rest.skip(0) =~= rest);
    while k < line.len() && line[k] != '(' && line[k] != ' ' && line[k] != '\t'
        invariant
            start <= k <= line.len(),
            rest == line@.skip(start as int),
            name_end(rest) == (k - start) + name_end(rest.skip(k - start)),
        decreases line.len() - k,
    {
        assert(rest.skip(k - start).drop_first() =~= rest.skip(k - start + 1));
        k += 1;
    }
    proof {
        if k < line.len() {
            assert(rest.skip(k - start)[0] == line@[k as int]);
        } else {
            assert(rest.skip(k - start).len() == 0);
        }
        assert(name_end(rest) == k - start);
    }
    if k == start {
        return None;
    }
    let mut name: Vec<char> = Vec::new();
    let mut j = start;
    while j < k
        invariant
            start <= j <= k <= line.len(),
            name@ == line@.subrange(start as int, j as int),
        decreases k - j,
    {
        name.push(line[j]);
        assert(name@ =~= line@.subrange(start as int, j + 1));
        j += 1;
    }
    assert(name@ =~= rest.take((k - start) as int));
    Some(name)
}

/// The completion items for a document.
pub fn completion(text: &str) -> (r: Vec<CompletionItem>)
    ensures
        items_view(r@) == spec_completion(text@),
{
    let mut items = builtin_items();
    let cs = chars_of(text);
    let lines = lines_of(&cs);
    let ghost lv = rows_view(lines@);
    let ghost f = |n: Seq<char>| (n, 3u8, "função do arquivo"@);
    let mut i: usize = 0;
    assert(declared_functions(lv.take(0)).map_values(f) =~= Seq::<(Seq<char>, u8, Seq<char>)>::empty());
    assert(items_view(items@) =~= builtin_completions() + declared_functions(lv.take(0)).map_values(f));
    while i < lines.len()
        invariant
            i <= lines.len(),
            lv == rows_view(lines@),
            f == (|n: Seq<char>| (n, 3u8, "função do arquivo"@)),
            items_view(items@) == builtin_completions() + declared_functions(lv.take(i as int)).map_values(f),
        decreases lines.len() - i,
    {
        assert(lv.take(i + 1).drop_last() =~= lv.take(i as int));
        assert(lv[i as int] == lines@[i as int]@);
        match declared_name_of(&lines[i]) {
            Some(name) => {
                let ghost nv = name@;
                let ghost before = items_view(items@);
                let detail = chars_of("função do arquivo");
                items.push(CompletionItem { label: string_of(&name), kind: 3, detail: string_of(&detail) });
                assert(items_view(items@) =~= before.push((nv, 3u8, "função do arquivo"@)));
                assert(declared_functions(lv.take(i + 1)) == declared_functions(lv.take(i as int)).push(nv));
                assert(items_view(items@) =~= builtin_completions() + declared_functions(lv.take(i + 1)).map_values(f));
            }
            None => {
                assert(declared_functions(lv.take(i + 1)) == declared_functions(lv.take(i as int)));
            }
        }
        i += 1;
    }
    assert(lv.take(i as int) =~= lv);
    items
}

/// The start of the word that ends at `i`.
pub open spec fn word_start(row: Seq<char>, i: int) -> int
    decreases i,
{
    if i > 0 && i <= row.len() && spec_is_word(row[i - 1]) { word_start(row, i - 1) } else { i }
}

/// The end of the word that starts at `i`.
pub open spec fn word_end(row: Seq<char>, i: int) -> int
    decreases row.len() - i,
{
    if 0 <= i < row.len() && spec_is_word(row[i]) { word_end(row, i + 1) } else { i }
}

/// The word around a position: the longest run of word characters that
/// reaches the position (clamped to the line), if it is not empty.
pub open spec fn spec_word_at(text: Seq<char>, line: nat, character: nat) -> Option<Seq<char>> {
    let ls = spec_lines(text);
    if line >= ls.len() {
        None
    } else {
        let row = ls[line as int];
        let c = if character < row.len() { character as int } else { row.len() as int };
        let start = word_start(row, c);
        let end = word_end(row, c);
        if start == end { None } else { Some(row.subrange(start, end)) }
    }
}

fn word_in_row(row: &Vec<char>, character: usize) -> (r: Option<Vec<char>>)
    ensures
        ({
            let c = if character < row@.len() { character as int } else { row@.len() as int };
            let start = word_start(row@, c);
            let end = word_end(row@, c);
            match r {
                Some(w) => start != end && w@ == row@.subrange(start, end) && w@.len() > 0 && w@.len() <= row@.len(),
                None => start == end,
            }
        }),
{
    let c = if character < row.len() { character } else { row.len() };
    let mut start = c;
    while start > 0 && is_word(row[start - 1])
        invariant
            start <= c <= row.len(),
            word_start(row@, c as int) == word_start(row@, start as int),
        decreases start,
    {
        start -= 1;
    }
    let mut end = c;
    while end < row.len() && is_word(row[end])
        invariant
            c <= end <= row.len(),
            word_end(row@, c as int) == word_end(row@, end as int),
        decreases row.len() - end,
    {
        end += 1;
    }
    if start == end {
        return None;
    }
    assert(word_start(row@, c as int) <= c);
    let mut w: Vec<char> = Vec::new();
    let mut k = start;
    while k < end
        invariant
            start <= k <= end <= row.len(),
            w@ == row@.subrange(start as int, k as int),
        decreases end - k,
    {
        w.push(row[k]);
        assert(w@ =~= row@.subrange(start as int, k + 1));
        k += 1;
    }
    Some(w)
}

/// The word at a position of a text.
pub fn word_at_position(text: &str, line: usize, character: usize) -> (r: Option<String>)
    ensures
        match spec_word_at(text@, line as nat, character as nat) {
            Some(w) => r is Some && r->0@ == w,
            None => r is None,
        },
{
    let cs = chars_of(text);
    let lines = lines_of(&cs);
    if line >= lines.len() {
        return None;
    }
    assert(rows_view(lines@)[line as int] == lines@[line as int]@);
    match word_in_row(&lines[line], character) {
        Some(w) => Some(string_of(&w)),
        None => None,
    }
}

/// Whether `w` occurs in `row` at `start` as a whole word.
pub open spec fn whole_word_at(row: Seq<char>, w: Seq<char>, start: int) -> bool {
    let end = start + w.len();
    &&& 0 <= start
    &&& end <= row.len()
    &&& row.subrange(start, end) == w
    &&& (start == 0 || !spec_is_word(row[start - 1]))
    &&& (end == row.len() || !spec_is_word(row[end]))
}

/// The whole-word occurrences of `w` in `row` starting before `limit`, as
/// (line, start, end), in order.
pub open spec fn occurrences_in(row: Seq<char>, w: Seq<char>, ln: nat, limit: int) -> Seq<(nat, nat, nat)>
    decreases limit,
{
    if limit <= 0 {
        Seq::empty()
    } else {
        let p = occurrences_in(row, w, ln, limit - 1);
        let st = limit - 1;
        if whole_word_at(row, w, st) { p.push((ln, st as nat, (st + w.len()) as nat)) } else { p }
    }
}

/// The whole-word occurrences of `w` in the lines from line 0 to `k`.
pub open spec fn occurrences(lines: Seq<Seq<char>>, w: Seq<char>, k: int) -> Seq<(nat, nat, nat)>
    decreases k,
{
    if k <= 0 {
        Seq::empty()
    } else {
        let row = lines[k - 1];
        occurrences(lines, w, k - 1) + occurrences_in(row, w, (k - 1) as nat, row.len() - w.len() + 1)
    }
}

/// Whether every line is at least as long as `w`: the scan for
/// occurrences reads `w.len()` characters from the start of each line.
pub open spec fn lines_fit(text: Seq<char>, w: Seq<char>) -> bool {
    forall|k: int| 0 <= k < spec_lines(text).len() ==> #[trigger] spec_lines(text)[k].len() >= w.len()
}

/// The ranges of the whole-word occurrences of `w` in a text.
pub open spec fn spec_word_ranges(text: Seq<char>, w: Seq<char>) -> Seq<(nat, nat, nat)> {
    occurrences(spec_lines(text), w, spec_lines(text).len() as int)
}

pub open spec fn ranges_view(v: Seq<(usize, usize, usize)>) -> Seq<(nat, nat, nat)> {
    Seq::new(v.len(), |i: int| (v[i].0 as nat, v[i].1 as nat, v[i].2 as nat))
}

fn matches_at(row: &Vec<char>, w: &Vec<char>, start: usize) -> (r: bool)
    requires
        start + w.len() <= row.len(),
    ensures
        r == (row@.subrange(start as int, start + w.len()) == w@),
{
    let mut i: usize = 0;
    while i < w.len()
        invariant
            i <= w.len(),
            start + w.len() <= row.len(),
            forall|j: int| 0 <= j < i ==> row@[start + j] == w@[j],
        decreases w.len() - i,
    {
        if row[start + i] != w[i] {
            assert(row@.subrange(start as int, start + w.len())[i as int] != w@[i as int]);
            return false;
        }
        i += 1;
    }
    assert(row@.subrange(start as int, start + w.len()) =~= w@);
    true
}

/// The ranges of the whole-word occurrences of `w` in lines that are all at
/// least as long as it.
fn word_ranges(lines: &Vec<Vec<char>>, w: &Vec<char>) -> (r: Vec<(usize, usize, usize)>)
    requires
        w.len() > 0,
        forall|k: int| 0 <= k < lines.len() ==> (#[trigger] lines@[k]).len() >= w.len(),
    ensures
        ranges_view(r@) == occurrences(rows_view(lines@), w@, lines.len() as int),
{
    let ghost lv = rows_view(lines@);
    let mut out: Vec<(usize, usize, usize)> = Vec::new();
    let mut ln: usize = 0;
    assert(ranges_view(out@) =~= occurrences(lv, w@, 0));
    while ln < lines.len()
        invariant
            ln <= lines.len(),
            w.len() > 0,
            lv == rows_view(lines@),
            forall|k: int| 0 <= k < lines.len() ==> (#[trigger] lines@[k]).len() >= w.len(),
            ranges_view(out@) == occurrences(lv, w@, ln as int),
        decreases lines.len() - ln,
    {
        let row = &lines[ln];
        assert(lv[ln as int] == row@);
        let ghost base = ranges_view(out@);
        let limit = row.len() - w.len() + 1;
        let mut start: usize = 0;
        assert(base + occurrences_in(row@, w@, ln as nat, 0) =~= base);
        while start < limit
            invariant
                start <= limit,
                limit == row.len() - w.len() + 1,
                w.len() > 0,
                row.len() >= w.len(),
                ranges_view(out@) == base + occurrences_in(row@, w@, ln as nat, start as int),
            decreases limit - start,
        {
            let end = start + w.len();
            let hit = matches_at(row, w, start)
                && (start == 0 || !is_word(row[start - 1]))
                && (end == row.len() || !is_word(row[end]));
            if hit {
                let ghost before = ranges_view(out@);
                out.push((ln, start, end));
                assert(ranges_view(out@) =~= before.push((ln as nat, start as nat, end as nat)));
            }
            assert(ranges_view(out@) =~= base + occurrences_in(row@, w@, ln as nat, start + 1));
            start += 1;
        }
        ln += 1;
    }
    out
}

/// The ranges of the whole-word occurrences of the word at a position.
pub fn references(text: &str, line: usize, character: usize) -> (r: Vec<(usize, usize, usize)>)
    requires
        spec_word_at(text@, line as nat, character as nat) matches Some(w) ==> lines_fit(text@, w),
    ensures
        match spec_word_at(text@, line as nat, character as nat) {
            Some(w) => ranges_view(r@) == spec_word_ranges(text@, w),
            None => r@.len() == 0,
        },
{
    let cs = chars_of(text);
    let lines = lines_of(&cs);
    if line >= lines.len() {
        return Vec::new();
    }
    assert(rows_view(lines@)[line as int] == lines@[line as int]@);
    match word_in_row(&lines[line], character) {
        Some(w) => {
            assert forall|k: int| 0 <= k < lines.len() implies (#[trigger] lines@[k]).len() >= w.len() by {
                assert(rows_view(lines@)[k] == lines@[k]@);
            }
            word_ranges(&lines, &w)
        }
        None => Vec::new(),
    }
}

/// Whether a new name is an identifier: not empty, made of ASCII letters,
/// digits and `_`, not starting with a digit.
pub open spec fn valid_name(n: Seq<char>) -> bool {
    &&& n.len() > 0
    &&& forall|i: int| 0 <= i < n.len() ==> #[trigger] spec_is_word(n[i])
    &&& !('0' <= n[0] && n[0] <= '9')
}

/// The edits that rename the word at a position to `new_name`: its
/// whole-word occurrences, each to be replaced by `new_name`. `None` when
/// there is no word there or `new_name` is not an identifier.
pub fn rename(text: &str, line: usize, character: usize, new_name: &str) -> (r: Option<Vec<(usize, usize, usize)>>)
    requires
        spec_word_at(text@, line as nat, character as nat) matches Some(w) ==> lines_fit(text@, w),
    ensures
        match spec_word_at(text@, line as nat, character as nat) {
            Some(w) => if valid_name(new_name@) {
                r is Some && ranges_view(r->0@) == spec_word_ranges(text@, w)
            } else {
                r is None
            },
            None => r is None,
        },
{
    let cs = chars_of(text);
    let lines = lines_of(&cs);
    if line >= lines.len() {
        return None;
    }
    assert(rows_view(lines@)[line as int] == lines@[line as int]@);
    let w = match word_in_row(&lines[line], character) {
        Some(w) => w,
        None => return None,
    };
    let n = chars_of(new_name);
    if n.len() == 0 {
        return None;
    }
    let mut i: usize = 0;
    while i < n.len()
        invariant
            i <= n.len(),
            n@ == new_name@,
            forall|j: int| 0 <= j < i ==> #[trigger] spec_is_word(n@[j]),
        decreases n.len() - i,
    {
        if !is_word(n[i]) {
            return None;
        }
        i += 1;
    }
    if '0' <= n[0] && n[0] <= '9' {
        return None;
    }
    assert forall|k: int| 0 <= k < lines.len() implies (#[trigger] lines@[k]).len() >= w.len() by {
        assert(rows_view(lines@)[k] == lines@[k]@);
    }
    Some(word_ranges(&lines, &w))
}

/// The description of a word that hover explains by itself.
pub open spec fn hover_entry(w: Seq<char>) -> Option<Seq<char>> {
    if w == "function"@ {
        Some("Declara uma função Nano: function nome(arg1, arg2) { ... }"@)
    } else if w == "if"@ {
        Some("Executa um bloco quando a expressão é verdadeira."@)
    } else if w == "for"@ {
        Some("Itera uma variável sobre uma List."@)
    } else if w == "tensor"@ {
        Some("Cria um Tensor a partir de dados e shape."@)
    } else if w == "parameter"@ {
        Some("Cria um Tensor treinável com requires_grad."@)
    } else if w == "matmul"@ {
        Some("Calcula multiplicação matricial com o backend ativo."@)
    } else if w == "grad"@ {
        Some("Calcula o gradiente de uma loss em relação a um parâmetro."@)
    } else if w == "adam"@ {
        Some("Aplica uma atualização Adam ao parâmetro."@)
    } else if w == "step"@ {
        Some("Aplica uma atualização SGD ao parâmetro."@)
    } else if w == "std.fs"@ {
        Some("Módulo de filesystem do runtime Nano."@)
    } else if w == "std.net"@ {
        Some("Módulo de rede do runtime Nano."@)
    } else if w == "std.async"@ {
        Some("Módulo de concorrência e tarefas do runtime Nano."@)
    } else {
        None
    }
}

fn hover_entry_of(w: &Vec<char>) -> (r: Option<&'static str>)
    ensures
        match hover_entry(w@) {
            Some(d) => r is Some && r->0@ == d,
            None => r is None,
        },
{
    if chars_eq_str(w, "function") {
        Some("Declara uma função Nano: function nome(arg1, arg2) { ... }")
    } else if chars_eq_str(w, "if") {
        Some("Executa um bloco quando a expressão é verdadeira.")
    } else if chars_eq_str(w, "for") {
        Some("Itera uma variável sobre uma List.")
    } else if chars_eq_str(w, "tensor") {
        Some("Cria um Tensor a partir de dados e shape.")
    } else if chars_eq_str(w, "parameter") {
        Some("Cria um Tensor treinável com requires_grad.")
    } else if chars_eq_str(w, "matmul") {
        Some("Calcula multiplicação matricial com o backend ativo.")
    } else if chars_eq_str(w, "grad") {
        Some("Calcula o gradiente de uma loss em relação a um parâmetro.")
    } else if chars_eq_str(w, "adam") {
        Some("Aplica uma atualização Adam ao parâmetro.")
    } else if chars_eq_str(w, "step") {
        Some("Aplica uma atualização SGD ao parâmetro.")
    } else if chars_eq_str(w, "std.fs") {
        Some("Módulo de filesystem do runtime Nano.")
    } else if chars_eq_str(w, "std.net") {
        Some("Módulo de rede do runtime Nano.")
    } else if chars_eq_str(w, "std.async") {
        Some("Módulo de concorrência e tarefas do runtime Nano.")
    } else {
        None
    }
}

/// Whether some line declares a function whose name starts with `w`.
pub open spec fn declares_prefix(lines: Seq<Seq<char>>, w: Seq<char>) -> bool {
    exists|k: int| 0 <= k < lines.len() && #[trigger] starts_with_seq(spec_trim_start(lines[k]), "function "@ + w)
}

pub open spec fn starts_with_seq(s: Seq<char>, p: Seq<char>) -> bool {
    p.len() <= s.len() && s.take(p.len() as int) == p
}

/// The hover text for the word at a position: the word in bold, a blank
/// line, and its description; a word without one that some line declares
/// as a function is described as such.
pub open spec fn spec_hover(text: Seq<char>, line: nat, character: nat) -> Option<Seq<char>> {
    match spec_word_at(text, line, character) {
        None => None,
        Some(w) => {
            let d = match hover_entry(w) {
                Some(d) => Some(d),
                None => if declares_prefix(spec_lines(text), w) { Some("Função definida neste documento."@) } else { None },
            };
            match d {
                Some(d) => Some("**"@ + w + "**\n\n"@ + d),
                None => None,
            }
        }
    }
}

fn trim_start_of(v: &Vec<char>) -> (r: Vec<char>)
    ensures
        r@ == spec_trim_start(v@),
{
    let mut s: usize = 0;
    assert(v@.skip(0) =~= v@);
    while s < v.len() && is_whitespace(v[s])
        invariant
            s <= v.len(),
            spec_trim_start(v@) == spec_trim_start(v@.skip(s as int)),
        decreases v.len() - s,
    {
        assert(v@.skip(s as int).drop_first() =~= v@.skip(s + 1));
        s += 1;
    }
    let mut out: Vec<char> = Vec::new();
    let mut k = s;
    while k < v.len()
        invariant
            s <= k <= v.len(),
            out@ == v@.subrange(s as int, k as int),
        decreases v.len() - k,
    {
        out.push(v[k]);
        assert(out@ =~= v@.subrange(s as int, k + 1));
        k += 1;
    }
    assert(out@ =~= v@.skip(s as int));
    out
}

fn starts_with_chars(s: &Vec<char>, p: &Vec<char>) -> (r: bool)
    ensures
        r == starts_with_seq(s@, p@),
{
    if p.len() > s.len() {
        return false;
    }
    let mut i: usize = 0;
    while i < p.len()
        invariant
            i <= p.len(),
            p.len() <= s.len(),
            forall|j: int| 0 <= j < i ==> s@[j] == p@[j],
        decreases p.len() - i,
    {
        if s[i] != p[i] {
            assert(s@.take(p@.len() as int)[i as int] != p@[i as int]);
            return false;
        }
        i += 1;
    }
    assert(s@.take(p@.len() as int) =~= p@);
    true
}

/// The hover text at a position.
pub fn hover(text: &str, line: usize, character: usize) -> (r: Option<String>)
    ensures
        match spec_hover(text@, line as nat, character as nat) {
            Some(h) => r is Some && r->0@ == h,
            None => r is None,
        },
{
    let cs = chars_of(text);
    let lines = lines_of(&cs);
    let ghost lv = rows_view(lines@);
    if line >= lines.len() {
        return None;
    }
    assert(lv[line as int] == lines@[line as int]@);
    let w = match word_in_row(&lines[line], character) {
        Some(w) => w,
        None => return None,
    };
    let mut desc: Vec<char> = Vec::new();
    match hover_entry_of(&w) {
        Some(d) => push_str(&mut desc, d),
        None => {
            let mut prefix: Vec<char> = Vec::new();
            push_str(&mut prefix, "function ");
            push_chars(&mut prefix, &w);
            let mut found = false;
            let mut k: usize = 0;
            while k < lines.len()
                invariant
                    k <= lines.len(),
                    lv == rows_view(lines@),
                    prefix@ == "function "@ + w@,
                    found == exists|j: int| 0 <= j < k && #[trigger] starts_with_seq(spec_trim_start(lv[j]), "function "@ + w@),
                decreases lines.len() - k,
            {
                let t = trim_start_of(&lines[k]);
                assert(lv[k as int] == lines@[k as int]@);
                if starts_with_chars(&t, &prefix) {
                    found = true;
                }
                k += 1;
            }
            if !found {
                return None;
            }
            push_str(&mut desc, "Função definida neste documento.");
        }
    }
    let mut out: Vec<char> = Vec::new();
    push_str(&mut out, "**");
    push_chars(&mut out, &w);
    push_str(&mut out, "**\n\n");
    push_chars(&mut out, &desc);
    Some(string_of(&out))
}

/// The number of bytes of a character in UTF-8.
pub open spec fn utf8_width(c: char) -> nat {
    if (c as u32) < 0x80 { 1 } else if (c as u32) < 0x800 { 2 } else if (c as u32) < 0x10000 { 3 } else { 4 }
}

/// The number of bytes of a text in UTF-8.
pub open spec fn utf8_len(s: Seq<char>) -> nat
    decreases s.len(),
{
    if s.len() == 0 { 0 } else { utf8_len(s.drop_last()) + utf8_width(s.last()) }
}

fn utf8_width_of(c: char) -> (r: usize)
    ensures
        r == utf8_width(c),
{
    let u = c as u32;
    if u < 0x80 { 1 } else if u < 0x800 { 2 } else if u < 0x10000 { 3 } else { 4 }
}

/// The line of the first declaration of a function whose name starts with
/// `w`, with the byte column where the name starts and that column plus the
/// length of `w` in characters.
pub open spec fn first_declaration(lines: Seq<Seq<char>>, w: Seq<char>, k: int) -> Option<(nat, nat, nat)>
    decreases lines.len() - k,
{
    if k < 0 || k >= lines.len() {
        None
    } else {
        let t = spec_trim_start(lines[k]);
        if starts_with_seq(t, "function "@) && starts_with_seq(t.skip(9), w) {
            let column = (utf8_len(lines[k]) - utf8_len(t)) + 9;
            Some((k as nat, column as nat, (column + w.len()) as nat))
        } else {
            first_declaration(lines, w, k + 1)
        }
    }
}

/// Where the word at a position is declared as a function.
pub open spec fn spec_definition(text: Seq<char>, line: nat, character: nat) -> Option<(nat, nat, nat)> {
    match spec_word_at(text, line, character) {
        None => None,
        Some(w) => first_declaration(spec_lines(text), w, 0),
    }
}

proof fn lemma_utf8_concat(a: Seq<char>, b: Seq<char>)
    ensures
        utf8_len(a + b) == utf8_len(a) + utf8_len(b),
    decreases b.len(),
{
    if b.len() > 0 {
        lemma_utf8_concat(a, b.drop_last());
        assert((a + b).drop_last() =~= a + b.drop_last());
    } else {
        assert(a + b =~= a);
    }
}

proof fn lemma_utf8_bound(a: Seq<char>)
    ensures
        utf8_len(a) <= 4 * a.len(),
    decreases a.len(),
{
    if a.len() > 0 {
        lemma_utf8_bound(a.drop_last());
    }
}

/// Where a line declares a function whose name starts with `w`: the byte
/// column of the name.
#[verifier::rlimit(80)]
#[verifier::spinoff_prover]
fn declaration_column(line: &Vec<char>, w: &Vec<char>) -> (r: Option<usize>)
    requires
        line.len() < usize::MAX / 8,
    ensures
        ({
            let t = spec_trim_start(line@);
            if starts_with_seq(t, "function "@) && starts_with_seq(t.skip(9), w@) {
                r == Some((utf8_len(line@) - utf8_len(t) + 9) as usize)
                    && utf8_len(line@) - utf8_len(t) + 9 <= 4 * line.len() + 9
                    && utf8_len(line@) >= utf8_len(t)
            } else {
                r is None
            }
        }),
{
    let mut s: usize = 0;
    let mut bytes: usize = 0;
    assert(line@.skip(0) =~= line@);
    assert(line@.take(0) =~= Seq::<char>::empty());
    while s < line.len() && is_whitespace(line[s])
        invariant
            s <= line.len(),
            line.len() < usize::MAX / 8,
            bytes == utf8_len(line@.take(s as int)),
            bytes <= 4 * s,
            spec_trim_start(line@) == spec_trim_start(line@.skip(s as int)),
        decreases line.len() - s,
    {
        assert(line@.skip(s as int).drop_first() =~= line@.skip(s + 1));
        assert(line@.take(s + 1).drop_last() =~= line@.take(s as int));
        bytes = bytes + utf8_width_of(line[s]);
        s += 1;
    }
    let ghost t = line@.skip(s as int);
    assert(spec_trim_start(line@) == t);
    proof {
        assert(line@.take(s as int) + t =~= line@);
        lemma_utf8_concat(line@.take(s as int), t);
    }
    let t_chars = trim_start_of(line);
    let p = chars_of("function ");
    proof { reveal_strlit("function "); }
    if !starts_with_chars(&t_chars, &p) {
        return None;
    }
    let mut rest: Vec<char> = Vec::new();
    let mut k: usize = 9;
    while k < t_chars.len()
        invariant
            9 <= k <= t_chars.len(),
            rest@ == t_chars@.subrange(9, k as int),
        decreases t_chars.len() - k,
    {
        rest.push(t_chars[k]);
        assert(rest@ =~= t_chars@.subrange(9, k + 1));
        k += 1;
    }
    assert(rest@ =~= t.skip(9));
    if !starts_with_chars(&rest, w) {
        return None;
    }
    Some(bytes + 9)
}

/// Where the word at a position is declared: line, first and last byte
/// column of the name.
pub fn definition(text: &str, line: usize, character: usize) -> (r: Option<(usize, usize, usize)>)
    requires
        text@.len() < usize::MAX / 8,
    ensures
        match spec_definition(text@, line as nat, character as nat) {
            Some((l, c, e)) => r == Some((l as usize, c as usize, e as usize)),
            None => r is None,
        },
{
    let cs = chars_of(text);
    let lines = lines_of(&cs);
    let ghost lv = rows_view(lines@);
    proof { lemma_lines_short(text@); }
    if line >= lines.len() {
        return None;
    }
    assert(lv[line as int] == lines@[line as int]@);
    let w = match word_in_row(&lines[line], character) {
        Some(w) => w,
        None => return None,
    };
    let mut k: usize = 0;
    assert(w@.len() <= lv[line as int].len());
    while k < lines.len()
        invariant
            k <= lines.len(),
            lv == rows_view(lines@),
            lv == spec_lines(text@),
            text@.len() < usize::MAX / 8,
            w@.len() <= text@.len(),
            forall|j: int| 0 <= j < lv.len() ==> #[trigger] lv[j].len() <= text@.len(),
            first_declaration(lv, w@, 0) == first_declaration(lv, w@, k as int),
            spec_word_at(text@, line as nat, character as nat) == Some(w@),
        decreases lines.len() - k,
    {
        assert(lv[k as int] == lines@[k as int]@);
        match declaration_column(&lines[k], &w) {
            Some(column) => {
                proof { lemma_utf8_bound(lines@[k as int]@); }
                return Some((k, column, column + w.len()));
            }
            None => {}
        }
        k += 1;
    }
    None
}

/// A quick fix or source action offered for a document.
#[derive(Debug)]
pub enum CodeAction {
    /// Insert a line with `}` at the end of the document.
    CloseBlock { line: usize, character: usize },
    /// Replace the first `//` of the first line that has one (at a byte
    /// column) by `#`.
    CommentToHash { line: usize, column: usize },
    /// Replace the whole document, up to its end position, by its
    /// formatted text.
    FormatDocument { end_line: usize, end_character: usize, text: String },
}

/// The mathematical view of a [`CodeAction`].
pub enum SCodeAction {
    CloseBlock(nat, nat),
    CommentToHash(nat, nat),
    FormatDocument(nat, nat, Seq<char>),
}

pub open spec fn action_view(a: CodeAction) -> SCodeAction {
    match a {
        CodeAction::CloseBlock { line, character } => SCodeAction::CloseBlock(line as nat, character as nat),
        CodeAction::CommentToHash { line, column } => SCodeAction::CommentToHash(line as nat, column as nat),
        CodeAction::FormatDocument { end_line, end_character, text } => SCodeAction::FormatDocument(end_line as nat, end_character as nat, text@),
    }
}

pub open spec fn actions_view(v: Seq<CodeAction>) -> Seq<SCodeAction> {
    Seq::new(v.len(), |i: int| action_view(v[i]))
}

/// Whether `t` occurs in `s` at index `i`.
pub open spec fn occurs_at(s: Seq<char>, t: Seq<char>, i: int) -> bool {
    0 <= i && i + t.len() <= s.len() && s.subrange(i, i + t.len()) == t
}

/// Whether `t` occurs in `s`.
pub open spec fn contains_seq(s: Seq<char>, t: Seq<char>) -> bool {
    exists|i: int| #[trigger] occurs_at(s, t, i)
}

/// The first index where `t` occurs in `s` at or after `i`.
pub open spec fn find_from(s: Seq<char>, t: Seq<char>, i: int) -> Option<int>
    decreases s.len() + 1 - i,
{
    if i < 0 || i + t.len() > s.len() {
        None
    } else if occurs_at(s, t, i) {
        Some(i)
    } else {
        find_from(s, t, i + 1)
    }
}

/// The first line with a `//`, and the byte column of its first `//`.
pub open spec fn first_comment(lines: Seq<Seq<char>>, k: int) -> Option<(nat, nat)>
    decreases lines.len() - k,
{
    if k < 0 || k >= lines.len() {
        None
    } else {
        match find_from(lines[k], "//"@, 0) {
            Some(i) => Some((k as nat, utf8_len(lines[k].take(i)))),
            None => first_comment(lines, k + 1),
        }
    }
}

/// The actions for a document: closing a block that is left open, turning
/// the first `//` comment into `#`, and formatting the document.
pub open spec fn spec_code_actions(text: Seq<char>) -> Seq<SCodeAction> {
    let end = spec_end_position(text);
    let close = if exists|k: int| 0 <= k < spec_analyze(text).len() && #[trigger] contains_seq(spec_analyze(text)[k].message, "bloco não terminado"@) {
        seq![SCodeAction::CloseBlock(end.0, end.1)]
    } else {
        Seq::empty()
    };
    let comment = match first_comment(spec_lines(text), 0) {
        Some((l, c)) => seq![SCodeAction::CommentToHash(l, c)],
        None => Seq::empty(),
    };
    close + comment + seq![SCodeAction::FormatDocument(end.0, end.1, spec_format_source(text))]
}

fn find_chars(s: &Vec<char>, t: &Vec<char>) -> (r: Option<usize>)
    ensures
        match find_from(s@, t@, 0) {
            Some(i) => r == Some(i as usize),
            None => r is None,
        },
        r matches Some(i) ==> i + t.len() <= s.len() && find_from(s@, t@, 0) == Some(i as int),
{
    if t.len() > s.len() {
        return None;
    }
    let last = s.len() - t.len();
    let mut i: usize = 0;
    while i <= last
        invariant
            t.len() <= s.len(),
            last == s.len() - t.len(),
            i <= last + 1,
            find_from(s@, t@, 0) == find_from(s@, t@, i as int),
        decreases last + 1 - i,
    {
        let mut j: usize = 0;
        let mut same = true;
        while j < t.len()
            invariant
                j <= t.len(),
                i + t.len() <= s.len(),
                same == forall|m: int| 0 <= m < j ==> s@[i + m] == t@[m],
            decreases t.len() - j,
        {
            if s[i + j] != t[j] {
                same = false;
            }
            j += 1;
        }
        if same {
            assert(s@.subrange(i as int, i + t.len()) =~= t@);
            return Some(i);
        }
        assert(!occurs_at(s@, t@, i as int)) by {
            if occurs_at(s@, t@, i as int) {
                assert forall|m: int| 0 <= m < t.len() implies s@[i + m] == t@[m] by {
                    assert(s@.subrange(i as int, i + t.len())[m] == s@[i + m]);
                }
            }
        }
        i += 1;
    }
    None
}

fn contains_chars(s: &Vec<char>, t: &Vec<char>) -> (r: bool)
    ensures
        r == contains_seq(s@, t@),
{
    let found = find_chars(s, t);
    proof { lemma_find_contains(s@, t@, 0); }
    found.is_some()
}

proof fn lemma_find_contains(s: Seq<char>, t: Seq<char>, i: int)
    requires
        0 <= i,
        forall|j: int| 0 <= j < i ==> !#[trigger] occurs_at(s, t, j),
    ensures
        (find_from(s, t, i) is Some) == contains_seq(s, t),
        find_from(s, t, i) matches Some(k) ==> occurs_at(s, t, k),
    decreases s.len() + 1 - i,
{
    if i + t.len() > s.len() {
        assert forall|j: int| !#[trigger] occurs_at(s, t, j) by {
            if j >= i {
                assert(j + t.len() > s.len());
            }
        }
    } else if !occurs_at(s, t, i) {
        lemma_find_contains(s, t, i + 1);
    }
}

fn utf8_prefix_len(s: &Vec<char>, n: usize) -> (r: usize)
    requires
        n <= s.len(),
        s.len() < usize::MAX / 8,
    ensures
        r == utf8_len(s@.take(n as int)),
{
    let mut bytes: usize = 0;
    let mut i: usize = 0;
    assert(s@.take(0) =~= Seq::<char>::empty());
    while i < n
        invariant
            i <= n <= s.len(),
            s.len() < usize::MAX / 8,
            bytes == utf8_len(s@.take(i as int)),
            bytes <= 4 * i,
        decreases n - i,
    {
        assert(s@.take(i + 1).drop_last() =~= s@.take(i as int));
        bytes = bytes + utf8_width_of(s[i]);
        i += 1;
    }
    bytes
}

/// The code actions for a document.
pub fn code_actions(text: &str) -> (r: Vec<CodeAction>)
    requires
        text@.len() < usize::MAX / 8,
    ensures
        actions_view(r@) == spec_code_actions(text@),
{
    let diagnostics = analyze(text);
    let marker = chars_of("bloco não terminado");
    let mut unterminated = false;
    let mut k: usize = 0;
    while k < diagnostics.len()
        invariant
            k <= diagnostics.len(),
            diags_view(diagnostics@) == spec_analyze(text@),
            marker@ == "bloco não terminado"@,
            unterminated == exists|j: int| 0 <= j < k && #[trigger] contains_seq(spec_analyze(text@)[j].message, "bloco não terminado"@),
        decreases diagnostics.len() - k,
    {
        let m = chars_of(diagnostics[k].message.as_str());
        assert(spec_analyze(text@)[k as int].message == diagnostics@[k as int].message@);
        if contains_chars(&m, &marker) {
            unterminated = true;
        }
        k += 1;
    }
    let (end_line, end_character) = end_position(text);
    let mut actions: Vec<CodeAction> = Vec::new();
    let ghost a0 = actions_view(actions@);
    if unterminated {
        actions.push(CodeAction::CloseBlock { line: end_line, character: end_character });
    }
    let ghost a1 = actions_view(actions@);
    let cs = chars_of(text);
    let lines = lines_of(&cs);
    let ghost lv = rows_view(lines@);
    proof { lemma_lines_short(text@); }
    let slashes = chars_of("//");
    let mut ln: usize = 0;
    while ln < lines.len()
        invariant_except_break
            actions_view(actions@) == a1,
            first_comment(lv, 0) == first_comment(lv, ln as int),
        invariant
            ln <= lines.len(),
            lv == rows_view(lines@),
            lv == spec_lines(text@),
            slashes@ == "//"@,
            text@.len() < usize::MAX / 8,
            forall|j: int| 0 <= j < lv.len() ==> #[trigger] lv[j].len() <= text@.len(),
        ensures
            actions_view(actions@) == a1 + match first_comment(lv, 0) {
                Some((l, c)) => seq![SCodeAction::CommentToHash(l, c)],
                None => Seq::<SCodeAction>::empty(),
            },
        decreases lines.len() - ln,
    {
        assert(lv[ln as int] == lines@[ln as int]@);
        match find_chars(&lines[ln], &slashes) {
            Some(i) => {
                let column = utf8_prefix_len(&lines[ln], i);
                assert(first_comment(lv, ln as int) == Some((ln as nat, column as nat)));
                actions.push(CodeAction::CommentToHash { line: ln, column });
                assert(actions_view(actions@) =~= a1 + seq![SCodeAction::CommentToHash(ln as nat, column as nat)]);
                break;
            }
            None => {}
        }
        ln += 1;
    }
    let formatted = format_source(text);
    let ghost a2 = actions_view(actions@);
    actions.push(CodeAction::FormatDocument { end_line, end_character, text: formatted });
    assert(actions_view(actions@) =~= a2.push(SCodeAction::FormatDocument(end_line as nat, end_character as nat, spec_format_source(text@))));
    assert(actions_view(actions@) =~= spec_code_actions(text@));
    actions
}

} // verus!
