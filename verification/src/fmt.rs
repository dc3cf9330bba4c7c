//! The stand-alone formatter: indentation by brace count.
use vstd::prelude::*;
use crate::lsp::{
    concat_rows, indentation, lemma_indentation_spaces, lemma_lines_of_rows, lemma_lines_single, lemma_trim_keeps_out,
    lemma_trim_last, lemma_trim_row, lines_of, row_ok, rows_view, sat_add, sat_sub, single_lines, spec_lines,
};
use crate::text::{chars_of, is_whitespace, push_chars, push_str, spec_trim, spec_trim_end, string_of, trim_chars};

verus! {

/// The number of occurrences of `c` in `s`.
pub open spec fn count_char(s: Seq<char>, c: char) -> nat
    decreases s.len(),
{
    if s.len() == 0 { 0 } else { count_char(s.drop_last(), c) + if s.last() == c { 1nat } else { 0nat } }
}

/// Formatting state: the text so far and the indentation level.
pub open spec fn fmt_lines(out: Seq<char>, indent: nat, lines: Seq<Seq<char>>) -> Seq<char>
    decreases lines.len(),
{
    if lines.len() == 0 {
        out
    } else {
        let line = spec_trim(lines[0]);
        let rest = lines.drop_first();
        if line.len() == 0 {
            let ends_blank = out.len() >= 2 && out[out.len() - 1] == '\n' && out[out.len() - 2] == '\n';
            fmt_lines(if ends_blank { out } else { out.push('\n') }, indent, rest)
        } else {
            let ind1 = if line[0] == '}' && indent > 0 { (indent - 1) as nat } else { indent };
            let out2 = out + indentation(ind1) + line + seq!['\n'];
            let later_closes = sat_sub(count_char(line, '}'), if line[0] == '}' { 1 } else { 0 });
            fmt_lines(out2, sat_sub(sat_add(ind1, count_char(line, '{')), later_closes), rest)
        }
    }
}

/// The formatted text: each line trimmed and indented four spaces per open
/// brace, runs of blank lines kept to one, trailing whitespace dropped and
/// one final line feed.
pub open spec fn spec_format_source(src: Seq<char>) -> Seq<char> {
    spec_trim_end(fmt_lines(Seq::empty(), 0, spec_lines(src))) + seq!['\n']
}

proof fn lemma_fmt_same_trims(out: Seq<char>, indent: nat, a: Seq<Seq<char>>, b: Seq<Seq<char>>)
    requires
        a.len() == b.len(),
        forall|i: int| 0 <= i < a.len() ==> spec_trim(#[trigger] a[i]) == spec_trim(b[i]),
    ensures
        fmt_lines(out, indent, a) == fmt_lines(out, indent, b),
    decreases a.len(),
{
    if a.len() > 0 {
        assert(spec_trim(a[0]) == spec_trim(b[0]));
        let (ra, rb) = (a.drop_first(), b.drop_first());
        assert forall|i: int| 0 <= i < ra.len() implies spec_trim(#[trigger] ra[i]) == spec_trim(rb[i]) by {
            assert(ra[i] == a[i + 1] && rb[i] == b[i + 1]);
        }
        let line = spec_trim(a[0]);
        if line.len() == 0 {
            let ends_blank = out.len() >= 2 && out[out.len() - 1] == '\n' && out[out.len() - 2] == '\n';
            lemma_fmt_same_trims(if ends_blank { out } else { out.push('\n') }, indent, ra, rb);
        } else {
            let ind1 = if line[0] == '}' && indent > 0 { (indent - 1) as nat } else { indent };
            let out2 = out + indentation(ind1) + line + seq!['\n'];
            let later_closes = sat_sub(count_char(line, '}'), if line[0] == '}' { 1 } else { 0 });
            lemma_fmt_same_trims(out2, sat_sub(sat_add(ind1, count_char(line, '{')), later_closes), ra, rb);
        }
    }
}

/// The formatter looks only at what each line holds between its leading and
/// trailing whitespace: two texts whose lines agree once trimmed format
/// alike, so the indentation a line already has is replaced, not kept.
pub proof fn law_format_ignores_surrounding_whitespace(x: Seq<char>, y: Seq<char>)
    requires
        spec_lines(x).len() == spec_lines(y).len(),
        forall|i: int| 0 <= i < spec_lines(x).len() ==> spec_trim(#[trigger] spec_lines(x)[i]) == spec_trim(spec_lines(y)[i]),
    ensures
        spec_format_source(x) == spec_format_source(y),
{
    lemma_fmt_same_trims(Seq::empty(), 0, spec_lines(x), spec_lines(y));
}

/// Whether the text ends with an empty line: two line feeds.
pub open spec fn ends_blank(out: Seq<char>) -> bool {
    out.len() >= 2 && out[out.len() - 1] == '\n' && out[out.len() - 2] == '\n'
}

/// Whether the text ends with a line feed.
pub open spec fn ends_newline(out: Seq<char>) -> bool {
    out.len() >= 1 && out[out.len() - 1] == '\n'
}

/// The rows the formatter writes, each without its line feed, after text
/// that ends (`eb`) with an empty line and (`el`) with a line feed.
pub open spec fn fmt_rows(indent: nat, eb: bool, el: bool, lines: Seq<Seq<char>>) -> Seq<Seq<char>>
    decreases lines.len(),
{
    if lines.len() == 0 {
        Seq::empty()
    } else {
        let line = spec_trim(lines[0]);
        let rest = lines.drop_first();
        if line.len() == 0 {
            if eb { fmt_rows(indent, eb, el, rest) } else { seq![Seq::<char>::empty()] + fmt_rows(indent, el, true, rest) }
        } else {
            let ind1 = if line[0] == '}' && indent > 0 { (indent - 1) as nat } else { indent };
            let later_closes = sat_sub(count_char(line, '}'), if line[0] == '}' { 1 } else { 0 });
            seq![indentation(ind1) + line] + fmt_rows(sat_sub(sat_add(ind1, count_char(line, '{')), later_closes), false, true, rest)
        }
    }
}

proof fn lemma_fmt_lines_rows(out: Seq<char>, indent: nat, lines: Seq<Seq<char>>)
    ensures
        fmt_lines(out, indent, lines) == out + concat_rows(fmt_rows(indent, ends_blank(out), ends_newline(out), lines)),
    decreases lines.len(),
{
    if lines.len() == 0 {
        assert(out + concat_rows(Seq::empty()) =~= out);
    } else {
        let line = spec_trim(lines[0]);
        let rest = lines.drop_first();
        if line.len() == 0 {
            if ends_blank(out) {
                lemma_fmt_lines_rows(out, indent, rest);
            } else {
                let o2 = out.push('\n');
                assert(ends_blank(o2) == ends_newline(out));
                assert(ends_newline(o2));
                lemma_fmt_lines_rows(o2, indent, rest);
                let fr = fmt_rows(indent, ends_newline(out), true, rest);
                assert((seq![Seq::<char>::empty()] + fr).drop_first() =~= fr);
                assert(o2 + concat_rows(fr) =~= out + concat_rows(seq![Seq::<char>::empty()] + fr));
            }
        } else {
            let ind1 = if line[0] == '}' && indent > 0 { (indent - 1) as nat } else { indent };
            let later_closes = sat_sub(count_char(line, '}'), if line[0] == '}' { 1 } else { 0 });
            let ni = sat_sub(sat_add(ind1, count_char(line, '{')), later_closes);
            let row = indentation(ind1) + line;
            let out2 = out + row + seq!['\n'];
            lemma_trim_last(lines[0]);
            assert(out2[out2.len() - 2] == line.last());
            assert(!ends_blank(out2));
            assert(ends_newline(out2));
            lemma_fmt_lines_rows(out2, ni, rest);
            let fr = fmt_rows(ni, false, true, rest);
            assert((seq![row] + fr).drop_first() =~= fr);
            assert(out + indentation(ind1) + line + seq!['\n'] == out2);
            assert(out2 + concat_rows(fr) =~= out + concat_rows(seq![row] + fr));
        }
    }
}

proof fn lemma_fmt_rows_ok(indent: nat, eb: bool, el: bool, lines: Seq<Seq<char>>)
    requires
        single_lines(lines),
    ensures
        forall|i: int| 0 <= i < fmt_rows(indent, eb, el, lines).len() ==> row_ok(#[trigger] fmt_rows(indent, eb, el, lines)[i]),
    decreases lines.len(),
{
    let r = fmt_rows(indent, eb, el, lines);
    if lines.len() > 0 {
        let line = spec_trim(lines[0]);
        let rest = lines.drop_first();
        assert(single_lines(rest)) by {
            assert forall|i: int, j: int| 0 <= i < rest.len() && 0 <= j < rest[i].len() implies #[trigger] rest[i][j] != '\n' by {
                assert(rest[i] == lines[i + 1]);
                assert(lines[i + 1][j] != '\n');
            }
        }
        if line.len() == 0 {
            if eb {
                lemma_fmt_rows_ok(indent, eb, el, rest);
                assert(r == fmt_rows(indent, eb, el, rest));
            } else {
                lemma_fmt_rows_ok(indent, el, true, rest);
                let fr = fmt_rows(indent, el, true, rest);
                assert(r == seq![Seq::<char>::empty()] + fr);
                assert(row_ok(r[0]));
                assert forall|i: int| 0 <= i < r.len() implies row_ok(#[trigger] r[i]) by {
                    if i > 0 { assert(r[i] == fr[i - 1]); }
                }
            }
        } else {
            let ind1 = if line[0] == '}' && indent > 0 { (indent - 1) as nat } else { indent };
            let later_closes = sat_sub(count_char(line, '}'), if line[0] == '}' { 1 } else { 0 });
            let ni = sat_sub(sat_add(ind1, count_char(line, '{')), later_closes);
            lemma_fmt_rows_ok(ni, false, true, rest);
            let fr = fmt_rows(ni, false, true, rest);
            let row = indentation(ind1) + line;
            assert(r == seq![row] + fr);
            assert forall|j: int| 0 <= j < lines[0].len() implies lines[0][j] != '\n' by {
                assert(lines[0][j] != '\n');
            }
            lemma_trim_keeps_out(lines[0], '\n');
            lemma_indentation_spaces(ind1);
            lemma_trim_last(lines[0]);
            assert(row_ok(row)) by {
                assert forall|j: int| 0 <= j < row.len() implies row[j] != '\n' by {
                    if j < indentation(ind1).len() {
                        assert(row[j] == indentation(ind1)[j]);
                    } else {
                        assert(row[j] == line[j - indentation(ind1).len()]);
                    }
                }
                assert(row.last() == line.last());
            }
            assert forall|i: int| 0 <= i < r.len() implies row_ok(#[trigger] r[i]) by {
                if i > 0 { assert(r[i] == fr[i - 1]); }
            }
        }
    }
}

proof fn lemma_fmt_rows_fixed(indent: nat, eb: bool, el: bool, lines: Seq<Seq<char>>, k: int)
    requires
        single_lines(lines),
        0 <= k <= fmt_rows(indent, eb, el, lines).len(),
    ensures
        fmt_rows(indent, eb, el, fmt_rows(indent, eb, el, lines).take(k)) == fmt_rows(indent, eb, el, lines).take(k),
    decreases lines.len(),
{
    let r = fmt_rows(indent, eb, el, lines);
    if k == 0 {
        assert(r.take(0) =~= Seq::<Seq<char>>::empty());
    } else {
        let line = spec_trim(lines[0]);
        let rest = lines.drop_first();
        assert(single_lines(rest)) by {
            assert forall|i: int, j: int| 0 <= i < rest.len() && 0 <= j < rest[i].len() implies #[trigger] rest[i][j] != '\n' by {
                assert(rest[i] == lines[i + 1]);
                assert(lines[i + 1][j] != '\n');
            }
        }
        if line.len() == 0 {
            if eb {
                lemma_fmt_rows_fixed(indent, eb, el, rest, k);
            } else {
                let fr = fmt_rows(indent, el, true, rest);
                let e = Seq::<char>::empty();
                lemma_fmt_rows_fixed(indent, el, true, rest, k - 1);
                assert(r.take(k) =~= seq![e] + fr.take(k - 1));
                assert(spec_trim(e) =~= e);
                assert((seq![e] + fr.take(k - 1)).drop_first() =~= fr.take(k - 1));
            }
        } else {
            let ind1 = if line[0] == '}' && indent > 0 { (indent - 1) as nat } else { indent };
            let later_closes = sat_sub(count_char(line, '}'), if line[0] == '}' { 1 } else { 0 });
            let ni = sat_sub(sat_add(ind1, count_char(line, '{')), later_closes);
            let fr = fmt_rows(ni, false, true, rest);
            let row = indentation(ind1) + line;
            lemma_fmt_rows_fixed(ni, false, true, rest, k - 1);
            lemma_trim_row(ind1, lines[0]);
            assert(r.take(k) =~= seq![row] + fr.take(k - 1));
            assert((seq![row] + fr.take(k - 1)).drop_first() =~= fr.take(k - 1));
            assert(spec_trim(row) == line);
        }
    }
}

/// The rows without the empty rows at their end.
pub open spec fn strip_blank_rows(rows: Seq<Seq<char>>) -> Seq<Seq<char>>
    decreases rows.len(),
{
    if rows.len() > 0 && rows.last().len() == 0 { strip_blank_rows(rows.drop_last()) } else { rows }
}

proof fn lemma_strip_blank_rows(rows: Seq<Seq<char>>)
    ensures
        strip_blank_rows(rows).len() <= rows.len(),
        strip_blank_rows(rows) == rows.take(strip_blank_rows(rows).len() as int),
        strip_blank_rows(rows).len() > 0 ==> strip_blank_rows(rows).last().len() > 0,
        forall|i: int| strip_blank_rows(rows).len() <= i < rows.len() ==> (#[trigger] rows[i]).len() == 0,
    decreases rows.len(),
{
    if rows.len() > 0 && rows.last().len() == 0 {
        lemma_strip_blank_rows(rows.drop_last());
        let n = strip_blank_rows(rows).len() as int;
        assert(rows.drop_last().take(n) =~= rows.take(n));
        assert forall|i: int| n <= i < rows.len() implies (#[trigger] rows[i]).len() == 0 by {
            if i < rows.len() - 1 {
                assert(rows[i] == rows.drop_last()[i]);
            }
        }
    } else {
        assert(rows.take(rows.len() as int) =~= rows);
    }
}

proof fn lemma_concat_rows_append(a: Seq<Seq<char>>, b: Seq<Seq<char>>)
    ensures
        concat_rows(a + b) == concat_rows(a) + concat_rows(b),
    decreases a.len(),
{
    if a.len() == 0 {
        assert(a + b =~= b);
        assert(concat_rows(a) == Seq::<char>::empty());
        assert(concat_rows(a) + concat_rows(b) =~= concat_rows(b));
    } else {
        lemma_concat_rows_append(a.drop_first(), b);
        assert((a + b).drop_first() =~= a.drop_first() + b);
        assert((a + b)[0] == a[0]);
        assert(concat_rows(a + b) =~= concat_rows(a) + concat_rows(b));
    }
}

proof fn lemma_concat_blank_rows(b: Seq<Seq<char>>)
    requires
        forall|i: int| 0 <= i < b.len() ==> (#[trigger] b[i]).len() == 0,
    ensures
        forall|j: int| 0 <= j < concat_rows(b).len() ==> concat_rows(b)[j] == '\n',
    decreases b.len(),
{
    if b.len() > 0 {
        let rest = b.drop_first();
        assert forall|i: int| 0 <= i < rest.len() implies (#[trigger] rest[i]).len() == 0 by {
            assert(rest[i] == b[i + 1]);
        }
        lemma_concat_blank_rows(rest);
        assert(b[0] =~= Seq::<char>::empty());
        assert(concat_rows(b) =~= seq!['\n'] + concat_rows(rest));
    }
}

proof fn lemma_trim_end_newlines(p: Seq<char>, tail: Seq<char>)
    requires
        p.len() == 0 || !crate::text::spec_is_whitespace(p.last()),
        forall|j: int| 0 <= j < tail.len() ==> tail[j] == '\n',
    ensures
        spec_trim_end(p + tail) == p,
    decreases tail.len(),
{
    if tail.len() > 0 {
        assert((p + tail).last() == '\n');
        assert((p + tail).drop_last() =~= p + tail.drop_last());
        lemma_trim_end_newlines(p, tail.drop_last());
    } else {
        assert(p + tail =~= p);
        if p.len() > 0 {
            assert(spec_trim_end(p) == p);
        }
    }
}

/// Where the formatted rows leave off: the text of rows `rows` whose last row
/// is not empty, trimmed at its end, then closed with one line feed, is the
/// rows each with its line feed; with no such row it is one line feed.
proof fn lemma_fmt_result(rows: Seq<Seq<char>>)
    requires
        forall|i: int| 0 <= i < rows.len() ==> row_ok(#[trigger] rows[i]),
    ensures
        strip_blank_rows(rows).len() > 0 ==> spec_trim_end(concat_rows(rows)) + seq!['\n'] == concat_rows(strip_blank_rows(rows)),
        strip_blank_rows(rows).len() == 0 ==> spec_trim_end(concat_rows(rows)) + seq!['\n'] == seq!['\n'],
{
    lemma_strip_blank_rows(rows);
    let kept = strip_blank_rows(rows);
    let n = kept.len() as int;
    let blanks = rows.skip(n);
    assert(kept + blanks =~= rows);
    lemma_concat_rows_append(kept, blanks);
    assert forall|i: int| 0 <= i < blanks.len() implies (#[trigger] blanks[i]).len() == 0 by {
        assert(blanks[i] == rows[i + n]);
    }
    lemma_concat_blank_rows(blanks);
    if n > 0 {
        let lastrow = kept.last();
        assert(row_ok(rows[n - 1]));
        assert(lastrow == rows[n - 1]);
        crate::lsp::lemma_concat_rows_push_pub(kept.drop_last(), lastrow);
        assert(kept.drop_last().push(lastrow) =~= kept);
        let p = concat_rows(kept.drop_last()) + lastrow;
        assert(p.last() == lastrow.last());
        assert(concat_rows(kept) == p + seq!['\n']);
        let tail = seq!['\n'] + concat_rows(blanks);
        assert forall|j: int| 0 <= j < tail.len() implies tail[j] == '\n' by {
            if j > 0 { assert(tail[j] == concat_rows(blanks)[j - 1]); }
        }
        assert(concat_rows(rows) =~= p + tail);
        lemma_trim_end_newlines(p, tail);
    } else {
        assert(kept =~= Seq::<Seq<char>>::empty());
        assert(concat_rows(kept) == Seq::<char>::empty());
        assert(concat_rows(rows) =~= concat_rows(blanks));
        lemma_trim_end_newlines(Seq::empty(), concat_rows(blanks));
        assert(Seq::<char>::empty() + concat_rows(blanks) =~= concat_rows(blanks));
        assert(Seq::<char>::empty() + seq!['\n'] =~= seq!['\n']);
    }
}

/// Formatting formatted text changes nothing.
pub proof fn law_format_idempotent(src: Seq<char>)
    ensures
        spec_format_source(spec_format_source(src)) == spec_format_source(src),
{
    let lines = spec_lines(src);
    lemma_lines_single(src);
    lemma_fmt_lines_rows(Seq::empty(), 0, lines);
    let rows = fmt_rows(0, false, false, lines);
    assert(Seq::<char>::empty() + concat_rows(rows) =~= concat_rows(rows));
    lemma_fmt_rows_ok(0, false, false, lines);
    lemma_fmt_result(rows);
    lemma_strip_blank_rows(rows);
    let kept = strip_blank_rows(rows);
    let r = spec_format_source(src);
    if kept.len() > 0 {
        assert(r == concat_rows(kept));
        assert forall|i: int| 0 <= i < kept.len() implies row_ok(#[trigger] kept[i]) by {
            assert(kept[i] == rows[i]);
        }
        lemma_lines_of_rows(kept);
        lemma_fmt_rows_fixed(0, false, false, lines, kept.len() as int);
        assert(fmt_rows(0, false, false, kept) == kept);
        lemma_fmt_lines_rows(Seq::empty(), 0, kept);
        assert(Seq::<char>::empty() + concat_rows(kept) =~= concat_rows(kept));
        lemma_fmt_result(kept);
        lemma_strip_blank_rows(kept);
        assert(strip_blank_rows(kept) == kept);
    } else {
        assert(r == seq!['\n']);
        let one = seq![Seq::<char>::empty()];
        assert(concat_rows(one) =~= seq!['\n']) by {
            assert(one.drop_first() =~= Seq::<Seq<char>>::empty());
            assert(concat_rows(one.drop_first()) == Seq::<char>::empty());
        }
        assert forall|i: int| 0 <= i < one.len() implies row_ok(#[trigger] one[i]) by {}
        lemma_lines_of_rows(one);
        assert(spec_lines(r) == one);
        lemma_fmt_lines_rows(Seq::empty(), 0, one);
        assert(spec_trim(one[0]) =~= Seq::<char>::empty());
        assert(fmt_rows(0, false, true, one.drop_first()) == Seq::<Seq<char>>::empty());
        assert(fmt_rows(0, false, false, one) =~= one);
        assert(Seq::<char>::empty() + concat_rows(one) =~= concat_rows(one));
        lemma_fmt_result(one);
        lemma_strip_blank_rows(one);
        assert(strip_blank_rows(one.drop_last()) =~= Seq::<Seq<char>>::empty());
    }
}

/// Whether a line is already trimmed and free of braces and line feeds.
pub open spec fn plain_line(s: Seq<char>) -> bool {
    &&& s.len() > 0
    &&& !crate::text::spec_is_whitespace(s[0])
    &&& !crate::text::spec_is_whitespace(s.last())
    &&& forall|j: int| 0 <= j < s.len() ==> s[j] != '\n' && s[j] != '{' && s[j] != '}'
}

proof fn lemma_trim_plain(s: Seq<char>)
    requires
        s.len() > 0,
        !crate::text::spec_is_whitespace(s[0]),
        !crate::text::spec_is_whitespace(s.last()),
    ensures
        spec_trim(s) == s,
{
    assert(crate::text::spec_trim_start(s) == s);
}

proof fn lemma_count_append(a: Seq<char>, b: Seq<char>, c: char)
    ensures
        count_char(a + b, c) == count_char(a, c) + count_char(b, c),
    decreases b.len(),
{
    if b.len() == 0 {
        assert(a + b =~= a);
    } else {
        assert((a + b).drop_last() =~= a + b.drop_last());
        lemma_count_append(a, b.drop_last(), c);
    }
}

proof fn lemma_count_absent(s: Seq<char>, c: char)
    requires
        forall|j: int| 0 <= j < s.len() ==> s[j] != c,
    ensures
        count_char(s, c) == 0,
    decreases s.len(),
{
    if s.len() > 0 {
        lemma_count_absent(s.drop_last(), c);
    }
}

/// The lines inside a block are indented by four spaces and the closing
/// brace goes back to the block's own level: a header line ending in `{`,
/// one body line and a line `}`, however they were indented, format as the
/// header, the body line after four spaces, and the brace.
pub proof fn law_format_block(h: Seq<char>, body: Seq<char>, hi: Seq<char>, bi: Seq<char>, ci: Seq<char>)
    requires
        plain_line(h),
        plain_line(body),
        forall|j: int| 0 <= j < hi.len() ==> hi[j] == ' ',
        forall|j: int| 0 <= j < bi.len() ==> bi[j] == ' ',
        forall|j: int| 0 <= j < ci.len() ==> ci[j] == ' ',
    ensures
        spec_format_source(hi + h + seq![' ', '{', '\n'] + bi + body + seq!['\n'] + ci + seq!['}', '\n'])
            == h + seq![' ', '{', '\n', ' ', ' ', ' ', ' '] + body + seq!['\n', '}', '\n'],
{
    let r1 = h + seq![' ', '{'];
    let r2 = body;
    let r3 = seq!['}'];
    let src = hi + h + seq![' ', '{', '\n'] + bi + body + seq!['\n'] + ci + seq!['}', '\n'];
    let x1 = hi + r1;
    let x2 = bi + r2;
    let x3 = ci + r3;
    let rows = seq![x1, x2, x3];
    assert(forall|j: int| 0 <= j < r1.len() ==> r1[j] != '\n');
    assert(row_ok(x1)) by {
        assert forall|j: int| 0 <= j < x1.len() implies x1[j] != '\n' by {
            if j < hi.len() { assert(x1[j] == hi[j]); } else { assert(x1[j] == r1[j - hi.len()]); }
        }
        assert(x1.last() == '{');
    }
    assert(row_ok(x2)) by {
        assert forall|j: int| 0 <= j < x2.len() implies x2[j] != '\n' by {
            if j < bi.len() { assert(x2[j] == bi[j]); } else { assert(x2[j] == body[j - bi.len()]); }
        }
        assert(x2.last() == body.last());
    }
    assert(row_ok(x3)) by {
        assert forall|j: int| 0 <= j < x3.len() implies x3[j] != '\n' by {
            if j < ci.len() { assert(x3[j] == ci[j]); } else { assert(x3[j] == '}'); }
        }
        assert(x3.last() == '}');
    }
    assert forall|i: int| 0 <= i < rows.len() implies row_ok(#[trigger] rows[i]) by {}
    assert(concat_rows(rows) =~= src) by {
        assert(rows.drop_first() =~= seq![x2, x3]);
        assert(seq![x2, x3].drop_first() =~= seq![x3]);
        assert(seq![x3].drop_first() =~= Seq::<Seq<char>>::empty());
        assert(concat_rows(Seq::<Seq<char>>::empty()) == Seq::<char>::empty());
        assert(concat_rows(seq![x3]) == x3 + seq!['\n'] + Seq::<char>::empty());
        assert(concat_rows(seq![x2, x3]) == x2 + seq!['\n'] + concat_rows(seq![x3]));
        assert(concat_rows(rows) == x1 + seq!['\n'] + concat_rows(seq![x2, x3]));
    }
    lemma_lines_of_rows(rows);
    assert(spec_lines(src) == rows);
    // each line trims to its text
    lemma_indentation_spaces(0);
    crate::lsp::lemma_trim_start_spaces_pub(hi, r1);
    crate::lsp::lemma_trim_start_spaces_pub(bi, r2);
    crate::lsp::lemma_trim_start_spaces_pub(ci, r3);
    lemma_trim_plain(r1);
    lemma_trim_plain(r2);
    lemma_trim_plain(r3);
    assert(x1.last() == r1.last() && x2.last() == r2.last() && x3.last() == r3.last());
    assert(spec_trim(x1) == r1);
    assert(spec_trim(x2) == r2);
    assert(spec_trim(x3) == r3);
    // brace counts
    lemma_count_absent(h, '{');
    lemma_count_absent(h, '}');
    lemma_count_append(h, seq![' ', '{'], '{');
    lemma_count_append(h, seq![' ', '{'], '}');
    assert(seq![' ', '{'].drop_last() =~= seq![' ']);
    assert(seq![' '].drop_last() =~= Seq::<char>::empty());
    assert(count_char(Seq::<char>::empty(), '{') == 0);
    assert(count_char(Seq::<char>::empty(), '}') == 0);
    assert(count_char(seq![' '], '{') == 0);
    assert(count_char(seq![' '], '}') == 0);
    assert(count_char(seq![' ', '{'], '{') == 1);
    assert(count_char(seq![' ', '{'], '}') == 0);
    lemma_count_absent(body, '{');
    lemma_count_absent(body, '}');
    assert(count_char(r3, '{') == 0 && count_char(r3, '}') == 1) by {
        assert(r3.drop_last() =~= Seq::<char>::empty());
    }
    // the three steps
    let e = Seq::<char>::empty();
    assert(indentation(0) =~= e);
    assert(indentation(1) =~= seq![' ', ' ', ' ', ' ']) by {
        reveal_strlit("    ");
    }
    assert(r1[0] == h[0]);
    let o1 = e + indentation(0) + r1 + seq!['\n'];
    let o2 = o1 + indentation(1) + r2 + seq!['\n'];
    let o3 = o2 + indentation(0) + r3 + seq!['\n'];
    assert(rows.drop_first().drop_first().drop_first() =~= Seq::<Seq<char>>::empty());
    assert(rows.drop_first()[0] == x2);
    assert(rows.drop_first().drop_first()[0] == x3);
    assert(fmt_lines(o3, 0, rows.drop_first().drop_first().drop_first()) == o3);
    assert(fmt_lines(o2, 1, rows.drop_first().drop_first()) == fmt_lines(o3, 0, rows.drop_first().drop_first().drop_first()));
    assert(fmt_lines(o1, 1, rows.drop_first()) == fmt_lines(o2, 1, rows.drop_first().drop_first()));
    assert(fmt_lines(e, 0, rows) == fmt_lines(o1, 1, rows.drop_first()));
    let want = h + seq![' ', '{', '\n', ' ', ' ', ' ', ' '] + body + seq!['\n', '}', '\n'];
    assert(o3 =~= want);
    let p = want.drop_last();
    assert(p.last() == '}');
    assert(p + seq!['\n'] =~= want);
    lemma_trim_end_newlines(p, seq!['\n']);
}

fn count_in(v: &Vec<char>, c: char) -> (r: usize)
    ensures
        r == count_char(v@, c),
{
    let mut n: usize = 0;
    let mut i: usize = 0;
    while i < v.len()
        invariant
            i <= v.len(),
            n <= i,
            n == count_char(v@.take(i as int), c),
        decreases v.len() - i,
    {
        assert(v@.take(i + 1).drop_last() =~= v@.take(i as int));
        if v[i] == c {
            n += 1;
        }
        i += 1;
    }
    assert(v@.take(i as int) =~= v@);
    n
}

fn trim_end_chars(v: &Vec<char>) -> (r: Vec<char>)
    ensures
        r@ == spec_trim_end(v@),
{
    let mut end = v.len();
    assert(v@.take(end as int) =~= v@);
    while end > 0 && is_whitespace(v[end - 1])
        invariant
            end <= v.len(),
            spec_trim_end(v@) == spec_trim_end(v@.take(end as int)),
        decreases end,
    {
        assert(v@.take(end as int).drop_last() =~= v@.take(end - 1));
        end -= 1;
    }
    let mut out: Vec<char> = Vec::new();
    let mut i: usize = 0;
    while i < end
        invariant
            i <= end <= v.len(),
            out@ == v@.take(i as int),
        decreases end - i,
    {
        out.push(v[i]);
        assert(out@ =~= v@.take(i + 1));
        i += 1;
    }
    out
}

/// Formats a Nano source text.
pub fn format_source(src: &str) -> (r: String)
    ensures
        r@ == spec_format_source(src@),
{
    let cs = chars_of(src);
    let lines = lines_of(&cs);
    let ghost lv = rows_view(lines@);
    let mut out: Vec<char> = Vec::new();
    let mut indent: usize = 0;
    let mut i: usize = 0;
    assert(lv.skip(0) =~= lv);
    while i < lines.len()
        invariant
            i <= lines.len(),
            lv == rows_view(lines@),
            lv == spec_lines(src@),
            fmt_lines(Seq::empty(), 0, lv) == fmt_lines(out@, indent as nat, lv.skip(i as int)),
        decreases lines.len() - i,
    {
        assert(lv.skip(i as int).drop_first() =~= lv.skip(i + 1));
        assert(lv.skip(i as int)[0] == lines@[i as int]@);
        let ghost o0 = out@;
        let ghost ind0 = indent as nat;
        let line = trim_chars(&lines[i]);
        if line.len() == 0 {
            let n = out.len();
            let ends_blank = n >= 2 && out[n - 1] == '\n' && out[n - 2] == '\n';
            if !ends_blank {
                out.push('\n');
            }
        } else {
            let ghost leading = line@[0] == '}' && ind0 > 0;
            if line[0] == '}' && indent > 0 {
                indent -= 1;
            }
            let ghost ind1 = indent as nat;
            push_indentation(&mut out, indent);
            push_chars(&mut out, &line);
            out.push('\n');
            let opens = count_in(&line, '{');
            let closes = count_in(&line, '}');
            let later_closes = if line[0] == '}' { closes.saturating_sub(1) } else { closes };
            indent = indent.saturating_add(opens).saturating_sub(later_closes);
            assert(line@[0] == spec_trim(lv.skip(i as int)[0])[0]);
            assert(out@ == o0 + indentation(ind1) + line@ + seq!['\n']);
            assert(ind1 == if leading { (ind0 - 1) as nat } else { ind0 });
        }
        assert(fmt_lines(o0, ind0, lv.skip(i as int)) == fmt_lines(out@, indent as nat, lv.skip(i + 1)));
        i += 1;
    }
    assert(lv.skip(i as int) =~= Seq::<Seq<char>>::empty());
    let mut t = trim_end_chars(&out);
    t.push('\n');
    string_of(&t)
}

/// Appends `n` copies of four spaces.
fn push_indentation(out: &mut Vec<char>, n: usize)
    ensures
        final(out)@ == old(out)@ + indentation(n as nat),
{
    let mut k: usize = 0;
    assert(old(out)@ + indentation(0) =~= old(out)@);
    while k < n
        invariant
            k <= n,
            out@ == old(out)@ + indentation(k as nat),
        decreases n - k,
    {
        push_str(out, "    ");
        assert(old(out)@ + indentation(k as nat) + "    "@ =~= old(out)@ + indentation((k + 1) as nat));
        k += 1;
    }
}

} // verus!
