//! The text of HTTP/1.1 exchanges: the request the runtime sends and the
//! reading of the response it gets back.
use vstd::prelude::*;
use crate::codegen::{dec, push_dec};
use crate::lsp::{lines_of, rows_view, spec_lines};
use crate::selfhost::{find_char, index_of, is_float_chars, is_float_text, sub_chars};
use crate::semantic::table;
use crate::text::{ascii_lower_chars, ascii_upper, chars_of, push_chars, push_str, spec_ascii_lower_seq, spec_ascii_upper, spec_trim, string_of, trim_chars};

verus! {

/// The headers as lines `key: value`.
pub open spec fn header_lines(h: Seq<(Seq<char>, Seq<char>)>) -> Seq<char>
    decreases h.len(),
{
    if h.len() == 0 { Seq::empty() } else { header_lines(h.drop_last()) + h.last().0 + ": "@ + h.last().1 + "\r\n"@ }
}

pub open spec fn pairs_view(v: Seq<(String, String)>) -> Seq<(Seq<char>, Seq<char>)> {
    Seq::new(v.len(), |i: int| (v[i].0@, v[i].1@))
}

/// The request: the method in capitals, the path, the host, a closed
/// connection and the user agent, the headers in order, the length of the
/// body in bytes when there is one, an empty line, and the body.
pub open spec fn spec_request(method: Seq<char>, host: Seq<char>, path: Seq<char>, headers: Seq<(Seq<char>, Seq<char>)>, body: Seq<char>) -> Seq<char> {
    Seq::new(method.len(), |i: int| spec_ascii_upper(method[i])) + " "@ + path + " HTTP/1.1\r\nHost: "@ + host
        + "\r\nConnection: close\r\nUser-Agent: Nano/1.0\r\n"@ + header_lines(headers)
        + (if body.len() > 0 { "Content-Length: "@ + dec(vstd::utf8::encode_utf8(body).len()) + "\r\n"@ } else { Seq::empty() })
        + "\r\n"@ + body
}

/// The text of an HTTP request, as `spec_request` says.
pub fn build_request(method: &str, host: &str, path: &str, headers: &Vec<(String, String)>, body: &str) -> (r: String)
    ensures
        r@ == spec_request(method@, host@, path@, pairs_view(headers@), body@),
{
    let m = chars_of(method);
    let mut out: Vec<char> = Vec::new();
    let mut i: usize = 0;
    while i < m.len()
        invariant
            i <= m.len(),
            m@ == method@,
            out@ == Seq::new(i as nat, |j: int| spec_ascii_upper(method@[j])),
        decreases m.len() - i,
    {
        out.push(ascii_upper(m[i]));
        assert(out@ =~= Seq::new((i + 1) as nat, |j: int| spec_ascii_upper(method@[j])));
        i += 1;
    }
    push_str(&mut out, " ");
    push_chars(&mut out, &chars_of(path));
    push_str(&mut out, " HTTP/1.1\r\nHost: ");
    push_chars(&mut out, &chars_of(host));
    push_str(&mut out, "\r\nConnection: close\r\nUser-Agent: Nano/1.0\r\n");
    let ghost o = out@;
    let ghost hv = pairs_view(headers@);
    let mut k: usize = 0;
    assert(hv.take(0) =~= Seq::<(Seq<char>, Seq<char>)>::empty());
    while k < headers.len()
        invariant
            k <= headers.len(),
            hv == pairs_view(headers@),
            out@ == o + header_lines(hv.take(k as int)),
        decreases headers.len() - k,
    {
        assert(hv.take(k + 1).drop_last() =~= hv.take(k as int));
        assert(hv.take(k + 1).last() == (headers@[k as int].0@, headers@[k as int].1@));
        push_chars(&mut out, &chars_of(headers[k].0.as_str()));
        push_str(&mut out, ": ");
        push_chars(&mut out, &chars_of(headers[k].1.as_str()));
        push_str(&mut out, "\r\n");
        assert(out@ =~= o + header_lines(hv.take(k + 1)));
        k += 1;
    }
    assert(hv.take(k as int) =~= hv);
    let b = chars_of(body);
    if b.len() > 0 {
        push_str(&mut out, "Content-Length: ");
        push_dec(&mut out, body.as_bytes().len());
        push_str(&mut out, "\r\n");
    }
    push_str(&mut out, "\r\n");
    push_chars(&mut out, &b);
    assert(out@ =~= spec_request(method@, host@, path@, hv, body@));
    string_of(&out)
}

/// The first index at which `p` occurs in `s`.
pub open spec fn find_seq(s: Seq<char>, p: Seq<char>) -> Option<int>
    decreases s.len(),
{
    if s.len() < p.len() {
        None
    } else if s.take(p.len() as int) == p {
        Some(0)
    } else if s.len() == 0 {
        None
    } else {
        match find_seq(s.drop_first(), p) {
            Some(i) => Some(i + 1),
            None => None,
        }
    }
}

/// A response: the status code as written, the reason, the headers with
/// their names in lower case (a later one replacing an earlier one of the
/// same name) and the body.
#[derive(Debug)]
pub struct HttpResponse {
    pub status: String,
    pub reason: String,
    pub headers: Vec<(String, String)>,
    pub body: String,
}

/// The headers of the lines after the status line: each line with a colon
/// gives a name, trimmed and in lower case, and a trimmed value.
pub open spec fn header_entries(lines: Seq<Seq<char>>) -> Seq<(Seq<char>, Seq<char>)>
    decreases lines.len(),
{
    if lines.len() == 0 {
        Seq::empty()
    } else {
        let prev = header_entries(lines.drop_last());
        let line = lines.last();
        match index_of(line, ':') {
            Some(i) => prev.push((spec_ascii_lower_seq(spec_trim(line.take(i))), spec_trim(line.skip(i + 1)))),
            None => prev,
        }
    }
}

/// A response read from its text: the status code, reason, headers and
/// body, or why the text is not a response.
pub open spec fn spec_parse_response(s: Seq<char>) -> Result<(Seq<char>, Seq<char>, Map<Seq<char>, Seq<char>>, Seq<char>), Seq<char>> {
    match find_seq(s, "\r\n\r\n"@) {
        None => Err("Nano HTTP: resposta inválida"@),
        Some(i) => {
            let lines = spec_lines(s.take(i));
            let body = s.skip(i + 4);
            if lines.len() == 0 {
                Err("Nano HTTP: status ausente"@)
            } else {
                let status_line = lines[0];
                match index_of(status_line, ' ') {
                    None => Err("Nano HTTP: código de status inválido"@),
                    Some(a) => {
                        let rest = status_line.skip(a + 1);
                        let (code, reason) = match index_of(rest, ' ') {
                            Some(b) => (rest.take(b), rest.skip(b + 1)),
                            None => (rest, Seq::<char>::empty()),
                        };
                        if !is_float_text(code) {
                            Err("Nano HTTP: código de status inválido"@)
                        } else {
                            Ok((code, reason, table(header_entries(lines.drop_first())), body))
                        }
                    },
                }
            }
        },
    }
}


proof fn lemma_find_seq_at(s: Seq<char>, p: Seq<char>, k: int)
    requires
        0 <= k,
        k + p.len() <= s.len() ==> s.subrange(k, k + p.len()) == p,
        k + p.len() <= s.len() || k == s.len() + 1,
        forall|j: int| 0 <= j < k && j + p.len() <= s.len() ==> #[trigger] s.subrange(j, j + p.len()) != p,
        p.len() > 0,
    ensures
        find_seq(s, p) == (if k + p.len() <= s.len() { Some(k) } else { None::<int> }),
    decreases s.len(),
{
    if s.len() < p.len() {
    } else {
        assert(s.take(p.len() as int) =~= s.subrange(0, p.len() as int));
        if k == 0 {
        } else {
            let z: int = 0;
            assert(s.subrange(z, z + p.len()) != p);
            assert(s.subrange(z, z + p.len()) =~= s.subrange(0, p.len() as int));
            let t = s.drop_first();
            assert forall|j: int| 0 <= j < k - 1 && j + p.len() <= t.len() implies #[trigger] t.subrange(j, j + p.len()) != p by {
                assert(t.subrange(j, j + p.len()) =~= s.subrange(j + 1, j + 1 + p.len()));
            }
            if k + p.len() <= s.len() {
                assert(t.subrange(k - 1, k - 1 + p.len()) =~= s.subrange(k, k + p.len()));
            }
            lemma_find_seq_at(t, p, k - 1);
        }
    }
}

/// The first index of `"\r\n\r\n"` in `v`.
fn find_blank_line(v: &Vec<char>) -> (r: Option<usize>)
    ensures
        match find_seq(v@, "\r\n\r\n"@) {
            Some(i) => 0 <= i && i + 4 <= v.len() && r == Some(i as usize),
            None => r is None,
        },
{
    proof { reveal_strlit("\r\n\r\n"); }
    let ghost p = "\r\n\r\n"@;
    assert(p.len() == 4);
    let mut k: usize = 0;
    while v.len() >= 4 && k <= v.len() - 4
        invariant
            k <= v.len() + 1,
            p == "\r\n\r\n"@,
            p.len() == 4,
            p[0] == '\r' && p[1] == '\n' && p[2] == '\r' && p[3] == '\n',
            forall|j: int| 0 <= j < k && j + 4 <= v.len() ==> #[trigger] v@.subrange(j, j + 4) != p,
        decreases v.len() - k,
    {
        if v[k] == '\r' && v[k + 1] == '\n' && v[k + 2] == '\r' && v[k + 3] == '\n' {
            assert(v@.subrange(k as int, k + 4) =~= p);
            proof { lemma_find_seq_at(v@, p, k as int); }
            return Some(k);
        }
        assert(v@.subrange(k as int, k + 4)[0] == v@[k as int]);
        assert(v@.subrange(k as int, k + 4)[1] == v@[k + 1]);
        assert(v@.subrange(k as int, k + 4)[2] == v@[k + 2]);
        assert(v@.subrange(k as int, k + 4)[3] == v@[k + 3]);
        k += 1;
    }
    proof {
        if v.len() + 1 >= 4 {
            assert(forall|j: int| 0 <= j < v.len() + 1 && j + 4 <= v.len() ==> #[trigger] v@.subrange(j, j + 4) != p);
            lemma_find_seq_at(v@, p, v.len() + 1);
        } else {
            lemma_find_seq_at(v@, p, v.len() + 1);
        }
    }
    None
}

pub open spec fn response_view(r: HttpResponse) -> (Seq<char>, Seq<char>, Map<Seq<char>, Seq<char>>, Seq<char>) {
    (r.status@, r.reason@, table(pairs_view(r.headers@)), r.body@)
}

/// The headers of the lines after the status line, as `header_entries`
/// says.
fn read_headers(lines: &Vec<Vec<char>>) -> (r: Vec<(String, String)>)
    requires
        lines.len() >= 1,
    ensures
        pairs_view(r@) == header_entries(rows_view(lines@).drop_first()),
{
    let ghost rest = rows_view(lines@).drop_first();
    let mut out: Vec<(String, String)> = Vec::new();
    let mut i: usize = 1;
    assert(rest.take(0) =~= Seq::<Seq<char>>::empty());
    assert(pairs_view(out@) =~= Seq::<(Seq<char>, Seq<char>)>::empty());
    while i < lines.len()
        invariant
            1 <= i <= lines.len(),
            rest == rows_view(lines@).drop_first(),
            pairs_view(out@) == header_entries(rest.take(i - 1)),
        decreases lines.len() - i,
    {
        assert(rest.take(i as int).drop_last() =~= rest.take(i - 1));
        assert(rest.take(i as int).last() == lines@[i as int]@);
        let line = &lines[i];
        match find_char(line, ':', 0) {
            Some(c) => {
                assert(line@.skip(0) =~= line@);
                let key = trim_chars(&sub_chars(line, 0, c));
                let key = ascii_lower_chars(&key);
                let value = trim_chars(&sub_chars(line, c + 1, line.len()));
                assert(line@.subrange(0, c as int) =~= line@.take(c as int));
                assert(line@.subrange(c + 1, line@.len() as int) =~= line@.skip(c + 1));
                let ghost before = pairs_view(out@);
                out.push((string_of(&key), string_of(&value)));
                assert(pairs_view(out@) =~= before.push((key@, value@)));
            },
            None => {
                assert(line@.skip(0) =~= line@);
            },
        }
        i += 1;
    }
    assert(rest.take(lines.len() - 1) =~= rest);
    out
}

/// Reads an HTTP response, as `spec_parse_response` says.
pub fn parse_response(response: &str) -> (r: Result<HttpResponse, String>)
    ensures
        match spec_parse_response(response@) {
            Ok(v) => r is Ok && response_view(r->Ok_0) == v,
            Err(m) => r is Err && r->Err_0@ == m,
        },
{
    let s = chars_of(response);
    let split = match find_blank_line(&s) {
        None => return Err(string_of(&chars_of("Nano HTTP: resposta inválida"))),
        Some(i) => i,
    };
    let head = sub_chars(&s, 0, split);
    let body = sub_chars(&s, split + 4, s.len());
    assert(head@ =~= s@.take(split as int));
    assert(body@ =~= s@.skip(split + 4));
    let lines = lines_of(&head);
    assert(rows_view(lines@).len() == lines.len());
    if lines.len() == 0 {
        return Err(string_of(&chars_of("Nano HTTP: status ausente")));
    }
    let status_line = &lines[0];
    assert(rows_view(lines@)[0] == status_line@);
    assert(status_line@.skip(0) =~= status_line@);
    let a = match find_char(status_line, ' ', 0) {
        None => return Err(string_of(&chars_of("Nano HTTP: código de status inválido"))),
        Some(a) => a,
    };
    let rest = sub_chars(status_line, a + 1, status_line.len());
    assert(rest@ =~= status_line@.skip(a + 1));
    assert(rest@.skip(0) =~= rest@);
    let (code, reason) = match find_char(&rest, ' ', 0) {
        Some(b) => {
            let c = sub_chars(&rest, 0, b);
            let r = sub_chars(&rest, b + 1, rest.len());
            assert(c@ =~= rest@.take(b as int));
            assert(r@ =~= rest@.skip(b + 1));
            (c, r)
        },
        None => {
            let c = sub_chars(&rest, 0, rest.len());
            assert(c@ =~= rest@);
            (c, Vec::new())
        },
    };
    if !is_float_chars(&code) {
        return Err(string_of(&chars_of("Nano HTTP: código de status inválido")));
    }
    let headers = read_headers(&lines);
    Ok(HttpResponse { status: string_of(&code), reason: string_of(&reason), headers, body: string_of(&body) })
}


/// The body of a response to an HTTPS request: the status is the second
/// word of the first line, a `u16`, and must be a success (200 to 299).
pub open spec fn spec_tls_body(s: Seq<char>) -> Result<Seq<char>, Seq<char>> {
    match find_seq(s, "\r\n\r\n"@) {
        None => Err("Nano TLS: resposta HTTP inválida"@),
        Some(i) => {
            let lines = spec_lines(s.take(i));
            let words = if lines.len() > 0 { crate::selfhost::ws_tokens(lines[0]) } else { Seq::empty() };
            if words.len() < 2 {
                Err("Nano TLS: status HTTP inválido"@)
            } else {
                match crate::selfhost::spec_parse_usize(words[1]) {
                    Some(n) => if n > 65535 {
                        Err("Nano TLS: status HTTP inválido"@)
                    } else if 200 <= n && n < 300 {
                        Ok(s.skip(i + 4))
                    } else {
                        Err("Nano HTTPS: servidor devolveu HTTP "@ + dec(n))
                    },
                    None => Err("Nano TLS: status HTTP inválido"@),
                }
            }
        },
    }
}

/// The body of a response to an HTTPS request, as `spec_tls_body` says.
pub fn tls_body(response: &str) -> (r: Result<String, String>)
    ensures
        match spec_tls_body(response@) {
            Ok(b) => r is Ok && r->Ok_0@ == b,
            Err(m) => r is Err && r->Err_0@ == m,
        },
{
    let s = chars_of(response);
    let split = match find_blank_line(&s) {
        None => return Err(string_of(&chars_of("Nano TLS: resposta HTTP inválida"))),
        Some(i) => i,
    };
    let head = sub_chars(&s, 0, split);
    assert(head@ =~= s@.take(split as int));
    let lines = lines_of(&head);
    assert(rows_view(lines@).len() == lines.len());
    if lines.len() == 0 {
        return Err(string_of(&chars_of("Nano TLS: status HTTP inválido")));
    }
    assert(rows_view(lines@)[0] == lines@[0]@);
    let words = crate::selfhost::words(&lines[0]);
    assert(rows_view(words@).len() == words.len());
    if words.len() < 2 {
        return Err(string_of(&chars_of("Nano TLS: status HTTP inválido")));
    }
    assert(rows_view(words@)[1] == words@[1]@);
    match crate::selfhost::parse_usize_chars(&words[1]) {
        None => Err(string_of(&chars_of("Nano TLS: status HTTP inválido"))),
        Some(n) => {
            if n > 65535 {
                Err(string_of(&chars_of("Nano TLS: status HTTP inválido")))
            } else if 200 <= n && n < 300 {
                let body = sub_chars(&s, split + 4, s.len());
                assert(body@ =~= s@.skip(split + 4));
                Ok(string_of(&body))
            } else {
                let mut m = chars_of("Nano HTTPS: servidor devolveu HTTP ");
                push_dec(&mut m, n);
                Err(string_of(&m))
            }
        },
    }
}

} // verus!
