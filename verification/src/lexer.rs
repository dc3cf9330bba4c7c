use vstd::prelude::*;
use crate::syntax::{SToken, Token, tokens_view};
use crate::text::{chars_eq_str, push_str, string_of};

verus! {

pub open spec fn is_space(c: char) -> bool {
    c == ' ' || c == '\n' || c == '\r' || c == '\t'
}

pub open spec fn is_digit(c: char) -> bool {
    '0' <= c && c <= '9'
}

pub open spec fn is_ident_start(c: char) -> bool {
    ('a' <= c && c <= 'z') || ('A' <= c && c <= 'Z') || c == '_'
}

pub open spec fn is_ident_char(c: char) -> bool {
    is_ident_start(c) || is_digit(c)
}

pub open spec fn is_number_char(c: char) -> bool {
    is_digit(c) || c == '.'
}

/// Character classes that the lexer reads runs of.
pub enum CharClass {
    /// Anything but a newline: the rest of a comment.
    NotNewline,
    /// Digits and dots: a numeral.
    NumberChar,
    /// Letters, digits and underscores: an identifier.
    IdentChar,
}

pub open spec fn in_class(c: char, k: CharClass) -> bool {
    match k {
        CharClass::NotNewline => c != '\n',
        CharClass::NumberChar => is_number_char(c),
        CharClass::IdentChar => is_ident_char(c),
    }
}

/// Length of the longest prefix of `s` whose characters are in class `p`.
pub open spec fn span(s: Seq<char>, p: CharClass) -> nat
    decreases s.len(),
{
    if s.len() > 0 && in_class(s[0], p) {
        1 + span(s.drop_first(), p)
    } else {
        0
    }
}

pub proof fn lemma_span_len(s: Seq<char>, p: CharClass)
    ensures
        span(s, p) <= s.len(),
        forall|i: int| 0 <= i < span(s, p) ==> in_class(#[trigger] s[i], p),
        span(s, p) < s.len() ==> !in_class(s[span(s, p) as int], p),
    decreases s.len(),
{
    if s.len() > 0 && in_class(s[0], p) {
        lemma_span_len(s.drop_first(), p);
        assert forall|i: int| 0 <= i < span(s, p) implies in_class(#[trigger] s[i], p) by {
            if i > 0 {
                assert(s[i] == s.drop_first()[i - 1]);
            }
        }
    }
}

/// The token of an identifier-shaped word: a keyword or an identifier.
pub open spec fn keyword_token(w: Seq<char>) -> SToken {
    if w == "true"@ {
        SToken::True
    } else if w == "false"@ {
        SToken::False
    } else if w == "use"@ {
        SToken::Use
    } else if w == "function"@ {
        SToken::Function
    } else if w == "print"@ {
        SToken::Print
    } else if w == "if"@ {
        SToken::If
    } else if w == "else"@ {
        SToken::Else
    } else if w == "return"@ {
        SToken::Return
    } else if w == "while"@ {
        SToken::While
    } else if w == "for"@ {
        SToken::For
    } else if w == "in"@ {
        SToken::In
    } else {
        SToken::Ident(w)
    }
}

pub open spec fn unterminated_string() -> Seq<char> {
    "Nano: string não terminada"@
}

/// The character that an escape letter stands for.
pub open spec fn escape_char(x: char) -> Option<char> {
    if x == 'n' {
        Some('\n')
    } else if x == 't' {
        Some('\t')
    } else if x == '"' {
        Some('"')
    } else if x == '\\' {
        Some('\\')
    } else {
        None
    }
}

/// Reads the body of a string literal that starts after its opening quote:
/// the text it denotes and the number of characters it takes, closing quote
/// included.
pub open spec fn spec_string_body(s: Seq<char>) -> Result<(Seq<char>, nat), Seq<char>>
    decreases s.len(),
{
    if s.len() == 0 {
        Err(unterminated_string())
    } else if s[0] == '"' {
        Ok((Seq::empty(), 1))
    } else if s[0] == '\\' {
        if s.len() < 2 {
            Err(unterminated_string())
        } else {
            match escape_char(s[1]) {
                None => Err("Nano: escape inválido \\"@ + seq![s[1]]),
                Some(e) => match spec_string_body(s.skip(2)) {
                    Ok((v, n)) => Ok((seq![e] + v, n + 2)),
                    Err(m) => Err(m),
                },
            }
        }
    } else {
        match spec_string_body(s.drop_first()) {
            Ok((v, n)) => Ok((seq![s[0]] + v, n + 1)),
            Err(m) => Err(m),
        }
    }
}

/// How a character is written inside a string literal: a line feed as `\n`,
/// a tab as `\t`, a quote as `\"`, a backslash as `\\`, any other character
/// as itself.
pub open spec fn written(c: char) -> Seq<char> {
    if c == '\n' {
        seq!['\\', 'n']
    } else if c == '\t' {
        seq!['\\', 't']
    } else if c == '"' {
        seq!['\\', '"']
    } else if c == '\\' {
        seq!['\\', '\\']
    } else {
        seq![c]
    }
}

/// A text written out as the body of a string literal, without quotes.
pub open spec fn written_text(v: Seq<char>) -> Seq<char>
    decreases v.len(),
{
    if v.len() == 0 { Seq::empty() } else { written(v[0]) + written_text(v.drop_first()) }
}

/// A string literal denotes the text that was written into it: the body of
/// a literal that writes `v`, followed by the closing quote and anything,
/// reads as `v`, taking the written characters and the quote.
pub proof fn law_string_literal_round_trip(v: Seq<char>, rest: Seq<char>)
    ensures
        spec_string_body(written_text(v) + seq!['"'] + rest) == Ok::<(Seq<char>, nat), Seq<char>>((v, written_text(v).len() + 1)),
    decreases v.len(),
{
    let s = written_text(v) + seq!['"'] + rest;
    if v.len() == 0 {
        assert(written_text(v) =~= Seq::<char>::empty());
        assert(s[0] == '"');
        assert(spec_string_body(s) == Ok::<(Seq<char>, nat), Seq<char>>((Seq::<char>::empty(), 1)));
        assert(v =~= Seq::<char>::empty());
    } else {
        let c = v[0];
        let tail = v.drop_first();
        law_string_literal_round_trip(tail, rest);
        let s2 = written_text(tail) + seq!['"'] + rest;
        assert(written_text(v) == written(c) + written_text(tail));
        if c == '\n' || c == '\t' || c == '"' || c == '\\' {
            assert(s[0] == '\\');
            assert(s[1] == written(c)[1]);
            assert(escape_char(s[1]) == Some(c));
            assert(s.skip(2) =~= s2);
            assert(seq![c] + tail =~= v);
            assert(written(c).len() == 2);
            assert(spec_string_body(s) == Ok::<(Seq<char>, nat), Seq<char>>((seq![c] + tail, written_text(tail).len() + 1 + 2)));
        } else {
            assert(s[0] == c);
            assert(s.drop_first() =~= s2);
            assert(seq![c] + tail =~= v);
            assert(written(c).len() == 1);
            assert(spec_string_body(s) == Ok::<(Seq<char>, nat), Seq<char>>((seq![c] + tail, written_text(tail).len() + 1 + 1)));
        }
    }
}

/// Lexing a string literal that writes `v` gives the text `v`, followed by
/// the tokens of what comes after it.
pub proof fn law_lex_string_literal(v: Seq<char>, rest: Seq<char>)
    ensures
        spec_lex(seq!['"'] + written_text(v) + seq!['"'] + rest) == prepend(SToken::Text(v), spec_lex(rest)),
{
    let s = seq!['"'] + written_text(v) + seq!['"'] + rest;
    law_string_literal_round_trip(v, rest);
    assert(s.drop_first() =~= written_text(v) + seq!['"'] + rest);
    assert(s[0] == '"');
    assert(s.skip(written_text(v).len() as int + 2) =~= rest);
}

pub proof fn lemma_string_body_len(s: Seq<char>)
    ensures
        spec_string_body(s) matches Ok((v, n)) ==> 1 <= n <= s.len(),
    decreases s.len(),
{
    if s.len() > 0 && s[0] != '"' {
        if s[0] == '\\' {
            if s.len() >= 2 {
                lemma_string_body_len(s.skip(2));
            }
        } else {
            lemma_string_body_len(s.drop_first());
        }
    }
}

/// Puts a token in front of a lexing result.
pub open spec fn prepend(t: SToken, r: Result<Seq<SToken>, Seq<char>>) -> Result<Seq<SToken>, Seq<char>> {
    match r {
        Ok(ts) => Ok(seq![t] + ts),
        Err(e) => Err(e),
    }
}

/// Puts tokens in front of a lexing result.
pub open spec fn prepend_all(p: Seq<SToken>, r: Result<Seq<SToken>, Seq<char>>) -> Result<Seq<SToken>, Seq<char>> {
    match r {
        Ok(ts) => Ok(p + ts),
        Err(e) => Err(e),
    }
}

/// The token of a character that stands alone.
pub open spec fn single_token(c: char) -> Option<SToken> {
    if c == '+' {
        Some(SToken::Plus)
    } else if c == '-' {
        Some(SToken::Minus)
    } else if c == '*' {
        Some(SToken::Star)
    } else if c == '/' {
        Some(SToken::Slash)
    } else if c == '(' {
        Some(SToken::LeftParen)
    } else if c == ')' {
        Some(SToken::RightParen)
    } else if c == '{' {
        Some(SToken::LeftBrace)
    } else if c == '}' {
        Some(SToken::RightBrace)
    } else if c == '[' {
        Some(SToken::LeftBracket)
    } else if c == ']' {
        Some(SToken::RightBracket)
    } else if c == ',' {
        Some(SToken::Comma)
    } else if c == ':' {
        Some(SToken::Colon)
    } else if c == '.' {
        Some(SToken::Dot)
    } else {
        None
    }
}

/// The tokens of a source text, ending with `Eof`, or the message of the
/// first lexical error.
pub open spec fn spec_lex(s: Seq<char>) -> Result<Seq<SToken>, Seq<char>>
    decreases s.len(),
{
    if s.len() == 0 {
        Ok(seq![SToken::Eof])
    } else {
        let c = s[0];
        let next_eq = s.len() > 1 && s[1] == '=';
        if is_space(c) {
            spec_lex(s.drop_first())
        } else if c == '#' {
            let n = span(s, CharClass::NotNewline);
            proof { lemma_span_len(s, CharClass::NotNewline); }
            if n == 0 { Err(Seq::empty()) } else { spec_lex(s.skip(n as int)) }
        } else if c == '"' {
            match spec_string_body(s.drop_first()) {
                Err(e) => Err(e),
                Ok((v, n)) => {
                    proof { lemma_string_body_len(s.drop_first()); }
                    prepend(SToken::Text(v), spec_lex(s.skip(n as int + 1)))
                }
            }
        } else if is_digit(c) {
            let n = span(s, CharClass::NumberChar);
            proof { lemma_span_len(s, CharClass::NumberChar); }
            if n == 0 { Err(Seq::empty()) } else {
                prepend(SToken::Number(s.take(n as int)), spec_lex(s.skip(n as int)))
            }
        } else if is_ident_start(c) {
            let n = span(s, CharClass::IdentChar);
            proof { lemma_span_len(s, CharClass::IdentChar); }
            if n == 0 { Err(Seq::empty()) } else {
                prepend(keyword_token(s.take(n as int)), spec_lex(s.skip(n as int)))
            }
        } else if single_token(c) is Some {
            prepend(single_token(c)->0, spec_lex(s.drop_first()))
        } else if c == '=' {
            if next_eq {
                prepend(SToken::EqualEqual, spec_lex(s.skip(2)))
            } else {
                prepend(SToken::Equal, spec_lex(s.drop_first()))
            }
        } else if c == '!' {
            if next_eq {
                prepend(SToken::BangEqual, spec_lex(s.skip(2)))
            } else {
                Err("Nano: '!' isolado não é válido na v0.1"@)
            }
        } else if c == '>' {
            if next_eq {
                prepend(SToken::GreaterEqual, spec_lex(s.skip(2)))
            } else {
                prepend(SToken::Greater, spec_lex(s.drop_first()))
            }
        } else if c == '<' {
            if next_eq {
                prepend(SToken::LessEqual, spec_lex(s.skip(2)))
            } else {
                prepend(SToken::Less, spec_lex(s.drop_first()))
            }
        } else {
            Err("Nano: caractere inesperado '"@ + seq![c] + "'"@)
        }
    }
}

/// A cursor over the characters of a source text.
pub struct Lexer {
    src: Vec<char>,
    pos: usize,
}

impl Lexer {
    #[verifier::type_invariant]
    spec fn inv(&self) -> bool {
        self.pos <= self.src.len()
    }

    /// The characters not yet read.
    pub closed spec fn rest(&self) -> Seq<char> {
        self.src@.skip(self.pos as int)
    }

    pub fn new(src: &str) -> (r: Self)
        ensures
            r.rest() == src@,
    {
        let cs = crate::text::chars_of(src);
        let r = Self { src: cs, pos: 0 };
        assert(r.src@.skip(0) =~= src@);
        r
    }

    pub fn peek(&self) -> (r: Option<char>)
        ensures
            r == (if self.rest().len() > 0 { Some(self.rest()[0]) } else { None::<char> }),
    {
        proof { use_type_invariant(self); }
        if self.pos < self.src.len() {
            Some(self.src[self.pos])
        } else {
            None
        }
    }

    pub fn advance(&mut self) -> (r: Option<char>)
        ensures
            r == (if old(self).rest().len() > 0 { Some(old(self).rest()[0]) } else { None::<char> }),
            final(self).rest() == (if old(self).rest().len() > 0 { old(self).rest().drop_first() } else { old(self).rest() }),
    {
        proof { use_type_invariant(&*self); }
        let c = self.peek();
        if c.is_some() {
            self.pos = self.pos + 1;
            assert(self.src@.skip(self.pos as int) =~= old(self).rest().drop_first());
        }
        c
    }

    /// Reads a string literal at the cursor, which stands on its opening quote.
    pub fn string(&mut self) -> (r: Result<Token, String>)
        requires
            old(self).rest().len() > 0,
            old(self).rest()[0] == '"',
        ensures
            match spec_string_body(old(self).rest().drop_first()) {
                Ok((v, n)) => r matches Ok(t) && t@ == SToken::Text(v)
                    && final(self).rest() == old(self).rest().skip(n as int + 1),
                Err(e) => r matches Err(m) && m@ == e,
            },
    {
        self.advance();
        let ghost body = self.rest();
        let ghost start = old(self).rest();
        assert(start.drop_first() == body);
        let mut v: Vec<char> = Vec::new();
        loop
            invariant_except_break
                body == start.drop_first(),
                start == old(self).rest(),
                self.rest().len() <= body.len(),
                self.rest() == body.skip(body.len() - self.rest().len()),
                spec_string_body(body) == string_join(v@, (body.len() - self.rest().len()) as nat, spec_string_body(self.rest())),
            ensures
                spec_string_body(body) matches Ok((w, n)) && v@ == w && self.rest() == body.skip(n as int),
            decreases self.rest().len(),
        {
            let ghost before = self.rest();
            let ghost k: int = body.len() - before.len();
            let c = match self.advance() {
                Some(c) => c,
                None => {
                    assert(spec_string_body(before) == Err::<(Seq<char>, nat), Seq<char>>(unterminated_string()));
                    return Err(unterminated_message());
                }
            };
            if c == '"' {
                assert(body.skip(k + 1) =~= before.drop_first());
                break;
            } else if c == '\\' {
                let e = match self.advance() {
                    Some(x) => x,
                    None => {
                        assert(spec_string_body(before) == Err::<(Seq<char>, nat), Seq<char>>(unterminated_string()));
                        return Err(unterminated_message());
                    }
                };
                assert(before.drop_first().drop_first() =~= before.skip(2));
                assert(body.skip(k + 2) =~= before.skip(2));
                let decoded = if e == 'n' {
                    '\n'
                } else if e == 't' {
                    '\t'
                } else if e == '"' {
                    '"'
                } else if e == '\\' {
                    '\\'
                } else {
                    let mut m: Vec<char> = Vec::new();
                    push_str(&mut m, "Nano: escape inválido \\");
                    m.push(e);
                    assert(escape_char(e) is None);
                    assert(spec_string_body(before) == Err::<(Seq<char>, nat), Seq<char>>("Nano: escape inválido \\"@ + seq![e]));
                    return Err(string_of(&m));
                };
                let ghost old_v = v@;
                v.push(decoded);
                proof {
                    match spec_string_body(before.skip(2)) {
                        Ok((w, n)) => {
                            assert(old_v + (seq![decoded] + w) =~= v@ + w);
                        }
                        Err(_) => {}
                    }
                }
            } else {
                assert(body.skip(k + 1) =~= before.drop_first());
                let ghost old_v = v@;
                v.push(c);
                proof {
                    match spec_string_body(before.drop_first()) {
                        Ok((w, n)) => {
                            assert(old_v + (seq![c] + w) =~= v@ + w);
                        }
                        Err(_) => {}
                    }
                }
            }
        }
        proof {
            assert(v@ + Seq::<char>::empty() =~= v@);
        }
        assert(start.skip(1) =~= body);
        proof {
            match spec_string_body(body) {
                Ok((w, n)) => {
                    lemma_string_body_len(body);
                    assert(start.skip(n as int + 1) =~= body.skip(n as int));
                }
                Err(_) => {}
            }
        }
        Ok(Token::Text(string_of(&v)))
    }
}

impl Lexer {
    /// Reads a numeral at the cursor.
    pub fn number(&mut self) -> (r: Token)
        ensures
            r@ == SToken::Number(old(self).rest().take(span(old(self).rest(), CharClass::NumberChar) as int)),
            final(self).rest() == old(self).rest().skip(span(old(self).rest(), CharClass::NumberChar) as int),
    {
        let ghost start = self.rest();
        let mut v: Vec<char> = Vec::new();
        assert(start.take(0) =~= v@);
        assert(start.skip(0) =~= start);
        loop
            invariant
                start == old(self).rest(),
                v.len() <= start.len(),
                v@ == start.take(v.len() as int),
                self.rest() == start.skip(v.len() as int),
                span(start, CharClass::NumberChar) == v.len() + span(self.rest(), CharClass::NumberChar),
            ensures
                span(self.rest(), CharClass::NumberChar) == 0,
            decreases self.rest().len(),
        {
            let c = match self.peek() {
                Some(c) => c,
                None => break,
            };
            if !(('0' <= c && c <= '9') || c == '.') {
                break;
            }
            let ghost before = self.rest();
            self.advance();
            v.push(c);
            assert(start.take(v.len() as int) =~= start.take(v.len() - 1).push(c));
            assert(start.skip(v.len() as int) =~= before.drop_first());
        }
        Token::Number(string_of(&v))
    }

    /// Reads an identifier or keyword at the cursor.
    pub fn ident(&mut self) -> (r: Token)
        ensures
            r@ == keyword_token(old(self).rest().take(span(old(self).rest(), CharClass::IdentChar) as int)),
            final(self).rest() == old(self).rest().skip(span(old(self).rest(), CharClass::IdentChar) as int),
    {
        let ghost start = self.rest();
        let mut v: Vec<char> = Vec::new();
        assert(start.take(0) =~= v@);
        assert(start.skip(0) =~= start);
        loop
            invariant
                start == old(self).rest(),
                v.len() <= start.len(),
                v@ == start.take(v.len() as int),
                self.rest() == start.skip(v.len() as int),
                span(start, CharClass::IdentChar) == v.len() + span(self.rest(), CharClass::IdentChar),
            ensures
                span(self.rest(), CharClass::IdentChar) == 0,
            decreases self.rest().len(),
        {
            let c = match self.peek() {
                Some(c) => c,
                None => break,
            };
            if !(('a' <= c && c <= 'z') || ('A' <= c && c <= 'Z') || ('0' <= c && c <= '9') || c == '_') {
                break;
            }
            let ghost before = self.rest();
            self.advance();
            v.push(c);
            assert(start.take(v.len() as int) =~= start.take(v.len() - 1).push(c));
            assert(start.skip(v.len() as int) =~= before.drop_first());
        }
        keyword_of(&v)
    }
}

impl Lexer {
    /// Skips a comment: everything up to the next newline.
    fn skip_comment(&mut self)
        ensures
            final(self).rest() == old(self).rest().skip(span(old(self).rest(), CharClass::NotNewline) as int),
    {
        let ghost start = self.rest();
        let ghost k: int = 0;
        assert(start.skip(0) =~= start);
        loop
            invariant
                start == old(self).rest(),
                0 <= k <= start.len(),
                self.rest() == start.skip(k),
                span(start, CharClass::NotNewline) == k + span(self.rest(), CharClass::NotNewline),
            ensures
                span(self.rest(), CharClass::NotNewline) == 0,
            decreases self.rest().len(),
        {
            match self.peek() {
                None => break,
                Some(c) => {
                    if c == '\n' {
                        break;
                    }
                }
            }
            let ghost before = self.rest();
            self.advance();
            proof {
                k = k + 1;
                assert(start.skip(k) =~= before.drop_first());
            }
        }
    }

    /// The tokens of the text not yet read, ending with `Eof`, or the message
    /// of the first lexical error.
    pub fn lex(&mut self) -> (r: Result<Vec<Token>, String>)
        ensures
            match spec_lex(old(self).rest()) {
                Ok(ts) => r matches Ok(v) && tokens_view(v@) == ts,
                Err(e) => r matches Err(m) && m@ == e,
            },
    {
        let mut out: Vec<Token> = Vec::new();
        assert(tokens_view(out@) =~= Seq::<SToken>::empty());
        assert(prepend_all(Seq::<SToken>::empty(), spec_lex(self.rest())) == spec_lex(self.rest())) by {
            match spec_lex(self.rest()) {
                Ok(ts) => { assert(Seq::<SToken>::empty() + ts =~= ts); }
                Err(_) => {}
            }
        }
        loop
            invariant
                spec_lex(old(self).rest()) == prepend_all(tokens_view(out@), spec_lex(self.rest())),
            ensures
                self.rest().len() == 0,
                spec_lex(old(self).rest()) == prepend_all(tokens_view(out@), spec_lex(self.rest())),
            decreases self.rest().len(),
        {
            let ghost before = self.rest();
            let c = match self.peek() {
                None => break,
                Some(c) => c,
            };
            if c == ' ' || c == '\n' || c == '\r' || c == '\t' {
                self.advance();
            } else if c == '#' {
                self.skip_comment();
                proof { lemma_span_len(before, CharClass::NotNewline); }
            } else if c == '"' {
                let t = self.string();
                proof { lemma_string_body_len(before.drop_first()); }
                match t {
                    Ok(t) => {
                        proof { lemma_push_token(out@, t, spec_lex(self.rest())); }
                        out.push(t);
                    }
                    Err(m) => {
                        return Err(m);
                    }
                }
            } else if '0' <= c && c <= '9' {
                let t = self.number();
                proof {
                    lemma_span_len(before, CharClass::NumberChar);
                    lemma_push_token(out@, t, spec_lex(self.rest()));
                }
                out.push(t);
            } else if ('a' <= c && c <= 'z') || ('A' <= c && c <= 'Z') || c == '_' {
                let t = self.ident();
                proof {
                    lemma_span_len(before, CharClass::IdentChar);
                    lemma_push_token(out@, t, spec_lex(self.rest()));
                }
                out.push(t);
            } else {
                let t = match self.punct(c) {
                    Ok(t) => t,
                    Err(m) => {
                        return Err(m);
                    }
                };
                proof { lemma_push_token(out@, t, spec_lex(self.rest())); }
                out.push(t);
            }
        }
        let ghost pre = out@;
        out.push(Token::Eof);
        assert(tokens_view(out@) =~= tokens_view(pre) + seq![SToken::Eof]);
        Ok(out)
    }

    /// Reads an operator or punctuation token at the cursor.
    fn punct(&mut self, c: char) -> (r: Result<Token, String>)
        requires
            old(self).rest().len() > 0,
            old(self).rest()[0] == c,
            !is_space(c),
            c != '#',
            c != '"',
            !is_digit(c),
            !is_ident_start(c),
        ensures
            r matches Err(m) ==> spec_lex(old(self).rest()) == Err::<Seq<SToken>, Seq<char>>(m@),
            r matches Ok(t) ==> spec_lex(old(self).rest()) == prepend(t@, spec_lex(final(self).rest())),
            final(self).rest().len() < old(self).rest().len(),
    {
        let ghost before = self.rest();
        self.advance();
        let ghost after1 = self.rest();
        assert(after1 == before.drop_first());
        let t = if c == '+' {
            Token::Plus
        } else if c == '-' {
            Token::Minus
        } else if c == '*' {
            Token::Star
        } else if c == '/' {
            Token::Slash
        } else if c == '(' {
            Token::LeftParen
        } else if c == ')' {
            Token::RightParen
        } else if c == '{' {
            Token::LeftBrace
        } else if c == '}' {
            Token::RightBrace
        } else if c == '[' {
            Token::LeftBracket
        } else if c == ']' {
            Token::RightBracket
        } else if c == ',' {
            Token::Comma
        } else if c == ':' {
            Token::Colon
        } else if c == '.' {
            Token::Dot
        } else if c == '=' || c == '!' || c == '>' || c == '<' {
            let next_eq = self.peek() == Some('=');
            if next_eq {
                self.advance();
                assert(self.rest() =~= before.skip(2));
                if c == '=' {
                    Token::EqualEqual
                } else if c == '!' {
                    Token::BangEqual
                } else if c == '>' {
                    Token::GreaterEqual
                } else {
                    Token::LessEqual
                }
            } else if c == '=' {
                Token::Equal
            } else if c == '!' {
                let mut m: Vec<char> = Vec::new();
                push_str(&mut m, "Nano: '!' isolado não é válido na v0.1");
                return Err(string_of(&m));
            } else if c == '>' {
                Token::Greater
            } else {
                Token::Less
            }
        } else {
            let mut m: Vec<char> = Vec::new();
            push_str(&mut m, "Nano: caractere inesperado '");
            m.push(c);
            push_str(&mut m, "'");
            assert(m@ =~= "Nano: caractere inesperado '"@ + seq![c] + "'"@);
            return Err(string_of(&m));
        };
        Ok(t)
    }
}

pub proof fn lemma_push_token(out: Seq<Token>, t: Token, r: Result<Seq<SToken>, Seq<char>>)
    ensures
        prepend_all(tokens_view(out), prepend(t@, r)) == prepend_all(tokens_view(out.push(t)), r),
{
    assert(tokens_view(out.push(t)) =~= tokens_view(out).push(t@));
    match r {
        Ok(ts) => {
            assert(tokens_view(out) + (seq![t@] + ts) =~= tokens_view(out).push(t@) + ts);
        }
        Err(_) => {}
    }
}

/// The token of an identifier-shaped word.
pub fn keyword_of(w: &Vec<char>) -> (r: Token)
    ensures
        r@ == keyword_token(w@),
{
    if chars_eq_str(w, "true") {
        Token::True
    } else if chars_eq_str(w, "false") {
        Token::False
    } else if chars_eq_str(w, "use") {
        Token::Use
    } else if chars_eq_str(w, "function") {
        Token::Function
    } else if chars_eq_str(w, "print") {
        Token::Print
    } else if chars_eq_str(w, "if") {
        Token::If
    } else if chars_eq_str(w, "else") {
        Token::Else
    } else if chars_eq_str(w, "return") {
        Token::Return
    } else if chars_eq_str(w, "while") {
        Token::While
    } else if chars_eq_str(w, "for") {
        Token::For
    } else if chars_eq_str(w, "in") {
        Token::In
    } else {
        Token::Ident(string_of(w))
    }
}

fn unterminated_message() -> (r: String)
    ensures
        r@ == unterminated_string(),
{
    let mut m: Vec<char> = Vec::new();
    push_str(&mut m, "Nano: string não terminada");
    string_of(&m)
}

/// Joins what was read so far of a string literal with the reading of the rest.
pub open spec fn string_join(acc: Seq<char>, k: nat, r: Result<(Seq<char>, nat), Seq<char>>) -> Result<(Seq<char>, nat), Seq<char>> {
    match r {
        Ok((w, m)) => Ok((acc + w, k + m)),
        Err(e) => Err(e),
    }
}

} // verus!
