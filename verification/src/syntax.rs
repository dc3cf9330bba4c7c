use vstd::prelude::*;

verus! {

/// A constant of the language as it appears in source and IR. A number keeps
/// the numeral it was written with; its value is the `f64` that `str::parse`
/// reads from that numeral, or 0 when the numeral does not read.
#[derive(Debug)]
pub enum Value {
    Number(String),
    Text(String),
    Boolean(bool),
    Null,
}

/// The mathematical view of a [`Value`].
pub enum SValue {
    Number(Seq<char>),
    Text(Seq<char>),
    Boolean(bool),
    Null,
}

impl View for Value {
    type V = SValue;

    open spec fn view(&self) -> SValue {
        match self {
            Value::Number(s) => SValue::Number(s@),
            Value::Text(s) => SValue::Text(s@),
            Value::Boolean(b) => SValue::Boolean(*b),
            Value::Null => SValue::Null,
        }
    }
}

impl Clone for Value {
    fn clone(&self) -> (r: Self)
        ensures
            r@ == self@,
    {
        match self {
            Value::Number(s) => Value::Number(s.clone()),
            Value::Text(s) => Value::Text(s.clone()),
            Value::Boolean(b) => Value::Boolean(*b),
            Value::Null => Value::Null,
        }
    }
}

/// Binary operators.
#[derive(Debug, Clone, Copy, PartialEq, Eq, Structural)]
pub enum Op {
    Add,
    Sub,
    Mul,
    Div,
    Mod,
    Eq,
    Ne,
    Gt,
    Ge,
    Lt,
    Le,
    And,
    Or,
}

/// Unary operators of the IR.
#[derive(Debug, Clone, Copy, PartialEq, Eq, Structural)]
pub enum UnaryOp {
    Neg,
    Not,
}

/// Expressions.
pub enum Expr {
    Value(Value),
    Var(String),
    List(Vec<Expr>),
    Object(Vec<(String, Expr)>),
    Binary(Box<Expr>, Op, Box<Expr>),
    Call(String, Vec<Expr>),
    Index(Box<Expr>, Box<Expr>),
    Field(Box<Expr>, String),
}

/// The mathematical view of an [`Expr`].
pub enum SExpr {
    Value(SValue),
    Var(Seq<char>),
    List(Seq<SExpr>),
    Object(Seq<(Seq<char>, SExpr)>),
    Binary(Box<SExpr>, Op, Box<SExpr>),
    Call(Seq<char>, Seq<SExpr>),
    Index(Box<SExpr>, Box<SExpr>),
    Field(Box<SExpr>, Seq<char>),
}

impl Expr {
    pub open spec fn sv(&self) -> SExpr
        decreases self,
    {
        match self {
            Expr::Value(v) => SExpr::Value(v@),
            Expr::Var(s) => SExpr::Var(s@),
            Expr::List(items) => SExpr::List(Seq::new(items.len() as nat, |i: int| if 0 <= i < items.len() { items[i].sv() } else { SExpr::Value(SValue::Null) })),
            Expr::Object(fields) => SExpr::Object(Seq::new(fields.len() as nat, |i: int| if 0 <= i < fields.len() { (fields[i].0@, fields[i].1.sv()) } else { (Seq::empty(), SExpr::Value(SValue::Null)) })),
            Expr::Binary(a, op, b) => SExpr::Binary(Box::new(a.sv()), *op, Box::new(b.sv())),
            Expr::Call(n, args) => SExpr::Call(n@, Seq::new(args.len() as nat, |i: int| if 0 <= i < args.len() { args[i].sv() } else { SExpr::Value(SValue::Null) })),
            Expr::Index(a, b) => SExpr::Index(Box::new(a.sv()), Box::new(b.sv())),
            Expr::Field(a, n) => SExpr::Field(Box::new(a.sv()), n@),
        }
    }
}


/// Statements.
pub enum Stmt {
    Assign(String, Expr),
    Print(Expr),
    Expr(Expr),
    If(Expr, Vec<Stmt>, Vec<Stmt>),
    While(Expr, Vec<Stmt>),
    For(String, Expr, Vec<Stmt>),
    Use(String),
    Function(String, Vec<String>, Vec<Stmt>),
    Return(Expr),
}

/// The mathematical view of a [`Stmt`].
pub enum SStmt {
    Assign(Seq<char>, SExpr),
    Print(SExpr),
    Expr(SExpr),
    If(SExpr, Seq<SStmt>, Seq<SStmt>),
    While(SExpr, Seq<SStmt>),
    For(Seq<char>, SExpr, Seq<SStmt>),
    Use(Seq<char>),
    Function(Seq<char>, Seq<Seq<char>>, Seq<SStmt>),
    Return(SExpr),
}

/// The views of a sequence of strings.
pub open spec fn strings_view(v: Seq<String>) -> Seq<Seq<char>> {
    Seq::new(v.len(), |i: int| v[i]@)
}

impl Stmt {
    pub open spec fn sv(&self) -> SStmt
        decreases self,
    {
        match self {
            Stmt::Assign(n, e) => SStmt::Assign(n@, e.sv()),
            Stmt::Print(e) => SStmt::Print(e.sv()),
            Stmt::Expr(e) => SStmt::Expr(e.sv()),
            Stmt::If(c, yes, no) => SStmt::If(c.sv(),
                Seq::new(yes.len() as nat, |i: int| if 0 <= i < yes.len() { yes[i].sv() } else { SStmt::Use(Seq::empty()) }),
                Seq::new(no.len() as nat, |i: int| if 0 <= i < no.len() { no[i].sv() } else { SStmt::Use(Seq::empty()) })),
            Stmt::While(c, body) => SStmt::While(c.sv(),
                Seq::new(body.len() as nat, |i: int| if 0 <= i < body.len() { body[i].sv() } else { SStmt::Use(Seq::empty()) })),
            Stmt::For(n, it, body) => SStmt::For(n@, it.sv(),
                Seq::new(body.len() as nat, |i: int| if 0 <= i < body.len() { body[i].sv() } else { SStmt::Use(Seq::empty()) })),
            Stmt::Use(p) => SStmt::Use(p@),
            Stmt::Function(n, params, body) => SStmt::Function(n@, strings_view(params@),
                Seq::new(body.len() as nat, |i: int| if 0 <= i < body.len() { body[i].sv() } else { SStmt::Use(Seq::empty()) })),
            Stmt::Return(e) => SStmt::Return(e.sv()),
        }
    }
}

/// The views of a sequence of expressions.
pub open spec fn exprs_view(v: Seq<Expr>) -> Seq<SExpr> {
    Seq::new(v.len(), |i: int| v[i].sv())
}

/// The views of a sequence of statements.
pub open spec fn stmts_view(v: Seq<Stmt>) -> Seq<SStmt> {
    Seq::new(v.len(), |i: int| v[i].sv())
}

/// The views of the fields of an object literal.
pub open spec fn fields_view(v: Seq<(String, Expr)>) -> Seq<(Seq<char>, SExpr)> {
    Seq::new(v.len(), |i: int| (v[i].0@, v[i].1.sv()))
}

pub proof fn lemma_expr_views(e: Expr)
    ensures
        e matches Expr::List(items) ==> e.sv() == SExpr::List(exprs_view(items@)),
        e matches Expr::Call(n, args) ==> e.sv() == SExpr::Call(n@, exprs_view(args@)),
        e matches Expr::Object(fields) ==> e.sv() == SExpr::Object(fields_view(fields@)),
{
    match e {
        Expr::List(items) => { assert(e.sv()->List_0 =~= exprs_view(items@)); }
        Expr::Call(n, args) => { assert(e.sv()->Call_1 =~= exprs_view(args@)); }
        Expr::Object(fields) => { assert(e.sv()->Object_0 =~= fields_view(fields@)); }
        _ => {}
    }
}

pub proof fn lemma_stmt_views(s: Stmt)
    ensures
        s matches Stmt::If(c, yes, no) ==> s.sv() == SStmt::If(c.sv(), stmts_view(yes@), stmts_view(no@)),
        s matches Stmt::While(c, body) ==> s.sv() == SStmt::While(c.sv(), stmts_view(body@)),
        s matches Stmt::For(n, it, body) ==> s.sv() == SStmt::For(n@, it.sv(), stmts_view(body@)),
        s matches Stmt::Function(n, ps, body) ==> s.sv() == SStmt::Function(n@, strings_view(ps@), stmts_view(body@)),
{
    match s {
        Stmt::If(c, yes, no) => {
            assert(s.sv()->If_1 =~= stmts_view(yes@));
            assert(s.sv()->If_2 =~= stmts_view(no@));
        }
        Stmt::While(c, body) => { assert(s.sv()->While_1 =~= stmts_view(body@)); }
        Stmt::For(n, it, body) => { assert(s.sv()->For_2 =~= stmts_view(body@)); }
        Stmt::Function(n, ps, body) => { assert(s.sv()->Function_2 =~= stmts_view(body@)); }
        _ => {}
    }
}

/// Lexical tokens.
#[derive(Debug)]
pub enum Token {
    Ident(String),
    Number(String),
    Text(String),
    True,
    False,
    Use,
    Function,
    Print,
    If,
    Else,
    Return,
    While,
    For,
    In,
    Plus,
    Minus,
    Star,
    Slash,
    Equal,
    EqualEqual,
    BangEqual,
    Greater,
    GreaterEqual,
    Less,
    LessEqual,
    LeftParen,
    RightParen,
    LeftBrace,
    RightBrace,
    LeftBracket,
    RightBracket,
    Comma,
    Colon,
    Dot,
    Eof,
}

/// The mathematical view of a [`Token`].
pub enum SToken {
    Ident(Seq<char>),
    Number(Seq<char>),
    Text(Seq<char>),
    True,
    False,
    Use,
    Function,
    Print,
    If,
    Else,
    Return,
    While,
    For,
    In,
    Plus,
    Minus,
    Star,
    Slash,
    Equal,
    EqualEqual,
    BangEqual,
    Greater,
    GreaterEqual,
    Less,
    LessEqual,
    LeftParen,
    RightParen,
    LeftBrace,
    RightBrace,
    LeftBracket,
    RightBracket,
    Comma,
    Colon,
    Dot,
    Eof,
}

impl View for Token {
    type V = SToken;

    open spec fn view(&self) -> SToken {
        match self {
            Token::Ident(s) => SToken::Ident(s@),
            Token::Number(s) => SToken::Number(s@),
            Token::Text(s) => SToken::Text(s@),
            Token::True => SToken::True,
            Token::False => SToken::False,
            Token::Use => SToken::Use,
            Token::Function => SToken::Function,
            Token::Print => SToken::Print,
            Token::If => SToken::If,
            Token::Else => SToken::Else,
            Token::Return => SToken::Return,
            Token::While => SToken::While,
            Token::For => SToken::For,
            Token::In => SToken::In,
            Token::Plus => SToken::Plus,
            Token::Minus => SToken::Minus,
            Token::Star => SToken::Star,
            Token::Slash => SToken::Slash,
            Token::Equal => SToken::Equal,
            Token::EqualEqual => SToken::EqualEqual,
            Token::BangEqual => SToken::BangEqual,
            Token::Greater => SToken::Greater,
            Token::GreaterEqual => SToken::GreaterEqual,
            Token::Less => SToken::Less,
            Token::LessEqual => SToken::LessEqual,
            Token::LeftParen => SToken::LeftParen,
            Token::RightParen => SToken::RightParen,
            Token::LeftBrace => SToken::LeftBrace,
            Token::RightBrace => SToken::RightBrace,
            Token::LeftBracket => SToken::LeftBracket,
            Token::RightBracket => SToken::RightBracket,
            Token::Comma => SToken::Comma,
            Token::Colon => SToken::Colon,
            Token::Dot => SToken::Dot,
            Token::Eof => SToken::Eof,
        }
    }
}

impl Clone for Token {
    fn clone(&self) -> (r: Self)
        ensures
            r@ == self@,
    {
        match self {
            Token::Ident(s) => Token::Ident(s.clone()),
            Token::Number(s) => Token::Number(s.clone()),
            Token::Text(s) => Token::Text(s.clone()),
            Token::True => Token::True,
            Token::False => Token::False,
            Token::Use => Token::Use,
            Token::Function => Token::Function,
            Token::Print => Token::Print,
            Token::If => Token::If,
            Token::Else => Token::Else,
            Token::Return => Token::Return,
            Token::While => Token::While,
            Token::For => Token::For,
            Token::In => Token::In,
            Token::Plus => Token::Plus,
            Token::Minus => Token::Minus,
            Token::Star => Token::Star,
            Token::Slash => Token::Slash,
            Token::Equal => Token::Equal,
            Token::EqualEqual => Token::EqualEqual,
            Token::BangEqual => Token::BangEqual,
            Token::Greater => Token::Greater,
            Token::GreaterEqual => Token::GreaterEqual,
            Token::Less => Token::Less,
            Token::LessEqual => Token::LessEqual,
            Token::LeftParen => Token::LeftParen,
            Token::RightParen => Token::RightParen,
            Token::LeftBrace => Token::LeftBrace,
            Token::RightBrace => Token::RightBrace,
            Token::LeftBracket => Token::LeftBracket,
            Token::RightBracket => Token::RightBracket,
            Token::Comma => Token::Comma,
            Token::Colon => Token::Colon,
            Token::Dot => Token::Dot,
            Token::Eof => Token::Eof,
        }
    }
}

/// A number that tells the kinds of tokens apart.
pub open spec fn spec_tag(t: SToken) -> u8 {
    match t {
        SToken::Ident(_) => 0,
        SToken::Number(_) => 1,
        SToken::Text(_) => 2,
        SToken::True => 3,
        SToken::False => 4,
        SToken::Use => 5,
        SToken::Function => 6,
        SToken::Print => 7,
        SToken::If => 8,
        SToken::Else => 9,
        SToken::Return => 10,
        SToken::While => 11,
        SToken::For => 12,
        SToken::In => 13,
        SToken::Plus => 14,
        SToken::Minus => 15,
        SToken::Star => 16,
        SToken::Slash => 17,
        SToken::Equal => 18,
        SToken::EqualEqual => 19,
        SToken::BangEqual => 20,
        SToken::Greater => 21,
        SToken::GreaterEqual => 22,
        SToken::Less => 23,
        SToken::LessEqual => 24,
        SToken::LeftParen => 25,
        SToken::RightParen => 26,
        SToken::LeftBrace => 27,
        SToken::RightBrace => 28,
        SToken::LeftBracket => 29,
        SToken::RightBracket => 30,
        SToken::Comma => 31,
        SToken::Colon => 32,
        SToken::Dot => 33,
        SToken::Eof => 34,
    }
}

impl Token {
    pub fn tag(&self) -> (r: u8)
        ensures
            r == spec_tag(self@),
    {
        match self {
            Token::Ident(_) => 0,
            Token::Number(_) => 1,
            Token::Text(_) => 2,
            Token::True => 3,
            Token::False => 4,
            Token::Use => 5,
            Token::Function => 6,
            Token::Print => 7,
            Token::If => 8,
            Token::Else => 9,
            Token::Return => 10,
            Token::While => 11,
            Token::For => 12,
            Token::In => 13,
            Token::Plus => 14,
            Token::Minus => 15,
            Token::Star => 16,
            Token::Slash => 17,
            Token::Equal => 18,
            Token::EqualEqual => 19,
            Token::BangEqual => 20,
            Token::Greater => 21,
            Token::GreaterEqual => 22,
            Token::Less => 23,
            Token::LessEqual => 24,
            Token::LeftParen => 25,
            Token::RightParen => 26,
            Token::LeftBrace => 27,
            Token::RightBrace => 28,
            Token::LeftBracket => 29,
            Token::RightBracket => 30,
            Token::Comma => 31,
            Token::Colon => 32,
            Token::Dot => 33,
            Token::Eof => 34,
        }
    }
}

/// Whether a token carries no text.
pub open spec fn fieldless(t: SToken) -> bool {
    !(t is Ident || t is Number || t is Text)
}

pub proof fn lemma_same_tag(a: SToken, b: SToken)
    requires
        fieldless(b),
        spec_tag(a) == spec_tag(b),
    ensures
        a == b,
{
}

/// The views of a sequence of tokens.
pub open spec fn tokens_view(ts: Seq<Token>) -> Seq<SToken> {
    Seq::new(ts.len(), |i: int| ts[i]@)
}


/// Why a token sequence is not a program.
#[derive(Debug)]
pub enum ParseError {
    /// `expect`: the wanted token, then the token found.
    Expected(Token, Token),
    ModulePath(Token),
    FunctionName(Token),
    Parameter(Token),
    ForVariable(Token),
    UnterminatedBlock,
    ObjectKey(Token),
    UnexpectedExpression(Token),
    CallTarget,
    FieldName(Token),
}

/// The mathematical view of a [`ParseError`]; `Stuck` stands for a parse that
/// stops moving forward, which a token sequence that ends with `Eof` never
/// causes.
pub enum SParseError {
    Expected(SToken, SToken),
    ModulePath(SToken),
    FunctionName(SToken),
    Parameter(SToken),
    ForVariable(SToken),
    UnterminatedBlock,
    ObjectKey(SToken),
    UnexpectedExpression(SToken),
    CallTarget,
    FieldName(SToken),
    Stuck,
}

impl View for ParseError {
    type V = SParseError;

    open spec fn view(&self) -> SParseError {
        match self {
            ParseError::Expected(a, b) => SParseError::Expected(a@, b@),
            ParseError::ModulePath(t) => SParseError::ModulePath(t@),
            ParseError::FunctionName(t) => SParseError::FunctionName(t@),
            ParseError::Parameter(t) => SParseError::Parameter(t@),
            ParseError::ForVariable(t) => SParseError::ForVariable(t@),
            ParseError::UnterminatedBlock => SParseError::UnterminatedBlock,
            ParseError::ObjectKey(t) => SParseError::ObjectKey(t@),
            ParseError::UnexpectedExpression(t) => SParseError::UnexpectedExpression(t@),
            ParseError::CallTarget => SParseError::CallTarget,
            ParseError::FieldName(t) => SParseError::FieldName(t@),
        }
    }
}

} // verus!
