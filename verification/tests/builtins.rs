use nanolang::builtins::{builtin_call, Arg, BuiltinError, Label};

fn text(s: &str) -> Arg {
    Arg::Text(s.to_string())
}

fn call(name: &str, args: Vec<Arg>) -> String {
    format!("{:?}", builtin_call(name, &args))
}

fn ok(a: Arg) -> String {
    format!("{:?}", Some(Ok::<Arg, BuiltinError>(a)))
}

fn err(e: BuiltinError) -> String {
    format!("{:?}", Some(Err::<Arg, BuiltinError>(e)))
}

#[test]
fn len_counts_characters_items_keys_and_elements() {
    assert_eq!(call("len", vec![text("héllo")]), ok(Arg::Count(5)));
    assert_eq!(call("len", vec![Arg::List(vec![Arg::Null, Arg::Number])]), ok(Arg::Count(2)));
    assert_eq!(call("len", vec![Arg::Object(vec!["a".into(), "b".into(), "c".into()])]), ok(Arg::Count(3)));
    assert_eq!(call("len", vec![Arg::Tensor(6)]), ok(Arg::Count(6)));
    assert_eq!(call("len", vec![Arg::Bool(true)]), err(BuiltinError::LenType));
    assert_eq!(call("len", vec![]), err(BuiltinError::Arity));
}

#[test]
fn range_lists_whole_numbers() {
    assert_eq!(call("range", vec![Arg::Count(3)]), ok(Arg::List(vec![Arg::Count(0), Arg::Count(1), Arg::Count(2)])));
    assert_eq!(call("range", vec![Arg::Count(0)]), ok(Arg::List(vec![])));
    assert_eq!(call("range", vec![Arg::Number]), err(BuiltinError::RangeType));
    assert_eq!(call("range", vec![text("3")]), err(BuiltinError::RangeType));
}

#[test]
fn case_and_trim() {
    assert_eq!(call("upper", vec![text("abç")]), ok(text("ABÇ")));
    assert_eq!(call("lower", vec![text("ÀBC")]), ok(text("àbc")));
    assert_eq!(call("trim", vec![text("  a b \n")]), ok(text("a b")));
    assert_eq!(call("upper", vec![Arg::Count(1)]), err(BuiltinError::NeedsText(Label::Text)));
    assert_eq!(call("lower", vec![text("a"), text("b")]), err(BuiltinError::Arity));
}

#[test]
fn searches_in_text() {
    assert_eq!(call("contains", vec![text("banana"), text("nan")]), ok(Arg::Bool(true)));
    assert_eq!(call("contains", vec![text("banana"), text("nab")]), ok(Arg::Bool(false)));
    assert_eq!(call("contains", vec![text("banana"), text("")]), ok(Arg::Bool(true)));
    assert_eq!(call("starts_with", vec![text("banana"), text("ban")]), ok(Arg::Bool(true)));
    assert_eq!(call("starts_with", vec![text("ba"), text("ban")]), ok(Arg::Bool(false)));
    assert_eq!(call("ends_with", vec![text("banana"), text("ana")]), ok(Arg::Bool(true)));
    assert_eq!(call("ends_with", vec![text("banana"), text("nab")]), ok(Arg::Bool(false)));
    assert_eq!(call("contains", vec![text("a"), Arg::Null]), err(BuiltinError::NeedsText(Label::Text)));
}

#[test]
fn replace_every_occurrence() {
    assert_eq!(call("replace", vec![text("a-b-c"), text("-"), text("+")]), ok(text("a+b+c")));
    assert_eq!(call("replace", vec![text("aaa"), text("aa"), text("b")]), ok(text("ba")));
    assert_eq!(call("replace", vec![text("ab"), text(""), text("x")]), ok(text("xaxbx")));
    assert_eq!(call("replace", vec![text("ab"), Arg::Null, text("x")]), err(BuiltinError::NeedsText(Label::Old)));
    assert_eq!(call("replace", vec![text("ab"), text("a"), Arg::Count(2)]), err(BuiltinError::NeedsText(Label::New)));
}

#[test]
fn substring_and_char_at() {
    assert_eq!(call("substring", vec![text("héllo"), Arg::Count(1), Arg::Count(3)]), ok(text("él")));
    assert_eq!(call("substring", vec![text("abc"), Arg::Count(2), Arg::Count(1)]), err(BuiltinError::SubstringBounds));
    assert_eq!(call("substring", vec![text("abc"), Arg::Count(0), Arg::Count(4)]), err(BuiltinError::SubstringBounds));
    assert_eq!(call("substring", vec![text("abc"), Arg::Number, Arg::Count(1)]), err(BuiltinError::NeedsWhole(Label::Start)));
    assert_eq!(call("substring", vec![text("abc"), Arg::Count(0), text("1")]), err(BuiltinError::NeedsNumber(Label::End)));
    assert_eq!(call("char_at", vec![text("héllo"), Arg::Count(1)]), ok(text("é")));
    assert_eq!(call("char_at", vec![text("abc"), Arg::Count(3)]), err(BuiltinError::CharAtBounds));
}

#[test]
fn split_into_pieces() {
    assert_eq!(
        call("split", vec![text("a,b,,c"), text(",")]),
        ok(Arg::List(vec![text("a"), text("b"), text(""), text("c")]))
    );
    assert_eq!(call("split", vec![text("ab"), text("")]), ok(Arg::List(vec![text(""), text("a"), text("b"), text("")])));
    assert_eq!(call("split", vec![text("abc"), text("x")]), ok(Arg::List(vec![text("abc")])));
    assert_eq!(call("split", vec![text("abc"), Arg::Null]), err(BuiltinError::NeedsText(Label::Separator)));
}

#[test]
fn other_names_are_not_these_builtins() {
    assert_eq!(call("sqrt", vec![Arg::Count(4)]), "None");
    assert_eq!(call("join", vec![]), "None");
}
