use tcp_kv::lexer::{LexError, Lexer, Token};
use tcp_kv::parser::{parse_array, Offending, ParseErrorKind, SimpleError, Value, ValueKind};

fn parse(text: &str) -> Result<Value, SimpleError> {
    let mut lexer = Lexer::new(text);
    parse_array(&mut lexer)
}

#[test]
fn test_parse_array() {
    let mut lexer = Lexer::new("1,2,3]");
    let result = parse_array(&mut lexer);
    assert_eq!(
        result,
        Ok(Value::Array(vec![
            Value::Integer(1),
            Value::Integer(2),
            Value::Integer(3)
        ]))
    );
}

#[test]
fn test_parse_nested_array() {
    let mut lexer = Lexer::new("[1],[2],[3]]");
    let result = parse_array(&mut lexer);
    assert_eq!(
        result,
        Ok(Value::Array(vec![
            Value::Array(vec![Value::Integer(1)]),
            Value::Array(vec![Value::Integer(2)]),
            Value::Array(vec![Value::Integer(3)])
        ]))
    );
}

#[test]
fn empty_array_is_valid() {
    assert_eq!(parse("]"), Ok(Value::Array(vec![])));
}

#[test]
fn integer_then_bool_is_a_type_mismatch() {
    let err = parse("1,true]").unwrap_err();
    assert_eq!(err.kind, ParseErrorKind::TypeMismatch(ValueKind::Integer));
}

#[test]
fn double_comma_is_unexpected() {
    let err = parse("1,,2]").unwrap_err();
    assert_eq!(err.kind, ParseErrorKind::UnexpectedComma);
}

#[test]
fn leading_comma_is_unexpected() {
    let err = parse(",1]").unwrap_err();
    assert_eq!(err.kind, ParseErrorKind::UnexpectedComma);
}

#[test]
fn missing_bracket_leaves_array_unclosed() {
    let err = parse("1,2").unwrap_err();
    assert_eq!(err.kind, ParseErrorKind::UnclosedArray);
    assert_eq!((err.start, err.end), (0, 0));
}

#[test]
fn trailing_comma_wants_a_value() {
    let err = parse("1,2,]").unwrap_err();
    assert_eq!(err.kind, ParseErrorKind::ExpectedValueAfterComma);
}

#[test]
fn adjacent_values_want_a_comma() {
    let err = parse("1 2]").unwrap_err();
    assert_eq!(err.kind, ParseErrorKind::ExpectedValueAfterComma);
}

#[test]
fn stray_token_is_unexpected() {
    assert_eq!(
        parse("1,:]").unwrap_err().kind,
        ParseErrorKind::UnexpectedToken(Offending::Token(Token::Colon))
    );
    assert_eq!(
        parse("+]").unwrap_err().kind,
        ParseErrorKind::UnexpectedToken(Offending::Token(Token::Plus))
    );
    assert_eq!(
        parse("1,.]").unwrap_err().kind,
        ParseErrorKind::UnexpectedToken(Offending::Unrecognized)
    );
}

#[test]
fn nested_error_carries_inner_span() {
    let err = parse(" [1,,2]]").unwrap_err();
    assert_eq!(err.kind, ParseErrorKind::UnexpectedComma);
    assert_eq!((err.start, err.end), (1, 2));
}

#[test]
fn nested_arrays_must_share_kind_with_siblings() {
    let err = parse("[1],2]").unwrap_err();
    assert_eq!(err.kind, ParseErrorKind::TypeMismatch(ValueKind::Array));
}

#[test]
fn scalars_of_every_kind() {
    assert_eq!(
        parse("abc, x1]"),
        Ok(Value::Array(vec![
            Value::String(b"abc".to_vec()),
            Value::String(b"x1".to_vec())
        ]))
    );
    assert_eq!(
        parse(" 12.5 ,\n0.25\t]"),
        Ok(Value::Array(vec![
            Value::Float(b"12.5".to_vec()),
            Value::Float(b"0.25".to_vec())
        ]))
    );
    assert_eq!(
        parse("true,false]"),
        Ok(Value::Array(vec![Value::Bool(true), Value::Bool(false)]))
    );
    assert_eq!(
        parse("-7, 0, 9223372036854775807, -9223372036854775808]"),
        Ok(Value::Array(vec![
            Value::Integer(-7),
            Value::Integer(0),
            Value::Integer(i64::MAX),
            Value::Integer(i64::MIN)
        ]))
    );
}

#[test]
fn lexer_prefers_longest_match() {
    let mut lexer = Lexer::new("12abc truex true 12.5 -3 - 9223372036854775808");
    assert_eq!(lexer.next(), Some(Ok(Token::String)));
    assert_eq!(lexer.slice(), b"12abc".to_vec());
    assert_eq!(lexer.next(), Some(Ok(Token::String)));
    assert_eq!(lexer.slice(), b"truex".to_vec());
    assert_eq!(lexer.next(), Some(Ok(Token::Bool(true))));
    assert_eq!(lexer.next(), Some(Ok(Token::Float)));
    assert_eq!(lexer.span(), (17, 21));
    assert_eq!(lexer.next(), Some(Ok(Token::Integer(-3))));
    assert_eq!(lexer.next(), Some(Ok(Token::Minus)));
    assert_eq!(lexer.next(), Some(Err(LexError)));
    assert_eq!(lexer.next(), None);
}

#[test]
fn lexer_reads_punctuation() {
    let mut lexer = Lexer::new("+ - : _ # , * [ ]");
    let expected = [
        Token::Plus,
        Token::Minus,
        Token::Colon,
        Token::Underscore,
        Token::Hash,
        Token::Comma,
        Token::Star,
        Token::LeftBracket,
        Token::RightBracket,
    ];
    for t in expected {
        assert_eq!(lexer.next(), Some(Ok(t)));
    }
    assert_eq!(lexer.next(), None);
}

#[test]
fn parse_leaves_lexer_after_bracket() {
    let mut lexer = Lexer::new("1] 7");
    assert_eq!(parse_array(&mut lexer), Ok(Value::Array(vec![Value::Integer(1)])));
    assert_eq!(lexer.next(), Some(Ok(Token::Integer(7))));
}

#[test]
fn written_words_parse_back_in_order() {
    let words = ["alpha", "beta", "gamma", "delta"];
    let text = format!("{}]", words.join(","));
    let expected: Vec<Value> = words
        .iter()
        .map(|w| Value::String(w.as_bytes().to_vec()))
        .collect();
    assert_eq!(parse(&text), Ok(Value::Array(expected)));
}

#[test]
fn integer_out_of_range_is_unexpected() {
    let err = parse("1,9223372036854775808]").unwrap_err();
    assert_eq!(err.kind, ParseErrorKind::UnexpectedToken(Offending::Unrecognized));
}

#[test]
fn written_integers_parse_back_in_order() {
    let numbers: Vec<i64> = vec![5, -12, 0, 42, i64::MAX, i64::MIN];
    let parts: Vec<String> = numbers.iter().map(|n| n.to_string()).collect();
    let text = format!("{}]", parts.join(","));
    let expected: Vec<Value> = numbers.iter().map(|n| Value::Integer(*n)).collect();
    assert_eq!(parse(&text), Ok(Value::Array(expected)));
}

#[test]
fn written_floats_and_bools_parse_back_in_order() {
    assert_eq!(
        parse("1.5,22.25,0.0]"),
        Ok(Value::Array(vec![
            Value::Float(b"1.5".to_vec()),
            Value::Float(b"22.25".to_vec()),
            Value::Float(b"0.0".to_vec())
        ]))
    );
    assert_eq!(
        parse("false,false,true]"),
        Ok(Value::Array(vec![Value::Bool(false), Value::Bool(false), Value::Bool(true)]))
    );
}

#[test]
fn clone_copies_nested_values() {
    let v = parse("[1,2],[3]]").unwrap();
    let c = v.clone();
    assert_eq!(c, v);
    assert_eq!(
        c,
        Value::Array(vec![
            Value::Array(vec![Value::Integer(1), Value::Integer(2)]),
            Value::Array(vec![Value::Integer(3)])
        ])
    );
}
