use cooldata::lexer::{LexError, LexErrorKind, Loc, Token, TokenType, Tokenizer};
use cooldata::parser::{Error, Expected, ParseError, Parser};
use cooldata::value::{CoolDataList, CoolDataObject, CoolDataType, FieldError, IndexError, ValueError, ValueKind};
use cooldata::{parse, render};

fn kinds(tokens: &[Token]) -> Vec<String> {
    tokens.iter().map(|t| format!("{:?}", t.0)).collect()
}

#[test]
fn scalar_fields() {
    let o = parse("a = 1\nb = 2.5\nc = \"x\"\n").unwrap();
    assert_eq!(*o.get_int("a").unwrap(), 1);
    assert_eq!(o.get_float("b").unwrap(), "2.5");
    assert_eq!(o.get_float("b").unwrap().parse::<f32>().unwrap(), 2.5f32);
    assert_eq!(o.get_string("c").unwrap(), "x");
    assert_eq!(o.len(), 3);
}

#[test]
fn double_period_is_reported_at_second_period() {
    match parse("a = 1.2.3") {
        Err(Error::Lex(e)) => assert_eq!(e, LexError { kind: LexErrorKind::DoublePeriod, loc: Loc(8, 1) }),
        other => panic!("unexpected {:?}", other),
    }
}

#[test]
fn nested_object() {
    let o = parse("a = { b = 1 }").unwrap();
    let inner = o.get_object("a").unwrap();
    assert_eq!(*inner.get_int("b").unwrap(), 1);
    assert_eq!(inner.len(), 1);
}

#[test]
fn list_with_commas() {
    let o = parse("a = [1, 2, 3]").unwrap();
    let l = o.get_list("a").unwrap();
    assert_eq!(l.len(), 3);
    assert_eq!(*l.int_at(0).unwrap(), 1);
    assert_eq!(*l.int_at(1).unwrap(), 2);
    assert_eq!(*l.int_at(2).unwrap(), 3);
}

#[test]
fn list_without_separators() {
    let o = parse("a = [1 2 3]").unwrap();
    let l = o.get_list("a").unwrap();
    assert_eq!(l.len(), 3);
    assert_eq!(*l.int_at(0).unwrap(), 1);
    assert_eq!(*l.int_at(1).unwrap(), 2);
    assert_eq!(*l.int_at(2).unwrap(), 3);
}

#[test]
fn missing_equals() {
    match parse("a 1") {
        Err(Error::Parse(ParseError::ExpectedToken(Expected::Equals, TokenType::Int(t), loc))) => {
            assert_eq!(t, "1");
            assert_eq!(loc, Loc(3, 1));
        }
        other => panic!("unexpected {:?}", other),
    }
}

#[test]
fn get_string_on_string_and_int() {
    let o = parse("s = \"hello world\"\nn = 4\n").unwrap();
    assert_eq!(o.get_string("s").unwrap(), "hello world");
    match o.get_string("n") {
        Err(FieldError::WrongType(name, kind)) => {
            assert_eq!(name, "n");
            assert_eq!(kind, ValueKind::String);
        }
        other => panic!("unexpected {:?}", other),
    }
    match o.get_string("missing") {
        Err(FieldError::Unknown(name)) => assert_eq!(name, "missing"),
        other => panic!("unexpected {:?}", other),
    }
}

#[test]
fn list_bounds() {
    let o = parse("a = [\"x\", 2, 3.5]").unwrap();
    let l = o.get_list("a").unwrap();
    let n = l.len();
    assert_eq!(n, 3);
    assert!(matches!(l.at(n), Err(IndexError::OutOfBounds(3))));
    assert!(l.at(n - 1).is_ok());
    assert_eq!(l.float_at(2).unwrap(), "3.5");
    assert_eq!(l.string_at(0).unwrap(), "x");
    assert_eq!(l.string_at(1), Err(IndexError::WrongType(1, ValueKind::String)));
    assert_eq!(CoolDataList::new().at(0).err(), Some(IndexError::OutOfBounds(0)));
}

#[test]
fn round_trip_of_flat_object() {
    let text = "name = \"cool data\"\ncount = 42\nratio = 0.25\n";
    let o = parse(text).unwrap();
    let again = parse(&render(&o)).unwrap();
    assert_eq!(render(&again), render(&o));
    assert_eq!(again.get_string("name").unwrap(), "cool data");
    assert_eq!(*again.get_int("count").unwrap(), 42);
    assert_eq!(again.get_float("ratio").unwrap(), "0.25");
    assert_eq!(render(&o), text);
}

#[test]
fn round_trip_with_nested_list() {
    let o = parse("l = [[1, 2], { a = 1 }]\n").unwrap();
    let text = render(&o);
    assert_eq!(text, "l = [[1, 2], {\na = 1\n}]\n");
    let again = parse(&text).unwrap();
    assert_eq!(render(&again), text);
}

#[test]
fn duplicate_key_last_wins() {
    let o = parse("a = 1\nb = 2\na = 3\n").unwrap();
    assert_eq!(*o.get_int("a").unwrap(), 3);
    assert_eq!(o.len(), 2);
    assert_eq!(render(&o), "a = 3\nb = 2\n");
}

#[test]
fn empty_document() {
    let o = parse("").unwrap();
    assert_eq!(o.len(), 0);
    assert_eq!(render(&o), "");
    assert_eq!(parse("\n\n  \n").unwrap().len(), 0);
}

#[test]
fn token_locations() {
    let tokens = Tokenizer::new("ab = 12\n  c = \"q\"").tokenize().unwrap();
    assert_eq!(
        kinds(&tokens),
        vec!["Ident(\"ab\")", "Equals", "Int(\"12\")", "Newline", "Ident(\"c\")", "Equals", "String(\"q\")"]
    );
    let locs: Vec<Loc> = tokens.iter().map(|t| t.1).collect();
    assert_eq!(locs, vec![Loc(1, 1), Loc(4, 1), Loc(6, 1), Loc(8, 1), Loc(3, 2), Loc(5, 2), Loc(7, 2)]);
}

#[test]
fn punctuation_tokens() {
    let tokens = Tokenizer::new("{}[],=").tokenize().unwrap();
    assert_eq!(
        kinds(&tokens),
        vec!["LeftBrace", "RightBrace", "LeftBracket", "RightBracket", "Comma", "Equals"]
    );
}

#[test]
fn identifier_stops_at_digit() {
    let tokens = Tokenizer::new("ab1").tokenize().unwrap();
    assert_eq!(kinds(&tokens), vec!["Ident(\"ab\")", "Int(\"1\")"]);
    assert_eq!(tokens[1].1, Loc(3, 1));
}

#[test]
fn float_token() {
    let tokens = Tokenizer::new("3.14").tokenize().unwrap();
    assert_eq!(kinds(&tokens), vec!["Float(\"3.14\")"]);
}

#[test]
fn newline_in_string() {
    assert_eq!(
        Tokenizer::new("a = \"x\ny\"").tokenize().err(),
        Some(LexError { kind: LexErrorKind::NewlineInString, loc: Loc(5, 1) })
    );
}

#[test]
fn unterminated_string() {
    assert_eq!(
        Tokenizer::new("a = \"xy").tokenize().err(),
        Some(LexError { kind: LexErrorKind::UnterminatedString, loc: Loc(5, 1) })
    );
}

#[test]
fn unexpected_character() {
    assert_eq!(
        Tokenizer::new("a = 1\nb = #").tokenize().err(),
        Some(LexError { kind: LexErrorKind::UnexpectedCharacter('#'), loc: Loc(5, 2) })
    );
}

#[test]
fn unclosed_object_is_eof() {
    assert!(matches!(parse("a = { b = 1"), Err(Error::Parse(ParseError::UnexpectedEof))));
    assert!(matches!(parse("a = [1, 2"), Err(Error::Parse(ParseError::UnexpectedEof))));
    assert!(matches!(parse("a ="), Err(Error::Parse(ParseError::UnexpectedEof))));
    assert!(matches!(parse("a"), Err(Error::Parse(ParseError::UnexpectedEof))));
}

#[test]
fn identifier_in_list() {
    match parse("a = [1, b]") {
        Err(Error::Parse(ParseError::ExpectedToken(Expected::RightBracket, TokenType::Ident(t), loc))) => {
            assert_eq!(t, "b");
            assert_eq!(loc, Loc(9, 1));
        }
        other => panic!("unexpected {:?}", other),
    }
}

#[test]
fn bad_value_and_stray_tokens() {
    assert!(matches!(
        parse("a = ]"),
        Err(Error::Parse(ParseError::ExpectedToken(Expected::Value, TokenType::RightBracket, Loc(5, 1))))
    ));
    assert!(matches!(
        parse("1 = 2"),
        Err(Error::Parse(ParseError::ExpectedToken(Expected::Field, TokenType::Int(_), Loc(1, 1))))
    ));
    assert!(matches!(
        parse("a = { 1 }"),
        Err(Error::Parse(ParseError::ExpectedToken(Expected::RightBrace, TokenType::Int(_), Loc(7, 1))))
    ));
    assert!(matches!(
        parse("}"),
        Err(Error::Parse(ParseError::ExpectedToken(Expected::Field, TokenType::RightBrace, Loc(1, 1))))
    ));
}

#[test]
fn integer_overflow_is_invalid_number() {
    match parse("a = 2147483648") {
        Err(Error::Value(ValueError::InvalidNumber(t))) => assert_eq!(t, "2147483648"),
        other => panic!("unexpected {:?}", other),
    }
    assert_eq!(*parse("a = 2147483647").unwrap().get_int("a").unwrap(), i32::MAX);
}

#[test]
fn integer_literal_conversion() {
    assert!(matches!(CoolDataType::integer("-2147483648"), Ok(CoolDataType::Int(i32::MIN))));
    assert!(matches!(CoolDataType::integer("+17"), Ok(CoolDataType::Int(17))));
    assert!(matches!(CoolDataType::integer("007"), Ok(CoolDataType::Int(7))));
    assert!(CoolDataType::integer("").is_err());
    assert!(CoolDataType::integer("-").is_err());
    assert!(CoolDataType::integer("1a").is_err());
    assert!(CoolDataType::integer("-2147483649").is_err());
}

#[test]
fn float_literal_conversion() {
    assert!(matches!(CoolDataType::float("1.5"), Ok(CoolDataType::Float(ref t)) if t == "1.5"));
    assert!(matches!(CoolDataType::float("7"), Ok(CoolDataType::Float(_))));
    assert!(matches!(CoolDataType::float("1.2.3"), Err(ValueError::InvalidNumber(_))));
    assert!(matches!(CoolDataType::float(".5"), Err(ValueError::InvalidNumber(_))));
    assert!(matches!(CoolDataType::float(""), Err(ValueError::InvalidNumber(_))));
}

#[test]
fn render_values() {
    assert_eq!(CoolDataType::Int(-305).render(), "-305");
    assert_eq!(CoolDataType::Int(i32::MIN).render(), "-2147483648");
    assert_eq!(CoolDataType::Int(0).render(), "0");
    assert_eq!(CoolDataType::String("a b".to_string()).render(), "\"a b\"");
    let mut o = CoolDataObject::new();
    o.add_field("x".to_string(), CoolDataType::Int(1));
    o.add_field("y".to_string(), CoolDataType::Float("2.0".to_string()));
    o.add_field("x".to_string(), CoolDataType::Int(5));
    assert_eq!(render(&o), "x = 5\ny = 2.0\n");
    assert_eq!(CoolDataType::Object(o).render(), "{\nx = 5\ny = 2.0\n}");
}

#[test]
fn parser_on_given_tokens() {
    let tokens = vec![
        Token(TokenType::Ident("k".to_string()), Loc(1, 1)),
        Token(TokenType::Equals, Loc(3, 1)),
        Token(TokenType::LeftBracket, Loc(5, 1)),
        Token(TokenType::Newline, Loc(6, 1)),
        Token(TokenType::Float("1.0".to_string()), Loc(1, 2)),
        Token(TokenType::RightBracket, Loc(4, 2)),
    ];
    let o = Parser::new(tokens).parse().unwrap();
    assert_eq!(o.get_list("k").unwrap().float_at(0).unwrap(), "1.0");
}

#[test]
fn multiline_nested_document() {
    let text = "name = 42\npi = 3.14\nlabel = \"hello\"\nnested = {\n  inner = \"value\"\n}\nitems = [1, 2, \"three\", { a = 1 }]\n";
    let o = parse(text).unwrap();
    assert_eq!(*o.get_int("name").unwrap(), 42);
    assert_eq!(o.get_float("pi").unwrap(), "3.14");
    assert_eq!(o.get_object("nested").unwrap().get_string("inner").unwrap(), "value");
    let items = o.get_list("items").unwrap();
    assert_eq!(items.len(), 4);
    assert_eq!(items.string_at(2).unwrap(), "three");
    assert_eq!(*items.object_at(3).unwrap().get_int("a").unwrap(), 1);
    assert!(matches!(items.list_at(0), Err(IndexError::WrongType(0, ValueKind::List))));
    assert!(matches!(o.get_field("nope"), Err(FieldError::Unknown(_))));
}

#[test]
fn edit_fields_in_place() {
    let mut o = parse("a = 1\ns = \"x\"\nl = [1, \"y\"]\nn = { b = 2 }\n").unwrap();
    *o.get_int_mut("a").unwrap() = 7;
    o.get_string_mut("s").unwrap().push('z');
    *o.get_field_mut("a").unwrap() = CoolDataType::Int(9);
    assert_eq!(*o.get_int("a").unwrap(), 9);
    assert_eq!(o.get_string("s").unwrap(), "xz");
    assert!(matches!(o.get_float_mut("a"), Err(FieldError::WrongType(_, ValueKind::Float))));
    assert!(matches!(o.get_field_mut("zz"), Err(FieldError::Unknown(_))));
    {
        let l = o.get_list_mut("l").unwrap();
        *l.int_at_mut(0).unwrap() = 5;
        l.string_at_mut(1).unwrap().push('!');
        assert_eq!(l.int_at_mut(1).err(), Some(IndexError::WrongType(1, ValueKind::Int)));
        assert_eq!(l.float_at_mut(7).err(), Some(IndexError::OutOfBounds(7)));
        *l.at_mut(0).unwrap() = CoolDataType::Int(6);
        assert!(l.list_at_mut(0).is_err());
        assert!(l.object_at_mut(0).is_err());
    }
    o.get_object_mut("n").unwrap().add_field("c".to_string(), CoolDataType::Int(3));
    assert_eq!(render(&o), "a = 9\ns = \"xz\"\nl = [6, \"y!\"]\nn = {\nb = 2\nc = 3\n}\n");
}
