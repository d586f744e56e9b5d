use tiny_json::lexer::{Chars, Lexer, LexerError, StringType, Token, TokenType};
use tiny_json::mapper::{Json, Mapper, MapperError, Object, Value};
use tiny_json::numbers::{int_text, parse_int};
use tiny_json::serializer::{
    parse_token, read_field, DecodeError, DecodeFault, Deserialize, Serialize,
};
use tiny_json::text::{chars_of, strip_ends};
use tiny_json::DeepView;

fn lex(s: &str) -> Result<Vec<Token>, LexerError> {
    Lexer::new(s.to_string()).tokenize()
}

fn shapes(tokens: &[Token]) -> Vec<(TokenType, String)> {
    tokens.iter().map(|t| (t.token_type, t.literal.clone())).collect()
}

fn simple(s: &str) -> (TokenType, String) {
    (TokenType::String(StringType::SimpleString), s.to_string())
}

// A record with one text field.
#[derive(Debug, PartialEq)]
struct Named {
    name: String,
}

// The model items below are read only in proofs; records written by hand
// give them a trivial model.
impl DeepView for Named {
    type V = ();

    fn deep_view(&self) {}
}

impl Deserialize for Named {
    fn decoded(_node: Option<Json>) -> Result<(), DecodeFault> {
        Err(DecodeFault::Parse)
    }

    fn deserialize(value: Option<&Value>) -> Result<Self, DecodeError> {
        let value = match value {
            None => return Err(DecodeError::ParseError),
            Some(v) => v,
        };
        Ok(Named { name: read_field::<String>(value, "name")? })
    }
}

impl Serialize for Named {
    fn encoded(_v: ()) -> Json {
        panic!("a model, not meant to run")
    }

    fn serialize(&self) -> Value {
        let mut object = Object::new();
        object.insert("name".to_owned(), self.name.serialize());
        Value::Object(object)
    }
}

// A record with one integer field.
#[derive(Debug, PartialEq)]
struct Point {
    x: i32,
}

impl DeepView for Point {
    type V = ();

    fn deep_view(&self) {}
}

impl Deserialize for Point {
    fn decoded(_node: Option<Json>) -> Result<(), DecodeFault> {
        Err(DecodeFault::Parse)
    }

    fn deserialize(value: Option<&Value>) -> Result<Self, DecodeError> {
        let value = match value {
            None => return Err(DecodeError::ParseError),
            Some(v) => v,
        };
        Ok(Point { x: read_field::<i32>(value, "x")? })
    }
}

impl Serialize for Point {
    fn encoded(_v: ()) -> Json {
        panic!("a model, not meant to run")
    }

    fn serialize(&self) -> Value {
        let mut object = Object::new();
        object.insert("x".to_owned(), self.x.serialize());
        Value::Object(object)
    }
}

// A record with an integer, a sequence of records, an optional text and a
// field stored under another key.
#[derive(Debug, PartialEq)]
struct Mixed {
    a: i64,
    b: Vec<Point>,
    c: Option<String>,
    renamed: u8,
}

impl DeepView for Mixed {
    type V = ();

    fn deep_view(&self) {}
}

impl Deserialize for Mixed {
    fn decoded(_node: Option<Json>) -> Result<(), DecodeFault> {
        Err(DecodeFault::Parse)
    }

    fn deserialize(value: Option<&Value>) -> Result<Self, DecodeError> {
        let value = match value {
            None => return Err(DecodeError::ParseError),
            Some(v) => v,
        };
        Ok(Mixed {
            a: read_field::<i64>(value, "a")?,
            b: read_field::<Vec<Point>>(value, "b")?,
            c: read_field::<Option<String>>(value, "c")?,
            renamed: read_field::<u8>(value, "aJson")?,
        })
    }
}

impl Serialize for Mixed {
    fn encoded(_v: ()) -> Json {
        panic!("a model, not meant to run")
    }

    fn serialize(&self) -> Value {
        let mut object = Object::new();
        object.insert("a".to_owned(), self.a.serialize());
        object.insert("b".to_owned(), self.b.serialize());
        object.insert("c".to_owned(), self.c.serialize());
        object.insert("aJson".to_owned(), self.renamed.serialize());
        Value::Object(object)
    }
}

#[test]
fn tokens_of_small_object() {
    let tokens = lex(r#"{"a":1,"b":"Hi"}"#).unwrap();
    assert_eq!(
        shapes(&tokens),
        vec![
            (TokenType::LBrace, "{".to_string()),
            simple("\"a\""),
            (TokenType::Colon, ":".to_string()),
            (TokenType::Int, "1".to_string()),
            (TokenType::Comma, ",".to_string()),
            simple("\"b\""),
            (TokenType::Colon, ":".to_string()),
            simple("\"Hi\""),
            (TokenType::RBrace, "}".to_string()),
        ]
    );
}

#[test]
fn nothing_in_progress_after_tokenize() {
    let mut lexer = Lexer::new("{\"a\":12".to_string());
    let tokens = lexer.tokenize().unwrap();
    assert_eq!(tokens.len(), 4);
    assert_eq!(lexer.current_token.token_type, TokenType::NoToken);
    assert_eq!(lexer.current_token.literal, "");
}

#[test]
fn number_at_end_of_input_is_emitted() {
    let tokens = lex("12").unwrap();
    assert_eq!(shapes(&tokens), vec![(TokenType::Int, "12".to_string())]);
    let tokens = lex("-3.25").unwrap();
    assert_eq!(shapes(&tokens), vec![(TokenType::Float, "-3.25".to_string())]);
    let tokens = lex("null").unwrap();
    assert_eq!(shapes(&tokens), vec![(TokenType::ReservedString, "null".to_string())]);
}

#[test]
fn number_ends_at_a_letter() {
    let tokens = lex("12ab").unwrap();
    assert_eq!(
        shapes(&tokens),
        vec![(TokenType::Int, "12".to_string()), (TokenType::ReservedString, "ab".to_string())]
    );
}

#[test]
fn complex_string_kind() {
    let tokens = lex("\"a b\"").unwrap();
    assert_eq!(
        shapes(&tokens),
        vec![(TokenType::String(StringType::ComplexString), "\"a b\"".to_string())]
    );
    let tokens = lex("\"\"").unwrap();
    assert_eq!(shapes(&tokens), vec![simple("\"\"")]);
}

#[test]
fn lexer_errors() {
    assert!(matches!(lex("{#}"), Err(LexerError::InvalidTokenError('#'))));
    assert!(matches!(lex("ab#"), Err(LexerError::InvalidTokenError('#'))));
    assert!(matches!(lex("."), Err(LexerError::InvalidTokenError('.'))));
    assert!(matches!(lex("\"open"), Err(LexerError::OutOfRangeError)));
    assert!(lex("").unwrap().is_empty());
    assert!(lex(" \n ").unwrap().is_empty());
}

#[test]
fn chars_classify_and_print() {
    assert_eq!(Chars::from('{'), Chars::LBrace);
    assert_eq!(Chars::from('x'), Chars::Char('x'));
    assert_eq!(Chars::from('\n').to_char(), '\n');
    assert_eq!(Chars::Colon.to_string(), ":");
    assert_eq!(Token::default().token_type, TokenType::NoToken);
    assert_eq!(Token::default().literal, "");
}

#[test]
fn mapper_sorts_keys_and_strips_quotes() {
    let tokens = lex(r#"{"z":"q","a":[1,"s",{"k":true}],"m":{}}"#).unwrap();
    let object = Mapper::new(tokens).parse_object().unwrap();
    let keys: Vec<&str> = object.entries.iter().map(|e| e.0.as_str()).collect();
    assert_eq!(keys, vec!["a", "m", "z"]);
    assert_eq!(object.get("z").unwrap().to_string(), "q");
    assert_eq!(object.get("m").unwrap().encode_json(), "{}");
    assert_eq!(object.get("a").unwrap().encode_json(), r#"[1,"s",{"k":true}]"#);
    assert!(object.get("missing").is_none());
    assert_eq!(object.len(), 3);
}

#[test]
fn mapper_duplicate_key_overwrites() {
    let tokens = lex(r#"{"a":1,"a":2}"#).unwrap();
    let object = Mapper::new(tokens).parse_object().unwrap();
    assert_eq!(object.len(), 1);
    assert_eq!(object.get("a").unwrap().to_string(), "2");
}

#[test]
fn mapper_errors() {
    let err = Mapper::new(lex(r#"{"a":1,}"#).unwrap()).parse_object().unwrap_err();
    assert!(matches!(err, MapperError::UnexpectedToken(ref t) if t.literal == "}"));
    let err = Mapper::new(lex(r#"{"a":1"#).unwrap()).parse_object().unwrap_err();
    assert!(matches!(err, MapperError::UnexpectedEnd));
    let err = Mapper::new(lex(r#"{"a":[1,]}"#).unwrap()).parse_object().unwrap_err();
    assert!(matches!(err, MapperError::UnexpectedToken(ref t) if t.literal == "]"));
    let err = Mapper::new(lex(r#"{"a":[[1]]}"#).unwrap()).parse_object().unwrap_err();
    assert!(matches!(err, MapperError::UnexpectedToken(ref t) if t.literal == "["));
    let err = Mapper::new(lex(r#"{"a b":1}"#).unwrap()).parse_object().unwrap_err();
    assert!(matches!(err, MapperError::UnexpectedToken(ref t) if t.literal == "\"a b\""));
    let err = Mapper::new(lex("[1]").unwrap()).parse_object().unwrap_err();
    assert!(matches!(err, MapperError::UnexpectedToken(ref t) if t.literal == "["));
}

#[test]
fn decode_quote_stripping_and_back() {
    let n: Named = tiny_json::decode(r#"{"name":"Ford"}"#.to_string()).unwrap();
    assert_eq!(n.name, "Ford");
    assert_eq!(tiny_json::encode(n), r#"{"name":"Ford"}"#);
}

#[test]
fn decode_array_of_objects() {
    let text = r#"{"a":1,"b":[{"x":1},{"x":2}],"aJson":3}"#;
    let m: Mixed = tiny_json::decode(text.to_string()).unwrap();
    assert_eq!(m.a, 1);
    assert_eq!(m.b, vec![Point { x: 1 }, Point { x: 2 }]);
    assert_eq!(m.c, None);
    assert_eq!(m.renamed, 3);
}

#[test]
fn missing_optional_field_written_as_null() {
    let m = Mixed { a: 1, b: Vec::new(), c: None, renamed: 0 };
    assert_eq!(tiny_json::encode(m), r#"{"a":1,"aJson":0,"b":[],"c":null}"#);
}

#[test]
fn trailing_comma_is_rejected() {
    let r: Result<Named, DecodeError> = tiny_json::decode(r#"{"a":1,}"#.to_string());
    assert!(matches!(
        r,
        Err(DecodeError::MapperError(MapperError::UnexpectedToken(ref t))) if t.literal == "}"
    ));
}

#[test]
fn renamed_field() {
    let text = r#"{"a":0,"aJson":5}"#;
    let m: Mixed = tiny_json::decode(text.to_string()).unwrap();
    assert_eq!(m.renamed, 5);
    let out = tiny_json::encode(m);
    assert!(out.contains("\"aJson\":5"));
    assert!(!out.contains("renamed"));
}

#[test]
fn record_round_trip_through_text() {
    let m = Mixed {
        a: -42,
        b: vec![Point { x: i32::MIN }, Point { x: 7 }],
        c: Some("hello world".to_string()),
        renamed: 255,
    };
    let text = tiny_json::encode(m);
    let back: Mixed = tiny_json::decode(text).unwrap();
    assert_eq!(
        back,
        Mixed {
            a: -42,
            b: vec![Point { x: i32::MIN }, Point { x: 7 }],
            c: Some("hello world".to_string()),
            renamed: 255,
        }
    );
}

#[test]
fn primitive_round_trip_through_trees() {
    assert_eq!(i32::deserialize(Some(&(-5i32).serialize())).unwrap(), -5);
    assert_eq!(u64::deserialize(Some(&u64::MAX.serialize())).unwrap(), u64::MAX);
    assert_eq!(i64::deserialize(Some(&i64::MIN.serialize())).unwrap(), i64::MIN);
    assert_eq!(i8::deserialize(Some(&i8::MIN.serialize())).unwrap(), i8::MIN);
    assert_eq!(usize::deserialize(Some(&0usize.serialize())).unwrap(), 0);
    assert_eq!(bool::deserialize(Some(&true.serialize())).unwrap(), true);
    assert_eq!(bool::deserialize(Some(&false.serialize())).unwrap(), false);
    assert_eq!(char::deserialize(Some(&'q'.serialize())).unwrap(), 'q');
    let s = "a-b c".to_string();
    assert_eq!(String::deserialize(Some(&s.serialize())).unwrap(), s);
    let v = vec![3u16, 0, 65535];
    assert_eq!(Vec::<u16>::deserialize(Some(&v.serialize())).unwrap(), v);
    let o = Some(9i16);
    assert_eq!(Option::<i16>::deserialize(Some(&o.serialize())).unwrap(), o);
}

#[test]
fn option_none_round_trips_through_null() {
    let none: Option<String> = None;
    let tree = none.serialize();
    assert_eq!(tree.encode_json(), "null");
    assert_eq!(Option::<String>::deserialize(Some(&tree)).unwrap(), None);
    assert_eq!(Option::<i32>::deserialize(Some(&tree)).unwrap(), None);
    assert_eq!(Option::<Vec<u8>>::deserialize(Some(&tree)).unwrap(), None);
    assert_eq!(Option::<i32>::deserialize(None).unwrap(), None);
    let quoted = "null".to_string().serialize();
    assert_eq!(Option::<String>::deserialize(Some(&quoted)).unwrap(), Some("null".to_string()));
    let m = Mixed { a: 1, b: Vec::new(), c: None, renamed: 0 };
    let back: Mixed = tiny_json::decode(tiny_json::encode(m)).unwrap();
    assert_eq!(back, Mixed { a: 1, b: Vec::new(), c: None, renamed: 0 });
}

#[test]
fn encode_scalars() {
    assert_eq!((-120i8).serialize().encode_json(), "-120");
    assert_eq!(true.serialize().encode_json(), "true");
    assert_eq!('c'.serialize().encode_json(), "\"c\"");
    assert_eq!("x y".to_string().serialize().encode_json(), "\"x y\"");
    assert_eq!(vec![1u8, 2].serialize().encode_json(), "[1,2]");
    assert_eq!(Vec::<u8>::new().serialize().encode_json(), "[]");
}

#[test]
fn primitive_parse_failures() {
    let tree = |s: &str| {
        Value::Token(Token { token_type: TokenType::Int, literal: s.to_string() })
    };
    assert!(matches!(u8::deserialize(Some(&tree("256"))), Err(DecodeError::ParseError)));
    assert!(matches!(u8::deserialize(Some(&tree("-0"))), Err(DecodeError::ParseError)));
    assert!(matches!(i8::deserialize(Some(&tree("-129"))), Err(DecodeError::ParseError)));
    assert_eq!(i8::deserialize(Some(&tree("-128"))).unwrap(), -128);
    assert_eq!(u32::deserialize(Some(&tree("+5"))).unwrap(), 5);
    assert!(matches!(i32::deserialize(Some(&tree("+"))), Err(DecodeError::ParseError)));
    assert!(matches!(i32::deserialize(Some(&tree("1.5"))), Err(DecodeError::ParseError)));
    assert!(matches!(
        u64::deserialize(Some(&tree("99999999999999999999999999"))),
        Err(DecodeError::ParseError)
    ));
    assert!(matches!(bool::deserialize(Some(&tree("True"))), Err(DecodeError::ParseError)));
    assert!(matches!(char::deserialize(Some(&tree("ab"))), Err(DecodeError::ParseError)));
    assert!(matches!(i32::deserialize(None), Err(DecodeError::ParseError)));
    assert_eq!(String::deserialize(None).unwrap(), "");
}

#[test]
fn wrong_shapes() {
    let scalar = Value::Token(Token { token_type: TokenType::Int, literal: "1".to_string() });
    assert!(matches!(Vec::<i32>::deserialize(Some(&scalar)), Err(DecodeError::UnexpectedType)));
    let array = Value::Array(Vec::new());
    assert!(matches!(i32::deserialize(Some(&array)), Err(DecodeError::UnexpectedType)));
    assert_eq!(Vec::<i32>::deserialize(None).unwrap(), Vec::<i32>::new());
    let r: Result<Named, DecodeError> = tiny_json::decode(r#"{"name":[1]}"#.to_string());
    assert!(matches!(r, Err(DecodeError::ParseError)));
    let r: Result<Named, DecodeError> = tiny_json::decode("{\"name\":\"a\"} #".to_string());
    assert!(matches!(r, Err(DecodeError::LexerError(LexerError::InvalidTokenError('#')))));
    assert!(matches!(scalar.get_value::<i32>("k"), Err(DecodeError::ParseError)));
}

#[test]
fn token_and_value_helpers() {
    let t = Token { token_type: TokenType::Int, literal: "17".to_string() };
    assert_eq!(t.to::<u8>().unwrap(), 17);
    assert_eq!(t.duplicate().literal, "17");
    assert!(matches!(parse_token::<u8>(None), Err(DecodeError::ParseError)));
    assert_eq!(parse_token::<u8>(Some(&Value::Token(t))).unwrap(), 17);
    assert_eq!(int_text(-907), "-907");
    assert_eq!(parse_int(&"-907".to_string(), true, -1000, 1000), Some(-907));
    assert_eq!(parse_int(&"-907".to_string(), false, 0, 1000), None);
    assert_eq!(strip_ends(&"\"abc\"".to_string()), "abc");
    assert_eq!(chars_of("hé"), vec!['h', 'é']);
}
