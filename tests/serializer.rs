use tiny_json::mapper::{Json, Object, Value};
use tiny_json::serializer::{read_field, DecodeError, DecodeFault, Deserialize, Serialize};
use tiny_json::DeepView;

#[derive(Debug, PartialEq)]
pub struct A {
    pub a: i32,
    pub b: String,
}

// The model items below are read only in proofs; records written by hand
// give them a trivial model.
impl DeepView for A {
    type V = ();

    fn deep_view(&self) {}
}

impl Deserialize for A {
    fn decoded(_node: Option<Json>) -> Result<(), DecodeFault> {
        Err(DecodeFault::Parse)
    }

    fn deserialize(value: Option<&Value>) -> Result<Self, DecodeError> {
        let value = match value {
            None => return Err(DecodeError::ParseError),
            Some(v) => v,
        };
        let a = read_field::<i32>(value, "aJson")?;
        let b = read_field::<String>(value, "b")?;
        Ok(A { a, b })
    }
}

impl Serialize for A {
    fn encoded(_v: ()) -> Json {
        panic!("a model, not meant to run")
    }

    fn serialize(&self) -> Value {
        let mut object = Object::new();
        object.insert("aJson".to_owned(), self.a.serialize());
        object.insert("b".to_owned(), self.b.serialize());
        Value::Object(object)
    }
}

#[derive(Debug, PartialEq)]
pub struct B {
    pub a: i32,
    pub b: Vec<String>,
}

// The model items below are read only in proofs; records written by hand
// give them a trivial model.
impl DeepView for B {
    type V = ();

    fn deep_view(&self) {}
}

impl Deserialize for B {
    fn decoded(_node: Option<Json>) -> Result<(), DecodeFault> {
        Err(DecodeFault::Parse)
    }

    fn deserialize(value: Option<&Value>) -> Result<Self, DecodeError> {
        let value = match value {
            None => return Err(DecodeError::ParseError),
            Some(v) => v,
        };
        let a = read_field::<i32>(value, "a")?;
        let b = read_field::<Vec<String>>(value, "b")?;
        Ok(B { a, b })
    }
}

#[derive(Debug, PartialEq)]
pub struct C {
    pub a: i32,
    pub b: Vec<A>,
}

// The model items below are read only in proofs; records written by hand
// give them a trivial model.
impl DeepView for C {
    type V = ();

    fn deep_view(&self) {}
}

impl Deserialize for C {
    fn decoded(_node: Option<Json>) -> Result<(), DecodeFault> {
        Err(DecodeFault::Parse)
    }

    fn deserialize(value: Option<&Value>) -> Result<Self, DecodeError> {
        let value = match value {
            None => return Err(DecodeError::ParseError),
            Some(v) => v,
        };
        let a = read_field::<i32>(value, "a")?;
        let b = read_field::<Vec<A>>(value, "b")?;
        Ok(C { a, b })
    }
}

#[test]
pub fn test_deserialize() {
    let json: &str = r#"
    {
        "aJson": 1,
        "b": "Hello"
    }"#;

    let a: A = tiny_json::serializer::decode(json.to_string()).unwrap();
    assert_eq!(a.a, 1);
    assert_eq!(a.b, "Hello");
}

#[test]
pub fn test_desserialize_vec() {
    let json: &str = r#"
    {
        "a": 1,
        "b": ["Hello","world"]
    }"#;

    let a: B = tiny_json::serializer::decode(json.to_string()).unwrap();
    assert_eq!(a.a, 1);
    assert_eq!(a.b.len(), 2);
    assert_eq!(a.b[0], "Hello");
    assert_eq!(a.b[1], "world");
}

#[test]
pub fn test_encode_json() {
    let a = A {
        a: 1,
        b: "Hello".to_string(),
    };

    let json = tiny_json::serializer::encode(a);
    assert_eq!(json, r#"{"aJson":1,"b":"Hello"}"#);
}

#[test]
pub fn test_nested() {
    let json: &str = r#"
    {
        "a": 1,
        "b": [
            {
                "aJson": 1,
                "b": "Hello"
            },
            {
                "aJson": 2,
                "b": "World"
            }
        ]
    }"#;

    let a: C = tiny_json::serializer::decode(json.to_string()).unwrap();
    assert_eq!(a.a, 1);
    assert_eq!(a.b.len(), 2);
    assert_eq!(a.b[0].a, 1);
    assert_eq!(a.b[0].b, "Hello");
    assert_eq!(a.b[1].a, 2);
    assert_eq!(a.b[1].b, "World");
}
