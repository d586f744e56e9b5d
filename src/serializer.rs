use vstd::prelude::*;
use crate::lexer::{LexerError, Lexer, Token, TokenType, lex};
use crate::mapper::{
    Json, Mapper, MapperError, ParseFault, Value, array_model, json_wf, lemma_array_wf,
    lemma_object_wf, obj_lookup, parse_object_at,
};
use crate::text::{append, push_char};

verus! {

broadcast use vstd::std_specs::vec::axiom_vec_index_decreases;

/// Why a text did not decode, as a mathematical value.
pub enum DecodeFault {
    Mapper(ParseFault),
    Lexer(LexerError),
    UnexpectedType,
    Parse,
}

#[derive(Debug)]
pub enum DecodeError {
    MapperError(MapperError),
    LexerError(LexerError),
    UnexpectedType,
    ParseError,
}

impl View for DecodeError {
    type V = DecodeFault;

    open spec fn view(&self) -> DecodeFault {
        match self {
            DecodeError::MapperError(e) => DecodeFault::Mapper(e@),
            DecodeError::LexerError(e) => DecodeFault::Lexer(*e),
            DecodeError::UnexpectedType => DecodeFault::UnexpectedType,
            DecodeError::ParseError => DecodeFault::Parse,
        }
    }
}

impl From<MapperError> for DecodeError {
    fn from(error: MapperError) -> (r: DecodeError)
        ensures
            r == DecodeError::MapperError(error),
    {
        DecodeError::MapperError(error)
    }
}

impl vstd::std_specs::convert::FromSpecImpl<MapperError> for DecodeError {
    open spec fn obeys_from_spec() -> bool {
        true
    }

    open spec fn from_spec(error: MapperError) -> DecodeError {
        DecodeError::MapperError(error)
    }
}

impl From<LexerError> for DecodeError {
    fn from(error: LexerError) -> (r: DecodeError)
        ensures
            r == DecodeError::LexerError(error),
    {
        DecodeError::LexerError(error)
    }
}

impl vstd::std_specs::convert::FromSpecImpl<LexerError> for DecodeError {
    open spec fn obeys_from_spec() -> bool {
        true
    }

    open spec fn from_spec(error: LexerError) -> DecodeError {
        DecodeError::LexerError(error)
    }
}

/// A decode result over mathematical values.
pub open spec fn result_model<T: DeepView>(r: Result<T, DecodeError>) -> Result<T::V, DecodeFault> {
    match r {
        Ok(x) => Ok(x.deep_view()),
        Err(e) => Err(e@),
    }
}

/// The tree a node refers to, if any.
pub open spec fn node_of(value: Option<&Value>) -> Option<Json> {
    match value {
        Some(v) => Some(v@),
        None => None,
    }
}

/// Values read from the literal text of a scalar token.
pub trait FromText: Sized + DeepView {
    /// The value a text spells, if it spells one.
    spec fn text_value(s: Seq<char>) -> Option<Self::V>;

    fn from_text(s: &String) -> (r: Option<Self>)
        ensures
            match r {
                Some(x) => Self::text_value(s@) == Some(x.deep_view()),
                None => Self::text_value(s@) is None,
            },
    ;
}

/// Values read from a tree node; `None` stands for a node that is not there.
pub trait Deserialize: Sized + DeepView {
    spec fn decoded(node: Option<Json>) -> Result<Self::V, DecodeFault>;

    fn deserialize(value: Option<&Value>) -> (r: Result<Self, DecodeError>)
        ensures
            result_model(r) == Self::decoded(node_of(value)),
    ;
}

/// Values written as a tree node.
pub trait Serialize: Sized + DeepView {
    spec fn encoded(v: Self::V) -> Json;

    fn serialize(&self) -> (r: Value)
        ensures
            r@ == Self::encoded(self.deep_view()),
            json_wf(r@),
    ;
}

/// A text read as a value of `T`, with a parse failure as `Parse`.
pub open spec fn text_decoded<T: FromText>(s: Seq<char>) -> Result<T::V, DecodeFault> {
    match T::text_value(s) {
        Some(v) => Ok(v),
        None => Err(DecodeFault::Parse),
    }
}

/// A scalar node read through its literal text; a missing node reads as the
/// empty text, any other node is of the wrong type.
pub open spec fn token_decoded<T: FromText>(node: Option<Json>) -> Result<T::V, DecodeFault> {
    match node {
        None => text_decoded::<T>(Seq::empty()),
        Some(Json::Scalar(t)) => text_decoded::<T>(t.1),
        Some(_) => Err(DecodeFault::UnexpectedType),
    }
}

impl Token {
    /// The literal text read as a `T`.
    pub fn to<T: FromText>(&self) -> (r: Result<T, DecodeError>)
        ensures
            result_model(r) == text_decoded::<T>(self.literal@),
    {
        match T::from_text(&self.literal) {
            Some(v) => Ok(v),
            None => Err(DecodeError::ParseError),
        }
    }
}

/// Reads a scalar node as a `T`.
pub fn parse_token<T: FromText>(value: Option<&Value>) -> (r: Result<T, DecodeError>)
    ensures
        result_model(r) == token_decoded::<T>(node_of(value)),
{
    match value {
        None => {
            let empty = String::new();
            match T::from_text(&empty) {
                Some(v) => Ok(v),
                None => Err(DecodeError::ParseError),
            }
        },
        Some(Value::Token(t)) => t.to::<T>(),
        Some(_) => Err(DecodeError::UnexpectedType),
    }
}

/// The node under `key` in an object tree; nothing in any other tree.
pub open spec fn field_of(tree: Json, key: Seq<char>) -> Option<Json> {
    match tree {
        Json::Object(e) => obj_lookup(e, key),
        _ => None,
    }
}

/// A record's field read from the node under `key`; any failure of the field is
/// a parse failure of the record.
pub open spec fn field_decoded<T: Deserialize>(tree: Json, key: Seq<char>) -> Result<T::V, DecodeFault> {
    match T::decoded(field_of(tree, key)) {
        Ok(v) => Ok(v),
        Err(_) => Err(DecodeFault::Parse),
    }
}

/// Reads the field `key` of a record from its object tree.
pub fn read_field<T: Deserialize>(value: &Value, key: &str) -> (r: Result<T, DecodeError>)
    ensures
        result_model(r) == field_decoded::<T>(value@, key@),
{
    match value.get_value::<T>(key) {
        Ok(v) => Ok(v),
        Err(_) => Err(DecodeError::ParseError),
    }
}

/// The compact text of a tree: keys in the object's order, strings in quotes.
pub open spec fn render(j: Json) -> Seq<char>
    decreases j,
{
    match j {
        Json::Scalar(t) => if t.0 is String {
            seq!['"'] + t.1 + seq!['"']
        } else {
            t.1
        },
        Json::Object(e) => seq!['{'] + render_entries(e) + seq!['}'],
        Json::Array(a) => seq!['['] + render_items(a) + seq![']'],
    }
}

/// Entries as `"key":value`, separated by commas.
pub open spec fn render_entries(e: Seq<(Seq<char>, Json)>) -> Seq<char>
    decreases e,
{
    if e.len() == 0 {
        Seq::empty()
    } else {
        let last = e.last();
        let head = render_entries(e.drop_last());
        let sep = if e.len() > 1 {
            seq![',']
        } else {
            Seq::empty()
        };
        head + sep + seq!['"'] + last.0 + seq!['"', ':'] + render(last.1)
    }
}

/// Elements separated by commas.
pub open spec fn render_items(a: Seq<Json>) -> Seq<char>
    decreases a,
{
    if a.len() == 0 {
        Seq::empty()
    } else {
        let head = render_items(a.drop_last());
        let sep = if a.len() > 1 {
            seq![',']
        } else {
            Seq::empty()
        };
        head + sep + render(a.last())
    }
}

/// What a tree shows as text: a scalar its literal, any other tree its encoding.
pub open spec fn display_text(j: Json) -> Seq<char> {
    match j {
        Json::Scalar(t) => t.1,
        _ => render(j),
    }
}

impl Value {
    /// The node under `key` of this object, read as a `T`.
    pub fn get_value<T: Deserialize>(&self, key: &str) -> (r: Result<T, DecodeError>)
        ensures
            result_model(r) == T::decoded(field_of(self@, key@)),
    {
        let found = match self {
            Value::Object(o) => o.get(key),
            _ => None,
        };
        T::deserialize(found)
    }

    /// The compact text of this tree.
    pub fn encode_json(&self) -> (r: String)
        requires
            json_wf(self@),
        ensures
            r@ == render(self@),
        decreases self,
    {
        let mut output = String::new();
        match self {
            Value::Object(o) => {
                let ghost m = o.model();
                push_char(&mut output, '{');
                let mut i: usize = 0;
                assert(m.take(0) =~= Seq::<(Seq<char>, Json)>::empty());
                while i < o.entries.len()
                    invariant
                        i <= m.len(),
                        m == o.model(),
                        *self == Value::Object(*o),
                        json_wf(self@),
                        output@ == seq!['{'] + render_entries(m.take(i as int)),
                    decreases m.len() - i,
                {
                    let ghost before = output@;
                    if i > 0 {
                        push_char(&mut output, ',');
                    }
                    push_char(&mut output, '"');
                    append(&mut output, o.entries[i].0.as_str());
                    push_char(&mut output, '"');
                    push_char(&mut output, ':');
                    proof {
                        assert(decreases_to!(*self => (*self)->Object_0));
                        assert(decreases_to!(*o => o.entries));
                        assert(decreases_to!(o.entries => o.entries[i as int]));
                        assert(decreases_to!(o.entries[i as int] => o.entries[i as int].1));
                    }
                    proof {
                        lemma_object_wf(m, i as int);
                    }
                    let inner = o.entries[i].1.encode_json();
                    append(&mut output, inner.as_str());
                    let ghost t = m.take(i + 1);
                    assert(t.drop_last() =~= m.take(i as int));
                    assert(t.last() == m[i as int]);
                    i = i + 1;
                    assert(output@ =~= seq!['{'] + render_entries(m.take(i as int)));
                }
                push_char(&mut output, '}');
                assert(m.take(m.len() as int) =~= m);
                assert(output@ =~= render(self@));
            },
            Value::Token(t) => {
                if let TokenType::String(_) = t.token_type {
                    push_char(&mut output, '"');
                    append(&mut output, t.literal.as_str());
                    push_char(&mut output, '"');
                } else {
                    append(&mut output, t.literal.as_str());
                }
                assert(output@ =~= render(self@));
            },
            Value::Array(a) => {
                let ghost m = array_model(a);
                push_char(&mut output, '[');
                let mut i: usize = 0;
                assert(m.take(0) =~= Seq::<Json>::empty());
                while i < a.len()
                    invariant
                        i <= m.len(),
                        m == array_model(a),
                        *self == Value::Array(*a),
                        json_wf(self@),
                        output@ == seq!['['] + render_items(m.take(i as int)),
                    decreases m.len() - i,
                {
                    if i > 0 {
                        push_char(&mut output, ',');
                    }
                    proof {
                        assert(decreases_to!(*self => (*self)->Array_0));
                        assert(decreases_to!(*a => a[i as int]));
                    }
                    proof {
                        lemma_array_wf(m, i as int);
                    }
                    let inner = a[i].encode_json();
                    append(&mut output, inner.as_str());
                    let ghost t = m.take(i + 1);
                    assert(t.drop_last() =~= m.take(i as int));
                    assert(t.last() == m[i as int]);
                    i = i + 1;
                    assert(output@ =~= seq!['['] + render_items(m.take(i as int)));
                }
                push_char(&mut output, ']');
                assert(m.take(m.len() as int) =~= m);
                assert(output@ =~= render(self@));
            },
        }
        output
    }

    /// The text of a scalar's literal, or the encoding of any other tree.
    pub fn to_string(&self) -> (r: String)
        requires
            json_wf(self@),
        ensures
            r@ == display_text(self@),
    {
        match self {
            Value::Token(t) => t.literal.clone(),
            _ => self.encode_json(),
        }
    }
}

/// What decoding a text into a `T` gives: the text is scanned, an object is read
/// from the start of its tokens, and `T` is read from that object.
pub open spec fn decode_text<T: Deserialize>(s: Seq<char>) -> Result<T::V, DecodeFault> {
    match lex(s) {
        Err(e) => Err(DecodeFault::Lexer(e)),
        Ok(toks) => match parse_object_at(toks, 0) {
            Err(f) => Err(DecodeFault::Mapper(f)),
            Ok((e, _)) => T::decoded(Some(Json::Object(e))),
        },
    }
}

/// What encoding a value gives.
pub open spec fn encode_text<T: Serialize>(v: T::V) -> Seq<char> {
    render(T::encoded(v))
}

/// Decodes a text into a `T`.
pub fn decode<T: Deserialize>(input_str: String) -> (r: Result<T, DecodeError>)
    ensures
        result_model(r) == decode_text::<T>(input_str@),
{
    let mut lexer = Lexer::new(input_str);
    let tokens = match lexer.tokenize() {
        Ok(t) => t,
        Err(e) => {
            return Err(DecodeError::from(e));
        },
    };
    let mut mapper = Mapper::new(tokens);
    let object = match mapper.parse_object() {
        Ok(o) => o,
        Err(e) => {
            return Err(DecodeError::from(e));
        },
    };
    let value = Value::Object(object);
    T::deserialize(Some(&value))
}

/// Encodes a value as text.
pub fn encode<T: Serialize>(input: T) -> (r: String)
    ensures
        r@ == encode_text::<T>(input.deep_view()),
{
    input.serialize().encode_json()
}

} // verus!
