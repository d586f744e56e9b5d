use vstd::prelude::*;
use crate::lexer::{StringType, Token, TokenType};
use crate::mapper::{Json, Value, json_wf, lemma_array_view, lemma_array_wf_intro, views};
use crate::numbers::{int_digits, int_text};
use crate::serializer::Serialize;
use crate::text::string_of_char;

verus! {

impl Serialize for u8 {
    open spec fn encoded(v: u8) -> Json {
        Json::Scalar((TokenType::Int, int_digits(v as int)))
    }

    fn serialize(&self) -> (r: Value) {
        Value::Token(Token { token_type: TokenType::Int, literal: int_text(*self as i128) })
    }
}

impl Serialize for u16 {
    open spec fn encoded(v: u16) -> Json {
        Json::Scalar((TokenType::Int, int_digits(v as int)))
    }

    fn serialize(&self) -> (r: Value) {
        Value::Token(Token { token_type: TokenType::Int, literal: int_text(*self as i128) })
    }
}

impl Serialize for u32 {
    open spec fn encoded(v: u32) -> Json {
        Json::Scalar((TokenType::Int, int_digits(v as int)))
    }

    fn serialize(&self) -> (r: Value) {
        Value::Token(Token { token_type: TokenType::Int, literal: int_text(*self as i128) })
    }
}

impl Serialize for u64 {
    open spec fn encoded(v: u64) -> Json {
        Json::Scalar((TokenType::Int, int_digits(v as int)))
    }

    fn serialize(&self) -> (r: Value) {
        Value::Token(Token { token_type: TokenType::Int, literal: int_text(*self as i128) })
    }
}

impl Serialize for usize {
    open spec fn encoded(v: usize) -> Json {
        Json::Scalar((TokenType::Int, int_digits(v as int)))
    }

    fn serialize(&self) -> (r: Value) {
        Value::Token(Token { token_type: TokenType::Int, literal: int_text(*self as i128) })
    }
}

impl Serialize for i8 {
    open spec fn encoded(v: i8) -> Json {
        Json::Scalar((TokenType::Int, int_digits(v as int)))
    }

    fn serialize(&self) -> (r: Value) {
        Value::Token(Token { token_type: TokenType::Int, literal: int_text(*self as i128) })
    }
}

impl Serialize for i16 {
    open spec fn encoded(v: i16) -> Json {
        Json::Scalar((TokenType::Int, int_digits(v as int)))
    }

    fn serialize(&self) -> (r: Value) {
        Value::Token(Token { token_type: TokenType::Int, literal: int_text(*self as i128) })
    }
}

impl Serialize for i32 {
    open spec fn encoded(v: i32) -> Json {
        Json::Scalar((TokenType::Int, int_digits(v as int)))
    }

    fn serialize(&self) -> (r: Value) {
        Value::Token(Token { token_type: TokenType::Int, literal: int_text(*self as i128) })
    }
}

impl Serialize for i64 {
    open spec fn encoded(v: i64) -> Json {
        Json::Scalar((TokenType::Int, int_digits(v as int)))
    }

    fn serialize(&self) -> (r: Value) {
        Value::Token(Token { token_type: TokenType::Int, literal: int_text(*self as i128) })
    }
}

impl Serialize for isize {
    open spec fn encoded(v: isize) -> Json {
        Json::Scalar((TokenType::Int, int_digits(v as int)))
    }

    fn serialize(&self) -> (r: Value) {
        Value::Token(Token { token_type: TokenType::Int, literal: int_text(*self as i128) })
    }
}

impl Serialize for bool {
    open spec fn encoded(v: bool) -> Json {
        if v {
            Json::Scalar((TokenType::ReservedString, seq!['t', 'r', 'u', 'e']))
        } else {
            Json::Scalar((TokenType::ReservedString, seq!['f', 'a', 'l', 's', 'e']))
        }
    }

    fn serialize(&self) -> (r: Value) {
        proof {
            reveal_strlit("true");
            reveal_strlit("false");
        }
        let literal = if *self {
            "true".to_owned()
        } else {
            "false".to_owned()
        };
        assert("true"@ =~= seq!['t', 'r', 'u', 'e']);
        assert("false"@ =~= seq!['f', 'a', 'l', 's', 'e']);
        Value::Token(Token { token_type: TokenType::ReservedString, literal })
    }
}

impl Serialize for String {
    open spec fn encoded(v: Seq<char>) -> Json {
        Json::Scalar((TokenType::String(StringType::ComplexString), v))
    }

    fn serialize(&self) -> (r: Value) {
        Value::Token(
            Token { token_type: TokenType::String(StringType::ComplexString), literal: self.clone() },
        )
    }
}

impl Serialize for char {
    open spec fn encoded(v: char) -> Json {
        Json::Scalar((TokenType::String(StringType::SimpleString), seq![v]))
    }

    fn serialize(&self) -> (r: Value) {
        Value::Token(
            Token {
                token_type: TokenType::String(StringType::SimpleString),
                literal: string_of_char(*self),
            },
        )
    }
}

impl<T: Serialize> Serialize for Option<T> {
    /// No value is written as the word `null`.
    open spec fn encoded(v: Option<T::V>) -> Json {
        match v {
            Some(x) => T::encoded(x),
            None => Json::Scalar((TokenType::ReservedString, seq!['n', 'u', 'l', 'l'])),
        }
    }

    fn serialize(&self) -> (r: Value) {
        match self {
            Some(val) => val.serialize(),
            None => {
                proof {
                    reveal_strlit("null");
                }
                assert("null"@ =~= seq!['n', 'u', 'l', 'l']);
                Value::Token(Token { token_type: TokenType::ReservedString, literal: "null".to_owned() })
            },
        }
    }
}

impl<T: Serialize> Serialize for Vec<T> {
    open spec fn encoded(v: Seq<T::V>) -> Json {
        Json::Array(v.map_values(|x: T::V| T::encoded(x)))
    }

    fn serialize(&self) -> (r: Value) {
        let ghost m = self.deep_view().map_values(|x: T::V| T::encoded(x));
        let mut array: Vec<Value> = Vec::new();
        let mut i: usize = 0;
        assert(views(array@) =~= m.take(0));
        while i < self.len()
            invariant
                i <= self@.len(),
                m == self.deep_view().map_values(|x: T::V| T::encoded(x)),
                views(array@) == m.take(i as int),
                forall|k: int| 0 <= k < views(array@).len() ==> json_wf(#[trigger] views(array@)[k]),
            decreases self@.len() - i,
        {
            let v = self[i].serialize();
            let ghost before = views(array@);
            array.push(v);
            assert(views(array@) =~= before.push(v@));
            assert forall|k: int| 0 <= k < views(array@).len() implies json_wf(
                #[trigger] views(array@)[k],
            ) by {
                if k < before.len() {
                    assert(views(array@)[k] == before[k]);
                }
            }
            i = i + 1;
            assert(m.take(i as int) =~= before.push(v@));
        }
        assert(m.take(self@.len() as int) =~= m);
        proof {
            lemma_array_view(array);
            lemma_array_wf_intro(views(array@));
        }
        Value::Array(array)
    }
}

} // verus!
