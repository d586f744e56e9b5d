//! A codec between a small JSON-like text format and typed values: a
//! tokenizer, a reader of token sequences into trees, and the traits that turn
//! trees into values and back.
use vstd::prelude::*;

pub mod deserializers;
pub mod laws;
pub mod lexer;
pub mod mapper;
pub mod numbers;
pub mod scan_laws;
pub mod serializer;
pub mod serializers;
pub mod text;

pub use vstd::view::DeepView;

verus! {

use crate::serializer::{
    DecodeError, Deserialize, Serialize, decode_text, encode_text, result_model,
};

/// The compact text of a value.
pub fn encode<T: Serialize>(value: T) -> (r: String)
    ensures
        r@ == encode_text::<T>(value.deep_view()),
{
    serializer::encode(value)
}

/// Reads a value of `T` from a text that holds an object.
pub fn decode<T: Deserialize>(input_str: String) -> (r: Result<T, DecodeError>)
    ensures
        result_model(r) == decode_text::<T>(input_str@),
{
    serializer::decode(input_str)
}

} // verus!
