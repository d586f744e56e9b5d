use vstd::prelude::*;
use crate::lexer::TokenType;
use crate::mapper::{Json, Value, array_model};
use crate::numbers::{int_in_range, parse_int};
use crate::serializer::{
    DecodeError, DecodeFault, Deserialize, FromText, node_of, parse_token, result_model,
    token_decoded,
};

verus! {

broadcast use vstd::std_specs::vec::axiom_vec_index_decreases;

/// The tree of the word `null`, which stands for no value.
pub open spec fn null_tree() -> Json {
    Json::Scalar((TokenType::ReservedString, seq!['n', 'u', 'l', 'l']))
}

/// Whether `s` holds exactly the characters of `lit`.
fn text_is(s: &String, lit: &str) -> (r: bool)
    ensures
        r == (s@ == lit@),
{
    let t = lit.to_owned();
    *s == t
}

impl FromText for u8 {
    open spec fn text_value(s: Seq<char>) -> Option<u8> {
        match int_in_range(s, false, u8::MIN as int, u8::MAX as int) {
            Some(n) => Some(n as u8),
            None => None,
        }
    }

    fn from_text(s: &String) -> (r: Option<u8>) {
        match parse_int(s, false, u8::MIN as i128, u8::MAX as i128) {
            Some(n) => Some(n as u8),
            None => None,
        }
    }
}

impl Deserialize for u8 {
    open spec fn decoded(node: Option<Json>) -> Result<u8, DecodeFault> {
        token_decoded::<u8>(node)
    }

    fn deserialize(value: Option<&Value>) -> (r: Result<u8, DecodeError>) {
        parse_token(value)
    }
}

impl FromText for u16 {
    open spec fn text_value(s: Seq<char>) -> Option<u16> {
        match int_in_range(s, false, u16::MIN as int, u16::MAX as int) {
            Some(n) => Some(n as u16),
            None => None,
        }
    }

    fn from_text(s: &String) -> (r: Option<u16>) {
        match parse_int(s, false, u16::MIN as i128, u16::MAX as i128) {
            Some(n) => Some(n as u16),
            None => None,
        }
    }
}

impl Deserialize for u16 {
    open spec fn decoded(node: Option<Json>) -> Result<u16, DecodeFault> {
        token_decoded::<u16>(node)
    }

    fn deserialize(value: Option<&Value>) -> (r: Result<u16, DecodeError>) {
        parse_token(value)
    }
}

impl FromText for u32 {
    open spec fn text_value(s: Seq<char>) -> Option<u32> {
        match int_in_range(s, false, u32::MIN as int, u32::MAX as int) {
            Some(n) => Some(n as u32),
            None => None,
        }
    }

    fn from_text(s: &String) -> (r: Option<u32>) {
        match parse_int(s, false, u32::MIN as i128, u32::MAX as i128) {
            Some(n) => Some(n as u32),
            None => None,
        }
    }
}

impl Deserialize for u32 {
    open spec fn decoded(node: Option<Json>) -> Result<u32, DecodeFault> {
        token_decoded::<u32>(node)
    }

    fn deserialize(value: Option<&Value>) -> (r: Result<u32, DecodeError>) {
        parse_token(value)
    }
}

impl FromText for u64 {
    open spec fn text_value(s: Seq<char>) -> Option<u64> {
        match int_in_range(s, false, u64::MIN as int, u64::MAX as int) {
            Some(n) => Some(n as u64),
            None => None,
        }
    }

    fn from_text(s: &String) -> (r: Option<u64>) {
        match parse_int(s, false, u64::MIN as i128, u64::MAX as i128) {
            Some(n) => Some(n as u64),
            None => None,
        }
    }
}

impl Deserialize for u64 {
    open spec fn decoded(node: Option<Json>) -> Result<u64, DecodeFault> {
        token_decoded::<u64>(node)
    }

    fn deserialize(value: Option<&Value>) -> (r: Result<u64, DecodeError>) {
        parse_token(value)
    }
}

impl FromText for usize {
    open spec fn text_value(s: Seq<char>) -> Option<usize> {
        match int_in_range(s, false, usize::MIN as int, usize::MAX as int) {
            Some(n) => Some(n as usize),
            None => None,
        }
    }

    fn from_text(s: &String) -> (r: Option<usize>) {
        match parse_int(s, false, usize::MIN as i128, usize::MAX as i128) {
            Some(n) => Some(n as usize),
            None => None,
        }
    }
}

impl Deserialize for usize {
    open spec fn decoded(node: Option<Json>) -> Result<usize, DecodeFault> {
        token_decoded::<usize>(node)
    }

    fn deserialize(value: Option<&Value>) -> (r: Result<usize, DecodeError>) {
        parse_token(value)
    }
}

impl FromText for i8 {
    open spec fn text_value(s: Seq<char>) -> Option<i8> {
        match int_in_range(s, true, i8::MIN as int, i8::MAX as int) {
            Some(n) => Some(n as i8),
            None => None,
        }
    }

    fn from_text(s: &String) -> (r: Option<i8>) {
        match parse_int(s, true, i8::MIN as i128, i8::MAX as i128) {
            Some(n) => Some(n as i8),
            None => None,
        }
    }
}

impl Deserialize for i8 {
    open spec fn decoded(node: Option<Json>) -> Result<i8, DecodeFault> {
        token_decoded::<i8>(node)
    }

    fn deserialize(value: Option<&Value>) -> (r: Result<i8, DecodeError>) {
        parse_token(value)
    }
}

impl FromText for i16 {
    open spec fn text_value(s: Seq<char>) -> Option<i16> {
        match int_in_range(s, true, i16::MIN as int, i16::MAX as int) {
            Some(n) => Some(n as i16),
            None => None,
        }
    }

    fn from_text(s: &String) -> (r: Option<i16>) {
        match parse_int(s, true, i16::MIN as i128, i16::MAX as i128) {
            Some(n) => Some(n as i16),
            None => None,
        }
    }
}

impl Deserialize for i16 {
    open spec fn decoded(node: Option<Json>) -> Result<i16, DecodeFault> {
        token_decoded::<i16>(node)
    }

    fn deserialize(value: Option<&Value>) -> (r: Result<i16, DecodeError>) {
        parse_token(value)
    }
}

impl FromText for i32 {
    open spec fn text_value(s: Seq<char>) -> Option<i32> {
        match int_in_range(s, true, i32::MIN as int, i32::MAX as int) {
            Some(n) => Some(n as i32),
            None => None,
        }
    }

    fn from_text(s: &String) -> (r: Option<i32>) {
        match parse_int(s, true, i32::MIN as i128, i32::MAX as i128) {
            Some(n) => Some(n as i32),
            None => None,
        }
    }
}

impl Deserialize for i32 {
    open spec fn decoded(node: Option<Json>) -> Result<i32, DecodeFault> {
        token_decoded::<i32>(node)
    }

    fn deserialize(value: Option<&Value>) -> (r: Result<i32, DecodeError>) {
        parse_token(value)
    }
}

impl FromText for i64 {
    open spec fn text_value(s: Seq<char>) -> Option<i64> {
        match int_in_range(s, true, i64::MIN as int, i64::MAX as int) {
            Some(n) => Some(n as i64),
            None => None,
        }
    }

    fn from_text(s: &String) -> (r: Option<i64>) {
        match parse_int(s, true, i64::MIN as i128, i64::MAX as i128) {
            Some(n) => Some(n as i64),
            None => None,
        }
    }
}

impl Deserialize for i64 {
    open spec fn decoded(node: Option<Json>) -> Result<i64, DecodeFault> {
        token_decoded::<i64>(node)
    }

    fn deserialize(value: Option<&Value>) -> (r: Result<i64, DecodeError>) {
        parse_token(value)
    }
}

impl FromText for isize {
    open spec fn text_value(s: Seq<char>) -> Option<isize> {
        match int_in_range(s, true, isize::MIN as int, isize::MAX as int) {
            Some(n) => Some(n as isize),
            None => None,
        }
    }

    fn from_text(s: &String) -> (r: Option<isize>) {
        match parse_int(s, true, isize::MIN as i128, isize::MAX as i128) {
            Some(n) => Some(n as isize),
            None => None,
        }
    }
}

impl Deserialize for isize {
    open spec fn decoded(node: Option<Json>) -> Result<isize, DecodeFault> {
        token_decoded::<isize>(node)
    }

    fn deserialize(value: Option<&Value>) -> (r: Result<isize, DecodeError>) {
        parse_token(value)
    }
}

impl FromText for bool {
    open spec fn text_value(s: Seq<char>) -> Option<bool> {
        if s == seq!['t', 'r', 'u', 'e'] {
            Some(true)
        } else if s == seq!['f', 'a', 'l', 's', 'e'] {
            Some(false)
        } else {
            None
        }
    }

    fn from_text(s: &String) -> (r: Option<bool>) {
        proof {
            reveal_strlit("true");
            reveal_strlit("false");
        }
        if text_is(s, "true") {
            assert("true"@ =~= seq!['t', 'r', 'u', 'e']);
            Some(true)
        } else if text_is(s, "false") {
            assert("false"@ =~= seq!['f', 'a', 'l', 's', 'e']);
            Some(false)
        } else {
            assert("true"@ =~= seq!['t', 'r', 'u', 'e']);
            assert("false"@ =~= seq!['f', 'a', 'l', 's', 'e']);
            None
        }
    }
}

impl Deserialize for bool {
    open spec fn decoded(node: Option<Json>) -> Result<bool, DecodeFault> {
        token_decoded::<bool>(node)
    }

    fn deserialize(value: Option<&Value>) -> (r: Result<bool, DecodeError>) {
        parse_token(value)
    }
}

impl FromText for char {
    open spec fn text_value(s: Seq<char>) -> Option<char> {
        if s.len() == 1 {
            Some(s[0])
        } else {
            None
        }
    }

    fn from_text(s: &String) -> (r: Option<char>) {
        let cs = crate::text::chars_of(s.as_str());
        if cs.len() == 1 {
            Some(cs[0])
        } else {
            None
        }
    }
}

impl Deserialize for char {
    open spec fn decoded(node: Option<Json>) -> Result<char, DecodeFault> {
        token_decoded::<char>(node)
    }

    fn deserialize(value: Option<&Value>) -> (r: Result<char, DecodeError>) {
        parse_token(value)
    }
}

impl FromText for String {
    open spec fn text_value(s: Seq<char>) -> Option<Seq<char>> {
        Some(s)
    }

    fn from_text(s: &String) -> (r: Option<String>) {
        Some(s.clone())
    }
}

impl Deserialize for String {
    open spec fn decoded(node: Option<Json>) -> Result<Seq<char>, DecodeFault> {
        token_decoded::<String>(node)
    }

    fn deserialize(value: Option<&Value>) -> (r: Result<String, DecodeError>) {
        parse_token(value)
    }
}

impl<T: Deserialize> Deserialize for Option<T> {
    /// A missing node and the word `null` are no value; any other node is read
    /// as a `T`.
    open spec fn decoded(node: Option<Json>) -> Result<Option<T::V>, DecodeFault> {
        match node {
            None => Ok(None),
            Some(j) => if j == null_tree() {
                Ok(None)
            } else {
                match T::decoded(Some(j)) {
                    Ok(v) => Ok(Some(v)),
                    Err(e) => Err(e),
                }
            },
        }
    }

    fn deserialize(value: Option<&Value>) -> (r: Result<Option<T>, DecodeError>) {
        match value {
            None => Ok(None),
            Some(v) => {
                if let Value::Token(t) = v {
                    if t.token_type == TokenType::ReservedString && text_is(&t.literal, "null") {
                        proof {
                            reveal_strlit("null");
                            assert("null"@ =~= seq!['n', 'u', 'l', 'l']);
                        }
                        return Ok(None);
                    }
                }
                proof {
                    reveal_strlit("null");
                    assert("null"@ =~= seq!['n', 'u', 'l', 'l']);
                }
                match T::deserialize(Some(v)) {
                    Ok(res) => Ok(Some(res)),
                    Err(e) => Err(e),
                }
            },
        }
    }
}

impl<T: Deserialize> Deserialize for Box<T> {
    open spec fn decoded(node: Option<Json>) -> Result<T::V, DecodeFault> {
        T::decoded(node)
    }

    fn deserialize(value: Option<&Value>) -> (r: Result<Box<T>, DecodeError>) {
        match T::deserialize(value) {
            Ok(res) => Ok(Box::new(res)),
            Err(e) => Err(e),
        }
    }
}

/// The elements of an array read one by one as `T`s; the first failure ends it.
pub open spec fn decode_items<T: Deserialize>(items: Seq<Json>) -> Result<Seq<T::V>, DecodeFault>
    decreases items.len(),
{
    if items.len() == 0 {
        Ok(Seq::empty())
    } else {
        match decode_items::<T>(items.drop_last()) {
            Err(e) => Err(e),
            Ok(vs) => match T::decoded(Some(items.last())) {
                Ok(v) => Ok(vs.push(v)),
                Err(e) => Err(e),
            },
        }
    }
}

/// Once a prefix of the elements fails, every longer prefix fails the same way.
proof fn lemma_decode_items_err<T: Deserialize>(items: Seq<Json>, i: int, j: int)
    requires
        0 <= i <= j <= items.len(),
        decode_items::<T>(items.take(i)) is Err,
    ensures
        decode_items::<T>(items.take(j)) == decode_items::<T>(items.take(i)),
    decreases j - i,
{
    if j > i {
        lemma_decode_items_err::<T>(items, i, j - 1);
        assert(items.take(j).drop_last() =~= items.take(j - 1));
    }
}

impl<T: Deserialize> Deserialize for Vec<T> {
    /// A missing node is the empty sequence; an array gives one element per child.
    open spec fn decoded(node: Option<Json>) -> Result<Seq<T::V>, DecodeFault> {
        match node {
            None => Ok(Seq::empty()),
            Some(Json::Array(items)) => decode_items::<T>(items),
            Some(_) => Err(DecodeFault::UnexpectedType),
        }
    }

    fn deserialize(value: Option<&Value>) -> (r: Result<Vec<T>, DecodeError>) {
        let node = match value {
            None => {
                let v: Vec<T> = Vec::new();
                assert(v.deep_view() =~= Seq::<T::V>::empty());
                return Ok(v);
            },
            Some(v) => v,
        };
        match node {
            Value::Array(array) => {
                let ghost m = array_model(array);
                let mut vec: Vec<T> = Vec::new();
                let mut i: usize = 0;
                assert(m.take(0) =~= Seq::<Json>::empty());
                assert(vec.deep_view() =~= Seq::<T::V>::empty());
                while i < array.len()
                    invariant
                        i <= m.len(),
                        m == array_model(array),
                        node_of(value) == Some(Json::Array(m)),
                        decode_items::<T>(m.take(i as int)) == Ok::<Seq<T::V>, DecodeFault>(
                            vec.deep_view(),
                        ),
                    decreases m.len() - i,
                {
                    let ghost t = m.take(i + 1);
                    assert(t.drop_last() =~= m.take(i as int));
                    assert(t.last() == array@[i as int]@);
                    match T::deserialize(Some(&array[i])) {
                        Ok(x) => {
                            let ghost before = vec.deep_view();
                            vec.push(x);
                            assert(vec.deep_view() =~= before.push(x.deep_view()));
                        },
                        Err(e) => {
                            proof {
                                assert(decode_items::<T>(t) == Err::<Seq<T::V>, DecodeFault>(e@));
                                lemma_decode_items_err::<T>(m, i + 1, m.len() as int);
                                assert(m.take(m.len() as int) =~= m);
                            }
                            return Err(e);
                        },
                    }
                    i = i + 1;
                }
                assert(m.take(m.len() as int) =~= m);
                Ok(vec)
            },
            _ => Err(DecodeError::UnexpectedType),
        }
    }
}

} // verus!
