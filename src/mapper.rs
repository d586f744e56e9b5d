use vstd::prelude::*;
use crate::lexer::{StringType, Token, TokenModel, TokenType, tokens_model};
use crate::text::{chars_lt, chars_of, key_lt, strip_ends, strip_quotes};

verus! {

/// A tree as a mathematical value: a scalar token, an object as its entries in
/// key order, or an array.
pub enum Json {
    Scalar(TokenModel),
    Object(Seq<(Seq<char>, Json)>),
    Array(Seq<Json>),
}

/// The entries after setting `k` to `v`: an entry of that key is replaced, else
/// the new one goes before the first greater key.
pub open spec fn obj_insert(e: Seq<(Seq<char>, Json)>, k: Seq<char>, v: Json) -> Seq<
    (Seq<char>, Json),
>
    decreases e.len(),
{
    if e.len() == 0 {
        seq![(k, v)]
    } else if key_lt(e[0].0, k) {
        seq![e[0]] + obj_insert(e.drop_first(), k, v)
    } else if e[0].0 == k {
        seq![(k, v)] + e.drop_first()
    } else {
        seq![(k, v)] + e
    }
}

/// The value stored under `k`, if any.
pub open spec fn obj_lookup(e: Seq<(Seq<char>, Json)>, k: Seq<char>) -> Option<Json>
    decreases e.len(),
{
    if e.len() == 0 {
        None
    } else if e[0].0 == k {
        Some(e[0].1)
    } else {
        obj_lookup(e.drop_first(), k)
    }
}

/// Keys in strictly increasing order, hence unique.
pub open spec fn keys_sorted(e: Seq<(Seq<char>, Json)>) -> bool {
    forall|i: int, j: int| 0 <= i < j < e.len() ==> key_lt(#[trigger] e[i].0, #[trigger] e[j].0)
}

/// A tree whose objects, at every depth, hold their keys in increasing order.
pub open spec fn json_wf(j: Json) -> bool
    decreases j,
{
    match j {
        Json::Scalar(_) => true,
        Json::Object(e) => keys_sorted(e) && forall|i: int|
            0 <= i < e.len() ==> json_wf(#[trigger] e[i].1),
        Json::Array(a) => forall|i: int| 0 <= i < a.len() ==> json_wf(#[trigger] a[i]),
    }
}

pub proof fn lemma_array_wf(a: Seq<Json>, i: int)
    requires
        json_wf(Json::Array(a)),
        0 <= i < a.len(),
    ensures
        json_wf(a[i]),
{
    let j = Json::Array(a);
    assert(decreases_to!(j => j->Array_0));
    assert(decreases_to!(a => a[i]));
}

pub proof fn lemma_array_wf_intro(a: Seq<Json>)
    requires
        forall|i: int| 0 <= i < a.len() ==> json_wf(#[trigger] a[i]),
    ensures
        json_wf(Json::Array(a)),
{
    let j = Json::Array(a);
    assert(decreases_to!(j => j->Array_0));
    assert forall|i: int| 0 <= i < a.len() implies json_wf(#[trigger] a[i]) by {
        assert(decreases_to!(a => a[i]));
    }
}

pub proof fn lemma_object_wf(e: Seq<(Seq<char>, Json)>, i: int)
    requires
        json_wf(Json::Object(e)),
        0 <= i < e.len(),
    ensures
        json_wf(e[i].1),
        keys_sorted(e),
{
    let j = Json::Object(e);
    assert(decreases_to!(j => j->Object_0));
    assert(decreases_to!(e => e[i]));
    assert(decreases_to!(e[i] => e[i].1));
}

pub open spec fn is_scalar_kind(k: TokenType) -> bool {
    k is Int || k is Float || k is ReservedString || k is String
}

/// The tree scalar for a scalar token: strings lose their quotes.
pub open spec fn scalar_of(t: TokenModel) -> Json {
    if t.0 is String {
        Json::Scalar((t.0, strip_quotes(t.1)))
    } else {
        Json::Scalar(t)
    }
}

/// Why a token sequence is not an object: the first token out of place, or the
/// end of the tokens where one more was needed.
pub enum ParseFault {
    Unexpected(TokenModel),
    End,
}

pub type Parsed<T> = Result<(T, int), ParseFault>;

/// The token at `pos`, which must be of kind `k`.
pub open spec fn expect_at(toks: Seq<TokenModel>, pos: int, k: TokenType) -> Result<int, ParseFault> {
    if pos < 0 || pos >= toks.len() {
        Err(ParseFault::End)
    } else if toks[pos].0 == k {
        Ok(pos + 1)
    } else {
        Err(ParseFault::Unexpected(toks[pos]))
    }
}

/// `Object := '{' (Pair (',' Pair)*)? '}'`, starting at `pos`: the entries and the
/// position after the closing brace.
pub open spec fn parse_object_at(toks: Seq<TokenModel>, pos: int) -> Parsed<
    Seq<(Seq<char>, Json)>,
>
    decreases toks.len() - pos, 2nat,
{
    if pos < 0 || pos >= toks.len() {
        Err(ParseFault::End)
    } else if toks[pos].0 != TokenType::LBrace {
        Err(ParseFault::Unexpected(toks[pos]))
    } else if pos + 1 < toks.len() && toks[pos + 1].0 == TokenType::RBrace {
        Ok((Seq::empty(), pos + 2))
    } else {
        parse_members(toks, pos + 1, Seq::empty())
    }
}

/// `Pair := SimpleString ':' Value` at `pos`: the key without its quotes, the
/// value, and the position after it.
pub open spec fn parse_pair_at(toks: Seq<TokenModel>, pos: int) -> Parsed<(Seq<char>, Json)>
    decreases toks.len() - pos, 0nat,
{
    if pos < 0 || pos >= toks.len() {
        Err(ParseFault::End)
    } else if toks[pos].0 != TokenType::String(StringType::SimpleString) {
        Err(ParseFault::Unexpected(toks[pos]))
    } else if pos + 1 >= toks.len() {
        Err(ParseFault::End)
    } else if toks[pos + 1].0 != TokenType::Colon {
        Err(ParseFault::Unexpected(toks[pos + 1]))
    } else {
        match parse_value_at(toks, pos + 2) {
            Err(f) => Err(f),
            Ok((v, p)) => Ok(((strip_quotes(toks[pos].1), v), p)),
        }
    }
}

/// `Pair (',' Pair)* '}'` at `pos`, the pairs being added to `acc`.
pub open spec fn parse_members(
    toks: Seq<TokenModel>,
    pos: int,
    acc: Seq<(Seq<char>, Json)>,
) -> Parsed<Seq<(Seq<char>, Json)>>
    decreases toks.len() - pos, 1nat,
{
    match parse_pair_at(toks, pos) {
            Err(f) => Err(f),
            Ok((kv, p)) => {
                let acc2 = obj_insert(acc, kv.0, kv.1);
                if !(pos < p < toks.len()) {
                    Err(ParseFault::End)
                } else if toks[p].0 == TokenType::Comma {
                    parse_members(toks, p + 1, acc2)
                } else if toks[p].0 == TokenType::RBrace {
                    Ok((acc2, p + 1))
                } else {
                    Err(ParseFault::Unexpected(toks[p]))
                }
            },
    }
}

/// `Value := Scalar | Object | Array` at `pos`.
pub open spec fn parse_value_at(toks: Seq<TokenModel>, pos: int) -> Parsed<Json>
    decreases toks.len() - pos, 3nat,
{
    if pos < 0 || pos >= toks.len() {
        Err(ParseFault::End)
    } else if is_scalar_kind(toks[pos].0) {
        Ok((scalar_of(toks[pos]), pos + 1))
    } else if toks[pos].0 == TokenType::LBrace {
        match parse_object_at(toks, pos) {
            Ok((e, p)) => Ok((Json::Object(e), p)),
            Err(f) => Err(f),
        }
    } else if toks[pos].0 == TokenType::LBracket {
        match parse_array_at(toks, pos) {
            Ok((a, p)) => Ok((Json::Array(a), p)),
            Err(f) => Err(f),
        }
    } else {
        Err(ParseFault::Unexpected(toks[pos]))
    }
}

/// `Array := '[' (Element (',' Element)*)? ']'` at `pos`.
pub open spec fn parse_array_at(toks: Seq<TokenModel>, pos: int) -> Parsed<Seq<Json>>
    decreases toks.len() - pos, 2nat,
{
    if pos < 0 || pos >= toks.len() {
        Err(ParseFault::End)
    } else if toks[pos].0 != TokenType::LBracket {
        Err(ParseFault::Unexpected(toks[pos]))
    } else if pos + 1 < toks.len() && toks[pos + 1].0 == TokenType::RBracket {
        Ok((Seq::empty(), pos + 2))
    } else {
        parse_elements(toks, pos + 1, Seq::empty())
    }
}

/// `Element := Object | Scalar` at `pos`.
pub open spec fn parse_element_at(toks: Seq<TokenModel>, pos: int) -> Parsed<Json>
    decreases toks.len() - pos, 3nat,
{
    if pos < 0 || pos >= toks.len() {
        Err(ParseFault::End)
    } else if is_scalar_kind(toks[pos].0) {
        Ok((scalar_of(toks[pos]), pos + 1))
    } else if toks[pos].0 == TokenType::LBrace {
        match parse_object_at(toks, pos) {
            Ok((e, p)) => Ok((Json::Object(e), p)),
            Err(f) => Err(f),
        }
    } else {
        Err(ParseFault::Unexpected(toks[pos]))
    }
}

/// `Element (',' Element)* ']'` at `pos`; the elements are appended to `acc`.
pub open spec fn parse_elements(toks: Seq<TokenModel>, pos: int, acc: Seq<Json>) -> Parsed<
    Seq<Json>,
>
    decreases toks.len() - pos, 4nat,
{
    {
        match parse_element_at(toks, pos) {
            Err(f) => Err(f),
            Ok((v, p)) => {
                if !(pos < p < toks.len()) {
                    Err(ParseFault::End)
                } else if toks[p].0 == TokenType::Comma {
                    parse_elements(toks, p + 1, acc.push(v))
                } else if toks[p].0 == TokenType::RBracket {
                    Ok((acc.push(v), p + 1))
                } else {
                    Err(ParseFault::Unexpected(toks[p]))
                }
            },
        }
    }
}

/// A tree: a scalar token, an object, or an array.
#[derive(Debug)]
pub enum Value {
    Token(Token),
    Object(Object),
    Array(Vec<Value>),
}

/// An object: its entries, kept in increasing key order.
#[derive(Debug)]
pub struct Object {
    pub entries: Vec<(String, Value)>,
}

impl View for Value {
    type V = Json;

    open spec fn view(&self) -> Json
        decreases self,
    {
        match self {
            Value::Token(t) => Json::Scalar(t@),
            Value::Object(o) => Json::Object(o.model()),
            Value::Array(a) => Json::Array(array_model(a)),
        }
    }
}

/// The trees of an array's elements.
pub open spec fn array_model(a: &Vec<Value>) -> Seq<Json>
    decreases a,
{
    Seq::new(
        a@.len(),
        |i: int|
            if 0 <= i < a@.len() {
                a@[i].view()
            } else {
                Json::Array(Seq::empty())
            },
    )
}

impl Object {
    /// The entries as keys and trees.
    pub open spec fn model(&self) -> Seq<(Seq<char>, Json)>
        decreases self,
    {
        Seq::new(
            self.entries@.len(),
            |i: int|
                if 0 <= i < self.entries@.len() {
                    (self.entries@[i].0@, self.entries@[i].1.view())
                } else {
                    (Seq::empty(), Json::Array(Seq::empty()))
                },
        )
    }

    pub fn new() -> (r: Object)
        ensures
            r.model() == Seq::<(Seq<char>, Json)>::empty(),
            keys_sorted(r.model()),
            json_wf(Json::Object(r.model())),
    {
        let r = Object { entries: Vec::new() };
        assert(r.model() =~= Seq::<(Seq<char>, Json)>::empty());
        r
    }

    pub fn len(&self) -> (r: usize)
        ensures
            r == self.model().len(),
    {
        self.entries.len()
    }

    /// Sets `key` to `value`, in key order.
    pub fn insert(&mut self, key: String, value: Value)
        ensures
            final(self).model() == obj_insert(old(self).model(), key@, value@),
            keys_sorted(old(self).model()) ==> keys_sorted(final(self).model()),
            json_wf(Json::Object(old(self).model())) && json_wf(value@) ==> json_wf(
                Json::Object(final(self).model()),
            ),
    {
        let ghost m = self.model();
        let kc = chars_of(key.as_str());
        let mut i: usize = 0;
        loop
            invariant
                i <= self.entries@.len(),
                kc@ == key@,
                self.model() == m,
                forall|j: int| 0 <= j < i ==> key_lt(#[trigger] m[j].0, key@),
            ensures
                i <= self.entries@.len(),
                forall|j: int| 0 <= j < i ==> key_lt(#[trigger] m[j].0, key@),
                i == self.entries@.len() || !key_lt(m[i as int].0, key@),
            decreases self.entries@.len() - i,
        {
            if i >= self.entries.len() {
                break;
            }
            let ec = chars_of(self.entries[i].0.as_str());
            if !chars_lt(&ec, &kc) {
                break;
            }
            i = i + 1;
        }
        proof {
            lemma_insert_split(m, key@, value@, i as int);
            if keys_sorted(m) {
                crate::laws::lemma_insert_keeps_sorted(m, key@, value@);
            }
            if json_wf(Json::Object(m)) && json_wf(value@) {
                crate::laws::lemma_insert_keeps_wf(m, key@, value@);
            }
        }
        let ghost n = m.len() as int;
        if i < self.entries.len() && self.entries[i].0 == key {
            let ghost kv = (key@, value@);
            self.entries.remove(i);
            self.entries.insert(i, (key, value));
            assert(self.model() =~= m.subrange(0, i as int) + (seq![kv] + m.subrange(i + 1, n)));
            assert(m.subrange(i as int, n).drop_first() =~= m.subrange(i + 1, n));
        } else {
            let ghost kv = (key@, value@);
            self.entries.insert(i, (key, value));
            assert(self.model() =~= m.subrange(0, i as int) + (seq![kv] + m.subrange(i as int, n)));
        }
    }

    /// The value stored under `key`, if any.
    pub fn get(&self, key: &str) -> (r: Option<&Value>)
        ensures
            match r {
                Some(v) => obj_lookup(self.model(), key@) == Some(v@),
                None => obj_lookup(self.model(), key@) is None,
            },
    {
        let k = key.to_owned();
        let mut i: usize = 0;
        assert(self.model().subrange(0, self.model().len() as int) =~= self.model());
        while i < self.entries.len()
            invariant
                i <= self.entries@.len(),
                k@ == key@,
                obj_lookup(self.model(), key@) == obj_lookup(
                    self.model().subrange(i as int, self.model().len() as int),
                    key@,
                ),
            decreases self.entries@.len() - i,
        {
            let ghost rest = self.model().subrange(i as int, self.model().len() as int);
            if self.entries[i].0 == k {
                return Some(&self.entries[i].1);
            }
            assert(rest.drop_first() =~= self.model().subrange(i + 1, self.model().len() as int));
            i = i + 1;
        }
        None
    }
}

/// Setting a key whose place lies after the first `i` entries leaves them as
/// they are.
pub proof fn lemma_insert_split(e: Seq<(Seq<char>, Json)>, k: Seq<char>, v: Json, i: int)
    requires
        0 <= i <= e.len(),
        forall|j: int| 0 <= j < i ==> key_lt(#[trigger] e[j].0, k),
    ensures
        obj_insert(e, k, v) == e.subrange(0, i) + obj_insert(e.subrange(i, e.len() as int), k, v),
    decreases i,
{
    if i == 0 {
        assert(e.subrange(0, 0) + obj_insert(e.subrange(0, e.len() as int), k, v) =~= obj_insert(
            e,
            k,
            v,
        )) by {
            assert(e.subrange(0, e.len() as int) =~= e);
        }
    } else {
        let t = e.drop_first();
        assert forall|j: int| 0 <= j < i - 1 implies key_lt(#[trigger] t[j].0, k) by {
            assert(t[j] == e[j + 1]);
        }
        lemma_insert_split(t, k, v, i - 1);
        assert(t.subrange(i - 1, t.len() as int) =~= e.subrange(i, e.len() as int));
        assert(e.subrange(0, i) =~= seq![e[0]] + t.subrange(0, i - 1));
        assert(key_lt(e[0].0, k));
    }
}

/// Why a token sequence is not an object.
#[derive(Debug)]
pub enum MapperError {
    UnexpectedToken(Token),
    UnexpectedEnd,
}

impl View for MapperError {
    type V = ParseFault;

    open spec fn view(&self) -> ParseFault {
        match self {
            MapperError::UnexpectedToken(t) => ParseFault::Unexpected(t@),
            MapperError::UnexpectedEnd => ParseFault::End,
        }
    }
}

/// The views of a sequence of trees.
pub open spec fn views(a: Seq<Value>) -> Seq<Json> {
    a.map_values(|v: Value| v@)
}

pub proof fn lemma_array_view(a: Vec<Value>)
    ensures
        Value::Array(a)@ == Json::Array(views(a@)),
{
    assert(array_model(&a).len() == a@.len());
    assert(array_model(&a) =~= views(a@));
}

/// A recursive-descent reader of an object from a token sequence.
pub struct Mapper {
    pub token_list: Vec<Token>,
    pub position: usize,
}

impl Mapper {
    pub open spec fn toks(&self) -> Seq<TokenModel> {
        tokens_model(self.token_list@)
    }

    pub fn new(token_list: Vec<Token>) -> (r: Self)
        ensures
            r.token_list == token_list,
            r.position == 0,
    {
        Mapper { token_list, position: 0 }
    }

    /// The error for the token at `pos`: that token, or the end of the tokens.
    fn fault_at(&self, pos: usize) -> (r: MapperError)
        ensures
            pos < self.toks().len() ==> r@ == ParseFault::Unexpected(self.toks()[pos as int]),
            pos >= self.toks().len() ==> r@ == ParseFault::End,
    {
        if pos < self.token_list.len() {
            MapperError::UnexpectedToken(self.token_list[pos].duplicate())
        } else {
            MapperError::UnexpectedEnd
        }
    }

    /// The kind of the token at `pos`.
    fn peek_token(&self, pos: usize) -> (r: Option<TokenType>)
        ensures
            self.toks().len() == self.token_list@.len(),
            self.token_list@.len() <= usize::MAX,
            pos < self.toks().len() ==> r == Some(self.toks()[pos as int].0),
            pos >= self.toks().len() ==> r is None,
    {
        if pos < self.token_list.len() {
            Some(self.token_list[pos].token_type)
        } else {
            None
        }
    }

    /// The position after the token at `pos`, which must be of kind `kind`.
    fn expect(&self, pos: usize, kind: TokenType) -> (r: Result<usize, MapperError>)
        ensures
            match r {
                Ok(p) => expect_at(self.toks(), pos as int, kind) == Ok::<int, ParseFault>(p as int),
                Err(e) => expect_at(self.toks(), pos as int, kind) == Err::<int, ParseFault>(e@),
            },
    {
        match self.peek_token(pos) {
            Some(k) if k == kind => Ok(pos + 1),
            _ => Err(self.fault_at(pos)),
        }
    }

    /// The scalar tree for the token at `pos`.
    fn read_token(&self, pos: usize) -> (r: Value)
        requires
            pos < self.toks().len(),
            is_scalar_kind(self.toks()[pos as int].0),
        ensures
            r@ == scalar_of(self.toks()[pos as int]),
    {
        let t = &self.token_list[pos];
        match t.token_type {
            TokenType::String(_) => Value::Token(
                Token { token_type: t.token_type, literal: strip_ends(&t.literal) },
            ),
            _ => Value::Token(t.duplicate()),
        }
    }

    /// A pair at `pos`: its key without quotes, its value, and the position after.
    fn parse_value(&self, pos: usize) -> (r: Result<(String, Value, usize), MapperError>)
        ensures
            match r {
                Ok((k, v, p)) => {
                    &&& parse_pair_at(self.toks(), pos as int) == Ok::<
                        ((Seq<char>, Json), int),
                        ParseFault,
                    >(((k@, v@), p as int))
                    &&& json_wf(v@)
                },
                Err(e) => parse_pair_at(self.toks(), pos as int) == Err::<
                    ((Seq<char>, Json), int),
                    ParseFault,
                >(e@),
            },
        decreases self.toks().len() - pos, 0nat,
    {
        let p1 = match self.expect(pos, TokenType::String(StringType::SimpleString)) {
            Ok(p) => p,
            Err(e) => {
                return Err(e);
            },
        };
        let p2 = match self.expect(p1, TokenType::Colon) {
            Ok(p) => p,
            Err(e) => {
                return Err(e);
            },
        };
        let (v, p3) = match self.value_at(p2) {
            Ok(x) => x,
            Err(e) => {
                return Err(e);
            },
        };
        let key = strip_ends(&self.token_list[pos].literal);
        Ok((key, v, p3))
    }

    /// A value at `pos` and the position after it.
    fn value_at(&self, pos: usize) -> (r: Result<(Value, usize), MapperError>)
        ensures
            match r {
                Ok((v, p)) => {
                    &&& parse_value_at(self.toks(), pos as int) == Ok::<(Json, int), ParseFault>(
                        (v@, p as int),
                    )
                    &&& json_wf(v@)
                },
                Err(e) => parse_value_at(self.toks(), pos as int) == Err::<(Json, int), ParseFault>(
                    e@,
                ),
            },
        decreases self.toks().len() - pos, 3nat,
    {
        match self.peek_token(pos) {
            Some(TokenType::LBrace) => match self.object_at(pos) {
                Ok((o, p)) => Ok((Value::Object(o), p)),
                Err(e) => Err(e),
            },
            Some(TokenType::LBracket) => match self.parse_array(pos) {
                Ok((a, p)) => {
                    let v = Value::Array(a);
                    proof {
                        lemma_array_view(a);
                    }
                    Ok((v, p))
                },
                Err(e) => Err(e),
            },
            Some(TokenType::Int) | Some(TokenType::Float) | Some(TokenType::ReservedString) | Some(
                TokenType::String(_),
            ) => Ok((self.read_token(pos), pos + 1)),
            _ => Err(self.fault_at(pos)),
        }
    }

    /// An object at `pos` and the position after its closing brace.
    fn object_at(&self, pos: usize) -> (r: Result<(Object, usize), MapperError>)
        ensures
            match r {
                Ok((o, p)) => {
                    &&& parse_object_at(self.toks(), pos as int) == Ok::<
                        (Seq<(Seq<char>, Json)>, int),
                        ParseFault,
                    >((o.model(), p as int))
                    &&& keys_sorted(o.model())
                    &&& json_wf(Json::Object(o.model()))
                },
                Err(e) => parse_object_at(self.toks(), pos as int) == Err::<
                    (Seq<(Seq<char>, Json)>, int),
                    ParseFault,
                >(e@),
            },
        decreases self.toks().len() - pos, 2nat,
    {
        match self.peek_token(pos) {
            Some(TokenType::LBrace) => {},
            _ => {
                return Err(self.fault_at(pos));
            },
        }
        let mut obj = Object::new();
        if self.peek_token(pos + 1) == Some(TokenType::RBrace) {
            return Ok((obj, pos + 2));
        }
        let mut cur = pos + 1;
        loop
            invariant
                pos < cur <= self.toks().len(),
                keys_sorted(obj.model()),
                json_wf(Json::Object(obj.model())),
                parse_members(self.toks(), cur as int, obj.model()) == parse_object_at(
                    self.toks(),
                    pos as int,
                ),
            decreases self.toks().len() - cur,
        {
            let (k, v, p) = match self.parse_value(cur) {
                Ok(x) => x,
                Err(e) => {
                    return Err(e);
                },
            };
            obj.insert(k, v);
            if !(cur < p && p < self.token_list.len()) {
                return Err(MapperError::UnexpectedEnd);
            }
            match self.peek_token(p) {
                Some(TokenType::Comma) => {
                    cur = p + 1;
                },
                Some(TokenType::RBrace) => {
                    return Ok((obj, p + 1));
                },
                _ => {
                    return Err(self.fault_at(p));
                },
            }
        }
    }

    /// An element of an array at `pos`: an object or a scalar token.
    fn element_at(&self, pos: usize) -> (r: Result<(Value, usize), MapperError>)
        ensures
            match r {
                Ok((v, p)) => {
                    &&& parse_element_at(self.toks(), pos as int) == Ok::<
                        (Json, int),
                        ParseFault,
                    >((v@, p as int))
                    &&& json_wf(v@)
                },
                Err(e) => parse_element_at(self.toks(), pos as int) == Err::<
                    (Json, int),
                    ParseFault,
                >(e@),
            },
        decreases self.toks().len() - pos, 3nat,
    {
        match self.peek_token(pos) {
            Some(TokenType::LBrace) => match self.object_at(pos) {
                Ok((o, p)) => Ok((Value::Object(o), p)),
                Err(e) => Err(e),
            },
            Some(TokenType::Int) | Some(TokenType::Float) | Some(TokenType::ReservedString) | Some(
                TokenType::String(_),
            ) => Ok((self.read_token(pos), pos + 1)),
            _ => Err(self.fault_at(pos)),
        }
    }

    /// An array at `pos`: its elements and the position after its closing bracket.
    fn parse_array(&self, pos: usize) -> (r: Result<(Vec<Value>, usize), MapperError>)
        ensures
            match r {
                Ok((a, p)) => {
                    &&& parse_array_at(self.toks(), pos as int) == Ok::<
                        (Seq<Json>, int),
                        ParseFault,
                    >((views(a@), p as int))
                    &&& json_wf(Json::Array(views(a@)))
                },
                Err(e) => parse_array_at(self.toks(), pos as int) == Err::<
                    (Seq<Json>, int),
                    ParseFault,
                >(e@),
            },
        decreases self.toks().len() - pos, 2nat,
    {
        match self.peek_token(pos) {
            Some(TokenType::LBracket) => {},
            _ => {
                return Err(self.fault_at(pos));
            },
        }
        let mut array: Vec<Value> = Vec::new();
        if self.peek_token(pos + 1) == Some(TokenType::RBracket) {
            assert(views(array@) =~= Seq::<Json>::empty());
            return Ok((array, pos + 2));
        }
        let mut cur = pos + 1;
        assert(views(array@) =~= Seq::<Json>::empty());
        loop
            invariant
                pos < cur <= self.toks().len(),
                json_wf(Json::Array(views(array@))),
                parse_elements(self.toks(), cur as int, views(array@)) == parse_array_at(
                    self.toks(),
                    pos as int,
                ),
            decreases self.toks().len() - cur,
        {
            let (v, p) = match self.element_at(cur) {
                Ok(x) => x,
                Err(e) => {
                    return Err(e);
                },
            };
            let ghost before = array@;
            assert(json_wf(Json::Array(views(before))));
            array.push(v);
            assert(views(array@) =~= views(before).push(v@));
            assert forall|i: int| 0 <= i < views(array@).len() implies json_wf(
                #[trigger] views(array@)[i],
            ) by {
                if i < views(before).len() {
                    assert(views(array@)[i] == views(before)[i]);
                    lemma_array_wf(views(before), i);
                } else {
                    assert(views(array@)[i] == v@);
                }
            }
            if !(cur < p && p < self.token_list.len()) {
                return Err(MapperError::UnexpectedEnd);
            }
            match self.peek_token(p) {
                Some(TokenType::Comma) => {
                    cur = p + 1;
                },
                Some(TokenType::RBracket) => {
                    return Ok((array, p + 1));
                },
                _ => {
                    return Err(self.fault_at(p));
                },
            }
        }
    }

    /// The object that starts at the current position; on success the position
    /// moves past its closing brace.
    pub fn parse_object(&mut self) -> (r: Result<Object, MapperError>)
        ensures
            final(self).token_list == old(self).token_list,
            match r {
                Ok(o) => {
                    &&& parse_object_at(old(self).toks(), old(self).position as int) == Ok::<
                        (Seq<(Seq<char>, Json)>, int),
                        ParseFault,
                    >((o.model(), final(self).position as int))
                    &&& keys_sorted(o.model())
                    &&& json_wf(Json::Object(o.model()))
                },
                Err(e) => parse_object_at(old(self).toks(), old(self).position as int) == Err::<
                    (Seq<(Seq<char>, Json)>, int),
                    ParseFault,
                >(e@),
            },
    {
        match self.object_at(self.position) {
            Ok((o, p)) => {
                self.position = p;
                Ok(o)
            },
            Err(e) => Err(e),
        }
    }
}

} // verus!
