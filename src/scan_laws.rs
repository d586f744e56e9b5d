//! The text of an encoded tree reads back: the tokenizer gives the tree's tokens,
//! and the reader gives the tree again.
use vstd::prelude::*;
use crate::lexer::{
    LexerError, ScanState, StringType, TokenModel, TokenType, is_digit, is_word_char,
    is_word_start, lex, scan, scan_initial, scan_step, start_step, structural_kind,
};
use crate::mapper::{
    Json, keys_sorted, lemma_insert_split, obj_insert, obj_lookup, parse_array_at, parse_element_at,
    parse_elements, parse_members, parse_object_at, parse_pair_at, parse_value_at,
};
use crate::text::strip_quotes;
use crate::numbers::all_digits;
use crate::laws::{build_object, keys_distinct, lemma_build_lookup};
use crate::serializer::{
    DecodeFault, Deserialize, FromText, Serialize, decode_text, encode_text, field_decoded, render,
    render_entries, render_items, token_decoded,
};

verus! {

pub open spec fn all_word(s: Seq<char>) -> bool {
    forall|i: int| 0 <= i < s.len() ==> is_word_char(#[trigger] s[i])
}

pub open spec fn no_quote(s: Seq<char>) -> bool {
    forall|i: int| 0 <= i < s.len() ==> #[trigger] s[i] != '"'
}

/// The kind the tokenizer gives a quoted text.
pub open spec fn string_kind(s: Seq<char>) -> StringType {
    if all_word(s) {
        StringType::SimpleString
    } else {
        StringType::ComplexString
    }
}

/// An integer literal: digits, after an optional `-`.
pub open spec fn int_literal(s: Seq<char>) -> bool {
    (s.len() >= 1 && all_digits(s)) || (s.len() > 1 && s[0] == '-' && all_digits(s.drop_first()))
}

/// A bare word: a letter or `_`, then letters, digits or `_`.
pub open spec fn word_literal(s: Seq<char>) -> bool {
    s.len() >= 1 && is_word_start(s[0]) && all_word(s)
}

/// Trees whose text the tokenizer reads back token for token: integer and word
/// scalars in their plain forms, strings without quote characters, keys made of
/// letters, digits and `_`.
pub open spec fn writable(j: Json) -> bool
    decreases j,
{
    match j {
        Json::Scalar(t) => match t.0 {
            TokenType::Int => int_literal(t.1),
            TokenType::ReservedString => word_literal(t.1),
            TokenType::String(_) => no_quote(t.1),
            _ => false,
        },
        Json::Object(e) => writable_entries(e),
        Json::Array(a) => writable_items(a),
    }
}

pub open spec fn writable_entries(e: Seq<(Seq<char>, Json)>) -> bool
    decreases e,
{
    if e.len() == 0 {
        true
    } else {
        writable_entries(e.drop_last()) && all_word(e.last().0) && writable(e.last().1)
    }
}

pub open spec fn writable_items(a: Seq<Json>) -> bool
    decreases a,
{
    if a.len() == 0 {
        true
    } else {
        writable_items(a.drop_last()) && writable(a.last())
    }
}

pub open spec fn quoted(s: Seq<char>) -> Seq<char> {
    seq!['"'] + s + seq!['"']
}

pub open spec fn punct(c: char) -> TokenModel {
    (
        if c == '{' {
            TokenType::LBrace
        } else if c == '}' {
            TokenType::RBrace
        } else if c == '[' {
            TokenType::LBracket
        } else if c == ']' {
            TokenType::RBracket
        } else if c == ':' {
            TokenType::Colon
        } else {
            TokenType::Comma
        },
        seq![c],
    )
}

/// The tokens of a tree's text.
pub open spec fn toks_of(j: Json) -> Seq<TokenModel>
    decreases j,
{
    match j {
        Json::Scalar(t) => if t.0 is String {
            seq![(TokenType::String(string_kind(t.1)), quoted(t.1))]
        } else {
            seq![t]
        },
        Json::Object(e) => seq![punct('{')] + entries_toks(e) + seq![punct('}')],
        Json::Array(a) => seq![punct('[')] + items_toks(a) + seq![punct(']')],
    }
}

pub open spec fn entries_toks(e: Seq<(Seq<char>, Json)>) -> Seq<TokenModel>
    decreases e,
{
    if e.len() == 0 {
        Seq::empty()
    } else {
        let sep = if e.len() > 1 {
            seq![punct(',')]
        } else {
            Seq::empty()
        };
        entries_toks(e.drop_last()) + sep + seq![
            (TokenType::String(string_kind(e.last().0)), quoted(e.last().0)),
            punct(':'),
        ] + toks_of(e.last().1)
    }
}

pub open spec fn items_toks(a: Seq<Json>) -> Seq<TokenModel>
    decreases a,
{
    if a.len() == 0 {
        Seq::empty()
    } else {
        let sep = if a.len() > 1 {
            seq![punct(',')]
        } else {
            Seq::empty()
        };
        items_toks(a.drop_last()) + sep + toks_of(a.last())
    }
}

pub open spec fn idle(out: Seq<TokenModel>) -> ScanState {
    ((TokenType::NoToken, Seq::empty()), out)
}

pub open spec fn is_closer(c: char) -> bool {
    c == ',' || c == '}' || c == ']'
}

pub open spec fn closes(rest: Seq<char>) -> bool {
    rest.len() == 0 || is_closer(rest[0])
}

proof fn lemma_scan_punct(c: char, out: Seq<TokenModel>, rest: Seq<char>)
    requires
        c == '{' || c == '}' || c == '[' || c == ']' || c == ':' || c == ',',
    ensures
        scan(idle(out), seq![c] + rest) == scan(idle(out.push(punct(c))), rest),
{
    let s = seq![c] + rest;
    assert(s.drop_first() =~= rest);
    assert(s[0] == c);
}

proof fn lemma_scan_digits(p: Seq<char>, out: Seq<TokenModel>, d: Seq<char>, rest: Seq<char>)
    requires
        all_digits(d),
    ensures
        scan(((TokenType::Int, p), out), d + rest) == scan(((TokenType::Int, p + d), out), rest),
    decreases d.len(),
{
    if d.len() == 0 {
        assert(d + rest =~= rest);
        assert(p + d =~= p);
    } else {
        let s = d + rest;
        assert(s[0] == d[0]);
        assert(is_digit(d[0]));
        assert(s.drop_first() =~= d.drop_first() + rest);
        assert(all_digits(d.drop_first())) by {
            assert forall|i: int| 0 <= i < d.drop_first().len() implies is_digit(
                #[trigger] d.drop_first()[i],
            ) by {
                assert(d.drop_first()[i] == d[i + 1]);
            }
        }
        lemma_scan_digits(p.push(d[0]), out, d.drop_first(), rest);
        assert(p.push(d[0]) + d.drop_first() =~= p + d);
    }
}

proof fn lemma_scan_word(p: Seq<char>, out: Seq<TokenModel>, w: Seq<char>, rest: Seq<char>)
    requires
        all_word(w),
    ensures
        scan(((TokenType::ReservedString, p), out), w + rest) == scan(
            ((TokenType::ReservedString, p + w), out),
            rest,
        ),
    decreases w.len(),
{
    if w.len() == 0 {
        assert(w + rest =~= rest);
        assert(p + w =~= p);
    } else {
        let s = w + rest;
        assert(s[0] == w[0]);
        assert(is_word_char(w[0]));
        assert(s.drop_first() =~= w.drop_first() + rest);
        assert(all_word(w.drop_first())) by {
            assert forall|i: int| 0 <= i < w.drop_first().len() implies is_word_char(
                #[trigger] w.drop_first()[i],
            ) by {
                assert(w.drop_first()[i] == w[i + 1]);
            }
        }
        lemma_scan_word(p.push(w[0]), out, w.drop_first(), rest);
        assert(p.push(w[0]) + w.drop_first() =~= p + w);
    }
}

/// Reading the inside of a string and its closing quote.
proof fn lemma_scan_string(
    k: StringType,
    p: Seq<char>,
    out: Seq<TokenModel>,
    s: Seq<char>,
    rest: Seq<char>,
)
    requires
        no_quote(s),
    ensures
        scan(((TokenType::String(k), p), out), s + seq!['"'] + rest) == scan(
            idle(
                out.push(
                    (
                        TokenType::String(
                            if k == StringType::SimpleString && all_word(s) {
                                StringType::SimpleString
                            } else {
                                StringType::ComplexString
                            },
                        ),
                        p + s + seq!['"'],
                    ),
                ),
            ),
            rest,
        ),
    decreases s.len(),
{
    let x = s + seq!['"'] + rest;
    if s.len() == 0 {
        assert(x[0] == '"');
        assert(x.drop_first() =~= rest);
        assert(p.push('"') =~= p + s + seq!['"']);
        assert(all_word(s));
    } else {
        assert(x[0] == s[0]);
        assert(s[0] != '"');
        let t = s.drop_first();
        assert(x.drop_first() =~= t + seq!['"'] + rest);
        assert(no_quote(t)) by {
            assert forall|i: int| 0 <= i < t.len() implies #[trigger] t[i] != '"' by {
                assert(t[i] == s[i + 1]);
            }
        }
        let k2 = if is_word_char(s[0]) {
            k
        } else {
            StringType::ComplexString
        };
        lemma_scan_string(k2, p.push(s[0]), out, t, rest);
        assert(p.push(s[0]) + t + seq!['"'] =~= p + s + seq!['"']);
        assert(all_word(s) == (is_word_char(s[0]) && all_word(t))) by {
            if all_word(s) {
                assert forall|i: int| 0 <= i < t.len() implies is_word_char(#[trigger] t[i]) by {
                    assert(t[i] == s[i + 1]);
                }
            }
            if is_word_char(s[0]) && all_word(t) {
                assert forall|i: int| 0 <= i < s.len() implies is_word_char(#[trigger] s[i]) by {
                    if i > 0 {
                        assert(s[i] == t[i - 1]);
                    }
                }
            }
        }
    }
}

/// A number or a word in progress ends at a closing character or at the end.
proof fn lemma_scan_close(kind: TokenType, p: Seq<char>, out: Seq<TokenModel>, rest: Seq<char>)
    requires
        kind == TokenType::Int || kind == TokenType::ReservedString,
        closes(rest),
    ensures
        scan(((kind, p), out), rest) == scan(idle(out.push((kind, p))), rest),
{
    if rest.len() > 0 {
        assert(!is_digit(rest[0]) && !is_word_char(rest[0]));
    }
}

proof fn lemma_scan_scalar(t: TokenModel, out: Seq<TokenModel>, rest: Seq<char>)
    requires
        writable(Json::Scalar(t)),
        closes(rest),
    ensures
        scan(idle(out), render(Json::Scalar(t)) + rest) == scan(
            idle(out + toks_of(Json::Scalar(t))),
            rest,
        ),
{
    let s = t.1;
    if t.0 is String {
        let x = render(Json::Scalar(t)) + rest;
        assert(x =~= seq!['"'] + (s + seq!['"'] + rest));
        assert(x[0] == '"');
        assert(x.drop_first() =~= s + seq!['"'] + rest);
        assert(scan(idle(out), x) == scan(
            ((TokenType::String(StringType::SimpleString), seq!['"']), out),
            s + seq!['"'] + rest,
        ));
        lemma_scan_string(StringType::SimpleString, seq!['"'], out, s, rest);
        assert(seq!['"'] + s + seq!['"'] =~= quoted(s));
        assert(out + toks_of(Json::Scalar(t)) =~= out.push(
            (TokenType::String(string_kind(s)), quoted(s)),
        ));
        assert(scan(idle(out), render(Json::Scalar(t)) + rest) == scan(idle(out + toks_of(Json::Scalar(t))), rest));
    } else if t.0 == TokenType::Int {
        let x = s + rest;
        assert(out + toks_of(Json::Scalar(t)) =~= out.push(t));
        if all_digits(s) && s.len() >= 1 {
            assert(is_digit(s[0]));
            assert(x[0] == s[0]);
            assert(x.drop_first() =~= s.drop_first() + rest);
            assert(all_digits(s.drop_first())) by {
                assert forall|i: int| 0 <= i < s.drop_first().len() implies is_digit(
                    #[trigger] s.drop_first()[i],
                ) by {
                    assert(s.drop_first()[i] == s[i + 1]);
                }
            }
            assert(scan(idle(out), x) == scan(
                ((TokenType::Int, seq![s[0]]), out),
                s.drop_first() + rest,
            ));
            lemma_scan_digits(seq![s[0]], out, s.drop_first(), rest);
            assert(seq![s[0]] + s.drop_first() =~= s);
        } else {
            assert(x[0] == '-');
            assert(x.drop_first() =~= s.drop_first() + rest);
            assert(scan(idle(out), x) == scan(
                ((TokenType::Int, seq!['-']), out),
                s.drop_first() + rest,
            ));
            lemma_scan_digits(seq!['-'], out, s.drop_first(), rest);
            assert(seq!['-'] + s.drop_first() =~= s);
        }
        lemma_scan_close(TokenType::Int, s, out, rest);
        assert(scan(idle(out), render(Json::Scalar(t)) + rest) == scan(idle(out + toks_of(Json::Scalar(t))), rest));
    } else {
        let x = s + rest;
        assert(out + toks_of(Json::Scalar(t)) =~= out.push(t));
        assert(x[0] == s[0]);
        assert(x.drop_first() =~= s.drop_first() + rest);
        assert(is_word_char(s[0]));
        assert(all_word(s.drop_first())) by {
            assert forall|i: int| 0 <= i < s.drop_first().len() implies is_word_char(
                #[trigger] s.drop_first()[i],
            ) by {
                assert(s.drop_first()[i] == s[i + 1]);
            }
        }
        assert(scan(idle(out), x) == scan(
            ((TokenType::ReservedString, seq![s[0]]), out),
            s.drop_first() + rest,
        ));
        lemma_scan_word(seq![s[0]], out, s.drop_first(), rest);
        assert(seq![s[0]] + s.drop_first() =~= s);
        lemma_scan_close(TokenType::ReservedString, s, out, rest);
        assert(scan(idle(out), render(Json::Scalar(t)) + rest) == scan(idle(out + toks_of(Json::Scalar(t))), rest));
    }
}

/// Scanning the text of a writable tree emits its tokens and ends idle.
pub proof fn lemma_scan_render(j: Json, out: Seq<TokenModel>, rest: Seq<char>)
    requires
        writable(j),
        closes(rest),
    ensures
        scan(idle(out), render(j) + rest) == scan(idle(out + toks_of(j)), rest),
    decreases j,
{
    match j {
        Json::Scalar(t) => {
            assert(j == Json::Scalar(t));
            assert(writable(Json::Scalar(t)));
            lemma_scan_scalar(t, out, rest);
            assert(scan(idle(out), render(j) + rest) == scan(idle(out + toks_of(j)), rest));
        },
        Json::Object(e) => {
            let inner = render_entries(e) + (seq!['}'] + rest);
            assert(render(j) + rest =~= seq!['{'] + inner);
            lemma_scan_punct('{', out, inner);
            lemma_scan_entries(e, out.push(punct('{')), seq!['}'] + rest);
            lemma_scan_punct('}', out.push(punct('{')) + entries_toks(e), rest);
            assert((out.push(punct('{')) + entries_toks(e)).push(punct('}')) =~= out + toks_of(j));
            assert(scan(idle(out), render(j) + rest) == scan(idle(out + toks_of(j)), rest));
        },
        Json::Array(a) => {
            let inner = render_items(a) + (seq![']'] + rest);
            assert(render(j) + rest =~= seq!['['] + inner);
            lemma_scan_punct('[', out, inner);
            lemma_scan_items(a, out.push(punct('[')), seq![']'] + rest);
            lemma_scan_punct(']', out.push(punct('[')) + items_toks(a), rest);
            assert((out.push(punct('[')) + items_toks(a)).push(punct(']')) =~= out + toks_of(j));
            assert(scan(idle(out), render(j) + rest) == scan(idle(out + toks_of(j)), rest));
        },
    }
}

proof fn lemma_scan_entries(e: Seq<(Seq<char>, Json)>, out: Seq<TokenModel>, rest: Seq<char>)
    requires
        writable_entries(e),
        closes(rest),
    ensures
        scan(idle(out), render_entries(e) + rest) == scan(idle(out + entries_toks(e)), rest),
    decreases e,
{
    if e.len() == 0 {
        assert(render_entries(e) + rest =~= rest);
        assert(out + entries_toks(e) =~= out);
    } else {
        let k = e.last().0;
        let v = e.last().1;
        let tail = seq!['"'] + (k + seq!['"'] + (seq![':'] + (render(v) + rest)));
        let out1 = if e.len() > 1 {
            out + entries_toks(e.drop_last())
        } else {
            out
        };
        if e.len() > 1 {
            let after = seq![','] + tail;
            assert(render_entries(e) + rest =~= render_entries(e.drop_last()) + after);
            lemma_scan_entries(e.drop_last(), out, after);
            lemma_scan_punct(',', out1, tail);
        } else {
            assert(render_entries(e.drop_last()) =~= Seq::<char>::empty());
            assert(render_entries(e) + rest =~= tail);
        }
        let out2 = if e.len() > 1 {
            out1.push(punct(','))
        } else {
            out1
        };
        assert(tail.drop_first() =~= k + seq!['"'] + (seq![':'] + (render(v) + rest)));
        assert(tail[0] == '"');
        lemma_scan_string(
            StringType::SimpleString,
            seq!['"'],
            out2,
            k,
            seq![':'] + (render(v) + rest),
        );
        assert(seq!['"'] + k + seq!['"'] =~= quoted(k));
        let out3 = out2.push((TokenType::String(string_kind(k)), quoted(k)));
        lemma_scan_punct(':', out3, render(v) + rest);
        lemma_scan_render(v, out3.push(punct(':')), rest);
        assert(out3.push(punct(':')) + toks_of(v) =~= out + entries_toks(e));
    }
}

proof fn lemma_scan_items(a: Seq<Json>, out: Seq<TokenModel>, rest: Seq<char>)
    requires
        writable_items(a),
        closes(rest),
    ensures
        scan(idle(out), render_items(a) + rest) == scan(idle(out + items_toks(a)), rest),
    decreases a,
{
    if a.len() == 0 {
        assert(render_items(a) + rest =~= rest);
        assert(out + items_toks(a) =~= out);
    } else {
        let v = a.last();
        let tail = render(v) + rest;
        let out1 = if a.len() > 1 {
            out + items_toks(a.drop_last())
        } else {
            out
        };
        if a.len() > 1 {
            let after = seq![','] + tail;
            assert(render_items(a) + rest =~= render_items(a.drop_last()) + after);
            lemma_scan_items(a.drop_last(), out, after);
            lemma_scan_punct(',', out1, tail);
        } else {
            assert(render_items(a.drop_last()) =~= Seq::<char>::empty());
            assert(render_items(a) + rest =~= tail);
        }
        let out2 = if a.len() > 1 {
            out1.push(punct(','))
        } else {
            out1
        };
        lemma_scan_render(v, out2, rest);
        assert(out2 + toks_of(v) =~= out + items_toks(a));
    }
}

/// The tokens of the text of a writable tree are the tree's tokens.
pub proof fn lemma_lex_render(j: Json)
    requires
        writable(j),
    ensures
        crate::lexer::lex(render(j)) == Ok::<Seq<TokenModel>, LexerError>(toks_of(j)),
{
    lemma_scan_render(j, Seq::empty(), Seq::empty());
    assert(render(j) + Seq::<char>::empty() =~= render(j));
    assert(Seq::<TokenModel>::empty() + toks_of(j) =~= toks_of(j));
    assert(idle(Seq::empty()) == crate::lexer::scan_initial());
}

/// What every emitted token looks like: a string keeps both its quotes, a
/// structural token is its one character, any other token has some text.
pub open spec fn token_shaped(t: TokenModel) -> bool {
    match t.0 {
        TokenType::NoToken => false,
        TokenType::String(_) => t.1.len() >= 2 && t.1[0] == '"' && t.1.last() == '"',
        TokenType::Int | TokenType::Float | TokenType::ReservedString => t.1.len() >= 1,
        _ => t.1.len() == 1 && structural_kind(t.1[0]) == Some(t.0),
    }
}

pub open spec fn all_shaped(ts: Seq<TokenModel>) -> bool {
    forall|i: int| 0 <= i < ts.len() ==> token_shaped(#[trigger] ts[i])
}

/// The scanner's state between characters: emitted tokens are well shaped, and
/// a token in progress has begun.
pub open spec fn state_shaped(st: ScanState) -> bool {
    &&& all_shaped(st.1)
    &&& match st.0.0 {
        TokenType::NoToken => true,
        TokenType::String(_) => st.0.1.len() >= 1 && st.0.1[0] == '"',
        TokenType::Int | TokenType::Float | TokenType::ReservedString => st.0.1.len() >= 1,
        _ => false,
    }
}

proof fn lemma_push_shaped(ts: Seq<TokenModel>, t: TokenModel)
    requires
        all_shaped(ts),
        token_shaped(t),
    ensures
        all_shaped(ts.push(t)),
{
    assert forall|i: int| 0 <= i < ts.push(t).len() implies token_shaped(#[trigger] ts.push(t)[i]) by {
        if i < ts.len() {
            assert(ts.push(t)[i] == ts[i]);
        }
    }
}

proof fn lemma_start_shaped(st: ScanState, c: char)
    requires
        all_shaped(st.1),
        st.0 == (TokenType::NoToken, Seq::<char>::empty()),
    ensures
        start_step(st, c) is Ok ==> state_shaped(start_step(st, c)->Ok_0),
{
    if let Some(k) = structural_kind(c) {
        lemma_push_shaped(st.1, (k, seq![c]));
    }
}

proof fn lemma_step_shaped(st: ScanState, c: char)
    requires
        state_shaped(st),
        st.0.0 is NoToken ==> st.0.1.len() == 0,
    ensures
        scan_step(st, c) is Ok ==> {
            let n = scan_step(st, c)->Ok_0;
            state_shaped(n) && (n.0.0 is NoToken ==> n.0.1.len() == 0)
        },
{
    let (kind, text) = st.0;
    if kind is NoToken {
        assert(st.0 =~= (TokenType::NoToken, Seq::<char>::empty()));
        lemma_start_shaped(st, c);
    } else {
        let f = crate::lexer::finalize(st);
        if !(kind is String) {
            lemma_push_shaped(st.1, st.0);
            lemma_start_shaped(f, c);
        } else if c == '"' {
            let t = (kind, text.push(c));
            lemma_push_shaped(st.1, t);
        }
    }
}

/// Every token the scanner emits is well shaped.
proof fn lemma_scan_shaped(st: ScanState, s: Seq<char>)
    requires
        state_shaped(st),
        st.0.0 is NoToken ==> st.0.1.len() == 0,
    ensures
        scan(st, s) is Ok ==> all_shaped(scan(st, s)->Ok_0),
    decreases s.len(),
{
    if s.len() == 0 {
        if !(st.0.0 is NoToken) && !(st.0.0 is String) {
            lemma_push_shaped(st.1, st.0);
        }
    } else {
        lemma_step_shaped(st, s[0]);
        if scan_step(st, s[0]) is Ok {
            lemma_scan_shaped(scan_step(st, s[0])->Ok_0, s.drop_first());
        }
    }
}

/// The tokens of any text are well shaped: none is the empty "no token", each
/// structural token is its one character, each string token keeps both quotes.
pub proof fn lemma_lex_shaped(s: Seq<char>)
    ensures
        lex(s) is Ok ==> all_shaped(lex(s)->Ok_0),
{
    lemma_scan_shaped(scan_initial(), s);
}

/// A tree as the reader gives it back: a string scalar takes the kind the
/// tokenizer gives its text.
pub open spec fn norm(j: Json) -> Json
    decreases j,
{
    match j {
        Json::Scalar(t) => if t.0 is String {
            Json::Scalar((TokenType::String(string_kind(t.1)), t.1))
        } else {
            j
        },
        Json::Object(e) => Json::Object(
            Seq::new(
                e.len(),
                |i: int|
                    if 0 <= i < e.len() {
                        (e[i].0, norm(e[i].1))
                    } else {
                        (Seq::empty(), j)
                    },
            ),
        ),
        Json::Array(a) => Json::Array(
            Seq::new(
                a.len(),
                |i: int|
                    if 0 <= i < a.len() {
                        norm(a[i])
                    } else {
                        j
                    },
            ),
        ),
    }
}

/// Trees that read back from their own text: writable, keys in increasing
/// order, no array directly inside an array.
pub open spec fn readable(j: Json) -> bool
    decreases j,
{
    match j {
        Json::Scalar(t) => writable(j),
        Json::Object(e) => keys_sorted(e) && forall|i: int|
            0 <= i < e.len() ==> all_word(#[trigger] e[i].0) && readable(e[i].1),
        Json::Array(a) => forall|i: int|
            0 <= i < a.len() ==> readable(#[trigger] a[i]) && !(a[i] is Array),
    }
}

proof fn lemma_readable_writable(j: Json)
    requires
        readable(j),
    ensures
        writable(j),
    decreases j,
{
    match j {
        Json::Scalar(_) => {
            assert(readable(j) == writable(j));
        },
        Json::Object(e) => {
            lemma_readable_entries(e, e.len() as int);
            assert(e.take(e.len() as int) =~= e);
        },
        Json::Array(a) => {
            lemma_readable_items(a, a.len() as int);
            assert(a.take(a.len() as int) =~= a);
        },
    }
}

proof fn lemma_readable_entries(e: Seq<(Seq<char>, Json)>, n: int)
    requires
        0 <= n <= e.len(),
        forall|i: int| 0 <= i < e.len() ==> all_word(#[trigger] e[i].0) && readable(e[i].1),
    ensures
        writable_entries(e.take(n)),
    decreases e, n,
{
    if n > 0 {
        lemma_readable_entries(e, n - 1);
        assert(e.take(n).drop_last() =~= e.take(n - 1));
        assert(decreases_to!(e => e[n - 1]));
        assert(all_word(e[n - 1].0));
        assert(e.take(n).last() == e[n - 1]);
        lemma_readable_writable(e[n - 1].1);
    }
}

proof fn lemma_readable_items(a: Seq<Json>, n: int)
    requires
        0 <= n <= a.len(),
        forall|i: int| 0 <= i < a.len() ==> readable(#[trigger] a[i]) && !(a[i] is Array),
    ensures
        writable_items(a.take(n)),
    decreases a, n,
{
    if n > 0 {
        lemma_readable_items(a, n - 1);
        assert(a.take(n).drop_last() =~= a.take(n - 1));
        assert(readable(a[n - 1]));
        assert(a.take(n).last() == a[n - 1]);
        lemma_readable_writable(a[n - 1]);
    }
}

pub open spec fn pair_toks(kv: (Seq<char>, Json)) -> Seq<TokenModel> {
    seq![(TokenType::String(string_kind(kv.0)), quoted(kv.0)), punct(':')] + toks_of(kv.1)
}

/// The tokens of entries, from the front.
proof fn lemma_entries_front(e: Seq<(Seq<char>, Json)>)
    requires
        e.len() >= 1,
    ensures
        entries_toks(e) == pair_toks(e[0]) + if e.len() > 1 {
            seq![punct(',')] + entries_toks(e.drop_first())
        } else {
            Seq::empty()
        },
    decreases e.len(),
{
    if e.len() == 1 {
        assert(e.drop_last() =~= Seq::<(Seq<char>, Json)>::empty());
        assert(e.last() == e[0]);
        assert(entries_toks(e.drop_last()) =~= Seq::<TokenModel>::empty());
        assert(entries_toks(e) =~= pair_toks(e[0]) + Seq::empty());
    } else {
        let d = e.drop_last();
        lemma_entries_front(d);
        let f = e.drop_first();
        assert(f.drop_last() =~= d.drop_first());
        assert(f.last() == e.last());
        assert(d[0] == e[0]);
        if e.len() > 2 {
            assert(entries_toks(e) == entries_toks(d) + seq![punct(',')] + pair_toks(e.last()));
            assert(entries_toks(d) == pair_toks(e[0]) + (seq![punct(',')] + entries_toks(
                d.drop_first(),
            )));
            assert(entries_toks(f) == entries_toks(d.drop_first()) + seq![punct(',')] + pair_toks(
                e.last(),
            ));
            assert(entries_toks(e) =~= pair_toks(e[0]) + (seq![punct(',')] + entries_toks(f)));
        } else {
            assert(f.drop_last() =~= Seq::<(Seq<char>, Json)>::empty());
            assert(entries_toks(e) =~= pair_toks(e[0]) + (seq![punct(',')] + entries_toks(f)));
        }
    }
}

/// The tokens of array elements, from the front.
proof fn lemma_items_front(a: Seq<Json>)
    requires
        a.len() >= 1,
    ensures
        items_toks(a) == toks_of(a[0]) + if a.len() > 1 {
            seq![punct(',')] + items_toks(a.drop_first())
        } else {
            Seq::empty()
        },
    decreases a.len(),
{
    if a.len() == 1 {
        assert(a.drop_last() =~= Seq::<Json>::empty());
        assert(a.last() == a[0]);
        assert(items_toks(a.drop_last()) =~= Seq::<TokenModel>::empty());
        assert(items_toks(a) =~= toks_of(a[0]) + Seq::empty());
    } else {
        let d = a.drop_last();
        lemma_items_front(d);
        let f = a.drop_first();
        assert(f.drop_last() =~= d.drop_first());
        assert(f.last() == a.last());
        assert(d[0] == a[0]);
        if a.len() > 2 {
            assert(items_toks(a) == items_toks(d) + seq![punct(',')] + toks_of(a.last()));
            assert(items_toks(d) == toks_of(a[0]) + (seq![punct(',')] + items_toks(d.drop_first())));
            assert(items_toks(f) == items_toks(d.drop_first()) + seq![punct(',')] + toks_of(a.last()));
            assert(items_toks(a) =~= toks_of(a[0]) + (seq![punct(',')] + items_toks(f)));
        } else {
            assert(f.drop_last() =~= Seq::<Json>::empty());
            assert(items_toks(a) =~= toks_of(a[0]) + (seq![punct(',')] + items_toks(f)));
        }
    }
}

/// `toks` holds `part` from `pos` on.
pub open spec fn holds_at(toks: Seq<TokenModel>, pos: int, part: Seq<TokenModel>) -> bool {
    &&& 0 <= pos
    &&& pos + part.len() <= toks.len()
    &&& forall|k: int| 0 <= k < part.len() ==> toks[pos + k] == #[trigger] part[k]
}

proof fn lemma_holds_split(toks: Seq<TokenModel>, pos: int, a: Seq<TokenModel>, b: Seq<TokenModel>)
    requires
        holds_at(toks, pos, a + b),
    ensures
        holds_at(toks, pos, a),
        holds_at(toks, pos + a.len(), b),
{
    assert forall|k: int| 0 <= k < a.len() implies toks[pos + k] == #[trigger] a[k] by {
        assert((a + b)[k] == a[k]);
    }
    assert forall|k: int| 0 <= k < b.len() implies toks[pos + a.len() + k] == #[trigger] b[k] by {
        assert((a + b)[a.len() + k] == b[k]);
    }
}

/// A readable tree reads back, normalized, from its tokens.
pub proof fn lemma_parse_value(toks: Seq<TokenModel>, pos: int, j: Json)
    requires
        readable(j),
        holds_at(toks, pos, toks_of(j)),
    ensures
        parse_value_at(toks, pos) == Ok::<(Json, int), crate::mapper::ParseFault>(
            (norm(j), pos + toks_of(j).len()),
        ),
    decreases j, 0nat,
{
    assert(toks[pos] == toks_of(j)[0]);
    match j {
        Json::Scalar(t) => {
            if t.0 is String {
                assert(strip_quotes(quoted(t.1)) =~= t.1);
            }
        },
        Json::Object(e) => {
            lemma_parse_object(toks, pos, e);
        },
        Json::Array(a) => {
            lemma_parse_array(toks, pos, a);
        },
    }
}

proof fn lemma_parse_object(toks: Seq<TokenModel>, pos: int, e: Seq<(Seq<char>, Json)>)
    requires
        readable(Json::Object(e)),
        holds_at(toks, pos, toks_of(Json::Object(e))),
    ensures
        parse_object_at(toks, pos) == Ok::<
            (Seq<(Seq<char>, Json)>, int),
            crate::mapper::ParseFault,
        >((norm(Json::Object(e))->Object_0, pos + toks_of(Json::Object(e)).len())),
    decreases e, e.len() + 1,
{
    let n = toks_of(Json::Object(e)).len();
    assert(toks[pos] == toks_of(Json::Object(e))[0]);
    if e.len() == 0 {
        assert(toks[pos + 1] == toks_of(Json::Object(e))[1]);
        assert(norm(Json::Object(e))->Object_0 =~= Seq::<(Seq<char>, Json)>::empty());
    } else {
        assert(toks_of(Json::Object(e)) =~= seq![punct('{')] + (entries_toks(e) + seq![punct('}')]));
        lemma_holds_split(toks, pos, seq![punct('{')], entries_toks(e) + seq![punct('}')]);
        lemma_entries_front(e);
        assert((entries_toks(e) + seq![punct('}')])[0] == pair_toks(e[0])[0]);
        assert(toks[pos + 1] == pair_toks(e[0])[0]);
        assert(e.skip(0) =~= e);
        assert(e.take(0) =~= Seq::<(Seq<char>, Json)>::empty());
        assert(norm_prefix(e, 0) =~= Seq::<(Seq<char>, Json)>::empty());
        lemma_parse_members(toks, pos + 1, e, 0);
        assert(e.skip(0) =~= e);
        assert(norm_prefix(e, e.len() as int) =~= norm(Json::Object(e))->Object_0);
    }
}

/// The first `i` entries, normalized.
pub open spec fn norm_prefix(e: Seq<(Seq<char>, Json)>, i: int) -> Seq<(Seq<char>, Json)> {
    Seq::new(i as nat, |k: int| (e[k].0, norm(e[k].1)))
}

proof fn lemma_parse_members(toks: Seq<TokenModel>, pos: int, e: Seq<(Seq<char>, Json)>, i: int)
    requires
        readable(Json::Object(e)),
        0 <= i < e.len(),
        holds_at(toks, pos, entries_toks(e.skip(i)) + seq![punct('}')]),
    ensures
        parse_members(toks, pos, norm_prefix(e, i)) == Ok::<
            (Seq<(Seq<char>, Json)>, int),
            crate::mapper::ParseFault,
        >((norm_prefix(e, e.len() as int), pos + entries_toks(e.skip(i)).len() + 1)),
    decreases e, e.len() - i,
{
    let f = e.skip(i);
    let kv = e[i];
    assert(f[0] == kv);
    lemma_entries_front(f);
    let rest = if f.len() > 1 {
        seq![punct(',')] + entries_toks(f.drop_first())
    } else {
        Seq::empty()
    };
    assert(entries_toks(f) + seq![punct('}')] =~= pair_toks(kv) + (rest + seq![punct('}')]));
    lemma_holds_split(toks, pos, pair_toks(kv), rest + seq![punct('}')]);
    let key_tok = (TokenType::String(string_kind(kv.0)), quoted(kv.0));
    assert(pair_toks(kv) =~= seq![key_tok, punct(':')] + toks_of(kv.1));
    lemma_holds_split(toks, pos, seq![key_tok, punct(':')], toks_of(kv.1));
    assert(toks[pos] == key_tok);
    assert(toks[pos + 1] == punct(':'));
    assert(all_word(kv.0) && readable(kv.1));
    assert(decreases_to!(e => e[i]));
    lemma_parse_value(toks, pos + 2, kv.1);
    assert(strip_quotes(quoted(kv.0)) =~= kv.0);
    assert(parse_pair_at(toks, pos) == Ok::<((Seq<char>, Json), int), crate::mapper::ParseFault>(
        ((kv.0, norm(kv.1)), pos + pair_toks(kv).len()),
    ));
    let acc = norm_prefix(e, i);
    assert forall|j: int| 0 <= j < acc.len() implies crate::text::key_lt(#[trigger] acc[j].0, kv.0) by {
        assert(acc[j].0 == e[j].0);
    }
    lemma_insert_split(acc, kv.0, norm(kv.1), acc.len() as int);
    assert(acc.subrange(acc.len() as int, acc.len() as int) =~= Seq::<(Seq<char>, Json)>::empty());
    assert(acc.subrange(0, acc.len() as int) =~= acc);
    assert(obj_insert(acc, kv.0, norm(kv.1)) =~= norm_prefix(e, i + 1));
    let p = pos + pair_toks(kv).len();
    assert(toks[p] == (rest + seq![punct('}')])[0]);
    if f.len() > 1 {
        assert(f.drop_first() =~= e.skip(i + 1));
        assert(rest + seq![punct('}')] =~= seq![punct(',')] + (entries_toks(e.skip(i + 1)) + seq![
            punct('}'),
        ]));
        lemma_holds_split(toks, p, seq![punct(',')], entries_toks(e.skip(i + 1)) + seq![punct('}')]);
        lemma_parse_members(toks, p + 1, e, i + 1);
    } else {
        assert(i + 1 == e.len());
    }
}

proof fn lemma_parse_array(toks: Seq<TokenModel>, pos: int, a: Seq<Json>)
    requires
        readable(Json::Array(a)),
        holds_at(toks, pos, toks_of(Json::Array(a))),
    ensures
        parse_array_at(toks, pos) == Ok::<(Seq<Json>, int), crate::mapper::ParseFault>(
            (norm(Json::Array(a))->Array_0, pos + toks_of(Json::Array(a)).len()),
        ),
    decreases a, a.len() + 1,
{
    assert(toks[pos] == toks_of(Json::Array(a))[0]);
    if a.len() == 0 {
        assert(toks[pos + 1] == toks_of(Json::Array(a))[1]);
        assert(norm(Json::Array(a))->Array_0 =~= Seq::<Json>::empty());
    } else {
        assert(toks_of(Json::Array(a)) =~= seq![punct('[')] + (items_toks(a) + seq![punct(']')]));
        lemma_holds_split(toks, pos, seq![punct('[')], items_toks(a) + seq![punct(']')]);
        lemma_items_front(a);
        assert((items_toks(a) + seq![punct(']')])[0] == toks_of(a[0])[0]);
        assert(toks[pos + 1] == toks_of(a[0])[0]);
        assert(a.skip(0) =~= a);
        assert(norm_items_prefix(a, 0) =~= Seq::<Json>::empty());
        lemma_parse_elements(toks, pos + 1, a, 0);
        assert(a.skip(0) =~= a);
        assert(norm_items_prefix(a, a.len() as int) =~= norm(Json::Array(a))->Array_0);
    }
}

/// The first `i` elements, normalized.
pub open spec fn norm_items_prefix(a: Seq<Json>, i: int) -> Seq<Json> {
    Seq::new(i as nat, |k: int| norm(a[k]))
}

proof fn lemma_parse_elements(toks: Seq<TokenModel>, pos: int, a: Seq<Json>, i: int)
    requires
        readable(Json::Array(a)),
        0 <= i < a.len(),
        holds_at(toks, pos, items_toks(a.skip(i)) + seq![punct(']')]),
    ensures
        parse_elements(toks, pos, norm_items_prefix(a, i)) == Ok::<
            (Seq<Json>, int),
            crate::mapper::ParseFault,
        >((norm_items_prefix(a, a.len() as int), pos + items_toks(a.skip(i)).len() + 1)),
    decreases a, a.len() - i,
{
    let f = a.skip(i);
    let v = a[i];
    assert(f[0] == v);
    lemma_items_front(f);
    let rest = if f.len() > 1 {
        seq![punct(',')] + items_toks(f.drop_first())
    } else {
        Seq::empty()
    };
    assert(items_toks(f) + seq![punct(']')] =~= toks_of(v) + (rest + seq![punct(']')]));
    lemma_holds_split(toks, pos, toks_of(v), rest + seq![punct(']')]);
    assert(readable(v) && !(v is Array));
    assert(decreases_to!(a => a[i]));
    lemma_parse_value(toks, pos, v);
    assert(toks[pos] == toks_of(v)[0]);
    assert(parse_element_at(toks, pos) == parse_value_at(toks, pos));
    assert(norm_items_prefix(a, i).push(norm(v)) =~= norm_items_prefix(a, i + 1));
    let p = pos + toks_of(v).len();
    assert(toks[p] == (rest + seq![punct(']')])[0]);
    if f.len() > 1 {
        assert(f.drop_first() =~= a.skip(i + 1));
        assert(rest + seq![punct(']')] =~= seq![punct(',')] + (items_toks(a.skip(i + 1)) + seq![
            punct(']'),
        ]));
        lemma_holds_split(toks, p, seq![punct(',')], items_toks(a.skip(i + 1)) + seq![punct(']')]);
        lemma_parse_elements(toks, p + 1, a, i + 1);
    } else {
        assert(i + 1 == a.len());
    }
}

/// Decoding the text of a readable object tree reads `T` from that tree, with
/// the string kinds the tokenizer gives.
pub proof fn lemma_decode_render<T: Deserialize>(e: Seq<(Seq<char>, Json)>)
    requires
        readable(Json::Object(e)),
    ensures
        decode_text::<T>(render(Json::Object(e))) == T::decoded(Some(norm(Json::Object(e)))),
{
    let j = Json::Object(e);
    lemma_readable_writable(j);
    lemma_lex_render(j);
    let toks = toks_of(j);
    assert(holds_at(toks, 0, toks));
    lemma_parse_object(toks, 0, e);
}

/// Decoding the encoding of a value reads it back from its own tree, up to the
/// kinds of string scalars, wherever that tree is a readable object.
pub proof fn lemma_decode_encode<T: Serialize + Deserialize>(v: <T as DeepView>::V)
    requires
        T::encoded(v) is Object,
        readable(T::encoded(v)),
    ensures
        decode_text::<T>(encode_text::<T>(v)) == T::decoded(Some(norm(T::encoded(v)))),
{
    lemma_decode_render::<T>(T::encoded(v)->Object_0);
}

/// Normalizing an object normalizes what each key looks up.
proof fn lemma_lookup_norm(e: Seq<(Seq<char>, Json)>, k: Seq<char>)
    ensures
        obj_lookup(norm(Json::Object(e))->Object_0, k) == match obj_lookup(e, k) {
            Some(v) => Some(norm(v)),
            None => None::<Json>,
        },
    decreases e.len(),
{
    let m = norm(Json::Object(e))->Object_0;
    if e.len() > 0 {
        let t = e.drop_first();
        lemma_lookup_norm(t, k);
        assert(m.drop_first() =~= norm(Json::Object(t))->Object_0);
        assert(m[0] == (e[0].0, norm(e[0].1)));
    }
}

/// A record written field by field under distinct keys, and encoded as text,
/// gives each field back when read from that text: for a field whose type reads
/// back from its own tree and ignores the kinds of string scalars.
pub proof fn lemma_record_field_text<F: Serialize + Deserialize>(
    fields: Seq<(Seq<char>, Json)>,
    i: int,
    x: <F as DeepView>::V,
)
    requires
        keys_distinct(fields),
        0 <= i < fields.len(),
        fields[i].1 == F::encoded(x),
        F::decoded(Some(F::encoded(x))) == Ok::<<F as DeepView>::V, DecodeFault>(x),
        F::decoded(Some(norm(F::encoded(x)))) == F::decoded(Some(F::encoded(x))),
    ensures
        field_decoded::<F>(norm(Json::Object(build_object(fields))), fields[i].0) == Ok::<
            <F as DeepView>::V,
            DecodeFault,
        >(x),
{
    lemma_build_lookup(fields, i);
    lemma_lookup_norm(build_object(fields), fields[i].0);
}

/// Reading a scalar's text ignores its string kind.
pub proof fn lemma_token_decoded_norm<T: FromText>(j: Json)
    ensures
        token_decoded::<T>(Some(norm(j))) == token_decoded::<T>(Some(j)),
{
}

} // verus!
