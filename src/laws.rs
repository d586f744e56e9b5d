//! Laws relating encoding and decoding.
use vstd::prelude::*;
use crate::lexer::is_digit;
use crate::deserializers::null_tree;
use crate::mapper::{Json, json_wf, keys_sorted, obj_insert, obj_lookup};
use crate::text::key_lt;
use crate::numbers::{
    all_digits, digit_char, digit_value, digits_value, int_digits, int_in_range, nat_digits,
};
use crate::serializer::{Deserialize, DecodeFault, Serialize, field_decoded};

verus! {

proof fn lemma_nat_digits(n: nat)
    ensures
        nat_digits(n).len() >= 1,
        all_digits(nat_digits(n)),
        digits_value(nat_digits(n)) == n,
    decreases n,
{
    let d = digit_char(n % 10);
    assert(is_digit(d) && digit_value(d) == n % 10);
    if n >= 10 {
        lemma_nat_digits(n / 10);
        let s = nat_digits(n);
        assert(s.drop_last() =~= nat_digits(n / 10));
        assert(s.last() == d);
        assert((n / 10) * 10 + n % 10 == n);
        assert(digits_value(s) == digits_value(s.drop_last()) * 10 + digit_value(s.last()));
        assert forall|i: int| 0 <= i < s.len() implies is_digit(#[trigger] s[i]) by {
            if i < s.len() - 1 {
                assert(s[i] == nat_digits(n / 10)[i]);
            }
        }
    } else {
        let s = nat_digits(n);
        assert(s.drop_last() =~= Seq::<char>::empty());
        assert(s.last() == d);
        assert(digits_value(s) == digits_value(s.drop_last()) * 10 + digit_value(s.last()));
    }
}

/// The decimal text of an integer reads back as that integer, for every range
/// that holds it (a `-` sign only where the range has negative numbers).
pub proof fn lemma_int_text_round_trip(n: int, signed: bool, min: int, max: int)
    requires
        min <= n <= max,
        n < 0 ==> signed,
    ensures
        int_in_range(int_digits(n), signed, min, max) == Some(n),
{
    if n < 0 {
        lemma_nat_digits((-n) as nat);
        let s = int_digits(n);
        assert(s.drop_first() =~= nat_digits((-n) as nat));
    } else {
        lemma_nat_digits(n as nat);
        let s = nat_digits(n as nat);
        assert(is_digit(s[0]));
    }
}

/// A `u8` written as a tree reads back as the same `u8`.
pub proof fn lemma_round_trip_u8(v: u8)
    ensures
        <u8 as Deserialize>::decoded(Some(<u8 as Serialize>::encoded(v))) == Ok::<u8, DecodeFault>(v),
{
    lemma_int_text_round_trip(v as int, false, u8::MIN as int, u8::MAX as int);
}

/// A `u16` written as a tree reads back as the same `u16`.
pub proof fn lemma_round_trip_u16(v: u16)
    ensures
        <u16 as Deserialize>::decoded(Some(<u16 as Serialize>::encoded(v))) == Ok::<u16, DecodeFault>(v),
{
    lemma_int_text_round_trip(v as int, false, u16::MIN as int, u16::MAX as int);
}

/// A `u32` written as a tree reads back as the same `u32`.
pub proof fn lemma_round_trip_u32(v: u32)
    ensures
        <u32 as Deserialize>::decoded(Some(<u32 as Serialize>::encoded(v))) == Ok::<u32, DecodeFault>(v),
{
    lemma_int_text_round_trip(v as int, false, u32::MIN as int, u32::MAX as int);
}

/// A `u64` written as a tree reads back as the same `u64`.
pub proof fn lemma_round_trip_u64(v: u64)
    ensures
        <u64 as Deserialize>::decoded(Some(<u64 as Serialize>::encoded(v))) == Ok::<u64, DecodeFault>(v),
{
    lemma_int_text_round_trip(v as int, false, u64::MIN as int, u64::MAX as int);
}

/// A `usize` written as a tree reads back as the same `usize`.
pub proof fn lemma_round_trip_usize(v: usize)
    ensures
        <usize as Deserialize>::decoded(Some(<usize as Serialize>::encoded(v))) == Ok::<usize, DecodeFault>(v),
{
    lemma_int_text_round_trip(v as int, false, usize::MIN as int, usize::MAX as int);
}

/// A `i8` written as a tree reads back as the same `i8`.
pub proof fn lemma_round_trip_i8(v: i8)
    ensures
        <i8 as Deserialize>::decoded(Some(<i8 as Serialize>::encoded(v))) == Ok::<i8, DecodeFault>(v),
{
    lemma_int_text_round_trip(v as int, true, i8::MIN as int, i8::MAX as int);
}

/// A `i16` written as a tree reads back as the same `i16`.
pub proof fn lemma_round_trip_i16(v: i16)
    ensures
        <i16 as Deserialize>::decoded(Some(<i16 as Serialize>::encoded(v))) == Ok::<i16, DecodeFault>(v),
{
    lemma_int_text_round_trip(v as int, true, i16::MIN as int, i16::MAX as int);
}

/// A `i32` written as a tree reads back as the same `i32`.
pub proof fn lemma_round_trip_i32(v: i32)
    ensures
        <i32 as Deserialize>::decoded(Some(<i32 as Serialize>::encoded(v))) == Ok::<i32, DecodeFault>(v),
{
    lemma_int_text_round_trip(v as int, true, i32::MIN as int, i32::MAX as int);
}

/// A `i64` written as a tree reads back as the same `i64`.
pub proof fn lemma_round_trip_i64(v: i64)
    ensures
        <i64 as Deserialize>::decoded(Some(<i64 as Serialize>::encoded(v))) == Ok::<i64, DecodeFault>(v),
{
    lemma_int_text_round_trip(v as int, true, i64::MIN as int, i64::MAX as int);
}

/// A `isize` written as a tree reads back as the same `isize`.
pub proof fn lemma_round_trip_isize(v: isize)
    ensures
        <isize as Deserialize>::decoded(Some(<isize as Serialize>::encoded(v))) == Ok::<isize, DecodeFault>(v),
{
    lemma_int_text_round_trip(v as int, true, isize::MIN as int, isize::MAX as int);
}

/// A `bool` written as a tree reads back as the same `bool`.
pub proof fn lemma_round_trip_bool(v: bool)
    ensures
        <bool as Deserialize>::decoded(Some(<bool as Serialize>::encoded(v))) == Ok::<bool, DecodeFault>(v),
{
    assert(seq!['t', 'r', 'u', 'e'] != seq!['f', 'a', 'l', 's', 'e']) by {
        assert(seq!['t', 'r', 'u', 'e'].len() != seq!['f', 'a', 'l', 's', 'e'].len());
    }
}

/// A `char` written as a tree reads back as the same `char`.
pub proof fn lemma_round_trip_char(v: char)
    ensures
        <char as Deserialize>::decoded(Some(<char as Serialize>::encoded(v))) == Ok::<char, DecodeFault>(v),
{
}

/// A `String` written as a tree reads back as the same text.
pub proof fn lemma_round_trip_string(v: Seq<char>)
    ensures
        <String as Deserialize>::decoded(Some(<String as Serialize>::encoded(v))) == Ok::<
            Seq<char>,
            DecodeFault,
        >(v),
{
}

/// Whether every value of `T` in `v` reads back from the tree it is written as.
pub open spec fn all_round_trip<T: Serialize + Deserialize>(v: Seq<<T as DeepView>::V>) -> bool {
    forall|i: int|
        0 <= i < v.len() ==> #[trigger] T::decoded(Some(T::encoded(v[i]))) == Ok::<
            <T as DeepView>::V,
            DecodeFault,
        >(v[i])
}

/// A sequence whose elements each read back from their trees reads back from
/// its array tree, in the same order.
pub proof fn lemma_round_trip_vec<T: Serialize + Deserialize>(v: Seq<<T as DeepView>::V>)
    requires
        all_round_trip::<T>(v),
    ensures
        <Vec<T> as Deserialize>::decoded(Some(<Vec<T> as Serialize>::encoded(v))) == Ok::<
            Seq<<T as DeepView>::V>,
            DecodeFault,
        >(v),
    decreases v.len(),
{
    let items = v.map_values(|x: <T as DeepView>::V| T::encoded(x));
    if v.len() > 0 {
        let w = v.drop_last();
        assert(all_round_trip::<T>(w)) by {
            assert forall|i: int| 0 <= i < w.len() implies #[trigger] T::decoded(
                Some(T::encoded(w[i])),
            ) == Ok::<<T as DeepView>::V, DecodeFault>(w[i]) by {
                assert(w[i] == v[i]);
            }
        }
        lemma_round_trip_vec::<T>(w);
        assert(items.drop_last() =~= w.map_values(|x: <T as DeepView>::V| T::encoded(x)));
        assert(items.last() == T::encoded(v[v.len() - 1]));
        assert(T::decoded(Some(T::encoded(v[v.len() - 1]))) == Ok::<<T as DeepView>::V, DecodeFault>(
            v[v.len() - 1],
        ));
        assert(w.push(v.last()) =~= v);
    } else {
        assert(v =~= Seq::<<T as DeepView>::V>::empty());
    }
}

/// An optional value reads back from its tree: no value from the word `null`,
/// a present one when the inner value reads back from its own tree and that
/// tree is not itself the word `null`.
pub proof fn lemma_round_trip_option<T: Serialize + Deserialize>(x: Option<<T as DeepView>::V>)
    requires
        x matches Some(y) ==> T::decoded(Some(T::encoded(y))) == Ok::<<T as DeepView>::V, DecodeFault>(
            y,
        ) && T::encoded(y) != null_tree(),
    ensures
        <Option<T> as Deserialize>::decoded(Some(<Option<T> as Serialize>::encoded(x))) == Ok::<
            Option<<T as DeepView>::V>,
            DecodeFault,
        >(x),
{
}

/// After a key is set, looking it up gives the value set.
pub proof fn lemma_lookup_insert_same(e: Seq<(Seq<char>, Json)>, k: Seq<char>, v: Json)
    ensures
        obj_lookup(obj_insert(e, k, v), k) == Some(v),
    decreases e.len(),
{
    if e.len() > 0 && crate::text::key_lt(e[0].0, k) {
        lemma_lookup_insert_same(e.drop_first(), k, v);
        let r = obj_insert(e, k, v);
        assert(r.drop_first() =~= obj_insert(e.drop_first(), k, v));
        assert(e[0].0 != k) by {
            lemma_key_lt_irreflexive(k);
        }
    }
}

proof fn lemma_key_lt_irreflexive(k: Seq<char>)
    ensures
        !crate::text::key_lt(k, k),
    decreases k.len(),
{
    if k.len() > 0 {
        lemma_key_lt_irreflexive(k.drop_first());
    }
}

/// Setting one key leaves the value under every other key as it was.
pub proof fn lemma_lookup_insert_other(
    e: Seq<(Seq<char>, Json)>,
    k: Seq<char>,
    v: Json,
    k2: Seq<char>,
)
    requires
        k2 != k,
    ensures
        obj_lookup(obj_insert(e, k, v), k2) == obj_lookup(e, k2),
    decreases e.len(),
{
    let r = obj_insert(e, k, v);
    if e.len() == 0 {
        assert(r.drop_first() =~= Seq::<(Seq<char>, Json)>::empty());
    } else if crate::text::key_lt(e[0].0, k) {
        lemma_lookup_insert_other(e.drop_first(), k, v, k2);
        assert(r.drop_first() =~= obj_insert(e.drop_first(), k, v));
        assert(r[0] == e[0]);
        assert(obj_lookup(r, k2) == obj_lookup(e, k2));
    } else if e[0].0 == k {
        assert(r.drop_first() =~= e.drop_first());
        assert(r[0] == (k, v));
        assert(obj_lookup(r, k2) == obj_lookup(r.drop_first(), k2));
        assert(obj_lookup(e, k2) == obj_lookup(e.drop_first(), k2));
    } else {
        assert(r.drop_first() =~= e);
        assert(r[0] == (k, v));
        assert(obj_lookup(r, k2) == obj_lookup(r.drop_first(), k2));
    }
}

proof fn lemma_key_lt_trans(a: Seq<char>, b: Seq<char>, c: Seq<char>)
    requires
        key_lt(a, b),
        key_lt(b, c),
    ensures
        key_lt(a, c),
    decreases a.len(),
{
    if a.len() > 0 && b.len() > 0 && c.len() > 0 && a[0] == b[0] && b[0] == c[0] {
        lemma_key_lt_trans(a.drop_first(), b.drop_first(), c.drop_first());
    }
}

proof fn lemma_key_lt_total(a: Seq<char>, b: Seq<char>)
    requires
        a != b,
    ensures
        key_lt(a, b) || key_lt(b, a),
    decreases a.len(),
{
    if a.len() == 0 && b.len() == 0 {
        assert(a =~= b);
    }
    if a.len() > 0 && b.len() > 0 && a[0] == b[0] {
        if a.drop_first() == b.drop_first() {
            assert(a =~= seq![a[0]] + a.drop_first());
            assert(b =~= seq![b[0]] + b.drop_first());
        } else {
            lemma_key_lt_total(a.drop_first(), b.drop_first());
        }
    }
}

/// Every key after setting `k` lies above `lo` when `k` and every old key do.
proof fn lemma_insert_keys_above(e: Seq<(Seq<char>, Json)>, k: Seq<char>, v: Json, lo: Seq<char>)
    requires
        key_lt(lo, k),
        forall|i: int| 0 <= i < e.len() ==> key_lt(lo, #[trigger] e[i].0),
    ensures
        forall|i: int|
            0 <= i < obj_insert(e, k, v).len() ==> key_lt(lo, #[trigger] obj_insert(e, k, v)[i].0),
    decreases e.len(),
{
    let r = obj_insert(e, k, v);
    if e.len() > 0 && key_lt(e[0].0, k) {
        let t = e.drop_first();
        assert forall|i: int| 0 <= i < t.len() implies key_lt(lo, #[trigger] t[i].0) by {
            assert(t[i] == e[i + 1]);
        }
        lemma_insert_keys_above(t, k, v, lo);
        assert forall|i: int| 0 <= i < r.len() implies key_lt(lo, #[trigger] r[i].0) by {
            if i > 0 {
                assert(r[i] == obj_insert(t, k, v)[i - 1]);
            }
        }
    } else if e.len() > 0 && e[0].0 == k {
        assert forall|i: int| 0 <= i < r.len() implies key_lt(lo, #[trigger] r[i].0) by {
            if i > 0 {
                assert(r[i] == e[i]);
            }
        }
    } else {
        assert forall|i: int| 0 <= i < r.len() implies key_lt(lo, #[trigger] r[i].0) by {
            if i > 0 {
                assert(r[i] == e[i - 1]);
            }
        }
    }
}

/// Setting a key in entries with increasing keys keeps the keys increasing:
/// an object never holds a key twice.
pub proof fn lemma_insert_keeps_sorted(e: Seq<(Seq<char>, Json)>, k: Seq<char>, v: Json)
    requires
        keys_sorted(e),
    ensures
        keys_sorted(obj_insert(e, k, v)),
    decreases e.len(),
{
    let r = obj_insert(e, k, v);
    if e.len() == 0 {
    } else if key_lt(e[0].0, k) {
        let t = e.drop_first();
        assert(keys_sorted(t)) by {
            assert forall|x: int, y: int| 0 <= x < y < t.len() implies key_lt(
                #[trigger] t[x].0,
                #[trigger] t[y].0,
            ) by {
                assert(t[x] == e[x + 1] && t[y] == e[y + 1]);
            }
        }
        lemma_insert_keeps_sorted(t, k, v);
        assert forall|i: int| 0 <= i < t.len() implies key_lt(e[0].0, #[trigger] t[i].0) by {
            assert(t[i] == e[i + 1]);
        }
        lemma_insert_keys_above(t, k, v, e[0].0);
        let u = obj_insert(t, k, v);
        assert forall|x: int, y: int| 0 <= x < y < r.len() implies key_lt(
            #[trigger] r[x].0,
            #[trigger] r[y].0,
        ) by {
            assert(r[y] == u[y - 1]);
            if x > 0 {
                assert(r[x] == u[x - 1]);
            }
        }
    } else if e[0].0 == k {
        assert forall|x: int, y: int| 0 <= x < y < r.len() implies key_lt(
            #[trigger] r[x].0,
            #[trigger] r[y].0,
        ) by {
            assert(r[y] == e[y]);
            if x > 0 {
                assert(r[x] == e[x]);
            }
        }
    } else {
        lemma_key_lt_total(e[0].0, k);
        assert forall|x: int, y: int| 0 <= x < y < r.len() implies key_lt(
            #[trigger] r[x].0,
            #[trigger] r[y].0,
        ) by {
            assert(r[y] == e[y - 1]);
            if x > 0 {
                assert(r[x] == e[x - 1]);
            } else if y > 1 {
                lemma_key_lt_trans(k, e[0].0, e[y - 1].0);
            }
        }
    }
}

proof fn lemma_insert_values_wf(e: Seq<(Seq<char>, Json)>, k: Seq<char>, v: Json)
    requires
        json_wf(v),
        forall|i: int| 0 <= i < e.len() ==> json_wf(#[trigger] e[i].1),
    ensures
        forall|i: int|
            0 <= i < obj_insert(e, k, v).len() ==> json_wf(#[trigger] obj_insert(e, k, v)[i].1),
    decreases e.len(),
{
    let r = obj_insert(e, k, v);
    if e.len() > 0 && key_lt(e[0].0, k) {
        let t = e.drop_first();
        assert forall|i: int| 0 <= i < t.len() implies json_wf(#[trigger] t[i].1) by {
            assert(t[i] == e[i + 1]);
        }
        lemma_insert_values_wf(t, k, v);
        assert forall|i: int| 0 <= i < r.len() implies json_wf(#[trigger] r[i].1) by {
            if i > 0 {
                assert(r[i] == obj_insert(t, k, v)[i - 1]);
            }
        }
    } else if e.len() > 0 && e[0].0 == k {
        assert forall|i: int| 0 <= i < r.len() implies json_wf(#[trigger] r[i].1) by {
            if i > 0 {
                assert(r[i] == e[i]);
            }
        }
    } else {
        assert forall|i: int| 0 <= i < r.len() implies json_wf(#[trigger] r[i].1) by {
            if i > 0 {
                assert(r[i] == e[i - 1]);
            }
        }
    }
}

/// Setting a key to a well-formed tree in a well-formed object keeps it
/// well formed.
pub proof fn lemma_insert_keeps_wf(e: Seq<(Seq<char>, Json)>, k: Seq<char>, v: Json)
    requires
        json_wf(Json::Object(e)),
        json_wf(v),
    ensures
        json_wf(Json::Object(obj_insert(e, k, v))),
{
    lemma_insert_keeps_sorted(e, k, v);
    lemma_insert_values_wf(e, k, v);
}

/// The entries of a record written field by field: each key set in turn,
/// starting from an empty object.
pub open spec fn build_object(fields: Seq<(Seq<char>, Json)>) -> Seq<(Seq<char>, Json)>
    decreases fields.len(),
{
    if fields.len() == 0 {
        Seq::empty()
    } else {
        obj_insert(build_object(fields.drop_last()), fields.last().0, fields.last().1)
    }
}

pub open spec fn keys_distinct(fields: Seq<(Seq<char>, Json)>) -> bool {
    forall|i: int, j: int|
        0 <= i < j < fields.len() ==> #[trigger] fields[i].0 != #[trigger] fields[j].0
}

/// A record written field by field under distinct keys gives each field's tree
/// back under its key, so every field reads back from the record's tree.
pub proof fn lemma_build_lookup(fields: Seq<(Seq<char>, Json)>, i: int)
    requires
        keys_distinct(fields),
        0 <= i < fields.len(),
    ensures
        obj_lookup(build_object(fields), fields[i].0) == Some(fields[i].1),
    decreases fields.len(),
{
    let n = fields.len() - 1;
    let last = fields.last();
    let d = fields.drop_last();
    if i == n {
        lemma_lookup_insert_same(build_object(d), last.0, last.1);
    } else {
        assert(keys_distinct(d)) by {
            assert forall|a: int, b: int| 0 <= a < b < d.len() implies #[trigger] d[a].0
                != #[trigger] d[b].0 by {
                assert(d[a] == fields[a] && d[b] == fields[b]);
            }
        }
        lemma_build_lookup(d, i);
        assert(d[i] == fields[i]);
        assert(fields[i].0 != fields[n].0);
        lemma_lookup_insert_other(build_object(d), last.0, last.1, fields[i].0);
    }
}

/// Field by field, a record written under distinct keys reads back: a field
/// whose type reads back from its own tree reads back from the record's tree.
pub proof fn lemma_record_field_round_trip<T: Serialize + Deserialize>(
    fields: Seq<(Seq<char>, Json)>,
    i: int,
    x: <T as DeepView>::V,
)
    requires
        keys_distinct(fields),
        0 <= i < fields.len(),
        fields[i].1 == T::encoded(x),
        T::decoded(Some(T::encoded(x))) == Ok::<<T as DeepView>::V, DecodeFault>(x),
    ensures
        field_decoded::<T>(Json::Object(build_object(fields)), fields[i].0) == Ok::<
            <T as DeepView>::V,
            DecodeFault,
        >(x),
{
    lemma_build_lookup(fields, i);
}

/// A record field written under `k` reads back from `k`, whatever else the
/// object holds, when its type reads back from its own tree.
pub proof fn lemma_field_round_trip<T: Serialize + Deserialize>(
    e: Seq<(Seq<char>, Json)>,
    k: Seq<char>,
    x: <T as DeepView>::V,
)
    requires
        T::decoded(Some(T::encoded(x))) == Ok::<<T as DeepView>::V, DecodeFault>(x),
    ensures
        field_decoded::<T>(Json::Object(obj_insert(e, k, T::encoded(x))), k) == Ok::<
            <T as DeepView>::V,
            DecodeFault,
        >(x),
{
    lemma_lookup_insert_same(e, k, T::encoded(x));
}

} // verus!
