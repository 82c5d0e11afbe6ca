//! Laws that relate the operations to one another.
use crate::coerce::{
    byte_values, coercible, indexed, logical_keys, same_kind, value_into, value_to_obj,
};
use crate::ieee::{float_eq, float_le, float_lt};
use crate::key::{decode_key, encode_key};
use crate::ops::{
    bound_equal, keys_within, value_add, value_eq, value_index, value_le, value_lt,
};
use crate::outcome::OutcomeView;
use crate::render::{float_count, join, pieces, plain};
use crate::text::{decimal_text, lemma_digits_value, lemma_parse_decimal_text, parse_i64};
use crate::types::{
    distinct_keys, entries_wf, has_key, key_index, lemma_key_index_found, lemma_lookup_at,
    lemma_merge_wf, Entries, Value,
};
use vstd::prelude::*;

verus! {

/// Coercing a value to its own kind gives the value back, whatever its kind.
pub proof fn lemma_into_own_kind(a: Value, b: Value)
    requires
        same_kind(a, b),
    ensures
        value_into(a, b) == OutcomeView::Done(a),
{
}

/// The text of an integer is its canonical decimal text.
pub proof fn lemma_int_to_str(i: i64, shape: Seq<char>)
    ensures
        value_into(Value::Int(i), Value::Str(shape)) == OutcomeView::Done(
            Value::Str(decimal_text(i as int)),
        ),
{
    let p = pieces(Value::Int(i));
    let t = decimal_text(i as int);
    assert(p == plain(t));
    assert(p.drop_last() =~= Seq::empty());
    assert(float_count(p.drop_last()) == 0);
    assert(join(p.drop_last(), Seq::empty()) =~= Seq::<char>::empty());
    assert(join(p, Seq::empty()) =~= t);
}

/// A string coerced to an integer is the integer that it reads as, and
/// `Error` where it reads as none.
pub proof fn lemma_str_to_int(text: Seq<char>, shape: i64)
    ensures
        value_into(Value::Str(text), Value::Int(shape)) == OutcomeView::Done(
            match parse_i64(text) {
                Some(i) => Value::Int(i),
                None => Value::Error,
            },
        ),
{
}

/// An integer coerced to a string and back is the integer.
pub proof fn lemma_int_round_trip(i: i64, shape: i64)
    ensures
        value_into(Value::Str(decimal_text(i as int)), Value::Int(shape)) == OutcomeView::Done(
            Value::Int(i),
        ),
{
    lemma_parse_decimal_text(i as int);
}

/// The sum of two well-formed values is well formed.
pub proof fn lemma_add_wf(a: Value, b: Value)
    requires
        a.wf(),
        b.wf(),
    ensures
        value_add(a, b) matches OutcomeView::Done(v) ==> v.wf(),
{
    match (a, b) {
        (Value::List(l), Value::List(r)) => {
            let s = l + r;
            assert forall|i: int| 0 <= i < s.len() implies (#[trigger] s[i]).wf() by {
                if i < l.len() {
                    assert(s[i] == l[i]);
                } else {
                    assert(s[i] == r[i - l.len()]);
                }
            }
        },
        (Value::Obj(l), Value::Obj(r)) => {
            lemma_merge_wf(l, r);
        },
        _ => {},
    }
}

/// What an index finds in a well-formed value is well formed.
pub proof fn lemma_index_wf(a: Value, b: Value)
    requires
        a.wf(),
    ensures
        value_index(a, b).wf(),
{
    match a {
        Value::Obj(e) => {
            match encode_key(b) {
                Some(k) => {
                    if has_key(e, k) {
                        lemma_key_index_found(e, k);
                    }
                },
                None => {},
            }
        },
        _ => {},
    }
}

/// The positions of a sequence are distinct keys.
pub proof fn lemma_indexed_distinct(items: Seq<Value>)
    ensures
        distinct_keys(indexed(items)),
{
    let e = indexed(items);
    assert forall|i: int, j: int| 0 <= i < j < e.len() implies (#[trigger] e[i]).0 != (
    #[trigger] e[j]).0 by {
        lemma_digits_value(i as nat);
        lemma_digits_value(j as nat);
    }
}

/// The object made of a well-formed value is well formed.
pub proof fn lemma_to_obj_wf(a: Value)
    requires
        a.wf(),
    ensures
        value_to_obj(a).wf(),
{
    match a {
        Value::Str(s) => {
            let items = crate::coerce::byte_values(vstd::utf8::encode_utf8(s));
            lemma_indexed_distinct(items);
            let e = indexed(items);
            assert forall|i: int| 0 <= i < e.len() implies (#[trigger] e[i]).1.wf() by {
                assert(e[i].1 == items[i]);
            }
        },
        Value::List(l) => {
            lemma_indexed_distinct(l);
            let e = indexed(l);
            assert forall|i: int| 0 <= i < e.len() implies (#[trigger] e[i]).1.wf() by {
                assert(e[i].1 == l[i]);
            }
        },
        _ => {},
    }
}

/// For floats, less-or-equal is less-than or equal, no two floats are each
/// less than the other, and equality does not depend on the side.
pub proof fn lemma_float_le_is_lt_or_eq(a: u64, b: u64)
    ensures
        float_le(a, b) == (float_lt(a, b) || float_eq(a, b)),
        !(float_lt(a, b) && float_lt(b, a)),
        float_eq(a, b) == float_eq(b, a),
{
}

/// The coercion of a well-formed value is well formed.
pub proof fn lemma_into_wf(a: Value, b: Value)
    requires
        a.wf(),
        coercible(a, b),
    ensures
        value_into(a, b) matches OutcomeView::Done(v) ==> v.wf(),
{
    if !same_kind(a, b) {
        match b {
            Value::List(_) => {
                match a {
                    Value::Str(s) => {
                        let l = byte_values(vstd::utf8::encode_utf8(s));
                        assert forall|i: int| 0 <= i < l.len() implies (#[trigger] l[i]).wf() by {}
                    },
                    Value::Obj(e) => {
                        let l = logical_keys(e);
                        assert forall|i: int| 0 <= i < l.len() implies (#[trigger] l[i]).wf() by {
                            assert(decode_key(e[i].0) is Some);
                        }
                    },
                    _ => {},
                }
            },
            Value::Obj(_) => {
                lemma_to_obj_wf(a);
            },
            _ => {},
        }
    }
}

/// Nothing is ordered through the current thread: with it on either side,
/// none of the four comparisons holds.
pub proof fn lemma_current_thread_unordered(a: Value, b: Value)
    requires
        a == Value::Thread(None) || b == Value::Thread(None),
        a is Thread,
        b is Thread,
    ensures
        !value_lt(a, b),
        !value_lt(b, a),
        !value_le(a, b),
        !value_le(b, a),
{
}

/// Equality of well-formed values does not depend on the side: `a` equals
/// `b` exactly where `b` equals `a`.
pub proof fn lemma_eq_symmetric(a: Value, b: Value)
    requires
        a.wf(),
        b.wf(),
    ensures
        value_eq(a, b) == value_eq(b, a),
    decreases a, 0nat,
{
    match (a, b) {
        (Value::List(l), Value::List(r)) => {
            if l.len() == r.len() {
                assert forall|i: int| 0 <= i < l.len() implies value_eq(l[i], r[i]) == value_eq(
                    r[i],
                    l[i],
                ) by {
                    lemma_eq_symmetric(l[i], r[i]);
                }
                if value_eq(a, b) {
                    assert forall|i: int| 0 <= i < r.len() implies value_eq(
                        #[trigger] r[i],
                        l[i],
                    ) by {
                        assert(value_eq(l[i], r[i]));
                    }
                }
                if value_eq(b, a) {
                    assert forall|i: int| 0 <= i < l.len() implies value_eq(
                        #[trigger] l[i],
                        r[i],
                    ) by {
                        assert(value_eq(r[i], l[i]));
                    }
                }
            }
        },
        (Value::Obj(l), Value::Obj(r)) => {
            if keys_within(l, r) && keys_within(r, l) {
                if value_eq(a, b) {
                    assert forall|j: int| 0 <= j < r.len() implies bound_equal(
                        l,
                        (#[trigger] r[j]).0,
                        r[j].1,
                    ) by {
                        lemma_obj_entry_symmetric(l, r, j);
                    }
                }
                if value_eq(b, a) {
                    assert forall|i: int| 0 <= i < l.len() implies bound_equal(
                        r,
                        (#[trigger] l[i]).0,
                        l[i].1,
                    ) by {
                        let k = l[i].0;
                        assert(has_key(r, k));
                        lemma_key_index_found(r, k);
                        let j = key_index(r, k);
                        lemma_lookup_at(r, j);
                        lemma_lookup_at(l, i);
                        assert(bound_equal(l, r[j].0, r[j].1));
                        lemma_eq_symmetric(l[i].1, r[j].1);
                    }
                }
            }
        },
        _ => {},
    }
}

/// Where every entry of `l` is bound in `r` to an equal value, the entry of
/// `r` at `j` is bound in `l` to an equal value.
proof fn lemma_obj_entry_symmetric(l: Entries, r: Entries, j: int)
    requires
        entries_wf(l),
        entries_wf(r),
        keys_within(r, l),
        0 <= j < r.len(),
        forall|i: int| 0 <= i < l.len() ==> bound_equal(r, (#[trigger] l[i]).0, l[i].1),
    ensures
        bound_equal(l, r[j].0, r[j].1),
    decreases l, 0nat,
{
    let k = r[j].0;
    assert(has_key(l, k));
    lemma_key_index_found(l, k);
    let i = key_index(l, k);
    lemma_lookup_at(r, j);
    assert(bound_equal(r, l[i].0, l[i].1));
    assert(value_eq(l[i].1, r[j].1));
    lemma_eq_symmetric(l[i].1, r[j].1);
}

} // verus!
