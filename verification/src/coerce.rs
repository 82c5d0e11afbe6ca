//! Coercion of a value to the kind of another.
use crate::ieee::{
    float_of_bool, float_of_int, float_trunc, is_zero, nonzero, of_bool, of_int, trunc_bits,
};
use crate::key::{decode, decode_key};
use crate::outcome::{FloatWork, Outcome, OutcomeView, WorkView};
use crate::render::{
    count_floats, fill, float_count, join, pieces, pieces_view, renderable, texts_view, Piece,
};
use crate::text::{
    digits, digits_string, lemma_digits_value, parse_decimal, parse_i64,
};
use crate::types::{has_key, list_view, Entries, QObject, QType, Value};
use vstd::prelude::*;
use vstd::utf8::encode_utf8;

verus! {

/// The two values are of the same kind, whatever they hold.
pub open spec fn same_kind(a: Value, b: Value) -> bool {
    match (a, b) {
        (Value::Int(_), Value::Int(_)) => true,
        (Value::Float(_), Value::Float(_)) => true,
        (Value::Bool(_), Value::Bool(_)) => true,
        (Value::Str(_), Value::Str(_)) => true,
        (Value::Void, Value::Void) => true,
        (Value::Error, Value::Error) => true,
        (Value::List(_), Value::List(_)) => true,
        (Value::Obj(_), Value::Obj(_)) => true,
        (Value::Thread(_), Value::Thread(_)) => true,
        (Value::Func(_), Value::Func(_)) => true,
        _ => false,
    }
}

/// To an integer: zero or one for a boolean, the integer part for a float,
/// the integer that a string reads as. `Error` for anything else, and for a
/// string that does not read as a 64-bit signed integer.
pub open spec fn value_to_int(v: Value) -> Value {
    match v {
        Value::Bool(b) => Value::Int(
            if b {
                1
            } else {
                0
            },
        ),
        Value::Float(f) => Value::Int(float_trunc(f)),
        Value::Str(s) => match parse_i64(s) {
            Some(i) => Value::Int(i),
            None => Value::Error,
        },
        _ => Value::Error,
    }
}

/// To a float: zero or one for a boolean; the nearest float for an integer;
/// the float that a string reads as, which is left to the caller. `Error` for
/// anything else.
pub open spec fn value_to_float(v: Value) -> OutcomeView {
    match v {
        Value::Bool(b) => OutcomeView::Done(Value::Float(float_of_bool(b))),
        Value::Int(i) => OutcomeView::Done(Value::Float(float_of_int(i))),
        Value::Str(s) => OutcomeView::Pending(WorkView::Parse(s)),
        _ => OutcomeView::Done(Value::Error),
    }
}

/// To a boolean: whether an integer or a float is not zero, whether a string,
/// a list or an object is not empty; true for `Void`, false for `Error`.
/// `Error` for anything else.
pub open spec fn value_to_bool(v: Value) -> Value {
    match v {
        Value::Int(i) => Value::Bool(i != 0),
        Value::Float(f) => Value::Bool(!is_zero(f)),
        Value::Str(s) => Value::Bool(s.len() != 0),
        Value::Void => Value::Bool(true),
        Value::Error => Value::Bool(false),
        Value::List(l) => Value::Bool(l.len() != 0),
        Value::Obj(e) => Value::Bool(e.len() != 0),
        _ => Value::Error,
    }
}

/// The integer value of a byte.
pub open spec fn byte_value(b: u8) -> Value {
    Value::Int(b as i64)
}

/// The bytes as integer values, in order.
pub open spec fn byte_values(s: Seq<u8>) -> Seq<Value> {
    Seq::new(s.len(), |i: int| byte_value(s[i]))
}

/// Every key of the entries can be decoded.
pub open spec fn keys_decodable(e: Entries) -> bool {
    forall|i: int| 0 <= i < e.len() ==> decode_key((#[trigger] e[i]).0) is Some
}

/// The logical keys of the entries, in order.
pub open spec fn logical_keys(e: Entries) -> Seq<Value> {
    Seq::new(e.len(), |i: int| decode_key(e[i].0).unwrap())
}

/// To a list: the bytes of the UTF-8 encoding of a string as integers, the
/// logical keys of an object in its iteration order. `Error` for anything
/// else.
pub open spec fn value_to_list(v: Value) -> Value {
    match v {
        Value::Str(s) => Value::List(byte_values(encode_utf8(s))),
        Value::Obj(e) => Value::List(logical_keys(e)),
        _ => Value::Error,
    }
}

/// The entries that bind the positions of a sequence, as decimal texts from
/// zero upwards, to its items.
pub open spec fn indexed(items: Seq<Value>) -> Entries {
    Seq::new(items.len(), |i: int| (digits(i as nat), items[i]))
}

/// To an object: the bytes of the UTF-8 encoding of a string, or the items of
/// a list, each bound to its position. `Error` for anything else.
pub open spec fn value_to_obj(v: Value) -> Value {
    match v {
        Value::Str(s) => Value::Obj(indexed(byte_values(encode_utf8(s)))),
        Value::List(l) => Value::Obj(indexed(l)),
        _ => Value::Error,
    }
}

/// To a string: the text of the value. Where the text holds a float, to fill
/// in its decimal text is left to the caller.
pub open spec fn value_to_str(v: Value) -> OutcomeView {
    let p = pieces(v);
    if float_count(p) == 0 {
        OutcomeView::Done(Value::Str(join(p, Seq::empty())))
    } else {
        OutcomeView::Pending(WorkView::Render(p))
    }
}

/// The coercion of `a` to the kind of `b`: `a` itself where it is of that kind
/// already; else `Void` and `Error` for these kinds, `Error` for a function or
/// a thread identity, and what the conversion to the kind gives for the other
/// kinds.
pub open spec fn value_into(a: Value, b: Value) -> OutcomeView {
    if same_kind(a, b) {
        OutcomeView::Done(a)
    } else {
        match b {
            Value::Void => OutcomeView::Done(Value::Void),
            Value::Error => OutcomeView::Done(Value::Error),
            Value::Func(_) => OutcomeView::Done(Value::Error),
            Value::Thread(_) => OutcomeView::Done(Value::Error),
            Value::Int(_) => OutcomeView::Done(value_to_int(a)),
            Value::Float(_) => value_to_float(a),
            Value::Bool(_) => OutcomeView::Done(value_to_bool(a)),
            Value::Str(_) => value_to_str(a),
            Value::List(_) => OutcomeView::Done(value_to_list(a)),
            Value::Obj(_) => OutcomeView::Done(value_to_obj(a)),
        }
    }
}

/// The coercion of `a` to the kind of `b` meets no key that cannot be
/// decoded: `a` is of that kind already, or the logical keys of `a` are
/// asked for and all of them decode, or the text of `a` is asked for and every
/// key that it shows decodes.
pub open spec fn coercible(a: Value, b: Value) -> bool {
    same_kind(a, b) || match b {
        Value::List(_) => a matches Value::Obj(e) ==> keys_decodable(e),
        Value::Str(_) => renderable(a),
        _ => true,
    }
}

/// The position of an item is bound by no earlier entry.
pub proof fn lemma_indexed_fresh(items: Seq<Value>, n: int)
    requires
        0 <= n < items.len(),
    ensures
        !has_key(indexed(items).take(n), digits(n as nat)),
{
    let e = indexed(items).take(n);
    if has_key(e, digits(n as nat)) {
        let j = choose|j: int| 0 <= j < e.len() && (#[trigger] e[j]).0 == digits(n as nat);
        assert(e[j].0 == digits(j as nat));
        lemma_digits_value(j as nat);
        lemma_digits_value(n as nat);
    }
}

/// One more item is one more entry.
pub proof fn lemma_indexed_push(items: Seq<Value>, n: int)
    requires
        0 <= n < items.len(),
    ensures
        indexed(items).take(n + 1) == indexed(items).take(n).push((digits(n as nat), items[n])),
{
    assert(indexed(items).take(n + 1) =~= indexed(items).take(n).push(
        (digits(n as nat), items[n]),
    ));
}

impl QType {
    /// Whether the two values are of the same kind.
    pub fn is_like(&self, other: &QType) -> (r: bool)
        ensures
            r == same_kind(self@, other@),
    {
        match (self, other) {
            (QType::Void, QType::Void) => true,
            (QType::Error, QType::Error) => true,
            (QType::Int(_), QType::Int(_)) => true,
            (QType::Float(_), QType::Float(_)) => true,
            (QType::Bool(_), QType::Bool(_)) => true,
            (QType::Str(_), QType::Str(_)) => true,
            (QType::List(_), QType::List(_)) => true,
            (QType::Obj(_), QType::Obj(_)) => true,
            (QType::Func(_, _), QType::Func(_, _)) => true,
            (QType::Thread(_), QType::Thread(_)) => true,
            _ => false,
        }
    }

    /// Whether the two values are of the same kind, as a boolean value.
    pub fn like(lhs: QType, rhs: QType) -> (r: QType)
        ensures
            r@ == Value::Bool(same_kind(lhs@, rhs@)),
    {
        QType::Bool(lhs.is_like(&rhs))
    }

    /// Converts a value to an integer.
    pub fn to_int(expr: QType) -> (r: QType)
        ensures
            r@ == value_to_int(expr@),
    {
        match expr {
            QType::Bool(b) => QType::Int(
                if b {
                    1
                } else {
                    0
                },
            ),
            QType::Float(f) => QType::Int(trunc_bits(f)),
            QType::Str(s) => match parse_decimal(s.as_str()) {
                Some(i) => QType::Int(i),
                None => QType::Error,
            },
            _ => QType::Error,
        }
    }

    /// Converts a value to a float.
    pub fn to_float(expr: QType) -> (r: Outcome)
        ensures
            r@ == value_to_float(expr@),
    {
        match expr {
            QType::Bool(b) => Outcome::Done(QType::Float(of_bool(b))),
            QType::Int(i) => Outcome::Done(QType::Float(of_int(i))),
            QType::Str(s) => Outcome::Pending(FloatWork::Parse(s)),
            _ => Outcome::Done(QType::Error),
        }
    }

    /// Converts a value to a boolean.
    pub fn to_bool(expr: QType) -> (r: QType)
        ensures
            r@ == value_to_bool(expr@),
    {
        match expr {
            QType::Int(i) => QType::Bool(i != 0),
            QType::Float(f) => QType::Bool(nonzero(f)),
            QType::Str(s) => QType::Bool(!s.as_str().is_empty()),
            QType::Void => QType::Bool(true),
            QType::Error => QType::Bool(false),
            QType::List(l) => {
                proof {
                    crate::types::lemma_list_view(l);
                }
                QType::Bool(l.len() != 0)
            },
            QType::Obj(o) => QType::Bool(o.len() != 0),
            _ => QType::Error,
        }
    }

    /// Converts a value to a list.
    ///
    /// Every key of an object is to be one that can be decoded.
    pub fn to_list(expr: QType) -> (r: QType)
        requires
            expr@ matches Value::Obj(e) ==> keys_decodable(e),
        ensures
            r@ == value_to_list(expr@),
    {
        match expr {
            QType::Str(s) => {
                let bytes = s.as_str().as_bytes();
                let mut out: Vec<QType> = Vec::new();
                let mut i: usize = 0;
                while i < bytes.len()
                    invariant
                        i <= bytes.len(),
                        out.len() == i,
                        forall|j: int| 0 <= j < i ==> (#[trigger] out[j])@ == byte_value(bytes[j]),
                    decreases bytes.len() - i,
                {
                    out.push(QType::Int(bytes[i] as i64));
                    i = i + 1;
                }
                proof {
                    crate::types::lemma_list_view(out);
                    assert(list_view(out@) =~= byte_values(bytes@));
                }
                QType::List(out)
            },
            QType::Obj(o) => {
                let mut out: Vec<QType> = Vec::new();
                let mut i: usize = 0;
                while i < o.len()
                    invariant
                        i <= o@.len(),
                        out.len() == i,
                        keys_decodable(o@),
                        forall|j: int|
                            0 <= j < i ==> Some((#[trigger] out[j])@) == decode_key(o@[j].0),
                    decreases o@.len() - i,
                {
                    match decode(o.key_at(i).as_str()) {
                        Some(k) => {
                            out.push(k);
                        },
                        None => {
                            assert(decode_key(o@[i as int].0) is Some);
                        },
                    }
                    i = i + 1;
                }
                proof {
                    crate::types::lemma_list_view(out);
                    assert(list_view(out@) =~= logical_keys(o@));
                }
                QType::List(out)
            },
            _ => QType::Error,
        }
    }

    /// Converts a value to an object.
    pub fn to_obj(expr: QType) -> (r: QType)
        ensures
            r@ == value_to_obj(expr@),
    {
        match expr {
            QType::Str(s) => {
                let bytes = s.as_str().as_bytes();
                let ghost items = byte_values(bytes@);
                let mut out = QObject::new();
                let mut i: usize = 0;
                proof {
                    assert(indexed(items).take(0) =~= out@);
                }
                while i < bytes.len()
                    invariant
                        i <= bytes.len(),
                        items == byte_values(bytes@),
                        out@ == indexed(items).take(i as int),
                    decreases bytes.len() - i,
                {
                    proof {
                        lemma_indexed_fresh(items, i as int);
                        lemma_indexed_push(items, i as int);
                    }
                    out.push_fresh(digits_string(i as u64), QType::Int(bytes[i] as i64));
                    i = i + 1;
                }
                assert(indexed(items).take(items.len() as int) =~= indexed(items));
                QType::Obj(out)
            },
            QType::List(l) => {
                proof {
                    crate::types::lemma_list_view(l);
                }
                let ghost items = list_view(l@);
                let n = l.len();
                let mut out = QObject::new();
                let mut i: usize = 0;
                proof {
                    assert(indexed(items).take(0) =~= out@);
                }
                for e in it: l
                    invariant
                        items == list_view(it.seq()),
                        it.seq().len() == n,
                        i == it.index(),
                        out@ == indexed(items).take(i as int),
                {
                    proof {
                        lemma_indexed_fresh(items, i as int);
                        lemma_indexed_push(items, i as int);
                    }
                    out.push_fresh(digits_string(i as u64), e);
                    i = i + 1;
                }
                assert(indexed(items).take(items.len() as int) =~= indexed(items));
                QType::Obj(out)
            },
            _ => QType::Error,
        }
    }

    /// Whether every key that the text of the value shows can be decoded.
    pub fn is_renderable(&self) -> (r: bool)
        ensures
            r == renderable(self@),
        decreases self,
    {
        match self {
            QType::List(l) => {
                let ghost items = self@->List_0;
                let mut i: usize = 0;
                while i < l.len()
                    invariant
                        i <= l.len(),
                        items.len() == l.len(),
                        self@ is List,
                        items == self@->List_0,
                        forall|j: int| 0 <= j < l.len() ==> (#[trigger] l[j])@ == items[j],
                        forall|j: int| 0 <= j < i ==> renderable(#[trigger] items[j]),
                        decreases_to!(*self => *l),
                    decreases l.len() - i,
                {
                    if !l[i].is_renderable() {
                        assert(!renderable(self@->List_0[i as int]));
                        return false;
                    }
                    i = i + 1;
                }
                true
            },
            QType::Obj(o) => {
                let mut i: usize = 0;
                while i < o.len()
                    invariant
                        i <= o@.len(),
                        self@ == Value::Obj(o@),
                        forall|j: int|
                            0 <= j < i ==> decode_key((#[trigger] o@[j]).0) is Some && renderable(
                                o@[j].1,
                            ),
                        decreases_to!(*self => *o),
                    decreases o@.len() - i,
                {
                    if decode(o.key_at(i).as_str()).is_none() || !o.value_at(i).is_renderable() {
                        assert(!(decode_key(o@[i as int].0) is Some && renderable(o@[i as int].1)));
                        return false;
                    }
                    i = i + 1;
                }
                true
            },
            _ => true,
        }
    }

    /// Whether the coercion of the value to the kind of `target` meets no key
    /// that cannot be decoded.
    pub fn can_coerce(&self, target: &QType) -> (r: bool)
        ensures
            r == coercible(self@, target@),
    {
        if self.is_like(target) {
            true
        } else {
            match target {
                QType::List(_) => match self {
                    QType::Obj(o) => {
                        let mut i: usize = 0;
                        while i < o.len()
                            invariant
                                i <= o@.len(),
                                self@ == Value::Obj(o@),
                                target is List,
                                !same_kind(self@, target@),
                                forall|j: int|
                                    0 <= j < i ==> decode_key((#[trigger] o@[j]).0) is Some,
                            decreases o@.len() - i,
                        {
                            if decode(o.key_at(i).as_str()).is_none() {
                                assert(!(decode_key(o@[i as int].0) is Some));
                                return false;
                            }
                            i = i + 1;
                        }
                        true
                    },
                    _ => true,
                },
                QType::Str(_) => self.is_renderable(),
                _ => true,
            }
        }
    }

    /// Converts a value to a string.
    ///
    /// Every key that the text shows is to be one that can be decoded.
    pub fn to_str(expr: QType) -> (r: Outcome)
        requires
            renderable(expr@),
        ensures
            r@ == value_to_str(expr@),
    {
        let mut p: Vec<Piece> = Vec::new();
        expr.render(&mut p);
        assert(pieces_view(p@) =~= pieces(expr@));
        if count_floats(&p) > 0 {
            Outcome::Pending(FloatWork::Render(p))
        } else {
            let none: Vec<String> = Vec::new();
            assert(texts_view(none@) =~= Seq::<Seq<char>>::empty());
            Outcome::Done(QType::Str(fill(&p, &none)))
        }
    }

    /// Coerces `lhs` to the kind of `rhs`; what `rhs` holds does not matter.
    ///
    /// Where the logical keys of an object or the text of a value are asked
    /// for, every key that is met is to be one that can be decoded.
    pub fn into(lhs: QType, rhs: QType) -> (r: Outcome)
        requires
            coercible(lhs@, rhs@),
        ensures
            r@ == value_into(lhs@, rhs@),
            same_kind(lhs@, rhs@) ==> r@ == OutcomeView::Done(lhs@),
            lhs@.wf() ==> (r@ matches OutcomeView::Done(v) ==> v.wf()),
    {
        proof {
            if lhs@.wf() {
                crate::laws::lemma_into_wf(lhs@, rhs@);
            }
        }
        if lhs.is_like(&rhs) {
            Outcome::Done(lhs)
        } else {
            match rhs {
                QType::Void => Outcome::Done(QType::Void),
                QType::Error => Outcome::Done(QType::Error),
                QType::Func(_, _) => Outcome::Done(QType::Error),
                QType::Thread(_) => Outcome::Done(QType::Error),
                QType::Int(_) => Outcome::Done(QType::to_int(lhs)),
                QType::Float(_) => QType::to_float(lhs),
                QType::Bool(_) => Outcome::Done(QType::to_bool(lhs)),
                QType::Str(_) => QType::to_str(lhs),
                QType::List(_) => Outcome::Done(QType::to_list(lhs)),
                QType::Obj(_) => Outcome::Done(QType::to_obj(lhs)),
            }
        }
    }
}

} // verus!

