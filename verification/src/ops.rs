//! The operators over values.
//!
//! Every operator is total: a pairing of kinds that it does not support gives
//! `Error`, or `false` for an ordering, and never a fault.
use crate::ieee::{eq_bits, float_eq, float_le, float_lt, le_bits, lt_bits};
use crate::key::{encode_key, to_qobj_key};
use crate::outcome::{FloatOp, FloatWork, Outcome, OutcomeView, WorkView};
use crate::text::{magnitude, str_lt, text_lt};
use crate::types::{has_key, list_view, lookup, merge, Entries, QType, Value};
use vstd::prelude::*;
use vstd::string::StringExecFns;

verus! {

/// The 64-bit signed integer that an integer wraps to: the one that differs
/// from it by a multiple of two to the sixty-fourth.
pub open spec fn wrap(x: int) -> i64 {
    let m = x % 0x1_0000_0000_0000_0000;
    if m > i64::MAX {
        (m - 0x1_0000_0000_0000_0000) as i64
    } else {
        m as i64
    }
}

/// The absolute value of an integer.
pub open spec fn abs(x: int) -> int {
    if x < 0 {
        -x
    } else {
        x
    }
}

/// The quotient of a division that rounds toward zero.
pub open spec fn trunc_div(x: int, y: int) -> int {
    if (x < 0) != (y < 0) {
        -(abs(x) / abs(y))
    } else {
        abs(x) / abs(y)
    }
}

/// The remainder of a division that rounds toward zero: it has the sign of
/// the dividend.
pub open spec fn trunc_rem(x: int, y: int) -> int {
    if x < 0 {
        -(abs(x) % abs(y))
    } else {
        abs(x) % abs(y)
    }
}

/// Sum of integers, wrapping; sum of floats, left to the caller;
/// concatenation of strings and of lists; union of objects, in which the right
/// side wins.
pub open spec fn value_add(a: Value, b: Value) -> OutcomeView {
    match (a, b) {
        (Value::Int(l), Value::Int(r)) => OutcomeView::Done(Value::Int(wrap(l + r))),
        (Value::Float(l), Value::Float(r)) => OutcomeView::Pending(
            WorkView::Arith(FloatOp::Add, l, r),
        ),
        (Value::Str(l), Value::Str(r)) => OutcomeView::Done(Value::Str(l + r)),
        (Value::List(l), Value::List(r)) => OutcomeView::Done(Value::List(l + r)),
        (Value::Obj(l), Value::Obj(r)) => OutcomeView::Done(Value::Obj(merge(l, r))),
        _ => OutcomeView::Done(Value::Error),
    }
}

/// Difference of integers, wrapping; difference of floats, left to the caller.
pub open spec fn value_sub(a: Value, b: Value) -> OutcomeView {
    match (a, b) {
        (Value::Int(l), Value::Int(r)) => OutcomeView::Done(Value::Int(wrap(l - r))),
        (Value::Float(l), Value::Float(r)) => OutcomeView::Pending(
            WorkView::Arith(FloatOp::Sub, l, r),
        ),
        _ => OutcomeView::Done(Value::Error),
    }
}

/// Product of integers, wrapping; product of floats, left to the caller.
pub open spec fn value_mul(a: Value, b: Value) -> OutcomeView {
    match (a, b) {
        (Value::Int(l), Value::Int(r)) => OutcomeView::Done(Value::Int(wrap(l * r))),
        (Value::Float(l), Value::Float(r)) => OutcomeView::Pending(
            WorkView::Arith(FloatOp::Mul, l, r),
        ),
        _ => OutcomeView::Done(Value::Error),
    }
}

/// Quotient of integers, rounded toward zero and wrapping, `Error` where the
/// divisor is zero; quotient of floats, left to the caller.
pub open spec fn value_div(a: Value, b: Value) -> OutcomeView {
    match (a, b) {
        (Value::Int(l), Value::Int(r)) => if r == 0 {
            OutcomeView::Done(Value::Error)
        } else {
            OutcomeView::Done(Value::Int(wrap(trunc_div(l as int, r as int))))
        },
        (Value::Float(l), Value::Float(r)) => OutcomeView::Pending(
            WorkView::Arith(FloatOp::Div, l, r),
        ),
        _ => OutcomeView::Done(Value::Error),
    }
}

/// Remainder of integers, with the sign of the dividend, `Error` where the
/// divisor is zero; remainder of floats, left to the caller.
pub open spec fn value_mod(a: Value, b: Value) -> OutcomeView {
    match (a, b) {
        (Value::Int(l), Value::Int(r)) => if r == 0 {
            OutcomeView::Done(Value::Error)
        } else {
            OutcomeView::Done(Value::Int(wrap(trunc_rem(l as int, r as int))))
        },
        (Value::Float(l), Value::Float(r)) => OutcomeView::Pending(
            WorkView::Arith(FloatOp::Rem, l, r),
        ),
        _ => OutcomeView::Done(Value::Error),
    }
}

/// Bitwise and of integers, logical and of booleans.
pub open spec fn value_and(a: Value, b: Value) -> Value {
    match (a, b) {
        (Value::Int(l), Value::Int(r)) => Value::Int(l & r),
        (Value::Bool(l), Value::Bool(r)) => Value::Bool(l && r),
        _ => Value::Error,
    }
}

/// Bitwise or of integers, logical or of booleans.
pub open spec fn value_or(a: Value, b: Value) -> Value {
    match (a, b) {
        (Value::Int(l), Value::Int(r)) => Value::Int(l | r),
        (Value::Bool(l), Value::Bool(r)) => Value::Bool(l || r),
        _ => Value::Error,
    }
}

/// Bitwise exclusive or of integers, logical exclusive or of booleans.
pub open spec fn value_xor(a: Value, b: Value) -> Value {
    match (a, b) {
        (Value::Int(l), Value::Int(r)) => Value::Int(l ^ r),
        (Value::Bool(l), Value::Bool(r)) => Value::Bool(l != r),
        _ => Value::Error,
    }
}

/// Bitwise complement of an integer, which is minus one minus the integer;
/// negation of a boolean.
pub open spec fn value_not(a: Value) -> Value {
    match a {
        Value::Int(i) => Value::Int((-1 - i) as i64),
        Value::Bool(b) => Value::Bool(!b),
        _ => Value::Error,
    }
}

/// The item of a list at a nonnegative integer position within its bounds; the
/// value that an object binds to an integer or string key. `Error` for
/// anything else.
pub open spec fn value_index(a: Value, b: Value) -> Value {
    match a {
        Value::List(l) => match b {
            Value::Int(i) => if 0 <= i < l.len() {
                l[i as int]
            } else {
                Value::Error
            },
            _ => Value::Error,
        },
        Value::Obj(e) => match encode_key(b) {
            Some(k) => match lookup(e, k) {
                Some(v) => v,
                None => Value::Error,
            },
            None => Value::Error,
        },
        _ => Value::Error,
    }
}

/// Every key of `l` is a key of `r`.
pub open spec fn keys_within(l: Entries, r: Entries) -> bool {
    forall|i: int| 0 <= i < l.len() ==> has_key(r, (#[trigger] l[i]).0)
}

/// Equality of values.
///
/// Integers, booleans and strings are equal where they are the same; floats
/// where they are equal as numbers; `Void` equals `Void` and `Error` equals
/// `Error`. Lists are equal where they have the same length and equal items
/// at each position. Objects are equal where they have the same keys and bind
/// each key to equal values, in whatever order. Thread identities are equal
/// where both name the same thread or both stand for the current thread; a
/// named thread and the current thread are unequal. A function equals
/// nothing. Values of different kinds are unequal.
pub open spec fn value_eq(a: Value, b: Value) -> bool
    decreases a, 0nat,
{
    match (a, b) {
        (Value::Int(l), Value::Int(r)) => l == r,
        (Value::Float(l), Value::Float(r)) => float_eq(l, r),
        (Value::Bool(l), Value::Bool(r)) => l == r,
        (Value::Str(l), Value::Str(r)) => l == r,
        (Value::Void, Value::Void) => true,
        (Value::Error, Value::Error) => true,
        (Value::List(l), Value::List(r)) => l.len() == r.len() && forall|i: int|
            0 <= i < l.len() ==> value_eq(#[trigger] l[i], r[i]),
        (Value::Obj(l), Value::Obj(r)) => keys_within(l, r) && keys_within(r, l) && forall|i: int|
            0 <= i < l.len() ==> bound_equal(r, (#[trigger] l[i]).0, l[i].1),
        (Value::Thread(l), Value::Thread(r)) => l == r,
        _ => false,
    }
}

/// The entries bind `k` to a value that `v` equals.
pub open spec fn bound_equal(r: Entries, k: Seq<char>, v: Value) -> bool
    decreases v, 1nat,
{
    match lookup(r, k) {
        Some(w) => value_eq(v, w),
        None => false,
    }
}

/// `a` is less than `b`: by the order of integers, of floats, of strings, or
/// of the numbers of two named threads. False for anything else.
pub open spec fn value_lt(a: Value, b: Value) -> bool {
    match (a, b) {
        (Value::Int(l), Value::Int(r)) => l < r,
        (Value::Float(l), Value::Float(r)) => float_lt(l, r),
        (Value::Str(l), Value::Str(r)) => text_lt(l, r),
        (Value::Thread(Some(l)), Value::Thread(Some(r))) => l < r,
        _ => false,
    }
}

/// `a` is less than or equal to `b`, by the same orders. False for anything
/// else.
pub open spec fn value_le(a: Value, b: Value) -> bool {
    match (a, b) {
        (Value::Int(l), Value::Int(r)) => l <= r,
        (Value::Float(l), Value::Float(r)) => float_le(l, r),
        (Value::Str(l), Value::Str(r)) => !text_lt(r, l),
        (Value::Thread(Some(l)), Value::Thread(Some(r))) => l <= r,
        _ => false,
    }
}

/// The views of two lists one after the other.
pub proof fn lemma_list_view_add(l: Seq<QType>, r: Seq<QType>)
    ensures
        list_view(l + r) == list_view(l) + list_view(r),
{
    assert(list_view(l + r) =~= list_view(l) + list_view(r));
}

/// The magnitude of a quotient is no more than that of the dividend.
proof fn lemma_div_bound(a: int, b: int)
    by (nonlinear_arith)
    requires
        0 <= a,
        0 < b,
    ensures
        0 <= a / b <= a,
        0 <= a % b < b,
{
}

impl QType {
    /// Adds two values.
    pub fn add(lhs: QType, rhs: QType) -> (r: Outcome)
        ensures
            r@ == value_add(lhs@, rhs@),
            lhs@.wf() && rhs@.wf() ==> (r@ matches OutcomeView::Done(v) ==> v.wf()),
    {
        proof {
            if lhs@.wf() && rhs@.wf() {
                crate::laws::lemma_add_wf(lhs@, rhs@);
            }
        }
        match (lhs, rhs) {
            (QType::Int(l), QType::Int(r)) => Outcome::Done(QType::Int(l.wrapping_add(r))),
            (QType::Float(l), QType::Float(r)) => Outcome::Pending(
                FloatWork::Arith(FloatOp::Add, l, r),
            ),
            (QType::Str(l), QType::Str(r)) => {
                let mut s = l;
                s.append(r.as_str());
                Outcome::Done(QType::Str(s))
            },
            (QType::List(l), QType::List(r)) => {
                let mut list = l;
                let mut rest = r;
                proof {
                    lemma_list_view_add(list@, rest@);
                    crate::types::lemma_list_view(list);
                    crate::types::lemma_list_view(rest);
                }
                list.append(&mut rest);
                proof {
                    crate::types::lemma_list_view(list);
                }
                Outcome::Done(QType::List(list))
            },
            (QType::Obj(l), QType::Obj(r)) => {
                let mut obj = l;
                obj.absorb(r);
                Outcome::Done(QType::Obj(obj))
            },
            _ => Outcome::Done(QType::Error),
        }
    }

    /// Subtracts the right value from the left.
    pub fn sub(lhs: QType, rhs: QType) -> (r: Outcome)
        ensures
            r@ == value_sub(lhs@, rhs@),
    {
        match (lhs, rhs) {
            (QType::Int(l), QType::Int(r)) => Outcome::Done(QType::Int(l.wrapping_sub(r))),
            (QType::Float(l), QType::Float(r)) => Outcome::Pending(
                FloatWork::Arith(FloatOp::Sub, l, r),
            ),
            _ => Outcome::Done(QType::Error),
        }
    }

    /// Multiplies two values.
    pub fn mul(lhs: QType, rhs: QType) -> (r: Outcome)
        ensures
            r@ == value_mul(lhs@, rhs@),
    {
        match (lhs, rhs) {
            (QType::Int(l), QType::Int(r)) => Outcome::Done(QType::Int(l.wrapping_mul(r))),
            (QType::Float(l), QType::Float(r)) => Outcome::Pending(
                FloatWork::Arith(FloatOp::Mul, l, r),
            ),
            _ => Outcome::Done(QType::Error),
        }
    }

    /// Divides the left value by the right.
    pub fn div(lhs: QType, rhs: QType) -> (r: Outcome)
        ensures
            r@ == value_div(lhs@, rhs@),
    {
        match (lhs, rhs) {
            (QType::Int(l), QType::Int(r)) => {
                if r == 0 {
                    Outcome::Done(QType::Error)
                } else {
                    let a = magnitude(l);
                    let b = magnitude(r);
                    proof {
                        lemma_div_bound(a as int, b as int);
                    }
                    let q = a / b;
                    let v: i64 = if (l < 0) != (r < 0) {
                        if q == 0x8000_0000_0000_0000 {
                            i64::MIN
                        } else {
                            -(q as i64)
                        }
                    } else {
                        if q == 0x8000_0000_0000_0000 {
                            i64::MIN
                        } else {
                            q as i64
                        }
                    };
                    Outcome::Done(QType::Int(v))
                }
            },
            (QType::Float(l), QType::Float(r)) => Outcome::Pending(
                FloatWork::Arith(FloatOp::Div, l, r),
            ),
            _ => Outcome::Done(QType::Error),
        }
    }

    /// The remainder of dividing the left value by the right.
    pub fn modulo(lhs: QType, rhs: QType) -> (r: Outcome)
        ensures
            r@ == value_mod(lhs@, rhs@),
    {
        match (lhs, rhs) {
            (QType::Int(l), QType::Int(r)) => {
                if r == 0 {
                    Outcome::Done(QType::Error)
                } else {
                    let a = magnitude(l);
                    let b = magnitude(r);
                    proof {
                        lemma_div_bound(a as int, b as int);
                    }
                    let m = a % b;
                    let v: i64 = if l < 0 {
                        -(m as i64)
                    } else {
                        m as i64
                    };
                    Outcome::Done(QType::Int(v))
                }
            },
            (QType::Float(l), QType::Float(r)) => Outcome::Pending(
                FloatWork::Arith(FloatOp::Rem, l, r),
            ),
            _ => Outcome::Done(QType::Error),
        }
    }

    /// Bitwise and of integers, logical and of booleans.
    pub fn and(lhs: QType, rhs: QType) -> (r: QType)
        ensures
            r@ == value_and(lhs@, rhs@),
    {
        match (lhs, rhs) {
            (QType::Int(l), QType::Int(r)) => QType::Int(l & r),
            (QType::Bool(l), QType::Bool(r)) => QType::Bool(l && r),
            _ => QType::Error,
        }
    }

    /// Bitwise or of integers, logical or of booleans.
    pub fn or(lhs: QType, rhs: QType) -> (r: QType)
        ensures
            r@ == value_or(lhs@, rhs@),
    {
        match (lhs, rhs) {
            (QType::Int(l), QType::Int(r)) => QType::Int(l | r),
            (QType::Bool(l), QType::Bool(r)) => QType::Bool(l || r),
            _ => QType::Error,
        }
    }

    /// Bitwise exclusive or of integers, logical exclusive or of booleans.
    pub fn xor(lhs: QType, rhs: QType) -> (r: QType)
        ensures
            r@ == value_xor(lhs@, rhs@),
    {
        match (lhs, rhs) {
            (QType::Int(l), QType::Int(r)) => QType::Int(l ^ r),
            (QType::Bool(l), QType::Bool(r)) => QType::Bool(l != r),
            _ => QType::Error,
        }
    }

    /// Bitwise complement of an integer, negation of a boolean.
    ///
    /// In two's complement the complement of `i` is `-1 - i`.
    pub fn not(expr: QType) -> (r: QType)
        ensures
            r@ == value_not(expr@),
    {
        match expr {
            QType::Int(i) => QType::Int(-1 - i),
            QType::Bool(b) => QType::Bool(!b),
            _ => QType::Error,
        }
    }

    /// Indexes a list by position, or an object by key.
    ///
    /// An object is indexed by an integer or a string only.
    pub fn index(lhs: QType, rhs: QType) -> (r: QType)
        requires
            lhs is Obj ==> rhs is Int || rhs is Str,
        ensures
            r@ == value_index(lhs@, rhs@),
            lhs@.wf() ==> r@.wf(),
    {
        proof {
            if lhs@.wf() {
                crate::laws::lemma_index_wf(lhs@, rhs@);
            }
        }
        match lhs {
            QType::List(l) => {
                proof {
                    crate::types::lemma_list_view(l);
                }
                match rhs {
                    QType::Int(idx) => {
                        if idx >= 0 && (idx as u64) < (l.len() as u64) {
                            l[idx as usize].clone()
                        } else {
                            QType::Error
                        }
                    },
                    _ => QType::Error,
                }
            },
            QType::Obj(o) => {
                let key = to_qobj_key(rhs);
                match o.get(&key) {
                    Some(v) => v.clone(),
                    None => QType::Error,
                }
            },
            _ => QType::Error,
        }
    }

    /// Whether the two values are equal.
    pub fn equals(&self, other: &QType) -> (r: bool)
        ensures
            r == value_eq(self@, other@),
        decreases self,
    {
        match (self, other) {
            (QType::Int(l), QType::Int(r)) => *l == *r,
            (QType::Float(l), QType::Float(r)) => eq_bits(*l, *r),
            (QType::Bool(l), QType::Bool(r)) => *l == *r,
            (QType::Str(l), QType::Str(r)) => *l == *r,
            (QType::Void, QType::Void) => true,
            (QType::Error, QType::Error) => true,
            (QType::List(l), QType::List(r)) => {
                proof {
                    crate::types::lemma_list_view(*l);
                    crate::types::lemma_list_view(*r);
                }
                if l.len() != r.len() {
                    return false;
                }
                let mut i: usize = 0;
                while i < l.len()
                    invariant
                        i <= l.len(),
                        l.len() == r.len(),
                        self@ == Value::List(list_view(l@)),
                        other@ == Value::List(list_view(r@)),
                        forall|j: int| 0 <= j < i ==> value_eq(#[trigger] l[j]@, r[j]@),
                        decreases_to!(*self => *l),
                    decreases l.len() - i,
                {
                    if !l[i].equals(&r[i]) {
                        assert(!value_eq(list_view(l@)[i as int], list_view(r@)[i as int]));
                        return false;
                    }
                    i = i + 1;
                }
                assert forall|j: int| 0 <= j < l.len() implies value_eq(
                    #[trigger] list_view(l@)[j],
                    list_view(r@)[j],
                ) by {
                    assert(value_eq(l[j]@, r[j]@));
                }
                true
            },
            (QType::Obj(l), QType::Obj(r)) => {
                let mut i: usize = 0;
                while i < l.len()
                    invariant
                        i <= l@.len(),
                        self@ == Value::Obj(l@),
                        other@ == Value::Obj(r@),
                        forall|j: int| 0 <= j < i ==> has_key(r@, (#[trigger] l@[j]).0),
                        forall|j: int| 0 <= j < i ==> bound_equal(r@, (#[trigger] l@[j]).0, l@[j].1),
                        decreases_to!(*self => *l),
                    decreases l@.len() - i,
                {
                    match r.get(l.key_at(i)) {
                        Some(w) => {
                            if !l.value_at(i).equals(w) {
                                assert(!bound_equal(r@, l@[i as int].0, l@[i as int].1));
                                return false;
                            }
                        },
                        None => {
                            assert(!has_key(r@, l@[i as int].0));
                            return false;
                        },
                    }
                    i = i + 1;
                }
                let mut j: usize = 0;
                while j < r.len()
                    invariant
                        j <= r@.len(),
                        self@ == Value::Obj(l@),
                        other@ == Value::Obj(r@),
                        keys_within(l@, r@),
                        forall|k: int| 0 <= k < l@.len() ==> bound_equal(r@, (#[trigger] l@[k]).0, l@[k].1),
                        forall|k: int| 0 <= k < j ==> has_key(l@, (#[trigger] r@[k]).0),
                    decreases r@.len() - j,
                {
                    if l.find(r.key_at(j)).is_none() {
                        assert(!has_key(l@, r@[j as int].0));
                        return false;
                    }
                    j = j + 1;
                }
                true
            },
            (QType::Thread(l), QType::Thread(r)) => match (l, r) {
                (Some(a), Some(b)) => *a == *b,
                (None, None) => true,
                _ => false,
            },
            _ => false,
        }
    }

    /// Equality, as a boolean value.
    pub fn eq(lhs: QType, rhs: QType) -> (r: QType)
        ensures
            r@ == Value::Bool(value_eq(lhs@, rhs@)),
    {
        QType::Bool(lhs.equals(&rhs))
    }

    /// Inequality, as a boolean value.
    pub fn ne(lhs: QType, rhs: QType) -> (r: QType)
        ensures
            r@ == Value::Bool(!value_eq(lhs@, rhs@)),
    {
        QType::Bool(!lhs.equals(&rhs))
    }

    /// Whether the left value is less than the right, as a boolean value.
    pub fn lt(lhs: QType, rhs: QType) -> (r: QType)
        ensures
            r@ == Value::Bool(value_lt(lhs@, rhs@)),
    {
        match (lhs, rhs) {
            (QType::Int(l), QType::Int(r)) => QType::Bool(l < r),
            (QType::Float(l), QType::Float(r)) => QType::Bool(lt_bits(l, r)),
            (QType::Str(l), QType::Str(r)) => QType::Bool(str_lt(l.as_str(), r.as_str())),
            (QType::Thread(Some(l)), QType::Thread(Some(r))) => QType::Bool(l < r),
            _ => QType::Bool(false),
        }
    }

    /// Whether the left value is greater than the right, as a boolean value.
    pub fn gt(lhs: QType, rhs: QType) -> (r: QType)
        ensures
            r@ == Value::Bool(value_lt(rhs@, lhs@)),
    {
        match (lhs, rhs) {
            (QType::Int(l), QType::Int(r)) => QType::Bool(l > r),
            (QType::Float(l), QType::Float(r)) => QType::Bool(lt_bits(r, l)),
            (QType::Str(l), QType::Str(r)) => QType::Bool(str_lt(r.as_str(), l.as_str())),
            (QType::Thread(Some(l)), QType::Thread(Some(r))) => QType::Bool(l > r),
            _ => QType::Bool(false),
        }
    }

    /// Whether the left value is less than or equal to the right, as a boolean
    /// value.
    pub fn le(lhs: QType, rhs: QType) -> (r: QType)
        ensures
            r@ == Value::Bool(value_le(lhs@, rhs@)),
    {
        match (lhs, rhs) {
            (QType::Int(l), QType::Int(r)) => QType::Bool(l <= r),
            (QType::Float(l), QType::Float(r)) => QType::Bool(le_bits(l, r)),
            (QType::Str(l), QType::Str(r)) => QType::Bool(!str_lt(r.as_str(), l.as_str())),
            (QType::Thread(Some(l)), QType::Thread(Some(r))) => QType::Bool(l <= r),
            _ => QType::Bool(false),
        }
    }

    /// Whether the left value is greater than or equal to the right, as a
    /// boolean value.
    pub fn ge(lhs: QType, rhs: QType) -> (r: QType)
        ensures
            r@ == Value::Bool(value_le(rhs@, lhs@)),
    {
        match (lhs, rhs) {
            (QType::Int(l), QType::Int(r)) => QType::Bool(l >= r),
            (QType::Float(l), QType::Float(r)) => QType::Bool(le_bits(r, l)),
            (QType::Str(l), QType::Str(r)) => QType::Bool(!str_lt(l.as_str(), r.as_str())),
            (QType::Thread(Some(l)), QType::Thread(Some(r))) => QType::Bool(l >= r),
            _ => QType::Bool(false),
        }
    }
}

} // verus!
