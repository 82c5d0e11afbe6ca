//! Stringification of values.
//!
//! The text of a value is laid out here as a sequence of pieces: stretches of
//! plain text, and one slot for each float in it. The decimal text of a float
//! is not computed by this crate; whoever has it fills the slots with
//! [`fill`].
use crate::key::{decode, decode_key};
use crate::text::{decimal_string, decimal_text, digits, digits_string};
use crate::types::{Entries, QType, Value};
use vstd::prelude::*;
use vstd::string::StringExecFns;

verus! {

/// One piece of a rendered text: a stretch of plain text, or the place of a
/// float, which is held by its bit pattern.
#[derive(Debug, PartialEq, Eq)]
pub enum Piece {
    Text(String),
    Float(u64),
}

/// The mathematical model of a piece.
pub enum PieceView {
    Text(Seq<char>),
    Float(u64),
}

impl View for Piece {
    type V = PieceView;

    open spec fn view(&self) -> PieceView {
        match self {
            Piece::Text(s) => PieceView::Text(s@),
            Piece::Float(b) => PieceView::Float(*b),
        }
    }
}

/// The models of a list of pieces.
pub open spec fn pieces_view(p: Seq<Piece>) -> Seq<PieceView> {
    Seq::new(p.len(), |i: int| p[i]@)
}

/// The texts of a list of strings.
pub open spec fn texts_view(t: Seq<String>) -> Seq<Seq<char>> {
    Seq::new(t.len(), |i: int| t[i]@)
}

/// One stretch of plain text.
pub open spec fn plain(s: Seq<char>) -> Seq<PieceView> {
    seq![PieceView::Text(s)]
}

/// What stands for the key of an entry in the text of an object: a string
/// key in double quotes, an integer key as its canonical decimal text, each
/// followed by a colon and a space.
pub open spec fn key_pieces(k: Seq<char>) -> Seq<PieceView> {
    match decode_key(k) {
        Some(Value::Str(s)) => plain("\""@) + plain(s) + plain("\": "@),
        Some(Value::Int(i)) => plain(decimal_text(i as int)) + plain(": "@),
        _ => Seq::empty(),
    }
}

/// The text of a value.
///
/// A list is its items' texts between square brackets, an object its entries'
/// texts between braces; neither puts anything between two neighbours.
pub open spec fn pieces(v: Value) -> Seq<PieceView>
    decreases v, 0nat,
{
    match v {
        Value::Int(i) => plain(decimal_text(i as int)),
        Value::Float(b) => seq![PieceView::Float(b)],
        Value::Bool(b) => if b {
            plain("true"@)
        } else {
            plain("false"@)
        },
        Value::Str(s) => plain(s),
        Value::Void => plain("()"@),
        Value::Error => plain("err"@),
        Value::Func(_) => plain("\\(...) => ..."@),
        Value::Thread(None) => plain("@this"@),
        Value::Thread(Some(t)) => plain("@"@) + plain(digits(t as nat)),
        Value::List(l) => plain("["@) + items_pieces(l, l.len()) + plain("]"@),
        Value::Obj(e) => if e.len() == 0 {
            plain("{}"@)
        } else {
            plain("{ "@) + entries_pieces(e, e.len()) + plain(" }"@)
        },
    }
}

/// The texts of the first `n` items of a list, one after the other.
pub open spec fn items_pieces(l: Seq<Value>, n: nat) -> Seq<PieceView>
    decreases l, n,
{
    if n == 0 || n > l.len() {
        Seq::empty()
    } else {
        items_pieces(l, (n - 1) as nat) + pieces(l[n - 1])
    }
}

/// The texts of the first `n` entries of an object, one after the other: for
/// each its key, then its value.
pub open spec fn entries_pieces(e: Entries, n: nat) -> Seq<PieceView>
    decreases e, n,
{
    if n == 0 || n > e.len() {
        Seq::empty()
    } else {
        entries_pieces(e, (n - 1) as nat) + key_pieces(e[n - 1].0) + pieces(e[n - 1].1)
    }
}

/// Every key that the text of the value shows can be decoded.
pub open spec fn renderable(v: Value) -> bool
    decreases v,
{
    match v {
        Value::List(l) => forall|i: int| 0 <= i < l.len() ==> renderable(#[trigger] l[i]),
        Value::Obj(e) => forall|i: int|
            0 <= i < e.len() ==> decode_key((#[trigger] e[i]).0) is Some && renderable(e[i].1),
        _ => true,
    }
}

/// The number of float slots among the pieces.
pub open spec fn float_count(p: Seq<PieceView>) -> nat
    decreases p.len(),
{
    if p.len() == 0 {
        0
    } else if p.last() is Float {
        float_count(p.drop_last()) + 1
    } else {
        float_count(p.drop_last())
    }
}

/// The bit patterns of the floats whose slots are among the pieces, in order.
pub open spec fn float_slots(p: Seq<PieceView>) -> Seq<u64>
    decreases p.len(),
{
    if p.len() == 0 {
        Seq::empty()
    } else {
        match p.last() {
            PieceView::Float(b) => float_slots(p.drop_last()).push(b),
            PieceView::Text(_) => float_slots(p.drop_last()),
        }
    }
}

/// The text that the pieces spell once the slot of the `i`-th float holds
/// `texts[i]`.
pub open spec fn join(p: Seq<PieceView>, texts: Seq<Seq<char>>) -> Seq<char>
    decreases p.len(),
{
    if p.len() == 0 {
        Seq::empty()
    } else {
        match p.last() {
            PieceView::Text(s) => join(p.drop_last(), texts) + s,
            PieceView::Float(_) => join(p.drop_last(), texts) + texts[float_count(
                p.drop_last(),
            ) as int],
        }
    }
}

/// A list with one more piece has one more model.
pub proof fn lemma_pieces_view_push(p: Seq<Piece>, x: Piece)
    ensures
        pieces_view(p.push(x)) == pieces_view(p).push(x@),
{
    assert(pieces_view(p.push(x)) =~= pieces_view(p).push(x@));
}

/// A prefix holds no more float slots than the whole.
pub proof fn lemma_float_count_prefix(p: Seq<PieceView>, k: int)
    requires
        0 <= k <= p.len(),
    ensures
        float_count(p.take(k)) <= float_count(p),
    decreases p.len() - k,
{
    if k == p.len() {
        assert(p.take(k) =~= p);
    } else {
        lemma_float_count_prefix(p, k + 1);
        assert(p.take(k + 1).drop_last() =~= p.take(k));
    }
}

/// Appends a stretch of plain text.
pub fn push_text(out: &mut Vec<Piece>, s: &str)
    ensures
        pieces_view(final(out)@) == pieces_view(old(out)@) + plain(s@),
{
    let t = String::from_str(s);
    proof {
        lemma_pieces_view_push(out@, Piece::Text(t));
    }
    out.push(Piece::Text(t));
    assert(pieces_view(out@) =~= pieces_view(old(out)@) + plain(s@));
}

/// Appends what stands for the key of an entry.
pub fn push_key(out: &mut Vec<Piece>, k: &str)
    requires
        decode_key(k@) is Some,
    ensures
        pieces_view(final(out)@) == pieces_view(old(out)@) + key_pieces(k@),
{
    let ghost before = pieces_view(out@);
    match decode(k) {
        Some(QType::Str(s)) => {
            push_text(out, "\"");
            push_text(out, s.as_str());
            push_text(out, "\": ");
            assert(pieces_view(out@) =~= before + key_pieces(k@));
        },
        Some(QType::Int(i)) => {
            let t = decimal_string(i);
            push_text(out, t.as_str());
            push_text(out, ": ");
            assert(pieces_view(out@) =~= before + key_pieces(k@));
        },
        _ => {},
    }
}

impl QType {
    /// Appends the text of the value.
    pub fn render(&self, out: &mut Vec<Piece>)
        requires
            renderable(self@),
        ensures
            pieces_view(final(out)@) == pieces_view(old(out)@) + pieces(self@),
        decreases self,
    {
        let ghost before = pieces_view(out@);
        match self {
            QType::Int(i) => {
                let t = decimal_string(*i);
                push_text(out, t.as_str());
            },
            QType::Float(b) => {
                proof {
                    lemma_pieces_view_push(out@, Piece::Float(*b));
                }
                out.push(Piece::Float(*b));
                assert(pieces_view(out@) =~= before + pieces(self@));
            },
            QType::Bool(b) => {
                if *b {
                    push_text(out, "true");
                } else {
                    push_text(out, "false");
                }
            },
            QType::Str(s) => {
                push_text(out, s.as_str());
            },
            QType::Void => {
                push_text(out, "()");
            },
            QType::Error => {
                push_text(out, "err");
            },
            QType::Func(_, _) => {
                push_text(out, "\\(...) => ...");
            },
            QType::Thread(None) => {
                push_text(out, "@this");
            },
            QType::Thread(Some(t)) => {
                push_text(out, "@");
                let d = digits_string(*t as u64);
                push_text(out, d.as_str());
                assert(pieces_view(out@) =~= before + pieces(self@));
            },
            QType::List(l) => {
                push_text(out, "[");
                let ghost items = self@->List_0;
                let mut i: usize = 0;
                while i < l.len()
                    invariant
                        i <= l.len(),
                        items.len() == l.len(),
                        forall|j: int| 0 <= j < l.len() ==> (#[trigger] l[j])@ == items[j],
                        forall|j: int| 0 <= j < items.len() ==> renderable(#[trigger] items[j]),
                        pieces_view(out@) == before + plain("["@) + items_pieces(items, i as nat),
                        decreases_to!(*self => *l),
                    decreases l.len() - i,
                {
                    l[i].render(out);
                    i = i + 1;
                    assert(pieces_view(out@) =~= before + plain("["@) + items_pieces(
                        items,
                        i as nat,
                    ));
                }
                push_text(out, "]");
                assert(pieces_view(out@) =~= before + pieces(self@));
            },
            QType::Obj(o) => {
                if o.len() == 0 {
                    push_text(out, "{}");
                } else {
                    push_text(out, "{ ");
                    let ghost e = o@;
                    let mut i: usize = 0;
                    while i < o.len()
                        invariant
                            i <= o@.len(),
                            e == o@,
                            forall|j: int|
                                0 <= j < e.len() ==> decode_key((#[trigger] e[j]).0) is Some
                                    && renderable(e[j].1),
                            pieces_view(out@) == before + plain("{ "@) + entries_pieces(
                                e,
                                i as nat,
                            ),
                            decreases_to!(*self => *o),
                        decreases o@.len() - i,
                    {
                        push_key(out, o.key_at(i).as_str());
                        o.value_at(i).render(out);
                        i = i + 1;
                        assert(pieces_view(out@) =~= before + plain("{ "@) + entries_pieces(
                            e,
                            i as nat,
                        ));
                    }
                    push_text(out, " }");
                    assert(pieces_view(out@) =~= before + pieces(self@));
                }
            },
        }
    }
}

/// The number of float slots among the pieces.
pub fn count_floats(p: &Vec<Piece>) -> (n: usize)
    ensures
        n == float_count(pieces_view(p@)),
{
    let ghost pv = pieces_view(p@);
    let mut n: usize = 0;
    let mut i: usize = 0;
    while i < p.len()
        invariant
            i <= p.len(),
            n <= i,
            pv == pieces_view(p@),
            n == float_count(pv.take(i as int)),
        decreases p.len() - i,
    {
        proof {
            assert(pv.take(i + 1).drop_last() =~= pv.take(i as int));
            assert(pv.take(i + 1).last() == p[i as int]@);
        }
        match p[i] {
            Piece::Float(_) => {
                n = n + 1;
            },
            Piece::Text(_) => {},
        }
        i = i + 1;
    }
    assert(pv.take(pv.len() as int) =~= pv);
    n
}

/// The bit patterns of the floats whose slots are among the pieces, in order.
pub fn slots_of(p: &Vec<Piece>) -> (r: Vec<u64>)
    ensures
        r@ == float_slots(pieces_view(p@)),
        r@.len() == float_count(pieces_view(p@)),
{
    let ghost pv = pieces_view(p@);
    let mut out: Vec<u64> = Vec::new();
    let mut i: usize = 0;
    while i < p.len()
        invariant
            i <= p.len(),
            pv == pieces_view(p@),
            out@ == float_slots(pv.take(i as int)),
            out@.len() == float_count(pv.take(i as int)),
        decreases p.len() - i,
    {
        proof {
            assert(pv.take(i + 1).drop_last() =~= pv.take(i as int));
            assert(pv.take(i + 1).last() == p[i as int]@);
        }
        match p[i] {
            Piece::Float(b) => {
                out.push(b);
            },
            Piece::Text(_) => {},
        }
        i = i + 1;
    }
    assert(pv.take(pv.len() as int) =~= pv);
    out
}

/// Spells the pieces out, the slot of the `i`-th float filled with
/// `texts[i]`.
pub fn fill(p: &Vec<Piece>, texts: &Vec<String>) -> (r: String)
    requires
        texts@.len() == float_count(pieces_view(p@)),
    ensures
        r@ == join(pieces_view(p@), texts_view(texts@)),
{
    let ghost pv = pieces_view(p@);
    let ghost t = texts_view(texts@);
    let mut out = String::new();
    let mut i: usize = 0;
    let mut k: usize = 0;
    while i < p.len()
        invariant
            i <= p.len(),
            k <= i,
            pv == pieces_view(p@),
            t == texts_view(texts@),
            texts@.len() == float_count(pv),
            k == float_count(pv.take(i as int)),
            out@ == join(pv.take(i as int), t),
        decreases p.len() - i,
    {
        proof {
            assert(pv.take(i + 1).drop_last() =~= pv.take(i as int));
            assert(pv.take(i + 1).last() == p[i as int]@);
            lemma_float_count_prefix(pv, i + 1);
        }
        match &p[i] {
            Piece::Text(s) => {
                out.append(s.as_str());
            },
            Piece::Float(_) => {
                out.append(texts[k].as_str());
                k = k + 1;
            },
        }
        i = i + 1;
    }
    assert(pv.take(pv.len() as int) =~= pv);
    out
}

} // verus!
