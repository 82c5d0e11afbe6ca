//! What an operation hands back, and the float arithmetic it may leave to
//! its caller.
//!
//! This crate holds a float by its bit pattern and computes on it with integer
//! arithmetic only. Where the result of an operation needs the arithmetic of
//! floats, their parsing or their decimal text, the operation decides
//! everything else and hands back the work that is left as a [`FloatWork`].
//! The caller does that work and gives the answer to [`FloatWork::finish`].
use crate::render::{
    count_floats, fill, float_count, join, pieces_view, texts_view, Piece, PieceView,
};
use crate::types::{QType, Value};
use vstd::prelude::*;

verus! {

/// The five arithmetic operations on two floats.
#[derive(Clone, Copy, Debug, PartialEq, Eq)]
pub enum FloatOp {
    Add,
    Sub,
    Mul,
    Div,
    Rem,
}

/// Float work that an operation leaves to its caller.
#[derive(Debug, PartialEq, Eq)]
pub enum FloatWork {
    /// Apply the operation to the two floats with these bit patterns, the
    /// first on the left. The answer is the bit pattern of the result.
    Arith(FloatOp, u64, u64),
    /// Read the text as a float. The answer is the bit pattern of the float,
    /// or nothing where the text is not a float.
    Parse(String),
    /// Give the decimal text of each float whose slot is among the pieces.
    /// The answer holds one text for each slot, in the order of the slots.
    Render(Vec<Piece>),
}

/// The mathematical model of float work.
pub enum WorkView {
    Arith(FloatOp, u64, u64),
    Parse(Seq<char>),
    Render(Seq<PieceView>),
}

/// The answer to float work.
#[derive(Debug, PartialEq, Eq)]
pub enum FloatAnswer {
    Bits(u64),
    Parsed(Option<u64>),
    Texts(Vec<String>),
}

/// The mathematical model of an answer.
pub enum AnswerView {
    Bits(u64),
    Parsed(Option<u64>),
    Texts(Seq<Seq<char>>),
}

/// What an operation hands back: its result, or the float work on which the
/// result depends.
#[derive(Debug, PartialEq, Eq)]
pub enum Outcome {
    Done(QType),
    Pending(FloatWork),
}

/// The mathematical model of an outcome.
pub enum OutcomeView {
    Done(Value),
    Pending(WorkView),
}

impl View for FloatWork {
    type V = WorkView;

    open spec fn view(&self) -> WorkView {
        match self {
            FloatWork::Arith(op, a, b) => WorkView::Arith(*op, *a, *b),
            FloatWork::Parse(s) => WorkView::Parse(s@),
            FloatWork::Render(p) => WorkView::Render(pieces_view(p@)),
        }
    }
}

impl View for FloatAnswer {
    type V = AnswerView;

    open spec fn view(&self) -> AnswerView {
        match self {
            FloatAnswer::Bits(b) => AnswerView::Bits(*b),
            FloatAnswer::Parsed(b) => AnswerView::Parsed(*b),
            FloatAnswer::Texts(t) => AnswerView::Texts(texts_view(t@)),
        }
    }
}

impl View for Outcome {
    type V = OutcomeView;

    open spec fn view(&self) -> OutcomeView {
        match self {
            Outcome::Done(v) => OutcomeView::Done(v@),
            Outcome::Pending(w) => OutcomeView::Pending(w@),
        }
    }
}

/// The answer is of the kind that the work asks for, and holds one text for
/// each float slot where the work is to render.
pub open spec fn accepts(w: WorkView, a: AnswerView) -> bool {
    match (w, a) {
        (WorkView::Arith(_, _, _), AnswerView::Bits(_)) => true,
        (WorkView::Parse(_), AnswerView::Parsed(_)) => true,
        (WorkView::Render(p), AnswerView::Texts(t)) => t.len() == float_count(p),
        _ => false,
    }
}

/// The result of the operation that left the work, given the answer: the
/// float of the answer for arithmetic, the float or `Error` for a text that was
/// to be read, the spelled-out text for pieces that were to be rendered.
pub open spec fn finished(w: WorkView, a: AnswerView) -> Value {
    match (w, a) {
        (WorkView::Arith(_, _, _), AnswerView::Bits(b)) => Value::Float(b),
        (WorkView::Parse(_), AnswerView::Parsed(Some(b))) => Value::Float(b),
        (WorkView::Parse(_), AnswerView::Parsed(None)) => Value::Error,
        (WorkView::Render(p), AnswerView::Texts(t)) => Value::Str(join(p, t)),
        _ => Value::Error,
    }
}

impl FloatWork {
    /// Whether the answer fits the work.
    pub fn accepts(&self, answer: &FloatAnswer) -> (r: bool)
        ensures
            r == accepts(self@, answer@),
    {
        match (self, answer) {
            (FloatWork::Arith(_, _, _), FloatAnswer::Bits(_)) => true,
            (FloatWork::Parse(_), FloatAnswer::Parsed(_)) => true,
            (FloatWork::Render(p), FloatAnswer::Texts(t)) => t.len() == count_floats(p),
            _ => false,
        }
    }

    /// The result of the operation that left this work, given the answer.
    pub fn finish(self, answer: FloatAnswer) -> (r: QType)
        requires
            accepts(self@, answer@),
        ensures
            r@ == finished(self@, answer@),
            r@.wf(),
    {
        match (self, answer) {
            (FloatWork::Arith(_, _, _), FloatAnswer::Bits(b)) => QType::Float(b),
            (FloatWork::Parse(_), FloatAnswer::Parsed(Some(b))) => QType::Float(b),
            (FloatWork::Parse(_), FloatAnswer::Parsed(None)) => QType::Error,
            (FloatWork::Render(p), FloatAnswer::Texts(t)) => QType::Str(fill(&p, &t)),
            _ => QType::Error,
        }
    }
}

} // verus!
