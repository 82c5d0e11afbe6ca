//! The environment: global bindings and a stack of local frames.
use crate::types::{lemma_lookup_put, lookup, put, Entries, QObject, QType, Value};
use vstd::prelude::*;

verus! {

/// The mathematical model of an environment: the global bindings, and the
/// local frames from the outermost to the current one.
pub struct Env {
    pub globals: Entries,
    pub frames: Seq<Entries>,
}

/// The frames after binding `k` to `v` in the current frame.
pub open spec fn store_top(frames: Seq<Entries>, k: Seq<char>, v: Value) -> Seq<Entries> {
    frames.update(frames.len() - 1, put(frames.last(), k, v))
}

/// The frames after entering a scope: one more frame, without bindings.
pub open spec fn push_empty(frames: Seq<Entries>) -> Seq<Entries> {
    frames.push(Seq::empty())
}

/// The frames after leaving the current scope.
pub open spec fn pop_top(frames: Seq<Entries>) -> Seq<Entries> {
    frames.drop_last()
}

/// A binding made in the current frame is what a lookup in that frame finds.
pub proof fn lemma_store_then_lookup(frames: Seq<Entries>, k: Seq<char>, v: Value)
    requires
        frames.len() >= 1,
    ensures
        lookup(store_top(frames, k, v).last(), k) == Some(v),
{
    lemma_lookup_put(frames.last(), k, v, k);
}

/// A binding made in the current frame leaves every other name of that frame
/// as it was.
pub proof fn lemma_store_keeps_others(frames: Seq<Entries>, k: Seq<char>, v: Value, q: Seq<char>)
    requires
        frames.len() >= 1,
        q != k,
    ensures
        lookup(store_top(frames, k, v).last(), q) == lookup(frames.last(), q),
{
    lemma_lookup_put(frames.last(), k, v, q);
}

/// A binding made in a scope is gone once the scope is left: entering a
/// scope, binding a name there and leaving the scope gives the frames back as
/// they were.
pub proof fn lemma_scope_discards(frames: Seq<Entries>, k: Seq<char>, v: Value)
    ensures
        pop_top(store_top(push_empty(frames), k, v)) == frames,
        push_empty(frames).len() == frames.len() + 1,
{
    assert(pop_top(store_top(push_empty(frames), k, v)) =~= frames);
}

/// A binding made in an inner scope is not seen in the frame around it: a
/// lookup in the current frame finds the same before the scope is entered and
/// after it is left.
pub proof fn lemma_scope_hides(frames: Seq<Entries>, k: Seq<char>, v: Value, q: Seq<char>)
    requires
        frames.len() >= 1,
    ensures
        lookup(pop_top(store_top(push_empty(frames), k, v)).last(), q) == lookup(
            frames.last(),
            q,
        ),
{
    lemma_scope_discards(frames, k, v);
}

/// The environment of an interpreter.
///
/// The current frame is kept apart from the frames around it, so there is
/// always a current frame.
pub struct QInterp {
    globals: QObject,
    current: QObject,
    outer: Vec<QObject>,
}

/// The entries of each frame.
pub open spec fn frames_view(s: Seq<QObject>) -> Seq<Entries> {
    Seq::new(s.len(), |i: int| s[i]@)
}

impl View for QInterp {
    type V = Env;

    closed spec fn view(&self) -> Env {
        Env { globals: self.globals@, frames: frames_view(self.outer@).push(self.current@) }
    }
}

impl QInterp {
    /// There is always a current frame.
    pub proof fn lemma_has_frame(&self)
        ensures
            self@.frames.len() >= 1,
    {
    }

    /// An environment without bindings: no globals, and one empty frame.
    pub fn init() -> (r: QInterp)
        ensures
            r@ == (Env { globals: Seq::empty(), frames: seq![Seq::empty()] }),
    {
        let r = QInterp { globals: QObject::new(), current: QObject::new(), outer: Vec::new() };
        assert(r@.frames =~= seq![Seq::<(Seq<char>, Value)>::empty()]);
        r
    }

    /// Whether a frame lies around the current one, so that the current scope
    /// can be left.
    pub fn can_pop(&self) -> (r: bool)
        ensures
            r == (self@.frames.len() > 1),
    {
        self.outer.len() > 0
    }

    /// Binds `name` to `value` among the globals, over any earlier binding.
    pub fn store_global(&mut self, name: String, value: QType)
        ensures
            final(self)@ == (Env {
                globals: put(old(self)@.globals, name@, value@),
                frames: old(self)@.frames,
            }),
    {
        self.globals.insert(name, value);
    }

    /// A copy of the value that the globals bind to `name`, if any.
    pub fn fetch_global(&self, name: String) -> (r: Option<QType>)
        ensures
            match r {
                Some(v) => lookup(self@.globals, name@) == Some(v@),
                None => lookup(self@.globals, name@) is None,
            },
    {
        match self.globals.get(&name) {
            Some(v) => Some(v.clone()),
            None => None,
        }
    }

    /// Binds `name` to `value` in the current frame, over any earlier binding
    /// there.
    pub fn store_local(&mut self, name: String, value: QType)
        ensures
            final(self)@ == (Env {
                globals: old(self)@.globals,
                frames: store_top(old(self)@.frames, name@, value@),
            }),
    {
        let ghost before = self@.frames;
        self.current.insert(name, value);
        assert(self@.frames =~= store_top(before, name@, value@));
    }

    /// A copy of the value that the current frame binds to `name`, if any.
    pub fn fetch_local(&self, name: String) -> (r: Option<QType>)
        ensures
            match r {
                Some(v) => lookup(self@.frames.last(), name@) == Some(v@),
                None => lookup(self@.frames.last(), name@) is None,
            },
    {
        match self.current.get(&name) {
            Some(v) => Some(v.clone()),
            None => None,
        }
    }

    /// Enters a scope: a new frame without bindings becomes the current one.
    pub fn push_frame(&mut self)
        ensures
            final(self)@ == (Env {
                globals: old(self)@.globals,
                frames: push_empty(old(self)@.frames),
            }),
    {
        let ghost before = self@.frames;
        let mut frame = QObject::new();
        core::mem::swap(&mut self.current, &mut frame);
        self.outer.push(frame);
        assert(self@.frames =~= push_empty(before));
    }

    /// Leaves the current scope: its frame is dropped, and the frame around it
    /// becomes the current one. The outermost frame is never left.
    pub fn pop_frame(&mut self)
        requires
            old(self)@.frames.len() > 1,
        ensures
            final(self)@ == (Env {
                globals: old(self)@.globals,
                frames: pop_top(old(self)@.frames),
            }),
    {
        let ghost before = self@.frames;
        match self.outer.pop() {
            Some(frame) => {
                self.current = frame;
                assert(self@.frames =~= pop_top(before));
            },
            None => {},
        }
    }
}

} // verus!
