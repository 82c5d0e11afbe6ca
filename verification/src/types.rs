//! Runtime values, their mathematical model, and the object container.
use vstd::prelude::*;

verus! {

/// The entries of an object, in iteration order: encoded key and value.
pub type Entries = Seq<(Seq<char>, Value)>;

/// The mathematical model of a runtime value.
///
/// A float is held by its IEEE 754 binary64 bit pattern. An object and the
/// captured scope of a function are held as their entries in iteration order.
pub enum Value {
    Int(i64),
    Float(u64),
    Bool(bool),
    Str(Seq<char>),
    Void,
    Error,
    List(Seq<Value>),
    Obj(Entries),
    Thread(Option<usize>),
    Func(Entries),
}

/// An object: a mapping from encoded keys to values, kept as a list of entries
/// in which no key occurs twice. The captured scope of a function and a frame
/// of the environment are objects too.
#[derive(Debug, PartialEq, Eq)]
pub struct QObject {
    entries: Vec<(String, QType)>,
}

/// A runtime value.
///
/// `Float` holds the IEEE 754 binary64 bit pattern of the number.
/// `Thread(None)` stands for the current thread, `Thread(Some(n))` for thread
/// `n`. `Func` holds the captured scope and a placeholder for the body.
#[derive(Debug, PartialEq, Eq)]
pub enum QType {
    Int(i64),
    Float(u64),
    Bool(bool),
    Str(String),
    Void,
    Error,
    List(Vec<QType>),
    Obj(QObject),
    Thread(Option<usize>),
    Func(QObject, ()),
}

impl QObject {
    /// No key occurs twice.
    #[verifier::type_invariant]
    spec fn keys_once(&self) -> bool {
        forall|i: int, j: int|
            0 <= i < j < self.entries.len() ==> (#[trigger] self.entries[i]).0@ != (
            #[trigger] self.entries[j]).0@
    }

    /// The entries of the object, in iteration order.
    pub closed spec fn entries(&self) -> Entries
        decreases self,
    {
        Seq::new(
            self.entries.len() as nat,
            |i: int|
                if 0 <= i < self.entries.len() {
                    (self.entries[i].0@, self.entries[i].1.value())
                } else {
                    (Seq::empty(), Value::Void)
                },
        )
    }
}

impl QType {
    /// The mathematical value that this runtime value stands for.
    pub open spec fn value(&self) -> Value
        decreases self,
    {
        match self {
            QType::Int(i) => Value::Int(*i),
            QType::Float(b) => Value::Float(*b),
            QType::Bool(b) => Value::Bool(*b),
            QType::Str(s) => Value::Str(s@),
            QType::Void => Value::Void,
            QType::Error => Value::Error,
            QType::List(l) => Value::List(
                Seq::new(
                    l.len() as nat,
                    |i: int|
                        if 0 <= i < l.len() {
                            l[i].value()
                        } else {
                            Value::Void
                        },
                ),
            ),
            QType::Obj(o) => Value::Obj(o.entries()),
            QType::Thread(t) => Value::Thread(*t),
            QType::Func(o, _) => Value::Func(o.entries()),
        }
    }
}

impl View for QObject {
    type V = Entries;

    open spec fn view(&self) -> Entries {
        self.entries()
    }
}

impl View for QType {
    type V = Value;

    open spec fn view(&self) -> Value {
        self.value()
    }
}

/// The entries that a list of keys and values stands for.
pub open spec fn entries_view(s: Seq<(String, QType)>) -> Entries {
    Seq::new(s.len(), |i: int| (s[i].0@, s[i].1@))
}

/// The views of the items of a list, item by item.
pub open spec fn list_view(l: Seq<QType>) -> Seq<Value> {
    Seq::new(l.len(), |i: int| l[i]@)
}

/// The view of a list value is the list of its items' views.
pub proof fn lemma_list_view(l: Vec<QType>)
    ensures
        QType::List(l)@ == Value::List(list_view(l@)),
{
    let a = QType::List(l)@->List_0;
    assert(a.len() == l@.len());
    assert forall|i: int| 0 <= i < a.len() implies a[i] == l@[i]@ by {
        assert(a[i] == l[i].view());
    }
    assert(a =~= list_view(l@));
}

impl QObject {
    /// An object without entries.
    pub fn new() -> (r: QObject)
        ensures
            r@ == Seq::<(Seq<char>, Value)>::empty(),
            distinct_keys(r@),
    {
        let r = QObject { entries: Vec::new() };
        assert(r@ =~= Seq::<(Seq<char>, Value)>::empty());
        r
    }

    /// The number of entries. No two of them have the same key.
    pub fn len(&self) -> (n: usize)
        ensures
            n == self@.len(),
            distinct_keys(self@),
    {
        proof {
            use_type_invariant(self);
        }
        self.entries.len()
    }

    /// The key of the entry at position `i`.
    pub fn key_at(&self, i: usize) -> (r: &String)
        requires
            i < self@.len(),
        ensures
            r@ == self@[i as int].0,
    {
        &self.entries[i].0
    }

    /// The value of the entry at position `i`.
    pub fn value_at(&self, i: usize) -> (r: &QType)
        requires
            i < self@.len(),
        ensures
            r@ == self@[i as int].1,
            decreases_to!(*self => *r),
    {
        &self.entries[i].1
    }

    /// The position of the entry with the key `key`.
    pub fn find(&self, key: &String) -> (r: Option<usize>)
        ensures
            match r {
                Some(i) => is_first_at(self@, key@, i as int),
                None => !has_key(self@, key@),
            },
    {
        let mut i: usize = 0;
        while i < self.entries.len()
            invariant
                i <= self.entries.len(),
                forall|j: int| 0 <= j < i ==> (#[trigger] self@[j]).0 != key@,
            decreases self.entries.len() - i,
        {
            if self.entries[i].0 == *key {
                return Some(i);
            }
            i = i + 1;
        }
        None
    }

    /// The value bound to `key`, if any.
    pub fn get(&self, key: &String) -> (r: Option<&QType>)
        ensures
            match r {
                Some(v) => lookup(self@, key@) == Some(v@) && decreases_to!(*self => *v),
                None => lookup(self@, key@) is None,
            },
    {
        match self.find(key) {
            Some(i) => {
                proof {
                    lemma_key_index_is(self@, key@, i as int);
                }
                Some(&self.entries[i].1)
            },
            None => None,
        }
    }

    /// Binds `key` to `value`: a present key keeps its place and takes the new
    /// value, an absent key goes to the end.
    pub fn insert(&mut self, key: String, value: QType)
        ensures
            final(self)@ == put(old(self)@, key@, value@),
            distinct_keys(final(self)@),
            entries_wf(old(self)@) && value@.wf() ==> entries_wf(final(self)@),
    {
        let found = self.find(&key);
        let ghost before = self@;
        let ghost k = key@;
        let ghost v = value@;
        proof {
            use_type_invariant(&*self);
            lemma_put_distinct(before, k, v);
        }
        let mut entries: Vec<(String, QType)> = Vec::new();
        core::mem::swap(&mut self.entries, &mut entries);
        assert(entries_view(entries@) =~= before);
        match found {
            Some(i) => {
                proof {
                    lemma_key_index_is(before, k, i as int);
                }
                entries.set(i, (key, value));
                assert(entries_view(entries@) =~= before.update(i as int, (k, v)));
            },
            None => {
                entries.push((key, value));
                assert(entries_view(entries@) =~= before.push((k, v)));
            },
        }
        proof {
            let after = entries_view(entries@);
            assert forall|i: int, j: int| 0 <= i < j < entries.len() implies (
            #[trigger] entries[i]).0@ != (#[trigger] entries[j]).0@ by {
                assert(after[i].0 != after[j].0);
            }
        }
        core::mem::swap(&mut self.entries, &mut entries);
        assert(self@ =~= put(before, k, v));
        proof {
            if entries_wf(before) && v.wf() {
                lemma_put_wf(before, k, v);
            }
        }
    }

    /// Takes the object apart into its entries, in order.
    pub fn into_entries(self) -> (r: Vec<(String, QType)>)
        ensures
            entries_view(r@) == self@,
    {
        assert(entries_view(self.entries@) =~= self@);
        self.entries
    }

    /// Binds each entry of `other` in turn, so that `other` wins where both
    /// hold a key.
    pub fn absorb(&mut self, other: QObject)
        ensures
            final(self)@ == merge(old(self)@, other@),
            distinct_keys(final(self)@),
            entries_wf(old(self)@) && entries_wf(other@) ==> entries_wf(final(self)@),
    {
        proof {
            use_type_invariant(&*self);
        }
        let ghost before = self@;
        let ghost r = other@;
        let items = other.into_entries();
        proof {
            assert(r.take(0) =~= Seq::<(Seq<char>, Value)>::empty());
        }
        for e in it: items
            invariant
                r == entries_view(it.seq()),
                self@ == merge(before, r.take(it.index() as int)),
                distinct_keys(self@),
        {
            proof {
                let k = it.index() as int;
                assert(r.take(k + 1).drop_last() =~= r.take(k));
                assert(r.take(k + 1).last() == r[k]);
            }
            let (key, value) = e;
            self.insert(key, value);
        }
        proof {
            assert(r.take(r.len() as int) =~= r);
            if entries_wf(before) && entries_wf(r) {
                lemma_merge_wf(before, r);
            }
        }
    }

    /// Appends an entry whose key the object does not hold yet.
    pub(crate) fn push_fresh(&mut self, key: String, value: QType)
        requires
            !has_key(old(self)@, key@),
        ensures
            final(self)@ == old(self)@.push((key@, value@)),
            final(self)@ == put(old(self)@, key@, value@),
            distinct_keys(final(self)@),
    {
        let ghost before = self@;
        let ghost k = key@;
        let ghost v = value@;
        proof {
            use_type_invariant(&*self);
            lemma_put_distinct(before, k, v);
        }
        let mut entries: Vec<(String, QType)> = Vec::new();
        core::mem::swap(&mut self.entries, &mut entries);
        assert(entries_view(entries@) =~= before);
        entries.push((key, value));
        proof {
            let after = entries_view(entries@);
            assert(after =~= before.push((k, v)));
            assert forall|i: int, j: int| 0 <= i < j < entries.len() implies (
            #[trigger] entries[i]).0@ != (#[trigger] entries[j]).0@ by {
                assert(after[i].0 != after[j].0);
            }
        }
        core::mem::swap(&mut self.entries, &mut entries);
        assert(self@ =~= before.push((k, v)));
    }
}

impl Clone for QObject {
    /// A deep copy.
    fn clone(&self) -> (r: QObject)
        ensures
            r@ == self@,
        decreases self,
    {
        proof {
            use_type_invariant(self);
        }
        let mut out: Vec<(String, QType)> = Vec::new();
        let mut i: usize = 0;
        while i < self.entries.len()
            invariant
                i <= self.entries.len(),
                out.len() == i,
                forall|j: int|
                    0 <= j < i ==> (#[trigger] out[j]).0@ == self.entries[j].0@ && out[j].1@
                        == self.entries[j].1@,
            decreases self.entries.len() - i,
        {
            let c = self.entries[i].1.clone();
            out.push((self.entries[i].0.clone(), c));
            i = i + 1;
        }
        let r = QObject { entries: out };
        assert(r@ =~= self@);
        r
    }
}

impl Clone for QType {
    /// A deep copy.
    fn clone(&self) -> (r: QType)
        ensures
            r@ == self@,
        decreases self,
    {
        match self {
            QType::Int(i) => QType::Int(*i),
            QType::Float(b) => QType::Float(*b),
            QType::Bool(b) => QType::Bool(*b),
            QType::Str(s) => QType::Str(s.clone()),
            QType::Void => QType::Void,
            QType::Error => QType::Error,
            QType::List(l) => {
                let mut out: Vec<QType> = Vec::new();
                let mut i: usize = 0;
                while i < l.len()
                    invariant
                        i <= l.len(),
                        out.len() == i,
                        forall|j: int| 0 <= j < i ==> (#[trigger] out[j])@ == l[j]@,
                        decreases_to!(*self => *l),
                    decreases l.len() - i,
                {
                    let c = l[i].clone();
                    out.push(c);
                    i = i + 1;
                }
                assert(QType::List(out)@->List_0 =~= self@->List_0);
                QType::List(out)
            },
            QType::Obj(o) => QType::Obj(o.clone()),
            QType::Thread(t) => QType::Thread(*t),
            QType::Func(o, _) => QType::Func(o.clone(), ()),
        }
    }
}

/// No key occurs twice among the entries.
pub open spec fn distinct_keys(e: Entries) -> bool {
    forall|i: int, j: int| 0 <= i < j < e.len() ==> (#[trigger] e[i]).0 != (#[trigger] e[j]).0
}

/// Some entry has the key `k`.
pub open spec fn has_key(e: Entries, k: Seq<char>) -> bool {
    exists|i: int| 0 <= i < e.len() && (#[trigger] e[i]).0 == k
}

/// `i` is the position of the first entry with the key `k`.
pub open spec fn is_first_at(e: Entries, k: Seq<char>, i: int) -> bool {
    &&& 0 <= i < e.len()
    &&& e[i].0 == k
    &&& forall|j: int| 0 <= j < i ==> (#[trigger] e[j]).0 != k
}

/// The position of the first entry with the key `k`, where there is one.
pub open spec fn key_index(e: Entries, k: Seq<char>) -> int {
    choose|i: int| is_first_at(e, k, i)
}

/// The value bound to `k`, if any.
pub open spec fn lookup(e: Entries, k: Seq<char>) -> Option<Value> {
    if has_key(e, k) {
        Some(e[key_index(e, k)].1)
    } else {
        None
    }
}

/// The entries after binding `k` to `v`: a present key keeps its place and
/// takes the new value, an absent key goes to the end.
pub open spec fn put(e: Entries, k: Seq<char>, v: Value) -> Entries {
    if has_key(e, k) {
        e.update(key_index(e, k), (k, v))
    } else {
        e.push((k, v))
    }
}

/// The entries of `l` after binding each entry of `r` in turn.
pub open spec fn merge(l: Entries, r: Entries) -> Entries
    decreases r.len(),
{
    if r.len() == 0 {
        l
    } else {
        put(merge(l, r.drop_last()), r.last().0, r.last().1)
    }
}

impl Value {
    /// Every object inside the value, at any depth, has distinct keys.
    pub open spec fn wf(self) -> bool
        decreases self,
    {
        match self {
            Value::List(l) => forall|i: int| 0 <= i < l.len() ==> (#[trigger] l[i]).wf(),
            Value::Obj(e) => distinct_keys(e) && forall|i: int|
                0 <= i < e.len() ==> (#[trigger] e[i]).1.wf(),
            Value::Func(e) => distinct_keys(e) && forall|i: int|
                0 <= i < e.len() ==> (#[trigger] e[i]).1.wf(),
            _ => true,
        }
    }
}

/// All values of the entries are well formed and no key occurs twice.
pub open spec fn entries_wf(e: Entries) -> bool {
    distinct_keys(e) && forall|i: int| 0 <= i < e.len() ==> (#[trigger] e[i]).1.wf()
}

/// A position that holds `k` with no earlier match is the key's index.
pub proof fn lemma_key_index_is(e: Entries, k: Seq<char>, i: int)
    requires
        is_first_at(e, k, i),
    ensures
        has_key(e, k),
        key_index(e, k) == i,
{
    let c = key_index(e, k);
    assert(is_first_at(e, k, c));
    if c < i {
        assert(e[c].0 != k);
    }
    if i < c {
        assert(e[i].0 != k);
    }
}

/// A present key has a first position.
pub proof fn lemma_key_index_found(e: Entries, k: Seq<char>)
    requires
        has_key(e, k),
    ensures
        is_first_at(e, k, key_index(e, k)),
    decreases e.len(),
{
    let w = choose|i: int| 0 <= i < e.len() && (#[trigger] e[i]).0 == k;
    lemma_first_before(e, k, w);
}

proof fn lemma_first_before(e: Entries, k: Seq<char>, w: int)
    requires
        0 <= w < e.len(),
        e[w].0 == k,
    ensures
        exists|i: int| is_first_at(e, k, i),
    decreases w,
{
    if exists|j: int| 0 <= j < w && (#[trigger] e[j]).0 == k {
        let j = choose|j: int| 0 <= j < w && (#[trigger] e[j]).0 == k;
        lemma_first_before(e, k, j);
    } else {
        assert(is_first_at(e, k, w));
    }
}

/// With distinct keys, the entry at `i` is what its key looks up.
pub proof fn lemma_lookup_at(e: Entries, i: int)
    requires
        distinct_keys(e),
        0 <= i < e.len(),
    ensures
        has_key(e, e[i].0),
        key_index(e, e[i].0) == i,
        lookup(e, e[i].0) == Some(e[i].1),
{
    assert forall|j: int| 0 <= j < i implies (#[trigger] e[j]).0 != e[i].0 by {}
    lemma_key_index_is(e, e[i].0, i);
}

/// Binding a key keeps the keys distinct.
pub proof fn lemma_put_distinct(e: Entries, k: Seq<char>, v: Value)
    requires
        distinct_keys(e),
    ensures
        distinct_keys(put(e, k, v)),
{
    let p = put(e, k, v);
    if has_key(e, k) {
        lemma_key_index_found(e, k);
        let c = key_index(e, k);
        assert forall|i: int, j: int| 0 <= i < j < p.len() implies (#[trigger] p[i]).0 != (
        #[trigger] p[j]).0 by {
            assert(p[i].0 == e[i].0);
            assert(p[j].0 == e[j].0);
        }
    } else {
        assert forall|i: int, j: int| 0 <= i < j < p.len() implies (#[trigger] p[i]).0 != (
        #[trigger] p[j]).0 by {
            if j == e.len() {
                assert(p[i] == e[i]);
                assert(e[i].0 != k);
            } else {
                assert(p[i] == e[i]);
                assert(p[j] == e[j]);
            }
        }
    }
}

/// What a key looks up after a binding: the new value for the bound key, the
/// old answer for every other key.
pub proof fn lemma_lookup_put(e: Entries, k: Seq<char>, v: Value, q: Seq<char>)
    ensures
        lookup(put(e, k, v), q) == if q == k {
            Some(v)
        } else {
            lookup(e, q)
        },
        has_key(put(e, k, v), q) == (q == k || has_key(e, q)),
{
    let p = put(e, k, v);
    if has_key(e, k) {
        lemma_key_index_found(e, k);
        let c = key_index(e, k);
        assert(p.len() == e.len());
        assert forall|j: int| 0 <= j < e.len() implies (#[trigger] p[j]).0 == e[j].0 by {}
        if q == k {
            assert forall|j: int| 0 <= j < c implies (#[trigger] p[j]).0 != k by {
                assert(e[j].0 != k);
            }
            lemma_key_index_is(p, k, c);
        } else if has_key(e, q) {
            lemma_key_index_found(e, q);
            let d = key_index(e, q);
            assert(p[d] == e[d]);
            assert forall|j: int| 0 <= j < d implies (#[trigger] p[j]).0 != q by {
                assert(e[j].0 != q);
            }
            lemma_key_index_is(p, q, d);
        } else {
            if has_key(p, q) {
                let w = choose|i: int| 0 <= i < p.len() && (#[trigger] p[i]).0 == q;
                assert(e[w].0 == q);
            }
        }
    } else {
        assert(p.len() == e.len() + 1);
        assert forall|j: int| 0 <= j < e.len() implies (#[trigger] p[j]) == e[j] by {}
        if q == k {
            assert forall|j: int| 0 <= j < e.len() implies (#[trigger] p[j]).0 != k by {
                assert(e[j].0 != k);
            }
            lemma_key_index_is(p, k, e.len() as int);
        } else if has_key(e, q) {
            lemma_key_index_found(e, q);
            let d = key_index(e, q);
            assert(p[d] == e[d]);
            assert forall|j: int| 0 <= j < d implies (#[trigger] p[j]).0 != q by {
                assert(e[j].0 != q);
            }
            lemma_key_index_is(p, q, d);
        } else {
            if has_key(p, q) {
                let w = choose|i: int| 0 <= i < p.len() && (#[trigger] p[i]).0 == q;
                if w < e.len() {
                    assert(e[w].0 == q);
                }
            }
        }
    }
}

/// Binding a well-formed value in well-formed entries keeps them well formed.
pub proof fn lemma_put_wf(e: Entries, k: Seq<char>, v: Value)
    requires
        entries_wf(e),
        v.wf(),
    ensures
        entries_wf(put(e, k, v)),
{
    lemma_put_distinct(e, k, v);
    let p = put(e, k, v);
    if has_key(e, k) {
        lemma_key_index_found(e, k);
        assert forall|i: int| 0 <= i < p.len() implies (#[trigger] p[i]).1.wf() by {
            if i != key_index(e, k) {
                assert(p[i] == e[i]);
            }
        }
    } else {
        assert forall|i: int| 0 <= i < p.len() implies (#[trigger] p[i]).1.wf() by {
            if i < e.len() {
                assert(p[i] == e[i]);
            }
        }
    }
}

/// Merging well-formed entries gives well-formed entries.
pub proof fn lemma_merge_wf(l: Entries, r: Entries)
    requires
        entries_wf(l),
        entries_wf(r),
    ensures
        entries_wf(merge(l, r)),
    decreases r.len(),
{
    if r.len() > 0 {
        let r0 = r.drop_last();
        assert forall|i: int| 0 <= i < r0.len() implies (#[trigger] r0[i]).1.wf() by {
            assert(r0[i] == r[i]);
        }
        assert forall|i: int, j: int| 0 <= i < j < r0.len() implies (#[trigger] r0[i]).0 != (
        #[trigger] r0[j]).0 by {
            assert(r0[i] == r[i]);
            assert(r0[j] == r[j]);
        }
        lemma_merge_wf(l, r0);
        assert(r.last() == r[r.len() - 1]);
        lemma_put_wf(merge(l, r0), r.last().0, r.last().1);
    }
}

/// In a merge the right side wins: a key of the right side looks up the right
/// side's value, any other key looks up what it did on the left.
pub proof fn lemma_lookup_merge(l: Entries, r: Entries, q: Seq<char>)
    requires
        distinct_keys(r),
    ensures
        lookup(merge(l, r), q) == if has_key(r, q) {
            lookup(r, q)
        } else {
            lookup(l, q)
        },
        has_key(merge(l, r), q) == (has_key(l, q) || has_key(r, q)),
    decreases r.len(),
{
    if r.len() > 0 {
        let r0 = r.drop_last();
        let n = r.len() - 1;
        assert(r.last() == r[n]);
        assert forall|i: int, j: int| 0 <= i < j < r0.len() implies (#[trigger] r0[i]).0 != (
        #[trigger] r0[j]).0 by {
            assert(r0[i] == r[i]);
            assert(r0[j] == r[j]);
        }
        lemma_lookup_merge(l, r0, q);
        lemma_lookup_put(merge(l, r0), r[n].0, r[n].1, q);
        if q == r[n].0 {
            lemma_lookup_at(r, n);
        } else {
            if has_key(r, q) {
                let w = choose|i: int| 0 <= i < r.len() && (#[trigger] r[i]).0 == q;
                assert(w < n);
                assert(r0[w] == r[w]);
                assert(has_key(r0, q));
                lemma_key_index_found(r0, q);
                let d = key_index(r0, q);
                assert(r0[d] == r[d]);
                assert forall|j: int| 0 <= j < d implies (#[trigger] r[j]).0 != q by {
                    assert(r0[j] == r[j]);
                }
                lemma_key_index_is(r, q, d);
            } else {
                if has_key(r0, q) {
                    let w = choose|i: int| 0 <= i < r0.len() && (#[trigger] r0[i]).0 == q;
                    assert(r0[w] == r[w]);
                }
            }
        }
    } else {
        if has_key(r, q) {
            let w = choose|i: int| 0 <= i < r.len() && (#[trigger] r[i]).0 == q;
        }
    }
}

} // verus!
