//! An ordered key/value document: the unit that filters, payloads and query
//! results are made of. A document views as a map from field name to value;
//! well-formed documents carry each key at most once.

use vstd::prelude::*;

use crate::kv::{distinct_keys, keys_of, lemma_map_of_contains, lemma_map_of_index,
    lemma_map_of_remove, map_of, str_views};

verus! {

/// One field value inside a document.
#[derive(Debug, PartialEq)]
pub enum Value {
    Null,
    Bool(bool),
    Int32(i32),
    Int64(i64),
    /// A binary64 floating value, carried through untouched as its bit pattern.
    Double(u64),
    Str(String),
    /// A stored-object identifier, carried as its raw bytes.
    ObjectId(Vec<u8>),
    /// A point in time, in milliseconds since the epoch.
    DateTime(i64),
    Arr(Vec<Value>),
    Doc(Doc),
}

/// A document: an ordered list of distinct field names with their values.
#[derive(Debug, PartialEq)]
pub struct Doc {
    pairs: Vec<(String, Value)>,
}

impl View for Doc {
    type V = Map<Seq<char>, Value>;

    closed spec fn view(&self) -> Map<Seq<char>, Value> {
        map_of(self.pairs@)
    }
}

impl Doc {
    /// The key names of this document, in order.
    pub closed spec fn key_seq(&self) -> Seq<Seq<char>> {
        keys_of(self.pairs@)
    }

    /// Each key occurs at most once.
    pub closed spec fn wf(&self) -> bool {
        distinct_keys(self.pairs@)
    }

    /// A document's keys and its map domain name the same fields.
    pub proof fn lemma_keys(&self)
        ensures
            forall|k: Seq<char>| #[trigger] self@.contains_key(k) <==> self.key_seq().contains(k),
    {
        lemma_map_of_contains(self.pairs@);
    }

    /// In a well-formed document no key name is listed twice.
    pub proof fn lemma_key_seq_distinct(&self)
        requires
            self.wf(),
        ensures
            forall|a: int, b: int|
                0 <= a < b < self.key_seq().len() ==> self.key_seq()[a] != self.key_seq()[b],
    {
        assert forall|a: int, b: int|
            0 <= a < b < self.key_seq().len() implies self.key_seq()[a] != self.key_seq()[b] by {
            assert(self.key_seq()[a] == self.pairs@[a].0@);
            assert(self.key_seq()[b] == self.pairs@[b].0@);
        }
    }

    /// The empty document.
    pub fn new() -> (d: Doc)
        ensures
            d@ == Map::<Seq<char>, Value>::empty(),
            d.wf(),
            d.key_seq() == Seq::<Seq<char>>::empty(),
    {
        let d = Doc { pairs: Vec::new() };
        proof {
            assert(d.key_seq() =~= Seq::<Seq<char>>::empty());
        }
        d
    }

    /// Number of fields.
    pub fn len(&self) -> (n: usize)
        ensures
            n == self.key_seq().len(),
    {
        self.pairs.len()
    }

    fn find(&self, key: &str) -> (r: Option<usize>)
        ensures
            match r {
                Some(i) => 0 <= i < self.pairs@.len() && self.pairs@[i as int].0@ == key@
                    && forall|j: int| 0 <= j < i ==> self.pairs@[j].0@ != key@,
                None => forall|j: int| 0 <= j < self.pairs@.len() ==> self.pairs@[j].0@ != key@,
            },
    {
        let k: String = key.to_owned();
        let n = self.pairs.len();
        let mut i: usize = 0;
        while i < n
            invariant
                n == self.pairs@.len(),
                0 <= i <= n,
                k@ == key@,
                forall|j: int| 0 <= j < i ==> self.pairs@[j].0@ != key@,
            decreases n - i,
        {
            let hit = self.pairs[i].0 == k;
            if hit {
                return Some(i);
            }
            i = i + 1;
        }
        None
    }

    /// Whether the document has a field of this name.
    pub fn contains_key(&self, key: &str) -> (b: bool)
        ensures
            b == self@.contains_key(key@),
    {
        proof {
            lemma_map_of_contains(self.pairs@);
        }
        match self.find(key) {
            Some(i) => {
                proof {
                    assert(keys_of(self.pairs@)[i as int] == key@);
                }
                true
            },
            None => {
                proof {
                    if keys_of(self.pairs@).contains(key@) {
                        let j = choose|j: int|
                            0 <= j < keys_of(self.pairs@).len() && keys_of(self.pairs@)[j] == key@;
                        assert(self.pairs@[j].0@ == key@);
                    }
                }
                false
            },
        }
    }

    /// Borrow the value of a field, if present.
    pub fn get(&self, key: &str) -> (r: Option<&Value>)
        requires
            self.wf(),
        ensures
            match r {
                Some(v) => self@.contains_key(key@) && *v == self@[key@],
                None => !self@.contains_key(key@),
            },
    {
        proof {
            lemma_map_of_contains(self.pairs@);
        }
        match self.find(key) {
            Some(i) => {
                proof {
                    lemma_map_of_index(self.pairs@, i as int);
                }
                Some(&self.pairs[i].1)
            },
            None => {
                proof {
                    if keys_of(self.pairs@).contains(key@) {
                        let j = choose|j: int|
                            0 <= j < keys_of(self.pairs@).len() && keys_of(self.pairs@)[j] == key@;
                        assert(self.pairs@[j].0@ == key@);
                    }
                }
                None
            },
        }
    }

    /// Set a field, replacing any previous value under the same name.
    pub fn insert(&mut self, key: &str, value: Value)
        requires
            old(self).wf(),
        ensures
            final(self).wf(),
            final(self)@ == old(self)@.insert(key@, value),
    {
        proof {
            lemma_map_of_contains(self.pairs@);
        }
        match self.find(key) {
            Some(i) => {
                proof {
                    lemma_map_of_remove(self.pairs@, i as int);
                }
                let ghost ps_before = self.pairs@;
                self.pairs.remove(i);
                self.pairs.push((key.to_owned(), value));
                proof {
                    let removed = ps_before.remove(i as int);
                    assert(self.pairs@ == removed.push((self.pairs@.last().0, value)));
                    assert(self.pairs@.drop_last() =~= removed);
                    assert(map_of(self.pairs@) =~= map_of(ps_before).insert(key@, value));
                    lemma_map_of_contains(removed);
                    assert forall|a: int, b: int|
                        0 <= a < b < self.pairs@.len() implies self.pairs@[a].0@
                        != self.pairs@[b].0@ by {
                        if b == self.pairs@.len() - 1 {
                            if self.pairs@[a].0@ == key@ {
                                assert(keys_of(removed)[a] == key@);
                                assert(map_of(removed).contains_key(key@));
                                assert(map_of(ps_before).remove(ps_before[i as int].0@)
                                    .contains_key(key@));
                            }
                        }
                    }
                }
            },
            None => {
                let ghost ps_before = self.pairs@;
                self.pairs.push((key.to_owned(), value));
                proof {
                    assert(self.pairs@.drop_last() =~= ps_before);
                    assert(map_of(self.pairs@) == map_of(ps_before).insert(key@, value));
                }
            },
        }
    }

    /// Remove a field and hand its value out, if it was present.
    pub fn take(&mut self, key: &str) -> (r: Option<Value>)
        requires
            old(self).wf(),
        ensures
            final(self).wf(),
            match r {
                Some(v) => old(self)@.contains_key(key@) && v == old(self)@[key@] && final(self)@
                    == old(self)@.remove(key@),
                None => !old(self)@.contains_key(key@) && *final(self) == *old(self),
            },
    {
        proof {
            lemma_map_of_contains(self.pairs@);
        }
        match self.find(key) {
            Some(i) => {
                proof {
                    lemma_map_of_index(self.pairs@, i as int);
                    lemma_map_of_remove(self.pairs@, i as int);
                }
                let p = self.pairs.remove(i);
                Some(p.1)
            },
            None => {
                proof {
                    if keys_of(self.pairs@).contains(key@) {
                        let j = choose|j: int|
                            0 <= j < keys_of(self.pairs@).len() && keys_of(self.pairs@)[j] == key@;
                        assert(self.pairs@[j].0@ == key@);
                    }
                }
                None
            },
        }
    }

    /// Move a field's value from one name to another; the old name is
    /// dropped, any value already under the new name is replaced. Without
    /// the field nothing changes.
    pub fn rename_key(&mut self, from: &str, to: &str)
        requires
            old(self).wf(),
            from@ != to@,
        ensures
            final(self).wf(),
            final(self)@ == if old(self)@.contains_key(from@) {
                old(self)@.remove(from@).insert(to@, old(self)@[from@])
            } else {
                old(self)@
            },
    {
        match self.take(from) {
            Some(v) => {
                self.insert(to, v);
            },
            None => {},
        }
    }

    /// The field names, in document order.
    pub fn keys(&self) -> (r: Vec<String>)
        ensures
            str_views(r@) == self.key_seq(),
    {
        let n = self.pairs.len();
        let mut r: Vec<String> = Vec::new();
        let mut i: usize = 0;
        while i < n
            invariant
                n == self.pairs@.len(),
                0 <= i <= n,
                r@.len() == i,
                str_views(r@) =~= self.key_seq().take(i as int),
            decreases n - i,
        {
            r.push(self.pairs[i].0.clone());
            proof {
                assert(str_views(r@) =~= self.key_seq().take((i + 1) as int));
            }
            i = i + 1;
        }
        proof {
            assert(self.key_seq().take(n as int) =~= self.key_seq());
        }
        r
    }

    /// Dismantle the document into its field list, in order.
    pub fn into_pairs(self) -> (r: Vec<(String, Value)>)
        ensures
            keys_of(r@) == self.key_seq(),
            map_of(r@) == self@,
            self.wf() ==> distinct_keys(r@),
    {
        self.pairs
    }
}

/// Structural equality of two values: equal scalars, equal text, and the
/// same shape with equal members for arrays and nested documents.
pub open spec fn val_eq(a: Value, b: Value) -> bool
    decreases a,
{
    match (a, b) {
        (Value::Null, Value::Null) => true,
        (Value::Bool(x), Value::Bool(y)) => x == y,
        (Value::Int32(x), Value::Int32(y)) => x == y,
        (Value::Int64(x), Value::Int64(y)) => x == y,
        (Value::Double(x), Value::Double(y)) => x == y,
        (Value::Str(x), Value::Str(y)) => x@ == y@,
        (Value::ObjectId(x), Value::ObjectId(y)) => x@ == y@,
        (Value::DateTime(x), Value::DateTime(y)) => x == y,
        (Value::Arr(x), Value::Arr(y)) => x@.len() == y@.len() && (forall|i: int|
            0 <= i < x@.len() ==> val_eq(#[trigger] x@[i], y@[i])),
        (Value::Doc(x), Value::Doc(y)) => doc_val_eq(x, y),
        _ => false,
    }
}

/// Structural equality of two documents: the same field names in the same
/// order, with structurally equal values.
pub closed spec fn doc_val_eq(x: Doc, y: Doc) -> bool
    decreases x,
{
    x.pairs@.len() == y.pairs@.len() && (forall|i: int|
        0 <= i < x.pairs@.len() ==> (#[trigger] x.pairs@[i]).0@ == y.pairs@[i].0@ && val_eq(
            x.pairs@[i].1,
            y.pairs@[i].1,
        ))
}

/// What document equality means at the map level: structurally equal
/// well-formed documents name the same fields and hold structurally equal
/// values.
pub proof fn lemma_doc_val_eq_map(x: Doc, y: Doc)
    requires
        doc_val_eq(x, y),
        x.wf(),
    ensures
        y.wf(),
        x@.dom() == y@.dom(),
        forall|k: Seq<char>| #[trigger] x@.contains_key(k) ==> val_eq(x@[k], y@[k]),
{
    assert forall|a: int, b: int|
        0 <= a < b < y.pairs@.len() implies y.pairs@[a].0@ != y.pairs@[b].0@ by {
        assert(x.pairs@[a].0@ != x.pairs@[b].0@);
    }
    lemma_map_of_contains(x.pairs@);
    lemma_map_of_contains(y.pairs@);
    assert(x@.dom() =~= y@.dom()) by {
        assert forall|k: Seq<char>| #[trigger] x@.contains_key(k) <==> y@.contains_key(k) by {
            if keys_of(x.pairs@).contains(k) {
                let j = choose|j: int|
                    0 <= j < keys_of(x.pairs@).len() && keys_of(x.pairs@)[j] == k;
                assert(keys_of(y.pairs@)[j] == k);
            }
            if keys_of(y.pairs@).contains(k) {
                let j = choose|j: int|
                    0 <= j < keys_of(y.pairs@).len() && keys_of(y.pairs@)[j] == k;
                assert(keys_of(x.pairs@)[j] == k);
            }
        }
    }
    assert forall|k: Seq<char>| #[trigger] x@.contains_key(k) implies val_eq(x@[k], y@[k]) by {
        let j = choose|j: int| 0 <= j < keys_of(x.pairs@).len() && keys_of(x.pairs@)[j] == k;
        assert(x.pairs@[j].0@ == k);
        assert(y.pairs@[j].0@ == k);
        lemma_map_of_index(x.pairs@, j);
        lemma_map_of_index(y.pairs@, j);
    }
}

/// Every value is structurally equal to itself.
pub proof fn lemma_val_eq_refl(a: Value)
    ensures
        val_eq(a, a),
    decreases a,
{
    match a {
        Value::Arr(vs) => {
            assert forall|i: int| 0 <= i < vs@.len() implies val_eq(#[trigger] vs@[i], vs@[i]) by {
                lemma_val_eq_refl(vs@[i]);
            }
        },
        Value::Doc(d) => {
            lemma_doc_val_eq_refl(d);
        },
        _ => {},
    }
}

/// Every document is structurally equal to itself.
pub proof fn lemma_doc_val_eq_refl(d: Doc)
    ensures
        doc_val_eq(d, d),
    decreases d,
{
    assert forall|i: int|
        0 <= i < d.pairs@.len() implies (#[trigger] d.pairs@[i]).0@ == d.pairs@[i].0@ && val_eq(
        d.pairs@[i].1,
        d.pairs@[i].1,
    ) by {
        lemma_val_eq_refl(d.pairs@[i].1);
    }
}

fn dup_bytes(v: &Vec<u8>) -> (r: Vec<u8>)
    ensures
        r@ == v@,
{
    let n = v.len();
    let mut r: Vec<u8> = Vec::new();
    let mut i: usize = 0;
    while i < n
        invariant
            n == v@.len(),
            0 <= i <= n,
            r@ =~= v@.take(i as int),
        decreases n - i,
    {
        r.push(v[i]);
        proof {
            assert(r@ =~= v@.take((i + 1) as int));
        }
        i = i + 1;
    }
    proof {
        assert(v@.take(n as int) =~= v@);
    }
    r
}

/// Copy a value; the copy is structurally equal to the source.
pub fn dup_value(v: &Value) -> (r: Value)
    ensures
        val_eq(r, *v),
    decreases *v,
{
    match v {
        Value::Null => Value::Null,
        Value::Bool(b) => Value::Bool(*b),
        Value::Int32(i) => Value::Int32(*i),
        Value::Int64(i) => Value::Int64(*i),
        Value::Double(d) => Value::Double(*d),
        Value::Str(s) => Value::Str(s.clone()),
        Value::ObjectId(bytes) => Value::ObjectId(dup_bytes(bytes)),
        Value::DateTime(t) => Value::DateTime(*t),
        Value::Arr(vs) => {
            let n = vs.len();
            let mut out: Vec<Value> = Vec::new();
            let mut i: usize = 0;
            while i < n
                invariant
                    n == vs@.len(),
                    0 <= i <= n,
                    out@.len() == i,
                    *v == Value::Arr(*vs),
                    forall|j: int| 0 <= j < i ==> val_eq(#[trigger] out@[j], vs@[j]),
                decreases n - i,
            {
                proof {
                    broadcast use vstd::std_specs::vec::group_vec_axioms;

                    assert(decreases_to!(*v => (*v)->Arr_0));
                    assert(decreases_to!((*v)->Arr_0 => (*v)->Arr_0@));
                    assert(decreases_to!((*v)->Arr_0@ => (*v)->Arr_0@[i as int]));
                    assert((*v)->Arr_0@[i as int] == vs@[i as int]);
                }
                out.push(dup_value(&vs[i]));
                i = i + 1;
            }
            Value::Arr(out)
        },
        Value::Doc(d) => Value::Doc(dup_doc(d)),
    }
}

/// Copy a document; the copy is structurally equal to the source and
/// well-formed exactly when the source is.
pub fn dup_doc(d: &Doc) -> (r: Doc)
    ensures
        doc_val_eq(r, *d),
        r.wf() <==> d.wf(),
        r@.dom() =~= d@.dom(),
    decreases *d,
{
    let n = d.pairs.len();
    let mut pairs: Vec<(String, Value)> = Vec::new();
    let mut i: usize = 0;
    while i < n
        invariant
            n == d.pairs@.len(),
            0 <= i <= n,
            pairs@.len() == i,
            forall|j: int|
                0 <= j < i ==> (#[trigger] pairs@[j]).0@ == d.pairs@[j].0@ && val_eq(
                    pairs@[j].1,
                    d.pairs@[j].1,
                ),
        decreases n - i,
    {
        let k = d.pairs[i].0.clone();
        let dv = dup_value(&d.pairs[i].1);
        pairs.push((k, dv));
        i = i + 1;
    }
    let r = Doc { pairs };
    proof {
        assert(r.wf() <==> d.wf()) by {
            if d.wf() {
                assert forall|a: int, b: int|
                    0 <= a < b < r.pairs@.len() implies r.pairs@[a].0@ != r.pairs@[b].0@ by {
                    assert(d.pairs@[a].0@ != d.pairs@[b].0@);
                }
            }
            if r.wf() {
                assert forall|a: int, b: int|
                    0 <= a < b < d.pairs@.len() implies d.pairs@[a].0@ != d.pairs@[b].0@ by {
                    assert(r.pairs@[a].0@ != r.pairs@[b].0@);
                }
            }
        }
        assert(r@.dom() =~= d@.dom()) by {
            lemma_map_of_contains(r.pairs@);
            lemma_map_of_contains(d.pairs@);
            assert forall|k: Seq<char>| #[trigger]
                r@.contains_key(k) <==> d@.contains_key(k) by {
                if keys_of(r.pairs@).contains(k) {
                    let j = choose|j: int|
                        0 <= j < keys_of(r.pairs@).len() && keys_of(r.pairs@)[j] == k;
                    assert(keys_of(d.pairs@)[j] == k);
                }
                if keys_of(d.pairs@).contains(k) {
                    let j = choose|j: int|
                        0 <= j < keys_of(d.pairs@).len() && keys_of(d.pairs@)[j] == k;
                    assert(keys_of(r.pairs@)[j] == k);
                }
            }
        }
    }
    r
}

} // verus!
