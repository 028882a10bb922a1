//! The declared schema of a record type: an ordered list of field names,
//! each with its column attributes.

use vstd::prelude::*;

use crate::column::ColumnAttr;
use crate::kv::{distinct_keys, keys_of, lemma_map_of_contains, lemma_map_of_index,
    lemma_map_of_update, map_of};

verus! {

/// The wire name a column stores its field under: the declared override if
/// there is one, else the field's own identifier.
pub open spec fn wire_of(id: Seq<char>, attr: ColumnAttr) -> Seq<char> {
    match attr.name {
        Some(w) => w@,
        None => id,
    }
}

/// The declared columns of one record type, keyed by field identifier.
#[derive(Debug)]
pub struct Schema {
    cols: Vec<(String, ColumnAttr)>,
}

impl Schema {
    /// The declared columns, in declaration order.
    pub closed spec fn cols_seq(&self) -> Seq<(String, ColumnAttr)> {
        self.cols@
    }

    /// Each field identifier is declared at most once.
    pub open spec fn wf(&self) -> bool {
        distinct_keys(self.cols_seq())
    }

    /// The map from field identifier to its attributes.
    pub open spec fn attr_map(&self) -> Map<Seq<char>, ColumnAttr> {
        map_of(self.cols_seq())
    }

    /// A schema with no columns.
    pub fn new() -> (s: Schema)
        ensures
            s.wf(),
            s.cols_seq() == Seq::<(String, ColumnAttr)>::empty(),
    {
        Schema { cols: Vec::new() }
    }

    /// Number of declared columns.
    pub fn len(&self) -> (n: usize)
        ensures
            n == self.cols_seq().len(),
    {
        self.cols.len()
    }

    /// Borrow the column at a position, in declaration order.
    pub fn col_at(&self, i: usize) -> (r: &(String, ColumnAttr))
        requires
            i < self.cols_seq().len(),
        ensures
            *r == self.cols_seq()[i as int],
    {
        &self.cols[i]
    }

    fn find(&self, id: &str) -> (r: Option<usize>)
        ensures
            match r {
                Some(i) => 0 <= i < self.cols_seq().len() && self.cols_seq()[i as int].0@ == id@
                    && forall|j: int| 0 <= j < i ==> self.cols_seq()[j].0@ != id@,
                None => forall|j: int| 0 <= j < self.cols_seq().len() ==> self.cols_seq()[j].0@
                    != id@,
            },
    {
        let k: String = id.to_owned();
        let n = self.cols.len();
        let mut i: usize = 0;
        while i < n
            invariant
                n == self.cols@.len(),
                0 <= i <= n,
                k@ == id@,
                forall|j: int| 0 <= j < i ==> self.cols@[j].0@ != id@,
            decreases n - i,
        {
            let hit = self.cols[i].0 == k;
            if hit {
                return Some(i);
            }
            i = i + 1;
        }
        None
    }

    /// Borrow the attributes declared for a field, if any.
    pub fn get(&self, id: &str) -> (r: Option<&ColumnAttr>)
        requires
            self.wf(),
        ensures
            match r {
                Some(a) => self.attr_map().contains_key(id@) && *a == self.attr_map()[id@],
                None => !self.attr_map().contains_key(id@),
            },
    {
        proof {
            lemma_map_of_contains(self.cols@);
        }
        match self.find(id) {
            Some(i) => {
                proof {
                    lemma_map_of_index(self.cols@, i as int);
                }
                Some(&self.cols[i].1)
            },
            None => {
                proof {
                    if keys_of(self.cols@).contains(id@) {
                        let j = choose|j: int|
                            0 <= j < keys_of(self.cols@).len() && keys_of(self.cols@)[j] == id@;
                        assert(self.cols@[j].0@ == id@);
                    }
                }
                None
            },
        }
    }

    /// Declare a column. A new field is appended in declaration order; an
    /// earlier declaration of the same field is replaced in place, keeping
    /// its position.
    pub fn insert(&mut self, id: &str, attr: ColumnAttr)
        requires
            old(self).wf(),
        ensures
            final(self).wf(),
            final(self).attr_map() == old(self).attr_map().insert(id@, attr),
            keys_of(final(self).cols_seq()) == if old(self).attr_map().contains_key(id@) {
                keys_of(old(self).cols_seq())
            } else {
                keys_of(old(self).cols_seq()).push(id@)
            },
            forall|j: int|
                0 <= j < old(self).cols_seq().len() && (#[trigger] old(self).cols_seq()[j]).0@
                    != id@ ==> final(self).cols_seq()[j] == old(self).cols_seq()[j],
            forall|j: int|
                0 <= j < final(self).cols_seq().len() && (#[trigger] final(self).cols_seq()[j]).0@
                    == id@ ==> final(self).cols_seq()[j].1 == attr,
    {
        proof {
            lemma_map_of_contains(self.cols@);
        }
        match self.find(id) {
            Some(i) => {
                let ghost ps_before = self.cols@;
                proof {
                    assert(keys_of(ps_before)[i as int] == id@);
                    assert(keys_of(ps_before).contains(id@));
                    assert(map_of(ps_before).contains_key(id@));
                }
                self.cols.remove(i);
                self.cols.insert(i, (id.to_owned(), attr));
                proof {
                    let p = self.cols@[i as int];
                    assert(self.cols@ =~= ps_before.update(i as int, p));
                    lemma_map_of_update(ps_before, i as int, p);
                    assert(map_of(self.cols@) =~= map_of(ps_before).insert(id@, attr));
                    assert(keys_of(self.cols@) =~= keys_of(ps_before));
                    assert forall|j: int|
                        0 <= j < self.cols@.len() && (#[trigger] self.cols@[j]).0@ == id@
                        implies self.cols@[j].1 == attr by {
                        if j != i {
                            assert(ps_before[j].0@ != ps_before[i as int].0@);
                        }
                    }
                }
            },
            None => {
                let ghost ps_before = self.cols@;
                proof {
                    if keys_of(ps_before).contains(id@) {
                        let j = choose|j: int|
                            0 <= j < keys_of(ps_before).len() && keys_of(ps_before)[j] == id@;
                        assert(ps_before[j].0@ == id@);
                    }
                    assert(!map_of(ps_before).contains_key(id@));
                }
                self.cols.push((id.to_owned(), attr));
                proof {
                    assert(self.cols@.drop_last() =~= ps_before);
                    assert(map_of(self.cols@) == map_of(ps_before).insert(id@, attr));
                    assert(keys_of(self.cols@) =~= keys_of(ps_before).push(id@));
                    assert forall|j: int|
                        0 <= j < self.cols@.len() && (#[trigger] self.cols@[j]).0@ == id@
                        implies self.cols@[j].1 == attr by {
                        if j < ps_before.len() {
                            assert(ps_before[j].0@ != id@);
                        }
                    }
                }
            },
        }
    }
}

} // verus!
