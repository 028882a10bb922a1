//! The record model: the query-condition builder and the pure half of each
//! CRUD verb. A terminal verb reads the accumulated builder state exactly
//! once and compiles it into a plan — filter, payload and options — that the
//! embedding application hands to the database driver.

use vstd::prelude::*;

use crate::column::ColumnAttr;
use crate::doc::{Doc, Value};
use crate::kv::str_views;
use crate::numstr::{spec_decimal, u64_to_string};
use crate::schema::Schema;
use crate::transcode::{all_values_docs, clear_doc, clear_fold, detect_operator, has_operator_key,
    hidden_fields, hidden_of, rename_map, rename_operator, rename_plain};

verus! {

/// A fast, synchronous usage failure: the verb needs at least one filter
/// clause and none was set.
#[derive(Debug, PartialEq, Eq, Structural)]
pub enum UsageError {
    FilterRequired,
}

/// The accumulated state of one query: filter clauses (conjoined), the
/// multi-document and upsert flags, projection, sort, pagination, and the
/// fields explicitly made visible for this operation.
#[derive(Debug)]
pub struct QueryBuilder {
    pub wheres: Vec<Doc>,
    pub all: bool,
    pub upsert: bool,
    pub select: Option<Doc>,
    pub sort: Doc,
    pub skip: u32,
    pub limit: u32,
    pub visible_fields: Vec<String>,
}

impl QueryBuilder {
    /// Every held document is well-formed.
    pub open spec fn wf(&self) -> bool {
        (forall|i: int| 0 <= i < self.wheres@.len() ==> (#[trigger] self.wheres@[i]).wf())
            && self.sort.wf() && (match self.select {
            Some(d) => d.wf(),
            None => true,
        })
    }

    /// Nothing set: no filters, flags off, no projection, empty sort, no
    /// pagination, no visibility overrides.
    pub open spec fn is_reset(&self) -> bool {
        self.wheres@.len() == 0 && !self.all && !self.upsert && self.select is None && self.sort@
            == Map::<Seq<char>, Value>::empty() && self.skip == 0 && self.limit == 0
            && self.visible_fields@.len() == 0
    }

    /// A builder with nothing set.
    pub fn new() -> (q: QueryBuilder)
        ensures
            q.wf(),
            q.is_reset(),
            q.sort.wf(),
    {
        QueryBuilder {
            wheres: Vec::new(),
            all: false,
            upsert: false,
            select: None,
            sort: Doc::new(),
            skip: 0,
            limit: 0,
            visible_fields: Vec::new(),
        }
    }
}

/// The sequence of filter documents, wrapped as values of a conjunction.
pub open spec fn doc_values(ws: Seq<Doc>) -> Seq<Value> {
    ws.map_values(|w: Doc| Value::Doc(w))
}

/// What a compiled filter says of the clauses it was built from: no clauses
/// means the empty filter, else one conjunction key holding them all.
pub open spec fn filter_ok(f: Doc, ws: Seq<Doc>) -> bool {
    &&& f.wf()
    &&& ws.len() == 0 ==> f@ == Map::<Seq<char>, Value>::empty()
    &&& ws.len() > 0 ==> {
        &&& f@.dom() == Set::<Seq<char>>::empty().insert("$and"@)
        &&& f@["$and"@] is Arr
        &&& f@["$and"@]->Arr_0@ == doc_values(ws)
    }
}

/// Conjoin filter clauses into one filter document.
pub fn and_filter(wheres: Vec<Doc>) -> (f: Doc)
    ensures
        filter_ok(f, wheres@),
{
    let ghost orig = wheres@;
    let mut ws = wheres;
    if ws.is_empty() {
        return Doc::new();
    }
    let mut vals: Vec<Value> = Vec::new();
    while ws.len() > 0
        invariant
            orig.len() == vals@.len() + ws@.len(),
            ws@ =~= orig.skip(vals@.len() as int),
            vals@ =~= doc_values(orig.take(vals@.len() as int)),
        decreases ws@.len(),
    {
        let w = ws.remove(0);
        vals.push(Value::Doc(w));
        proof {
            let l = vals@.len() as int;
            assert(vals@[l - 1] == Value::Doc(orig[l - 1]));
            assert(vals@ =~= doc_values(orig.take(l)));
            assert(ws@ =~= orig.skip(l));
        }
    }
    proof {
        assert(vals@ =~= doc_values(orig));
    }
    let mut f = Doc::new();
    f.insert("$and", Value::Arr(vals));
    f
}

/// The compiled plan of a read.
#[derive(Debug)]
pub struct FindPlan {
    pub filter: Doc,
    pub sort: Doc,
    pub skip: Option<u64>,
    pub limit: Option<i64>,
    pub projection: Option<Doc>,
}

/// The compiled plan of a count.
#[derive(Debug)]
pub struct CountPlan {
    pub filter: Doc,
    pub skip: Option<u64>,
    pub limit: Option<u64>,
}

/// The compiled plan of an update.
#[derive(Debug)]
pub struct UpdatePlan {
    pub filter: Doc,
    pub update: Doc,
    pub many: bool,
    pub upsert: bool,
    pub sort: Doc,
}

/// The compiled plan of a delete.
#[derive(Debug)]
pub struct DeletePlan {
    pub filter: Doc,
    pub many: bool,
    pub sort: Doc,
}

/// Stamp a time field: an existing time value is kept, anything else is
/// overwritten with the given moment.
pub open spec fn stamped(
    m: Map<Seq<char>, Value>,
    key: Seq<char>,
    now: i64,
) -> Map<Seq<char>, Value> {
    if m.contains_key(key) && m[key] is DateTime {
        m
    } else {
        m.insert(key, Value::DateTime(now))
    }
}

/// The payload an insert stores for a typed record: identifiers moved to
/// wire names, a non-identifier `_id` dropped, and creation/update times
/// stamped when timestamping is on.
pub open spec fn create_spec(
    m: Map<Seq<char>, Value>,
    cols: Seq<(String, ColumnAttr)>,
    add_times: bool,
    now: i64,
) -> Map<Seq<char>, Value> {
    let r = rename_map(m, cols);
    let r2 = if r.contains_key("_id"@) && r["_id"@] is ObjectId {
        r
    } else {
        r.remove("_id"@)
    };
    if add_times {
        stamped(stamped(r2, "updated_at"@, now), "created_at"@, now)
    } else {
        r2
    }
}

/// The payload an insert stores for a raw document: no renaming, but the
/// same identifier rule and time stamping as the typed variant — a non-
/// identifier `_id` is dropped, and times are stamped when timestamping is
/// on.
pub open spec fn create_doc_spec(
    m: Map<Seq<char>, Value>,
    add_times: bool,
    now: i64,
) -> Map<Seq<char>, Value> {
    let m2 = if m.contains_key("_id"@) && m["_id"@] is ObjectId {
        m
    } else {
        m.remove("_id"@)
    };
    if add_times {
        stamped(stamped(m2, "updated_at"@, now), "created_at"@, now)
    } else {
        m2
    }
}

/// What the compiled update payload says of the handed-in one.
///
/// A payload without operator keys is renamed and wrapped whole under the
/// set operator; with timestamping the update time is stamped into the set
/// operator and, on an upsert, the creation time into the set-on-insert
/// operator. A payload in operator form keeps its operators; renaming acts
/// one level down, inside each operator's sub-document.
pub open spec fn update_payload_ok(
    m0: Map<Seq<char>, Value>,
    m1: Map<Seq<char>, Value>,
    cols: Seq<(String, ColumnAttr)>,
    add_times: bool,
    upsert: bool,
    now: i64,
) -> bool {
    if !has_operator_key(m0) {
        &&& m1.dom() == if add_times && upsert {
            Set::<Seq<char>>::empty().insert("$set"@).insert("$setOnInsert"@)
        } else {
            Set::<Seq<char>>::empty().insert("$set"@)
        }
        &&& m1["$set"@] is Doc
        &&& m1["$set"@]->Doc_0@ == if add_times {
            rename_map(m0, cols).insert("updated_at"@, Value::DateTime(now))
        } else {
            rename_map(m0, cols)
        }
        &&& add_times && upsert ==> m1["$setOnInsert"@] is Doc && m1["$setOnInsert"@]->Doc_0@
            == Map::<Seq<char>, Value>::empty().insert("created_at"@, Value::DateTime(now))
    } else {
        &&& m1.dom() == m0.dom().union(
            if add_times {
                Set::<Seq<char>>::empty().insert("$set"@)
            } else {
                Set::<Seq<char>>::empty()
            },
        ).union(
            if add_times && upsert {
                Set::<Seq<char>>::empty().insert("$setOnInsert"@)
            } else {
                Set::<Seq<char>>::empty()
            },
        )
        &&& forall|k: Seq<char>| #[trigger]
            m0.contains_key(k) && k != "$set"@ && k != "$setOnInsert"@ ==> m1[k] is Doc
                && m1[k]->Doc_0@ == rename_map(m0[k]->Doc_0@, cols)
        &&& add_times ==> m1["$set"@] is Doc && m1["$set"@]->Doc_0@ == (if m0.contains_key(
            "$set"@,
        ) {
            rename_map(m0["$set"@]->Doc_0@, cols)
        } else {
            Map::<Seq<char>, Value>::empty()
        }).insert("updated_at"@, Value::DateTime(now))
        &&& !add_times && m0.contains_key("$set"@) ==> m1["$set"@] is Doc && m1["$set"@]->Doc_0@
            == rename_map(m0["$set"@]->Doc_0@, cols)
        &&& add_times && upsert ==> m1["$setOnInsert"@] is Doc && m1["$setOnInsert"@]->Doc_0@ == (
        if m0.contains_key("$setOnInsert"@) {
            rename_map(m0["$setOnInsert"@]->Doc_0@, cols)
        } else {
            Map::<Seq<char>, Value>::empty()
        }).insert("created_at"@, Value::DateTime(now))
        &&& !(add_times && upsert) && m0.contains_key("$setOnInsert"@) ==> m1["$setOnInsert"@]
            is Doc && m1["$setOnInsert"@]->Doc_0@ == rename_map(m0["$setOnInsert"@]->Doc_0@, cols)
    }
}

/// A typed record's model: its collection name, whether writes stamp times,
/// the declared columns, and the accumulated query state.
#[derive(Debug)]
pub struct Model {
    pub collection_name: String,
    pub add_times: bool,
    pub columns: Schema,
    pub query_builder: QueryBuilder,
}

impl Model {
    /// Schema and builder are well-formed.
    pub open spec fn wf(&self) -> bool {
        self.columns.wf() && self.query_builder.wf()
    }

    /// A fresh model over a collection, with its declared columns.
    pub fn new(collection_name: String, columns: Schema, add_times: bool) -> (m: Model)
        requires
            columns.wf(),
        ensures
            m.wf(),
            m.collection_name == collection_name,
            m.add_times == add_times,
            m.columns == columns,
            m.query_builder.is_reset(),
    {
        Model { collection_name, add_times, columns, query_builder: QueryBuilder::new() }
    }

    /// Declare lazy columns: each named field gets plain attributes and its
    /// own name as wire name.
    pub fn add_columns(&mut self, names: Vec<String>)
        requires
            old(self).wf(),
        ensures
            final(self).wf(),
            final(self).collection_name == old(self).collection_name,
            final(self).add_times == old(self).add_times,
            final(self).query_builder == old(self).query_builder,
            forall|k: Seq<char>|
                !str_views(names@).contains(k) ==> (final(self).columns.attr_map().contains_key(k)
                    <==> old(self).columns.attr_map().contains_key(k)) && (old(
                    self,
                ).columns.attr_map().contains_key(k) ==> final(self).columns.attr_map()[k] == old(
                    self,
                ).columns.attr_map()[k]),
            forall|j: int|
                0 <= j < names@.len() ==> final(self).columns.attr_map().contains_key(
                    #[trigger] str_views(names@)[j],
                ) && is_lazy_attr(
                    final(self).columns.attr_map()[str_views(names@)[j]],
                    str_views(names@)[j],
                ),
    {
        let n = names.len();
        let mut i: usize = 0;
        while i < n
            invariant
                n == names@.len(),
                0 <= i <= n,
                self.columns.wf(),
                self.query_builder == old(self).query_builder,
                self.collection_name == old(self).collection_name,
                self.add_times == old(self).add_times,
                self.query_builder.wf(),
                forall|k: Seq<char>|
                    !str_views(names@).contains(k) ==> (self.columns.attr_map().contains_key(k)
                        <==> old(self).columns.attr_map().contains_key(k)) && (old(
                        self,
                    ).columns.attr_map().contains_key(k) ==> self.columns.attr_map()[k] == old(
                        self,
                    ).columns.attr_map()[k]),
                forall|j: int|
                    0 <= j < i ==> self.columns.attr_map().contains_key(
                        #[trigger] str_views(names@)[j],
                    ) && is_lazy_attr(
                        self.columns.attr_map()[str_views(names@)[j]],
                        str_views(names@)[j],
                    ),
            decreases n - i,
        {
            let name = &names[i];
            let attr = ColumnAttr {
                asc: false,
                desc: false,
                unique: false,
                sphere2d: false,
                text: None,
                hidden: false,
                name: Some(name.clone()),
            };
            self.columns.insert(name.as_str(), attr);
            proof {
                assert(str_views(names@)[i as int] == name@);
                assert(str_views(names@).contains(name@));
                assert forall|j: int|
                    0 <= j < i + 1 implies self.columns.attr_map().contains_key(
                    #[trigger] str_views(names@)[j],
                ) && is_lazy_attr(
                    self.columns.attr_map()[str_views(names@)[j]],
                    str_views(names@)[j],
                ) by {
                    if str_views(names@)[j] != name@ {
                    }
                }
            }
            i = i + 1;
        }
    }

    /// The collection this model reads and writes.
    pub fn collection_name(&self) -> (r: &str)
        ensures
            r@ == self.collection_name@,
    {
        self.collection_name.as_str()
    }

    /// Point the model at another collection.
    pub fn set_collection(self, name: String) -> (m: Model)
        ensures
            m == (Model { collection_name: name, ..self }),
    {
        let mut s = self;
        s.collection_name = name;
        s
    }

    /// Clear all accumulated query state.
    pub fn reset(self) -> (m: Model)
        ensures
            m.query_builder.is_reset(),
            m.query_builder.wf(),
            m.collection_name == self.collection_name,
            m.add_times == self.add_times,
            m.columns == self.columns,
    {
        let mut s = self;
        s.query_builder = QueryBuilder::new();
        s
    }

    /// Append a filter clause; all clauses are conjoined.
    pub fn where_doc(self, data: Doc) -> (m: Model)
        ensures
            m.query_builder.wheres@ == self.query_builder.wheres@.push(data),
            m == (Model {
                query_builder: (QueryBuilder { wheres: m.query_builder.wheres, ..self.query_builder
                }),
                ..self
            }),
    {
        let mut s = self;
        s.query_builder.wheres.push(data);
        s
    }

    /// Skip this many documents.
    pub fn skip(self, count: u32) -> (m: Model)
        ensures
            m == (Model {
                query_builder: (QueryBuilder { skip: count, ..self.query_builder }),
                ..self
            }),
    {
        let mut s = self;
        s.query_builder.skip = count;
        s
    }

    /// Return at most this many documents; zero means no limit.
    pub fn limit(self, count: u32) -> (m: Model)
        ensures
            m == (Model {
                query_builder: (QueryBuilder { limit: count, ..self.query_builder }),
                ..self
            }),
    {
        let mut s = self;
        s.query_builder.limit = count;
        s
    }

    /// Replace the sort specification.
    pub fn sort(self, data: Doc) -> (m: Model)
        ensures
            m == (Model {
                query_builder: (QueryBuilder { sort: data, ..self.query_builder }),
                ..self
            }),
    {
        let mut s = self;
        s.query_builder.sort = data;
        s
    }

    /// Affect all matching documents on update and delete.
    pub fn all(self) -> (m: Model)
        ensures
            m == (Model {
                query_builder: (QueryBuilder { all: true, ..self.query_builder }),
                ..self
            }),
    {
        let mut s = self;
        s.query_builder.all = true;
        s
    }

    /// Set the projection applied to read paths.
    pub fn select(self, data: Doc) -> (m: Model)
        ensures
            m == (Model {
                query_builder: (QueryBuilder { select: Some(data), ..self.query_builder }),
                ..self
            }),
    {
        let mut s = self;
        s.query_builder.select = Some(data);
        s
    }

    /// Make the named fields visible for this operation, overriding their
    /// declared hiding.
    pub fn visible(self, data: Vec<String>) -> (m: Model)
        ensures
            m == (Model {
                query_builder: (QueryBuilder { visible_fields: data, ..self.query_builder }),
                ..self
            }),
    {
        let mut s = self;
        s.query_builder.visible_fields = data;
        s
    }

    /// Insert rather than fail when an update matches nothing.
    pub fn upsert(self) -> (m: Model)
        ensures
            m == (Model {
                query_builder: (QueryBuilder { upsert: true, ..self.query_builder }),
                ..self
            }),
    {
        let mut s = self;
        s.query_builder.upsert = true;
        s
    }

    /// The hidden fields of one read: every column flagged hidden that the
    /// visibility override does not name.
    pub fn hidden_fields(&self) -> (r: Vec<String>)
        ensures
            str_views(r@) == hidden_of(
                self.columns.cols_seq(),
                str_views(self.query_builder.visible_fields@),
            ),
    {
        hidden_fields(&self.columns, &self.query_builder.visible_fields)
    }

    /// Rewrite a payload from declared identifiers to wire names: top-level
    /// fields of a plain payload, one level down for an operator payload.
    pub fn rename_field(&self, doc: &mut Doc, is_opt: bool)
        requires
            old(doc).wf(),
            is_opt ==> all_values_docs(old(doc)@),
        ensures
            final(doc).wf(),
            !is_opt ==> final(doc)@ == rename_map(old(doc)@, self.columns.cols_seq()),
            is_opt ==> final(doc)@.dom() == old(doc)@.dom() && (forall|k: Seq<char>| #[trigger]
                old(doc)@.contains_key(k) ==> final(doc)@[k] is Doc && final(doc)@[k]->Doc_0.wf()
                    && final(doc)@[k]->Doc_0@ == rename_map(
                    old(doc)@[k]->Doc_0@,
                    self.columns.cols_seq(),
                )),
    {
        if is_opt {
            rename_operator(&self.columns, doc);
        } else {
            rename_plain(&self.columns, doc);
        }
    }

    /// Reconstruct a typed record's document from a stored one: overlay a
    /// copy of each non-hidden column's stored wire value onto its
    /// identifier in a default-valued template. The stored document is only
    /// read, so columns sharing a wire name all receive the stored value.
    pub fn clear(&self, data: &Doc, template: Doc, hidden: &Vec<String>) -> (r: Doc)
        requires
            data.wf(),
            template.wf(),
        ensures
            r.wf(),
            r@.dom() == clear_fold(
                template@,
                data@,
                self.columns.cols_seq(),
                str_views(hidden@),
            ).dom(),
            forall|k: Seq<char>| #[trigger]
                r@.contains_key(k) ==> crate::doc::val_eq(
                    r@[k],
                    clear_fold(template@, data@, self.columns.cols_seq(), str_views(hidden@))[k],
                ),
    {
        clear_doc(&self.columns, data, template, hidden)
    }

    /// The payload an insert of the typed record stores; `data` is the
    /// record serialized field by field, `now` the moment of the write.
    pub fn create_plan(&self, data: Doc, now: i64) -> (d: Doc)
        requires
            self.wf(),
            data.wf(),
        ensures
            d.wf(),
            d@ == create_spec(data@, self.columns.cols_seq(), self.add_times, now),
    {
        let ghost m0 = data@;
        let ghost cols = self.columns.cols_seq();
        let mut data = data;
        rename_plain(&self.columns, &mut data);
        let ghost r = rename_map(m0, cols);
        let keep = match data.get("_id") {
            Some(v) => matches!(v, Value::ObjectId(_)),
            None => false,
        };
        if !keep {
            let had = data.take("_id");
            proof {
                if had is None {
                    assert(data@ =~= r.remove("_id"@));
                }
            }
        }
        proof {
            assert(data@ == (if r.contains_key("_id"@) && r["_id"@] is ObjectId {
                r
            } else {
                r.remove("_id"@)
            }));
        }
        self.stamp_times(&mut data, now);
        data
    }

    /// The payload an insert of a raw document stores.
    pub fn create_doc_plan(&self, data: Doc, now: i64) -> (d: Doc)
        requires
            data.wf(),
        ensures
            d.wf(),
            d@ == create_doc_spec(data@, self.add_times, now),
    {
        let ghost m0 = data@;
        let mut data = data;
        let keep = match data.get("_id") {
            Some(v) => matches!(v, Value::ObjectId(_)),
            None => false,
        };
        if !keep {
            let had = data.take("_id");
            proof {
                if had is None {
                    assert(data@ =~= m0.remove("_id"@));
                }
            }
        }
        proof {
            assert(data@ == (if m0.contains_key("_id"@) && m0["_id"@] is ObjectId {
                m0
            } else {
                m0.remove("_id"@)
            }));
        }
        self.stamp_times(&mut data, now);
        data
    }

    fn stamp_times(&self, data: &mut Doc, now: i64)
        requires
            old(data).wf(),
        ensures
            final(data).wf(),
            self.add_times ==> final(data)@ == stamped(
                stamped(old(data)@, "updated_at"@, now),
                "created_at"@,
                now,
            ),
            !self.add_times ==> *final(data) == *old(data),
    {
        if self.add_times {
            let fresh = match data.get("updated_at") {
                Some(v) => !matches!(v, Value::DateTime(_)),
                None => true,
            };
            if fresh {
                data.insert("updated_at", Value::DateTime(now));
                proof {
                    assert(data@ =~= stamped(old(data)@, "updated_at"@, now));
                }
            }
            let fresh2 = match data.get("created_at") {
                Some(v) => !matches!(v, Value::DateTime(_)),
                None => true,
            };
            if fresh2 {
                data.insert("created_at", Value::DateTime(now));
                proof {
                    assert(data@ =~= stamped(
                        stamped(old(data)@, "updated_at"@, now),
                        "created_at"@,
                        now,
                    ));
                }
            }
        }
    }

    /// Compile a read: the conjoined filter, the sort, pagination as the
    /// driver takes it (zero meaning unset), and the projection. The
    /// accumulated query state is read once and reset.
    pub fn find_plan(&mut self) -> (p: FindPlan)
        requires
            old(self).wf(),
        ensures
            final(self).wf(),
            filter_ok(p.filter, old(self).query_builder.wheres@),
            p.sort == old(self).query_builder.sort,
            p.skip == if old(self).query_builder.skip > 0 {
                Some(old(self).query_builder.skip as u64)
            } else {
                None::<u64>
            },
            p.limit == if old(self).query_builder.limit > 0 {
                Some(old(self).query_builder.limit as i64)
            } else {
                None::<i64>
            },
            p.projection == old(self).query_builder.select,
            final(self).collection_name == old(self).collection_name,
            final(self).add_times == old(self).add_times,
            final(self).columns == old(self).columns,
            final(self).query_builder.is_reset(),
    {
        let mut qb = QueryBuilder::new();
        core::mem::swap(&mut qb, &mut self.query_builder);
        let filter = and_filter(qb.wheres);
        let skip = if qb.skip > 0 {
            Some(qb.skip as u64)
        } else {
            None
        };
        let limit = if qb.limit > 0 {
            Some(qb.limit as i64)
        } else {
            None
        };
        FindPlan { filter, sort: qb.sort, skip, limit, projection: qb.select }
    }

    /// Compile a first-match read: the limit narrows to one, the rest is the
    /// read plan.
    pub fn first_plan(&mut self) -> (p: FindPlan)
        requires
            old(self).wf(),
        ensures
            final(self).wf(),
            filter_ok(p.filter, old(self).query_builder.wheres@),
            p.sort == old(self).query_builder.sort,
            p.skip == if old(self).query_builder.skip > 0 {
                Some(old(self).query_builder.skip as u64)
            } else {
                None::<u64>
            },
            p.limit == Some(1i64),
            p.projection == old(self).query_builder.select,
            final(self).collection_name == old(self).collection_name,
            final(self).add_times == old(self).add_times,
            final(self).columns == old(self).columns,
            final(self).query_builder.is_reset(),
    {
        self.query_builder.limit = 1;
        self.find_plan()
    }

    /// Compile a count: the conjoined filter, skip and limit as count
    /// options (zero meaning unset). The accumulated query state is read
    /// once and reset.
    pub fn count_plan(&mut self) -> (p: CountPlan)
        requires
            old(self).wf(),
        ensures
            final(self).wf(),
            filter_ok(p.filter, old(self).query_builder.wheres@),
            p.skip == if old(self).query_builder.skip > 0 {
                Some(old(self).query_builder.skip as u64)
            } else {
                None::<u64>
            },
            p.limit == if old(self).query_builder.limit > 0 {
                Some(old(self).query_builder.limit as u64)
            } else {
                None::<u64>
            },
            final(self).collection_name == old(self).collection_name,
            final(self).add_times == old(self).add_times,
            final(self).columns == old(self).columns,
            final(self).query_builder.is_reset(),
    {
        let mut qb = QueryBuilder::new();
        core::mem::swap(&mut qb, &mut self.query_builder);
        let filter = and_filter(qb.wheres);
        let skip = if qb.skip > 0 {
            Some(qb.skip as u64)
        } else {
            None
        };
        let limit = if qb.limit > 0 {
            Some(qb.limit as u64)
        } else {
            None
        };
        CountPlan { filter, skip, limit }
    }

    /// Compile a distinct-values query: just the conjoined filter. The
    /// accumulated query state is read once and reset.
    pub fn distinct_plan(&mut self) -> (f: Doc)
        requires
            old(self).wf(),
        ensures
            final(self).wf(),
            filter_ok(f, old(self).query_builder.wheres@),
            final(self).collection_name == old(self).collection_name,
            final(self).add_times == old(self).add_times,
            final(self).columns == old(self).columns,
            final(self).query_builder.is_reset(),
    {
        let mut qb = QueryBuilder::new();
        core::mem::swap(&mut qb, &mut self.query_builder);
        and_filter(qb.wheres)
    }

    /// Compile a delete. At least one filter clause is required: with none
    /// set this fails fast, before anything reaches the database.
    pub fn delete_plan(&mut self) -> (r: Result<DeletePlan, UsageError>)
        requires
            old(self).wf(),
        ensures
            final(self).wf(),
            old(self).query_builder.wheres@.len() == 0 <==> r == Result::<
                DeletePlan,
                UsageError,
            >::Err(UsageError::FilterRequired),
            match r {
                Ok(p) => {
                    &&& filter_ok(p.filter, old(self).query_builder.wheres@)
                    &&& p.many == old(self).query_builder.all
                    &&& p.sort == old(self).query_builder.sort
                    &&& final(self).collection_name == old(self).collection_name
                    &&& final(self).add_times == old(self).add_times
                    &&& final(self).columns == old(self).columns
                    &&& final(self).query_builder.is_reset()
                },
                Err(e) => e == UsageError::FilterRequired && *final(self) == *old(self),
            },
    {
        if self.query_builder.wheres.is_empty() {
            return Err(UsageError::FilterRequired);
        }
        let mut qb = QueryBuilder::new();
        core::mem::swap(&mut qb, &mut self.query_builder);
        let filter = and_filter(qb.wheres);
        Ok(DeletePlan { filter, many: qb.all, sort: qb.sort })
    }

    /// Compile an update of the given payload at the given moment. At least
    /// one filter clause is required: with none set this fails fast, before
    /// anything reaches the database.
    pub fn update_plan(&mut self, data: Doc, now: i64) -> (r: Result<UpdatePlan, UsageError>)
        requires
            old(self).wf(),
            data.wf(),
            has_operator_key(data@) ==> all_values_docs(data@),
        ensures
            final(self).wf(),
            old(self).query_builder.wheres@.len() == 0 <==> r == Result::<
                UpdatePlan,
                UsageError,
            >::Err(UsageError::FilterRequired),
            match r {
                Ok(p) => {
                    &&& filter_ok(p.filter, old(self).query_builder.wheres@)
                    &&& p.many == old(self).query_builder.all
                    &&& p.upsert == old(self).query_builder.upsert
                    &&& p.sort == old(self).query_builder.sort
                    &&& final(self).collection_name == old(self).collection_name
                    &&& final(self).add_times == old(self).add_times
                    &&& final(self).columns == old(self).columns
                    &&& final(self).query_builder.is_reset()
                    &&& p.update.wf()
                    &&& update_payload_ok(
                        data@,
                        p.update@,
                        old(self).columns.cols_seq(),
                        old(self).add_times,
                        old(self).query_builder.upsert,
                        now,
                    )
                },
                Err(e) => e == UsageError::FilterRequired && *final(self) == *old(self),
            },
    {
        if self.query_builder.wheres.is_empty() {
            return Err(UsageError::FilterRequired);
        }
        proof {
            reveal_strlit("$set");
            reveal_strlit("$setOnInsert");
            assert("$set"@.len() == 4);
            assert("$setOnInsert"@.len() == 12);
            assert("$set"@ != "$setOnInsert"@);
        }
        let ghost m0 = data@;
        let ghost cols = self.columns.cols_seq();
        let ghost add_times = self.add_times;
        let ghost upsert = self.query_builder.upsert;
        let is_opt = detect_operator(&data);
        let mut data = data;
        self.rename_field(&mut data, is_opt);
        if !is_opt {
            let inner = data;
            let mut wrapped = Doc::new();
            wrapped.insert("$set", Value::Doc(inner));
            data = wrapped;
        }
        let ghost renamed = data@;
        if self.add_times {
            proof {
                if renamed.contains_key("$set"@) {
                    assert(is_opt ==> m0.contains_key("$set"@));
                }
                if renamed.contains_key("$setOnInsert"@) {
                    assert(is_opt ==> m0.contains_key("$setOnInsert"@));
                }
            }
            let sub = match data.take("$set") {
                Some(Value::Doc(d)) => d,
                Some(_) => {
                    proof {
                        assert(false);
                    }
                    vstd::pervasive::unreached()
                },
                None => Doc::new(),
            };
            let mut sub = sub;
            sub.insert("updated_at", Value::DateTime(now));
            data.insert("$set", Value::Doc(sub));
            proof {
                assert(data@["$set"@]->Doc_0@ == (if renamed.contains_key("$set"@) {
                    renamed["$set"@]->Doc_0@
                } else {
                    Map::<Seq<char>, Value>::empty()
                }).insert("updated_at"@, Value::DateTime(now)));
            }
            if self.query_builder.upsert {
                let ghost base2 = if renamed.contains_key("$setOnInsert"@) {
                    renamed["$setOnInsert"@]->Doc_0@
                } else {
                    Map::<Seq<char>, Value>::empty()
                };
                let sub2 = match data.take("$setOnInsert") {
                    Some(Value::Doc(d)) => d,
                    Some(_) => {
                        proof {
                            assert(false);
                        }
                        vstd::pervasive::unreached()
                    },
                    None => Doc::new(),
                };
                proof {
                    assert(sub2@ == base2);
                }
                let mut sub2 = sub2;
                sub2.insert("created_at", Value::DateTime(now));
                proof {
                    assert(sub2@ == base2.insert("created_at"@, Value::DateTime(now)));
                }
                data.insert("$setOnInsert", Value::Doc(sub2));
                proof {
                    assert(data@["$setOnInsert"@]->Doc_0@ == base2.insert(
                        "created_at"@,
                        Value::DateTime(now),
                    ));
                }
            }
        }
        proof {
            assert forall|k: Seq<char>|
                k != "$set"@ && k != "$setOnInsert"@ implies (data@.contains_key(k)
                <==> renamed.contains_key(k)) && (renamed.contains_key(k) ==> data@[k]
                == renamed[k]) by {}
            if !is_opt {
                assert(renamed.dom() =~= Set::<Seq<char>>::empty().insert("$set"@));
                assert(data@.dom() =~= if add_times && upsert {
                    Set::<Seq<char>>::empty().insert("$set"@).insert("$setOnInsert"@)
                } else {
                    Set::<Seq<char>>::empty().insert("$set"@)
                });
                assert(renamed["$set"@]->Doc_0@ == rename_map(m0, cols));
                assert(data@["$set"@] is Doc);
            } else {
                assert(renamed.dom() == m0.dom());
                assert(data@.dom() =~= m0.dom().union(
                    if add_times {
                        Set::<Seq<char>>::empty().insert("$set"@)
                    } else {
                        Set::<Seq<char>>::empty()
                    },
                ).union(
                    if add_times && upsert {
                        Set::<Seq<char>>::empty().insert("$setOnInsert"@)
                    } else {
                        Set::<Seq<char>>::empty()
                    },
                ));
                assert forall|k: Seq<char>| #[trigger]
                    m0.contains_key(k) && k != "$set"@ && k != "$setOnInsert"@ implies data@[k]
                    is Doc && data@[k]->Doc_0@ == rename_map(m0[k]->Doc_0@, cols) by {
                    assert(renamed[k] is Doc);
                    assert(data@[k] == renamed[k]);
                }
                if m0.contains_key("$set"@) {
                    assert(renamed["$set"@]->Doc_0@ == rename_map(m0["$set"@]->Doc_0@, cols));
                }
                if m0.contains_key("$setOnInsert"@) {
                    assert(renamed["$setOnInsert"@]->Doc_0@ == rename_map(
                        m0["$setOnInsert"@]->Doc_0@,
                        cols,
                    ));
                }
            }
            assert(update_payload_ok(m0, data@, cols, add_times, upsert, now));
        }
        let mut qb = QueryBuilder::new();
        core::mem::swap(&mut qb, &mut self.query_builder);
        let filter = and_filter(qb.wheres);
        Ok(UpdatePlan { filter, update: data, many: qb.all, upsert: qb.upsert, sort: qb.sort })
    }
}

/// The summary document a multi-document update hands back.
pub fn update_many_result(modified_count: u64) -> (d: Doc)
    ensures
        d.wf(),
        d@.dom() == Set::<Seq<char>>::empty().insert("modified_count"@),
        d@["modified_count"@] is Str,
        d@["modified_count"@]->Str_0@ == spec_decimal(modified_count as nat),
{
    let mut d = Doc::new();
    d.insert("modified_count", Value::Str(u64_to_string(modified_count)));
    proof {
        assert(d@.dom() =~= Set::<Seq<char>>::empty().insert("modified_count"@));
    }
    d
}

/// The summary document a multi-document delete hands back.
pub fn delete_many_result(deleted_count: u64) -> (d: Doc)
    ensures
        d.wf(),
        d@.dom() == Set::<Seq<char>>::empty().insert("deleted_count"@),
        d@["deleted_count"@] is Str,
        d@["deleted_count"@]->Str_0@ == spec_decimal(deleted_count as nat),
{
    let mut d = Doc::new();
    d.insert("deleted_count", Value::Str(u64_to_string(deleted_count)));
    proof {
        assert(d@.dom() =~= Set::<Seq<char>>::empty().insert("deleted_count"@));
    }
    d
}

/// Whether a column is the plain lazy declaration of the given field.
pub open spec fn is_lazy_attr(a: ColumnAttr, id: Seq<char>) -> bool {
    !a.asc && !a.desc && !a.unique && !a.sphere2d && a.text is None && !a.hidden && (match a.name {
        Some(w) => w@ == id,
        None => false,
    })
}

} // verus!
