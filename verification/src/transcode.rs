//! The field transcoder: rewrites outbound documents from declared field
//! identifiers to wire names, detects operator-form payloads, computes the
//! hidden-field set of a read, and reconstructs inbound documents against a
//! default-valued template so that hidden or absent fields keep defaults.

use vstd::prelude::*;

use crate::column::ColumnAttr;
use crate::doc::{dup_value, lemma_val_eq_refl, val_eq, Doc, Value};
use crate::kv::str_views;
use crate::schema::{wire_of, Schema};

verus! {

/// One renaming step: move the value under `id` to the column's wire name,
/// when an override distinct from the identifier is declared.
pub open spec fn rename_step(
    m: Map<Seq<char>, Value>,
    id: Seq<char>,
    attr: ColumnAttr,
) -> Map<Seq<char>, Value> {
    match attr.name {
        Some(w) => if w@ != id && m.contains_key(id) {
            m.remove(id).insert(w@, m[id])
        } else {
            m
        },
        None => m,
    }
}

/// The renaming pass over a whole document, column by column.
pub open spec fn rename_map(
    m: Map<Seq<char>, Value>,
    cols: Seq<(String, ColumnAttr)>,
) -> Map<Seq<char>, Value>
    decreases cols.len(),
{
    if cols.len() == 0 {
        m
    } else {
        rename_step(rename_map(m, cols.drop_last()), cols.last().0@, cols.last().1)
    }
}

/// Whether a top-level key marks an update-operator payload.
pub open spec fn is_operator_key(k: Seq<char>) -> bool {
    k.len() > 0 && k[0] == '$'
}

/// Whether any top-level key of the document is an operator key.
pub open spec fn has_operator_key(m: Map<Seq<char>, Value>) -> bool {
    exists|k: Seq<char>| #[trigger] m.contains_key(k) && is_operator_key(k)
}

/// Every top-level value is itself a well-formed document.
pub open spec fn all_values_docs(m: Map<Seq<char>, Value>) -> bool {
    forall|k: Seq<char>| #[trigger] m.contains_key(k) ==> m[k] is Doc && m[k]->Doc_0.wf()
}

/// Whether one of the strings reads as the given text.
pub fn contains_str(v: &Vec<String>, s: &str) -> (b: bool)
    ensures
        b == str_views(v@).contains(s@),
{
    let k: String = s.to_owned();
    let n = v.len();
    let mut i: usize = 0;
    while i < n
        invariant
            n == v@.len(),
            0 <= i <= n,
            k@ == s@,
            forall|j: int| 0 <= j < i ==> str_views(v@)[j] != s@,
        decreases n - i,
    {
        let hit = v[i] == k;
        if hit {
            proof {
                assert(str_views(v@)[i as int] == s@);
            }
            return true;
        }
        i = i + 1;
    }
    proof {
        if str_views(v@).contains(s@) {
            let j = choose|j: int| 0 <= j < str_views(v@).len() && str_views(v@)[j] == s@;
            assert(str_views(v@)[j] != s@);
        }
    }
    false
}

/// Rewrite a plain (non-operator) document from identifiers to wire names.
pub fn rename_plain(schema: &Schema, doc: &mut Doc)
    requires
        old(doc).wf(),
    ensures
        final(doc).wf(),
        final(doc)@ == rename_map(old(doc)@, schema.cols_seq()),
{
    let n = schema.len();
    let mut i: usize = 0;
    while i < n
        invariant
            doc.wf(),
            n == schema.cols_seq().len(),
            0 <= i <= n,
            doc@ == rename_map(old(doc)@, schema.cols_seq().take(i as int)),
        decreases n - i,
    {
        let col = schema.col_at(i);
        match &col.1.name {
            Some(w) => {
                let same = *w == col.0;
                if !same {
                    doc.rename_key(col.0.as_str(), w.as_str());
                }
            },
            None => {},
        }
        proof {
            let cs = schema.cols_seq();
            assert(cs.take((i + 1) as int).drop_last() =~= cs.take(i as int));
            assert(cs.take((i + 1) as int).last() == cs[i as int]);
        }
        i = i + 1;
    }
    proof {
        assert(schema.cols_seq().take(n as int) =~= schema.cols_seq());
    }
}

/// Rewrite an operator-form document: the renaming is applied one level
/// down, inside each operator's sub-document.
pub fn rename_operator(schema: &Schema, doc: &mut Doc)
    requires
        old(doc).wf(),
        all_values_docs(old(doc)@),
    ensures
        final(doc).wf(),
        final(doc)@.dom() == old(doc)@.dom(),
        forall|k: Seq<char>| #[trigger] old(doc)@.contains_key(k) ==> final(doc)@[k] is Doc
            && final(doc)@[k]->Doc_0.wf() && final(doc)@[k]->Doc_0@ == rename_map(
            old(doc)@[k]->Doc_0@,
            schema.cols_seq(),
        ),
{
    let ks = doc.keys();
    proof {
        old(doc).lemma_keys();
        old(doc).lemma_key_seq_distinct();
    }
    let n = ks.len();
    let mut i: usize = 0;
    while i < n
        invariant
            doc.wf(),
            old(doc).wf(),
            all_values_docs(old(doc)@),
            str_views(ks@) == old(doc).key_seq(),
            forall|k: Seq<char>| #[trigger] old(doc)@.contains_key(k) <==> old(
                doc,
            ).key_seq().contains(k),
            forall|a: int, b: int|
                0 <= a < b < old(doc).key_seq().len() ==> old(doc).key_seq()[a] != old(
                    doc,
                ).key_seq()[b],
            n == ks@.len(),
            0 <= i <= n,
            doc@.dom() =~= old(doc)@.dom(),
            forall|j: int| #![trigger str_views(ks@)[j]]
                0 <= j < i ==> doc@[str_views(ks@)[j]] is Doc
                    && doc@[str_views(ks@)[j]]->Doc_0.wf()
                    && doc@[str_views(ks@)[j]]->Doc_0@ == rename_map(
                    old(doc)@[str_views(ks@)[j]]->Doc_0@,
                    schema.cols_seq(),
                ),
            forall|j: int| #![trigger str_views(ks@)[j]]
                i <= j < n ==> doc@[str_views(ks@)[j]] == old(doc)@[str_views(ks@)[j]],
        decreases n - i,
    {
        let ghost k_spec = str_views(ks@)[i as int];
        proof {
            assert(old(doc).key_seq().contains(k_spec));
            assert(old(doc)@.contains_key(k_spec));
        }
        let k = &ks[i];
        match doc.take(k.as_str()) {
            Some(v) => {
                match v {
                    Value::Doc(mut sub) => {
                        rename_plain(schema, &mut sub);
                        doc.insert(k.as_str(), Value::Doc(sub));
                        proof {
                            assert(doc@.dom() =~= old(doc)@.dom());
                            assert forall|j: int|
                                0 <= j < n && j != i implies doc@[#[trigger] str_views(ks@)[j]]
                                == doc@.remove(k_spec)[str_views(ks@)[j]] by {
                                if str_views(ks@)[j] == k_spec {
                                    assert(old(doc).key_seq()[j] == old(doc).key_seq()[i as int]);
                                }
                            }
                        }
                    },
                    _ => {
                        proof {
                            assert(false);
                        }
                    },
                }
            },
            None => {
                proof {
                    assert(false);
                }
            },
        }
        i = i + 1;
    }
    proof {
        assert forall|k: Seq<char>| #[trigger] old(doc)@.contains_key(k) implies doc@[k] is Doc
            && doc@[k]->Doc_0.wf() && doc@[k]->Doc_0@ == rename_map(
            old(doc)@[k]->Doc_0@,
            schema.cols_seq(),
        ) by {
            let j = choose|j: int|
                0 <= j < old(doc).key_seq().len() && old(doc).key_seq()[j] == k;
            assert(str_views(ks@)[j] == k);
        }
        assert(doc@.dom() =~= old(doc)@.dom());
    }
}

/// Whether any top-level key of the document is an operator key.
pub fn detect_operator(doc: &Doc) -> (b: bool)
    ensures
        b == has_operator_key(doc@),
{
    let ks = doc.keys();
    proof {
        doc.lemma_keys();
    }
    let n = ks.len();
    let mut i: usize = 0;
    while i < n
        invariant
            str_views(ks@) == doc.key_seq(),
            forall|k: Seq<char>| #[trigger] doc@.contains_key(k) <==> doc.key_seq().contains(k),
            n == ks@.len(),
            0 <= i <= n,
            forall|j: int| #![trigger str_views(ks@)[j]]
                0 <= j < i ==> !is_operator_key(str_views(ks@)[j]),
        decreases n - i,
    {
        let k = &ks[i];
        if k.as_str().unicode_len() > 0 {
            let c = k.as_str().get_char(0);
            if c == '$' {
                proof {
                    assert(is_operator_key(str_views(ks@)[i as int]));
                    assert(doc@.contains_key(str_views(ks@)[i as int]));
                }
                return true;
            }
        }
        proof {
            assert(!is_operator_key(str_views(ks@)[i as int]));
        }
        i = i + 1;
    }
    proof {
        if has_operator_key(doc@) {
            let k = choose|k: Seq<char>| doc@.contains_key(k) && is_operator_key(k);
            let j = choose|j: int| 0 <= j < doc.key_seq().len() && doc.key_seq()[j] == k;
            assert(str_views(ks@)[j] == k);
        }
    }
    false
}

/// The hidden-field names of one read: every column flagged hidden whose
/// identifier was not explicitly made visible.
pub open spec fn hidden_of(
    cols: Seq<(String, ColumnAttr)>,
    visible: Seq<Seq<char>>,
) -> Seq<Seq<char>>
    decreases cols.len(),
{
    if cols.len() == 0 {
        Seq::<Seq<char>>::empty()
    } else {
        let rest = hidden_of(cols.drop_last(), visible);
        if cols.last().1.hidden && !visible.contains(cols.last().0@) {
            rest.push(cols.last().0@)
        } else {
            rest
        }
    }
}

/// A name is hidden exactly when some column declares it hidden and the
/// visible list does not name it.
pub proof fn lemma_hidden_of_contains(
    cols: Seq<(String, ColumnAttr)>,
    visible: Seq<Seq<char>>,
    k: Seq<char>,
)
    ensures
        hidden_of(cols, visible).contains(k) <==> exists|i: int|
            0 <= i < cols.len() && (#[trigger] cols[i]).0@ == k && cols[i].1.hidden
                && !visible.contains(k),
    decreases cols.len(),
{
    if cols.len() == 0 {
    } else {
        lemma_hidden_of_contains(cols.drop_last(), visible, k);
        let rest = hidden_of(cols.drop_last(), visible);
        if cols.last().1.hidden && !visible.contains(cols.last().0@) {
            assert(hidden_of(cols, visible) == rest.push(cols.last().0@));
            if hidden_of(cols, visible).contains(k) {
                let j = choose|j: int|
                    0 <= j < hidden_of(cols, visible).len() && hidden_of(cols, visible)[j] == k;
                if j == rest.len() {
                    assert(cols[cols.len() - 1].0@ == k);
                } else {
                    assert(rest[j] == k);
                    assert(rest.contains(k));
                    let i = choose|i: int|
                        0 <= i < cols.drop_last().len() && (#[trigger] cols.drop_last()[i]).0@ == k
                            && cols.drop_last()[i].1.hidden && !visible.contains(k);
                    assert(cols[i].0@ == k && cols[i].1.hidden);
                }
            }
            if exists|i: int|
                0 <= i < cols.len() && (#[trigger] cols[i]).0@ == k && cols[i].1.hidden
                    && !visible.contains(k) {
                let i = choose|i: int|
                    0 <= i < cols.len() && (#[trigger] cols[i]).0@ == k && cols[i].1.hidden
                        && !visible.contains(k);
                if i == cols.len() - 1 {
                    assert(hidden_of(cols, visible)[rest.len() as int] == k);
                } else {
                    assert(cols.drop_last()[i] == cols[i]);
                    assert(rest.contains(k));
                    let j = choose|j: int| 0 <= j < rest.len() && rest[j] == k;
                    assert(hidden_of(cols, visible)[j] == k);
                }
            }
        } else {
            assert(hidden_of(cols, visible) == rest);
            if exists|i: int|
                0 <= i < cols.len() && (#[trigger] cols[i]).0@ == k && cols[i].1.hidden
                    && !visible.contains(k) {
                let i = choose|i: int|
                    0 <= i < cols.len() && (#[trigger] cols[i]).0@ == k && cols[i].1.hidden
                        && !visible.contains(k);
                if i == cols.len() - 1 {
                    assert(cols.last().1.hidden && !visible.contains(cols.last().0@));
                } else {
                    assert(cols.drop_last()[i] == cols[i]);
                }
            }
            if rest.contains(k) {
                let i = choose|i: int|
                    0 <= i < cols.drop_last().len() && (#[trigger] cols.drop_last()[i]).0@ == k
                        && cols.drop_last()[i].1.hidden && !visible.contains(k);
                assert(cols[i].0@ == k && cols[i].1.hidden);
            }
        }
    }
}

/// Collect the hidden-field names of one read.
pub fn hidden_fields(schema: &Schema, visible: &Vec<String>) -> (r: Vec<String>)
    ensures
        str_views(r@) == hidden_of(schema.cols_seq(), str_views(visible@)),
{
    let n = schema.len();
    let mut r: Vec<String> = Vec::new();
    let mut i: usize = 0;
    while i < n
        invariant
            n == schema.cols_seq().len(),
            0 <= i <= n,
            str_views(r@) =~= hidden_of(schema.cols_seq().take(i as int), str_views(visible@)),
        decreases n - i,
    {
        let col = schema.col_at(i);
        if col.1.hidden && !contains_str(visible, col.0.as_str()) {
            r.push(col.0.clone());
        }
        proof {
            let cs = schema.cols_seq();
            assert(cs.take((i + 1) as int).drop_last() =~= cs.take(i as int));
            assert(cs.take((i + 1) as int).last() == cs[i as int]);
            assert(str_views(r@) =~= hidden_of(cs.take((i + 1) as int), str_views(visible@)));
        }
        i = i + 1;
    }
    proof {
        assert(schema.cols_seq().take(n as int) =~= schema.cols_seq());
    }
    r
}

/// One reconstruction step: copy the stored value under the column's wire
/// name onto its identifier in the template. The stored document is read,
/// never changed.
pub open spec fn clear_step(
    t: Map<Seq<char>, Value>,
    d0: Map<Seq<char>, Value>,
    id: Seq<char>,
    attr: ColumnAttr,
    hidden: Seq<Seq<char>>,
) -> Map<Seq<char>, Value> {
    if hidden.contains(id) {
        t
    } else {
        let w = wire_of(id, attr);
        if d0.contains_key(w) {
            t.insert(id, d0[w])
        } else {
            t
        }
    }
}

/// The reconstruction pass over all columns, in declaration order, each
/// reading its wire key from the one stored document.
pub open spec fn clear_fold(
    t: Map<Seq<char>, Value>,
    d0: Map<Seq<char>, Value>,
    cols: Seq<(String, ColumnAttr)>,
    hidden: Seq<Seq<char>>,
) -> Map<Seq<char>, Value>
    decreases cols.len(),
{
    if cols.len() == 0 {
        t
    } else {
        clear_step(
            clear_fold(t, d0, cols.drop_last(), hidden),
            d0,
            cols.last().0@,
            cols.last().1,
            hidden,
        )
    }
}

/// Reconstruct a full record document: start from a default-valued template
/// and overlay, for every non-hidden column whose wire name the stored
/// document holds, a copy of that stored value onto the column's
/// identifier. Absent or hidden fields keep the template's defaults. Each
/// field of the result is structurally equal to what the fold prescribes
/// (copied values are fresh, so equality is structural, not identity).
pub fn clear_doc(schema: &Schema, data: &Doc, template: Doc, hidden: &Vec<String>) -> (r: Doc)
    requires
        data.wf(),
        template.wf(),
    ensures
        r.wf(),
        r@.dom() == clear_fold(template@, data@, schema.cols_seq(), str_views(hidden@)).dom(),
        forall|k: Seq<char>| #[trigger]
            r@.contains_key(k) ==> val_eq(
                r@[k],
                clear_fold(template@, data@, schema.cols_seq(), str_views(hidden@))[k],
            ),
{
    let mut t = template;
    let ghost t0 = t@;
    let ghost d0 = data@;
    proof {
        assert forall|k: Seq<char>| #[trigger] t0.contains_key(k) implies val_eq(
            t0[k],
            t0[k],
        ) by {
            lemma_val_eq_refl(t0[k]);
        }
        assert(schema.cols_seq().take(0) =~= Seq::<(String, ColumnAttr)>::empty());
    }
    let n = schema.len();
    let mut i: usize = 0;
    while i < n
        invariant
            t.wf(),
            data.wf(),
            d0 == data@,
            n == schema.cols_seq().len(),
            0 <= i <= n,
            t@.dom() =~= clear_fold(t0, d0, schema.cols_seq().take(i as int), str_views(
                hidden@,
            )).dom(),
            forall|k: Seq<char>| #[trigger]
                t@.contains_key(k) ==> val_eq(
                    t@[k],
                    clear_fold(t0, d0, schema.cols_seq().take(i as int), str_views(hidden@))[k],
                ),
        decreases n - i,
    {
        let ghost fold_before = clear_fold(t0, d0, schema.cols_seq().take(i as int), str_views(
            hidden@,
        ));
        let col = schema.col_at(i);
        if !contains_str(hidden, col.0.as_str()) {
            let wire: &String = match &col.1.name {
                Some(w) => w,
                None => &col.0,
            };
            match data.get(wire.as_str()) {
                Some(v) => {
                    let copy = dup_value(v);
                    t.insert(col.0.as_str(), copy);
                },
                None => {},
            }
        }
        proof {
            let cs = schema.cols_seq();
            assert(cs.take((i + 1) as int).drop_last() =~= cs.take(i as int));
            assert(cs.take((i + 1) as int).last() == cs[i as int]);
            let fold_after = clear_fold(t0, d0, cs.take((i + 1) as int), str_views(hidden@));
            assert(fold_after == clear_step(fold_before, d0, cs[i as int].0@, cs[i as int].1,
                str_views(hidden@)));
            assert(t@.dom() =~= fold_after.dom());
        }
        i = i + 1;
    }
    proof {
        assert(schema.cols_seq().take(n as int) =~= schema.cols_seq());
    }
    t
}

} // verus!
