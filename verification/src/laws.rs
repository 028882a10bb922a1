//! Laws of the transcoder: writing a record out (identifier to wire name)
//! and reading it back through the template overlay reconstructs declared
//! fields, masks hidden ones to their defaults, and honours explicit
//! visibility overrides.

use vstd::prelude::*;

use crate::column::ColumnAttr;
use crate::doc::Value;
use crate::schema::wire_of;
use crate::transcode::{clear_fold, clear_step, hidden_of, lemma_hidden_of_contains, rename_map,
    rename_step};

verus! {

/// The identifier of the column at a position.
pub open spec fn col_id(cols: Seq<(String, ColumnAttr)>, i: int) -> Seq<char> {
    cols[i].0@
}

/// The wire name of the column at a position.
pub open spec fn col_wire(cols: Seq<(String, ColumnAttr)>, i: int) -> Seq<char> {
    wire_of(cols[i].0@, cols[i].1)
}

/// Field identifiers are pairwise distinct.
pub open spec fn ids_distinct(cols: Seq<(String, ColumnAttr)>) -> bool {
    forall|i: int, j: int|
        0 <= i < j < cols.len() ==> #[trigger] col_id(cols, i) != #[trigger] col_id(cols, j)
}

/// A sane schema: identifiers are pairwise distinct, no column's wire name
/// collides with another column's identifier, and wire names are pairwise
/// distinct.
pub open spec fn schema_ok(cols: Seq<(String, ColumnAttr)>) -> bool {
    ids_distinct(cols) && (forall|i: int, j: int|
        0 <= i < cols.len() && 0 <= j < cols.len() && i != j ==> #[trigger] col_wire(cols, i)
            != #[trigger] col_id(cols, j)) && (forall|i: int, j: int|
        0 <= i < cols.len() && 0 <= j < cols.len() && i != j ==> #[trigger] col_wire(cols, i)
            != #[trigger] col_wire(cols, j))
}

/// Every key of the document is a declared identifier.
pub open spec fn keys_declared(m: Map<Seq<char>, Value>, cols: Seq<(String, ColumnAttr)>) -> bool {
    forall|k: Seq<char>| #[trigger] m.contains_key(k) ==> exists|i: int|
        0 <= i < cols.len() && col_id(cols, i) == k
}

/// A map holds a key with the same value as another map does.
pub open spec fn same_at(
    a: Map<Seq<char>, Value>,
    b: Map<Seq<char>, Value>,
    k: Seq<char>,
) -> bool {
    (a.contains_key(k) <==> b.contains_key(k)) && (a.contains_key(k) ==> a[k] == b[k])
}

/// After renaming the first `l` columns: each processed column's value sits
/// under its wire name exactly when the record had the field; unprocessed
/// identifiers are untouched; and no key exists beyond declared identifiers
/// and processed wire names.
proof fn lemma_rename_prefix(cols: Seq<(String, ColumnAttr)>, m: Map<Seq<char>, Value>, l: int)
    requires
        schema_ok(cols),
        keys_declared(m, cols),
        0 <= l <= cols.len(),
    ensures
        forall|i: int|
            0 <= i < l ==> (m.contains_key(col_id(cols, i)) ==> rename_map(
                m,
                cols.take(l),
            ).contains_key(#[trigger] col_wire(cols, i)) && rename_map(m, cols.take(l))[col_wire(
                cols,
                i,
            )] == m[col_id(cols, i)]),
        forall|i: int|
            0 <= i < l ==> (!m.contains_key(col_id(cols, i)) ==> !rename_map(
                m,
                cols.take(l),
            ).contains_key(#[trigger] col_wire(cols, i))),
        forall|i: int|
            l <= i < cols.len() ==> same_at(rename_map(m, cols.take(l)), m, #[trigger] col_id(
                cols,
                i,
            )),
        forall|k: Seq<char>| #[trigger]
            rename_map(m, cols.take(l)).contains_key(k) ==> (exists|i: int|
                0 <= i < cols.len() && col_id(cols, i) == k) || (exists|i: int|
                0 <= i < l && col_wire(cols, i) == k),
    decreases l,
{
    if l == 0 {
        assert(cols.take(0) =~= Seq::<(String, ColumnAttr)>::empty());
        assert(rename_map(m, cols.take(0)) == m);
    } else {
        lemma_rename_prefix(cols, m, l - 1);
        let prev = rename_map(m, cols.take(l - 1));
        let cur = rename_map(m, cols.take(l));
        assert(cols.take(l).drop_last() =~= cols.take(l - 1));
        assert(cols.take(l).last() == cols[l - 1]);
        assert(cur == rename_step(prev, col_id(cols, l - 1), cols[l - 1].1));
        let id = col_id(cols, l - 1);
        let w = col_wire(cols, l - 1);
        match cols[l - 1].1.name {
            Some(wn) => {
                if wn@ != id && prev.contains_key(id) {
                    assert(cur == prev.remove(id).insert(wn@, prev[id]));
                    assert(wn@ == w);
                    assert(same_at(prev, m, id));
                    assert(cur[w] == m[id]);
                    assert forall|i: int|
                        0 <= i < l - 1 && m.contains_key(col_id(cols, i)) implies cur.contains_key(
                        #[trigger] col_wire(cols, i),
                    ) && cur[col_wire(cols, i)] == m[col_id(cols, i)] by {
                        assert(col_wire(cols, i) != id);
                        assert(col_wire(cols, i) != w);
                    }
                    assert forall|i: int|
                        0 <= i < l - 1 && !m.contains_key(col_id(cols, i))
                        implies !cur.contains_key(#[trigger] col_wire(cols, i)) by {
                        assert(col_wire(cols, i) != w);
                    }
                    assert forall|i: int| l <= i < cols.len() implies same_at(
                        cur,
                        m,
                        #[trigger] col_id(cols, i),
                    ) by {
                        assert(col_id(cols, i) != id);
                        assert(col_id(cols, i) != w);
                    }
                } else {
                    if wn@ != id {
                        // the record has no such field; nothing moves, and its
                        // wire name cannot be present at all
                        assert(!m.contains_key(id));
                        assert(cur == prev);
                        assert(!cur.contains_key(w)) by {
                            if cur.contains_key(w) {
                                if exists|i: int| 0 <= i < cols.len() && col_id(cols, i) == w {
                                    let i = choose|i: int|
                                        0 <= i < cols.len() && col_id(cols, i) == w;
                                    assert(i != l - 1);
                                    assert(col_wire(cols, l - 1) != col_id(cols, i));
                                } else {
                                    let i = choose|i: int| 0 <= i < l - 1 && col_wire(cols, i) == w;
                                    assert(col_wire(cols, i) != col_wire(cols, l - 1));
                                }
                            }
                        }
                    } else {
                        assert(cur == prev);
                        assert(w == id);
                        assert(same_at(prev, m, id));
                    }
                }
            },
            None => {
                assert(cur == prev);
                assert(w == id);
                assert(same_at(prev, m, id));
            },
        }
    }
}

/// After overlaying the first `l` columns: each processed, unhidden
/// column's identifier carries the stored wire value when the stored
/// document has one; everything else in the template is untouched. The
/// stored document is only read, so every column sees it whole.
proof fn lemma_clear_prefix(
    cols: Seq<(String, ColumnAttr)>,
    t0: Map<Seq<char>, Value>,
    d0: Map<Seq<char>, Value>,
    hidden: Seq<Seq<char>>,
    l: int,
)
    requires
        ids_distinct(cols),
        0 <= l <= cols.len(),
    ensures
        forall|i: int|
            0 <= i < l ==> if !hidden.contains(col_id(cols, i)) && d0.contains_key(
                col_wire(cols, i),
            ) {
                clear_fold(t0, d0, cols.take(l), hidden).contains_key(#[trigger] col_id(cols, i))
                    && clear_fold(t0, d0, cols.take(l), hidden)[col_id(cols, i)] == d0[col_wire(
                    cols,
                    i,
                )]
            } else {
                same_at(clear_fold(t0, d0, cols.take(l), hidden), t0, col_id(cols, i))
            },
        forall|k: Seq<char>|
            (forall|i: int| 0 <= i < l ==> #[trigger] col_id(cols, i) != k) ==> same_at(
                clear_fold(t0, d0, cols.take(l), hidden),
                t0,
                k,
            ),
    decreases l,
{
    if l == 0 {
        assert(cols.take(0) =~= Seq::<(String, ColumnAttr)>::empty());
    } else {
        lemma_clear_prefix(cols, t0, d0, hidden, l - 1);
        let prev = clear_fold(t0, d0, cols.take(l - 1), hidden);
        let cur = clear_fold(t0, d0, cols.take(l), hidden);
        assert(cols.take(l).drop_last() =~= cols.take(l - 1));
        assert(cols.take(l).last() == cols[l - 1]);
        assert(cur == clear_step(prev, d0, col_id(cols, l - 1), cols[l - 1].1, hidden));
        let id = col_id(cols, l - 1);
        let w = col_wire(cols, l - 1);
        assert(wire_of(cols[l - 1].0@, cols[l - 1].1) == w);
        assert forall|i: int| 0 <= i < l implies (if !hidden.contains(col_id(cols, i))
            && d0.contains_key(col_wire(cols, i)) {
            cur.contains_key(#[trigger] col_id(cols, i)) && cur[col_id(cols, i)] == d0[col_wire(
                cols,
                i,
            )]
        } else {
            same_at(cur, t0, col_id(cols, i))
        }) by {
            if i < l - 1 {
                assert(col_id(cols, i) != id);
            } else {
                if !hidden.contains(id) && !d0.contains_key(w) {
                    assert(forall|j: int| 0 <= j < l - 1 ==> #[trigger] col_id(cols, j) != id);
                    assert(same_at(prev, t0, id));
                }
                if hidden.contains(id) {
                    assert(forall|j: int| 0 <= j < l - 1 ==> #[trigger] col_id(cols, j) != id);
                    assert(same_at(prev, t0, id));
                }
            }
        }
        assert forall|k: Seq<char>|
            (forall|i: int| 0 <= i < l ==> #[trigger] col_id(cols, i) != k) implies same_at(
            cur,
            t0,
            k,
        ) by {
            assert(forall|i: int| 0 <= i < l - 1 ==> #[trigger] col_id(cols, i) != k);
            assert(same_at(prev, t0, k));
            assert(col_id(cols, l - 1) != k);
        }
    }
}

/// Masking alone. A hidden, not-explicitly-visible column keeps the
/// template's value in the reconstruction, whatever the stored document
/// holds at its wire name; only distinct field identifiers are needed.
pub proof fn lemma_masking_hides(
    cols: Seq<(String, ColumnAttr)>,
    d0: Map<Seq<char>, Value>,
    t0: Map<Seq<char>, Value>,
    hidden: Seq<Seq<char>>,
    i: int,
)
    requires
        ids_distinct(cols),
        0 <= i < cols.len(),
        hidden.contains(col_id(cols, i)),
    ensures
        same_at(clear_fold(t0, d0, cols, hidden), t0, col_id(cols, i)),
{
    let n = cols.len() as int;
    lemma_clear_prefix(cols, t0, d0, hidden, n);
    assert(cols.take(n) =~= cols);
}

/// Masking and renaming round trip. Write a record document out (identifiers
/// moved to wire names), read it back by overlaying a default template: a
/// declared field that is not hidden comes back with the record's own value;
/// a hidden or absent field keeps whatever the template holds for it.
pub proof fn lemma_mask_round_trip(
    cols: Seq<(String, ColumnAttr)>,
    m: Map<Seq<char>, Value>,
    t0: Map<Seq<char>, Value>,
    hidden: Seq<Seq<char>>,
    i: int,
)
    requires
        schema_ok(cols),
        keys_declared(m, cols),
        0 <= i < cols.len(),
    ensures
        !hidden.contains(col_id(cols, i)) && m.contains_key(col_id(cols, i)) ==> {
            &&& clear_fold(t0, rename_map(m, cols), cols, hidden).contains_key(col_id(cols, i))
            &&& clear_fold(t0, rename_map(m, cols), cols, hidden)[col_id(cols, i)] == m[col_id(
                cols,
                i,
            )]
        },
        !hidden.contains(col_id(cols, i)) && !m.contains_key(col_id(cols, i)) ==> same_at(
            clear_fold(t0, rename_map(m, cols), cols, hidden),
            t0,
            col_id(cols, i),
        ),
        hidden.contains(col_id(cols, i)) ==> same_at(
            clear_fold(t0, rename_map(m, cols), cols, hidden),
            t0,
            col_id(cols, i),
        ),
{
    let n = cols.len() as int;
    lemma_rename_prefix(cols, m, n);
    assert(cols.take(n) =~= cols);
    let written = rename_map(m, cols);
    lemma_clear_prefix(cols, t0, written, hidden, n);
}

/// Masking with a visibility override. For a hidden column whose value the
/// record holds: without the override the read-back keeps the template's
/// default; with the column named in the visible list the stored value comes
/// back.
pub proof fn lemma_masking_visibility(
    cols: Seq<(String, ColumnAttr)>,
    m: Map<Seq<char>, Value>,
    t0: Map<Seq<char>, Value>,
    visible: Seq<Seq<char>>,
    i: int,
)
    requires
        schema_ok(cols),
        keys_declared(m, cols),
        0 <= i < cols.len(),
        cols[i].1.hidden,
        m.contains_key(col_id(cols, i)),
    ensures
        !visible.contains(col_id(cols, i)) ==> same_at(
            clear_fold(
                t0,
                rename_map(m, cols),
                cols,
                hidden_of(cols, visible),
            ),
            t0,
            col_id(cols, i),
        ),
        visible.contains(col_id(cols, i)) ==> {
            &&& clear_fold(
                t0,
                rename_map(m, cols),
                cols,
                hidden_of(cols, visible),
            ).contains_key(col_id(cols, i))
            &&& clear_fold(t0, rename_map(m, cols), cols, hidden_of(cols, visible), )[col_id(
                cols,
                i,
            )] == m[col_id(cols, i)]
        },
{
    let hidden = hidden_of(cols, visible);
    lemma_hidden_of_contains(cols, visible, col_id(cols, i));
    if visible.contains(col_id(cols, i)) {
        assert(!hidden.contains(col_id(cols, i)));
    } else {
        assert(cols[i].0@ == col_id(cols, i));
        assert(hidden.contains(col_id(cols, i)));
    }
    lemma_mask_round_trip(cols, m, t0, hidden, i);
}

} // verus!
