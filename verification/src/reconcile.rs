//! The index reconciler: diffs the indexes actually present on a collection
//! against the indexes the schema declares, and plans the drops and batched
//! creations that converge them. The identifier index is always exempt.

use vstd::prelude::*;

use crate::column::ColumnAttr;
use crate::kv::str_views;
use crate::schema::Schema;

verus! {

/// The options block of a live index descriptor, as enumerated.
#[derive(Debug)]
pub struct IndexOpts {
    pub name: Option<String>,
    pub has_language: bool,
}

/// One live index descriptor: its key field names and its options.
#[derive(Debug)]
pub struct LiveIndex {
    pub keys: Vec<String>,
    pub options: Option<IndexOpts>,
}

/// An index the schema asks for.
#[derive(Debug, PartialEq)]
pub enum DeclaredIndex {
    Text { field: String, unique: bool, language: String },
    Sphere2d { field: String, unique: bool },
    Scalar { field: String, unique: bool, descending: bool },
}

/// What a declared index says, abstractly.
pub enum IndexView {
    Text { field: Seq<char>, unique: bool, language: Seq<char> },
    Sphere2d { field: Seq<char>, unique: bool },
    Scalar { field: Seq<char>, unique: bool, descending: bool },
}

impl View for DeclaredIndex {
    type V = IndexView;

    open spec fn view(&self) -> IndexView {
        match self {
            DeclaredIndex::Text { field, unique, language } => IndexView::Text {
                field: field@,
                unique: *unique,
                language: language@,
            },
            DeclaredIndex::Sphere2d { field, unique } => IndexView::Sphere2d {
                field: field@,
                unique: *unique,
            },
            DeclaredIndex::Scalar { field, unique, descending } => IndexView::Scalar {
                field: field@,
                unique: *unique,
                descending: *descending,
            },
        }
    }
}

/// The reconciliation plan: indexes to create in one batch, and the declared
/// names of orphaned indexes to drop.
#[derive(Debug)]
pub struct ReconcilePlan {
    pub creates: Vec<DeclaredIndex>,
    pub drops: Vec<Option<String>>,
}

/// The view of an optional string.
pub open spec fn opt_view(o: Option<String>) -> Option<Seq<char>> {
    match o {
        Some(s) => Some(s@),
        None => None,
    }
}

/// The views of a list of optional strings, in order.
pub open spec fn opt_views(os: Seq<Option<String>>) -> Seq<Option<Seq<char>>> {
    os.map_values(|o: Option<String>| opt_view(o))
}

/// A live descriptor's options, abstractly: its declared name and whether a
/// language marker is attached.
pub open spec fn live_opts(li: LiveIndex) -> Option<(Option<Seq<char>>, bool)> {
    match li.options {
        Some(o) => Some((opt_view(o.name), o.has_language)),
        None => None,
    }
}

/// The field names the schema wants indexed, in declaration order.
pub open spec fn desired_of(cols: Seq<(String, ColumnAttr)>) -> Seq<Seq<char>>
    decreases cols.len(),
{
    if cols.len() == 0 {
        Seq::<Seq<char>>::empty()
    } else {
        let rest = desired_of(cols.drop_last());
        if cols.last().1.spec_is_index() {
            rest.push(cols.last().0@)
        } else {
            rest
        }
    }
}

/// The index a column asks for: text when a language is attached, geo-sphere
/// on the geo flag, else a scalar index in the declared direction; each
/// carries the declared uniqueness.
pub open spec fn create_of(id: Seq<char>, attr: ColumnAttr) -> IndexView {
    match attr.text {
        Some(lang) => IndexView::Text { field: id, unique: attr.unique, language: lang@ },
        None => if attr.sphere2d {
            IndexView::Sphere2d { field: id, unique: attr.unique }
        } else {
            IndexView::Scalar { field: id, unique: attr.unique, descending: attr.desc }
        },
    }
}

/// The batched creations for the field names still wanted after the scan.
pub open spec fn creates_of(
    desired: Seq<Seq<char>>,
    am: Map<Seq<char>, ColumnAttr>,
) -> Seq<IndexView> {
    desired.map_values(|id: Seq<char>| create_of(id, am[id]))
}

/// The views of a list of declared indexes, in order.
pub open spec fn index_views(ds: Seq<DeclaredIndex>) -> Seq<IndexView> {
    ds.map_values(|d: DeclaredIndex| d@)
}

/// The scan's running state: field names still wanted, and drop names
/// collected so far.
pub struct ScanState {
    pub desired: Seq<Seq<char>>,
    pub drops: Seq<Option<Seq<char>>>,
}

/// Drop the first occurrence of a name, if any.
pub open spec fn remove_first(s: Seq<Seq<char>>, k: Seq<char>) -> Seq<Seq<char>>
    decreases s.len(),
{
    if s.len() == 0 {
        s
    } else if s[0] == k {
        s.drop_first()
    } else {
        seq![s[0]] + remove_first(s.drop_first(), k)
    }
}

/// One key of one live descriptor against the scan state. A wanted key is
/// crossed off. An unwanted key is an orphan: without a language marker its
/// declared name is the drop target; with one, a declared name equal to a
/// wanted field satisfies that field instead of being dropped.
pub open spec fn scan_key(
    st: ScanState,
    key: Seq<char>,
    opts: Option<(Option<Seq<char>>, bool)>,
) -> ScanState {
    if key == "_id"@ {
        st
    } else if st.desired.contains(key) {
        ScanState { desired: remove_first(st.desired, key), drops: st.drops }
    } else {
        match opts {
            None => st,
            Some((name, has_language)) => {
                if !has_language {
                    ScanState { desired: st.desired, drops: st.drops.push(name) }
                } else {
                    match name {
                        None => ScanState { desired: st.desired, drops: st.drops.push(None) },
                        Some(n) => if st.desired.contains(n) {
                            ScanState { desired: remove_first(st.desired, n), drops: st.drops }
                        } else {
                            ScanState { desired: st.desired, drops: st.drops.push(Some(n)) }
                        },
                    }
                }
            },
        }
    }
}

/// All keys of one live descriptor, in order.
pub open spec fn scan_keys(
    st: ScanState,
    keys: Seq<Seq<char>>,
    opts: Option<(Option<Seq<char>>, bool)>,
) -> ScanState
    decreases keys.len(),
{
    if keys.len() == 0 {
        st
    } else {
        scan_key(scan_keys(st, keys.drop_last(), opts), keys.last(), opts)
    }
}

/// All live descriptors, in order.
pub open spec fn scan_live(st: ScanState, live: Seq<LiveIndex>) -> ScanState
    decreases live.len(),
{
    if live.len() == 0 {
        st
    } else {
        scan_keys(
            scan_live(st, live.drop_last()),
            str_views(live.last().keys@),
            live_opts(live.last()),
        )
    }
}

/// The scan state reconciliation ends in.
pub open spec fn scan_result(cols: Seq<(String, ColumnAttr)>, live: Seq<LiveIndex>) -> ScanState {
    scan_live(ScanState { desired: desired_of(cols), drops: Seq::empty() }, live)
}

/// All key names of one descriptor except the identifier index key, in order.
pub open spec fn non_id_keys(keys: Seq<Seq<char>>) -> Seq<Seq<char>>
    decreases keys.len(),
{
    if keys.len() == 0 {
        Seq::<Seq<char>>::empty()
    } else {
        let rest = non_id_keys(keys.drop_last());
        if keys.last() == "_id"@ {
            rest
        } else {
            rest.push(keys.last())
        }
    }
}

/// All non-identifier key names across the live descriptors, in scan order.
pub open spec fn flat_keys(live: Seq<LiveIndex>) -> Seq<Seq<char>>
    decreases live.len(),
{
    if live.len() == 0 {
        Seq::<Seq<char>>::empty()
    } else {
        flat_keys(live.drop_last()) + non_id_keys(str_views(live.last().keys@))
    }
}

proof fn lemma_remove_first_distinct(s: Seq<Seq<char>>, k: Seq<char>)
    requires
        s.no_duplicates(),
        s.contains(k),
    ensures
        remove_first(s, k).no_duplicates(),
        forall|x: Seq<char>| #[trigger]
            remove_first(s, k).contains(x) <==> s.contains(x) && x != k,
    decreases s.len(),
{
    if s[0] == k {
        assert(remove_first(s, k) == s.drop_first());
        assert forall|x: Seq<char>| #[trigger]
            s.drop_first().contains(x) <==> s.contains(x) && x != k by {
            if s.drop_first().contains(x) {
                let i = choose|i: int| 0 <= i < s.drop_first().len() && s.drop_first()[i] == x;
                assert(s[i + 1] == x);
                assert(s[0] != s[i + 1]);
            }
            if s.contains(x) && x != k {
                let i = choose|i: int| 0 <= i < s.len() && s[i] == x;
                assert(i != 0);
                assert(s.drop_first()[i - 1] == x);
            }
        }
        assert(s.drop_first().no_duplicates());
    } else {
        assert(s.drop_first().contains(k)) by {
            let i = choose|i: int| 0 <= i < s.len() && s[i] == k;
            assert(i != 0);
            assert(s.drop_first()[i - 1] == k);
        }
        assert(s.drop_first().no_duplicates());
        lemma_remove_first_distinct(s.drop_first(), k);
        let r = seq![s[0]] + remove_first(s.drop_first(), k);
        assert(remove_first(s, k) == r);
        assert forall|x: Seq<char>| #[trigger] r.contains(x) <==> s.contains(x) && x != k by {
            if r.contains(x) {
                let i = choose|i: int| 0 <= i < r.len() && r[i] == x;
                if i == 0 {
                    assert(s[0] == x);
                } else {
                    assert(remove_first(s.drop_first(), k).contains(x));
                    assert(s.drop_first().contains(x));
                    let j = choose|j: int|
                        0 <= j < s.drop_first().len() && s.drop_first()[j] == x;
                    assert(s[j + 1] == x);
                }
            }
            if s.contains(x) && x != k {
                let i = choose|i: int| 0 <= i < s.len() && s[i] == x;
                if i == 0 {
                    assert(r[0] == x);
                } else {
                    assert(s.drop_first()[i - 1] == x);
                    assert(remove_first(s.drop_first(), k).contains(x));
                    let j = choose|j: int|
                        0 <= j < remove_first(s.drop_first(), k).len() && remove_first(
                            s.drop_first(),
                            k,
                        )[j] == x;
                    assert(r[j + 1] == x);
                }
            }
        }
        assert forall|a: int, b: int| 0 <= a < b < r.len() implies r[a] != r[b] by {
            if a == 0 {
                assert(remove_first(s.drop_first(), k).contains(r[b]));
                assert(s.drop_first().contains(r[b]));
                let j = choose|j: int|
                    0 <= j < s.drop_first().len() && s.drop_first()[j] == r[b];
                assert(s[j + 1] == r[b]);
                assert(s[0] != s[j + 1]);
            } else {
                assert(remove_first(s.drop_first(), k)[a - 1] == r[a]);
                assert(remove_first(s.drop_first(), k)[b - 1] == r[b]);
            }
        }
    }
}

proof fn lemma_scan_keys_set(
    st: ScanState,
    keys: Seq<Seq<char>>,
    opts: Option<(Option<Seq<char>>, bool)>,
)
    requires
        st.desired.no_duplicates(),
        non_id_keys(keys).no_duplicates(),
        forall|x: Seq<char>| #[trigger]
            non_id_keys(keys).contains(x) ==> st.desired.contains(x),
    ensures
        scan_keys(st, keys, opts).drops == st.drops,
        scan_keys(st, keys, opts).desired.no_duplicates(),
        forall|x: Seq<char>| #[trigger]
            scan_keys(st, keys, opts).desired.contains(x) <==> st.desired.contains(x)
                && !non_id_keys(keys).contains(x),
    decreases keys.len(),
{
    if keys.len() == 0 {
        assert(non_id_keys(keys).len() == 0);
    } else {
        let last = keys.last();
        let rest = non_id_keys(keys.drop_last());
        if last == "_id"@ {
            assert(non_id_keys(keys) == rest);
            lemma_scan_keys_set(st, keys.drop_last(), opts);
            assert(scan_keys(st, keys, opts) == scan_key(
                scan_keys(st, keys.drop_last(), opts),
                last,
                opts,
            ));
        } else {
            assert(non_id_keys(keys) == rest.push(last));
            assert forall|x: Seq<char>| #[trigger] rest.contains(x) implies non_id_keys(
                keys,
            ).contains(x) by {
                let i = choose|i: int| 0 <= i < rest.len() && rest[i] == x;
                assert(non_id_keys(keys)[i] == x);
            }
            assert(rest.no_duplicates()) by {
                assert(forall|a: int, b: int|
                    0 <= a < b < rest.len() ==> non_id_keys(keys)[a] == rest[a] && non_id_keys(
                        keys,
                    )[b] == rest[b]);
            }
            lemma_scan_keys_set(st, keys.drop_last(), opts);
            let mid = scan_keys(st, keys.drop_last(), opts);
            assert(non_id_keys(keys)[rest.len() as int] == last);
            assert(non_id_keys(keys).contains(last));
            assert(!rest.contains(last)) by {
                if rest.contains(last) {
                    let i = choose|i: int| 0 <= i < rest.len() && rest[i] == last;
                    assert(non_id_keys(keys)[i] == last);
                }
            }
            assert(mid.desired.contains(last));
            assert(scan_key(mid, last, opts) == ScanState {
                desired: remove_first(mid.desired, last),
                drops: mid.drops,
            });
            lemma_remove_first_distinct(mid.desired, last);
            assert forall|x: Seq<char>| #[trigger]
                scan_keys(st, keys, opts).desired.contains(x) <==> st.desired.contains(x)
                    && !non_id_keys(keys).contains(x) by {
                assert(non_id_keys(keys).contains(x) <==> rest.contains(x) || x == last) by {
                    if non_id_keys(keys).contains(x) && x != last {
                        let i = choose|i: int|
                            0 <= i < non_id_keys(keys).len() && non_id_keys(keys)[i] == x;
                        assert(i != rest.len());
                        assert(rest[i] == x);
                    }
                    if rest.contains(x) {
                        let i = choose|i: int| 0 <= i < rest.len() && rest[i] == x;
                        assert(non_id_keys(keys)[i] == x);
                    }
                }
            }
        }
    }
}

proof fn lemma_scan_live_set(st: ScanState, live: Seq<LiveIndex>)
    requires
        st.desired.no_duplicates(),
        flat_keys(live).no_duplicates(),
        forall|x: Seq<char>| #[trigger] flat_keys(live).contains(x) ==> st.desired.contains(x),
    ensures
        scan_live(st, live).drops == st.drops,
        scan_live(st, live).desired.no_duplicates(),
        forall|x: Seq<char>| #[trigger]
            scan_live(st, live).desired.contains(x) <==> st.desired.contains(x) && !flat_keys(
                live,
            ).contains(x),
    decreases live.len(),
{
    if live.len() == 0 {
        assert(flat_keys(live).len() == 0);
    } else {
        let rest = flat_keys(live.drop_last());
        let ks = non_id_keys(str_views(live.last().keys@));
        assert(flat_keys(live) == rest + ks);
        assert forall|x: Seq<char>| #[trigger] rest.contains(x) implies flat_keys(
            live,
        ).contains(x) by {
            let i = choose|i: int| 0 <= i < rest.len() && rest[i] == x;
            assert(flat_keys(live)[i] == x);
        }
        assert forall|x: Seq<char>| #[trigger] ks.contains(x) implies flat_keys(
            live,
        ).contains(x) by {
            let i = choose|i: int| 0 <= i < ks.len() && ks[i] == x;
            assert(flat_keys(live)[rest.len() + i] == x);
        }
        assert forall|a: int, b: int|
            0 <= a < rest.len() && 0 <= b < rest.len() && a != b implies rest[a] != rest[b] by {
            assert(flat_keys(live)[a] == rest[a]);
            assert(flat_keys(live)[b] == rest[b]);
        }
        assert(rest.no_duplicates());
        assert forall|a: int, b: int|
            0 <= a < ks.len() && 0 <= b < ks.len() && a != b implies ks[a] != ks[b] by {
            assert(flat_keys(live)[rest.len() + a] == ks[a]);
            assert(flat_keys(live)[rest.len() + b] == ks[b]);
        }
        assert(ks.no_duplicates());
        lemma_scan_live_set(st, live.drop_last());
        let mid = scan_live(st, live.drop_last());
        assert forall|x: Seq<char>| #[trigger] ks.contains(x) implies mid.desired.contains(
            x,
        ) by {
            // a key of the last descriptor was not consumed earlier: the flat
            // key list holds each name once
            let i = choose|i: int| 0 <= i < ks.len() && ks[i] == x;
            if rest.contains(x) {
                let j = choose|j: int| 0 <= j < rest.len() && rest[j] == x;
                assert(flat_keys(live)[j] == x);
                assert(flat_keys(live)[rest.len() + i] == x);
            }
        }
        lemma_scan_keys_set(mid, str_views(live.last().keys@), live_opts(live.last()));
        assert forall|x: Seq<char>| #[trigger]
            scan_live(st, live).desired.contains(x) <==> st.desired.contains(x) && !flat_keys(
                live,
            ).contains(x) by {
            if flat_keys(live).contains(x) {
                let i = choose|i: int|
                    0 <= i < flat_keys(live).len() && flat_keys(live)[i] == x;
                if i < rest.len() {
                    assert(rest[i] == x);
                } else {
                    assert(ks[i - rest.len()] == x);
                }
            }
        }
    }
}

/// The names one descriptor crosses off the wanted set `d`: each non-`_id`
/// key that is wanted, and, for an unwanted key of a language-marked index,
/// the index's declared name when that is wanted.
pub open spec fn key_crossings(
    keys: Seq<Seq<char>>,
    opts: Option<(Option<Seq<char>>, bool)>,
    d: Seq<Seq<char>>,
) -> Seq<Seq<char>>
    decreases keys.len(),
{
    if keys.len() == 0 {
        Seq::<Seq<char>>::empty()
    } else {
        let rest = key_crossings(keys.drop_last(), opts, d);
        let k = keys.last();
        if k == "_id"@ {
            rest
        } else if d.contains(k) {
            rest.push(k)
        } else {
            match opts {
                Some((name, has_language)) => if has_language && name is Some && d.contains(
                    name->0,
                ) {
                    rest.push(name->0)
                } else {
                    rest
                },
                None => rest,
            }
        }
    }
}

/// The names all descriptors cross off the wanted set `d`, in scan order.
pub open spec fn live_crossings(live: Seq<LiveIndex>, d: Seq<Seq<char>>) -> Seq<Seq<char>>
    decreases live.len(),
{
    if live.len() == 0 {
        Seq::<Seq<char>>::empty()
    } else {
        live_crossings(live.drop_last(), d) + key_crossings(
            str_views(live.last().keys@),
            live_opts(live.last()),
            d,
        )
    }
}

/// No key of the descriptor schedules a drop against the wanted set `d`:
/// each non-`_id` key is wanted itself, carries no options, or belongs to a
/// language-marked index whose declared name is wanted.
pub open spec fn benign_keys(
    keys: Seq<Seq<char>>,
    opts: Option<(Option<Seq<char>>, bool)>,
    d: Seq<Seq<char>>,
) -> bool {
    forall|i: int|
        0 <= i < keys.len() ==> #[trigger] keys[i] == "_id"@ || d.contains(keys[i]) || (match opts {
            Some((name, has_language)) => has_language && name is Some && d.contains(name->0),
            None => true,
        })
}

proof fn lemma_scan_keys_benign(
    st: ScanState,
    keys: Seq<Seq<char>>,
    opts: Option<(Option<Seq<char>>, bool)>,
    d: Seq<Seq<char>>,
)
    requires
        st.desired.no_duplicates(),
        forall|x: Seq<char>| #[trigger] st.desired.contains(x) ==> d.contains(x),
        key_crossings(keys, opts, d).no_duplicates(),
        forall|x: Seq<char>| #[trigger]
            key_crossings(keys, opts, d).contains(x) ==> st.desired.contains(x),
        benign_keys(keys, opts, d),
    ensures
        scan_keys(st, keys, opts).drops == st.drops,
        scan_keys(st, keys, opts).desired.no_duplicates(),
        forall|x: Seq<char>| #[trigger]
            scan_keys(st, keys, opts).desired.contains(x) <==> st.desired.contains(x)
                && !key_crossings(keys, opts, d).contains(x),
    decreases keys.len(),
{
    if keys.len() == 0 {
        assert(key_crossings(keys, opts, d).len() == 0);
    } else {
        let last = keys.last();
        let rest = key_crossings(keys.drop_last(), opts, d);
        let cr = key_crossings(keys, opts, d);
        assert(benign_keys(keys.drop_last(), opts, d)) by {
            assert(forall|i: int|
                0 <= i < keys.drop_last().len() ==> keys.drop_last()[i] == #[trigger] keys[i]);
        }
        // whatever this key crosses, the prefix facts carry over
        assert forall|x: Seq<char>| #[trigger] rest.contains(x) implies cr.contains(x) by {
            let i = choose|i: int| 0 <= i < rest.len() && rest[i] == x;
            assert(cr == rest || cr == rest.push(cr.last()));
            assert(cr[i] == x);
        }
        assert(rest.no_duplicates()) by {
            assert forall|a: int, b: int|
                0 <= a < rest.len() && 0 <= b < rest.len() && a != b implies rest[a]
                != rest[b] by {
                assert(cr == rest || cr == rest.push(cr.last()));
                assert(cr[a] == rest[a]);
                assert(cr[b] == rest[b]);
            }
        }
        lemma_scan_keys_benign(st, keys.drop_last(), opts, d);
        let mid = scan_keys(st, keys.drop_last(), opts);
        assert(keys[keys.len() - 1] == last);
        if last == "_id"@ {
            assert(cr == rest);
        } else if d.contains(last) {
            assert(cr == rest.push(last));
            assert(cr[rest.len() as int] == last);
            assert(cr.contains(last));
            assert(!rest.contains(last)) by {
                if rest.contains(last) {
                    let i = choose|i: int| 0 <= i < rest.len() && rest[i] == last;
                    assert(cr[i] == last);
                }
            }
            assert(mid.desired.contains(last));
            lemma_remove_first_distinct(mid.desired, last);
            assert forall|x: Seq<char>| #[trigger]
                scan_keys(st, keys, opts).desired.contains(x) <==> st.desired.contains(x)
                    && !cr.contains(x) by {
                assert(cr.contains(x) <==> rest.contains(x) || x == last) by {
                    if cr.contains(x) && x != last {
                        let i = choose|i: int| 0 <= i < cr.len() && cr[i] == x;
                        assert(i != rest.len());
                        assert(rest[i] == x);
                    }
                }
            }
        } else {
            // an unwanted key: it is never in the remaining wanted names
            assert(!mid.desired.contains(last));
            match opts {
                None => {
                    assert(cr == rest);
                },
                Some((name, has_language)) => {
                    if has_language && name is Some && d.contains(name->0) {
                        let n = name->0;
                        assert(cr == rest.push(n));
                        assert(cr[rest.len() as int] == n);
                        assert(cr.contains(n));
                        assert(!rest.contains(n)) by {
                            if rest.contains(n) {
                                let i = choose|i: int| 0 <= i < rest.len() && rest[i] == n;
                                assert(cr[i] == n);
                            }
                        }
                        assert(mid.desired.contains(n));
                        lemma_remove_first_distinct(mid.desired, n);
                        assert forall|x: Seq<char>| #[trigger]
                            scan_keys(st, keys, opts).desired.contains(x) <==> st.desired.contains(
                            x,
                        ) && !cr.contains(x) by {
                            assert(cr.contains(x) <==> rest.contains(x) || x == n) by {
                                if cr.contains(x) && x != n {
                                    let i = choose|i: int| 0 <= i < cr.len() && cr[i] == x;
                                    assert(i != rest.len());
                                    assert(rest[i] == x);
                                }
                            }
                        }
                    } else {
                        // excluded: this key would schedule a drop
                        assert(false);
                    }
                },
            }
        }
    }
}

proof fn lemma_scan_live_benign(st: ScanState, live: Seq<LiveIndex>, d: Seq<Seq<char>>)
    requires
        st.desired.no_duplicates(),
        forall|x: Seq<char>| #[trigger] st.desired.contains(x) ==> d.contains(x),
        live_crossings(live, d).no_duplicates(),
        forall|x: Seq<char>| #[trigger]
            live_crossings(live, d).contains(x) ==> st.desired.contains(x),
        forall|i: int|
            0 <= i < live.len() ==> benign_keys(
                str_views((#[trigger] live[i]).keys@),
                live_opts(live[i]),
                d,
            ),
    ensures
        scan_live(st, live).drops == st.drops,
        scan_live(st, live).desired.no_duplicates(),
        forall|x: Seq<char>| #[trigger]
            scan_live(st, live).desired.contains(x) <==> st.desired.contains(x) && !live_crossings(
                live,
                d,
            ).contains(x),
    decreases live.len(),
{
    if live.len() == 0 {
        assert(live_crossings(live, d).len() == 0);
    } else {
        let rest = live_crossings(live.drop_last(), d);
        let ks = key_crossings(str_views(live.last().keys@), live_opts(live.last()), d);
        let cr = live_crossings(live, d);
        assert(cr == rest + ks);
        assert forall|x: Seq<char>| #[trigger] rest.contains(x) implies cr.contains(x) by {
            let i = choose|i: int| 0 <= i < rest.len() && rest[i] == x;
            assert(cr[i] == x);
        }
        assert forall|x: Seq<char>| #[trigger] ks.contains(x) implies cr.contains(x) by {
            let i = choose|i: int| 0 <= i < ks.len() && ks[i] == x;
            assert(cr[rest.len() + i] == x);
        }
        assert forall|a: int, b: int|
            0 <= a < rest.len() && 0 <= b < rest.len() && a != b implies rest[a] != rest[b] by {
            assert(cr[a] == rest[a]);
            assert(cr[b] == rest[b]);
        }
        assert(rest.no_duplicates());
        assert forall|a: int, b: int|
            0 <= a < ks.len() && 0 <= b < ks.len() && a != b implies ks[a] != ks[b] by {
            assert(cr[rest.len() + a] == ks[a]);
            assert(cr[rest.len() + b] == ks[b]);
        }
        assert(ks.no_duplicates());
        assert(forall|i: int|
            0 <= i < live.drop_last().len() ==> live.drop_last()[i] == #[trigger] live[i]);
        lemma_scan_live_benign(st, live.drop_last(), d);
        let mid = scan_live(st, live.drop_last());
        assert forall|x: Seq<char>| #[trigger] ks.contains(x) implies mid.desired.contains(
            x,
        ) by {
            let i = choose|i: int| 0 <= i < ks.len() && ks[i] == x;
            if rest.contains(x) {
                let j = choose|j: int| 0 <= j < rest.len() && rest[j] == x;
                assert(cr[j] == x);
                assert(cr[rest.len() + i] == x);
            }
        }
        assert(live.last() == live[live.len() - 1]);
        lemma_scan_keys_benign(mid, str_views(live.last().keys@), live_opts(live.last()), d);
        assert forall|x: Seq<char>| #[trigger]
            scan_live(st, live).desired.contains(x) <==> st.desired.contains(x) && !cr.contains(
            x,
        ) by {
            if cr.contains(x) {
                let i = choose|i: int| 0 <= i < cr.len() && cr[i] == x;
                if i < rest.len() {
                    assert(rest[i] == x);
                } else {
                    assert(ks[i - rest.len()] == x);
                }
            }
        }
    }
}

/// Reconciliation is idempotent over every converged state a pass can
/// leave. Suppose each live descriptor is benign — each of its keys is the
/// identifier index key, a wanted field name, optionless, or belongs to a
/// language-marked index whose declared name is wanted — and the names the
/// descriptors cross off are exactly the wanted field names, each once.
/// Then a pass plans no creations and no drops.
pub proof fn lemma_reconcile_idempotent_satisfied(
    cols: Seq<(String, ColumnAttr)>,
    live: Seq<LiveIndex>,
)
    requires
        crate::kv::distinct_keys(cols),
        live_crossings(live, desired_of(cols)).no_duplicates(),
        forall|x: Seq<char>| #[trigger]
            live_crossings(live, desired_of(cols)).contains(x) <==> desired_of(cols).contains(x),
        forall|i: int|
            0 <= i < live.len() ==> benign_keys(
                str_views((#[trigger] live[i]).keys@),
                live_opts(live[i]),
                desired_of(cols),
            ),
    ensures
        scan_result(cols, live).desired =~= Seq::<Seq<char>>::empty(),
        scan_result(cols, live).drops =~= Seq::<Option<Seq<char>>>::empty(),
{
    let st = ScanState { desired: desired_of(cols), drops: Seq::empty() };
    lemma_desired_of_distinct(cols);
    lemma_scan_live_benign(st, live, desired_of(cols));
    let fin = scan_live(st, live);
    assert(fin.desired.len() == 0) by {
        if fin.desired.len() > 0 {
            assert(fin.desired.contains(fin.desired[0]));
        }
    }
    assert(fin.desired =~= Seq::<Seq<char>>::empty());
}

proof fn lemma_desired_of_declared(cols: Seq<(String, ColumnAttr)>, x: Seq<char>)
    requires
        desired_of(cols).contains(x),
    ensures
        exists|i: int| 0 <= i < cols.len() && (#[trigger] cols[i]).0@ == x,
    decreases cols.len(),
{
    if cols.len() == 0 {
    } else {
        let rest = desired_of(cols.drop_last());
        if cols.last().1.spec_is_index() && x == cols.last().0@ {
            assert(cols[cols.len() - 1].0@ == x);
        } else {
            assert(rest.contains(x)) by {
                let i = choose|i: int|
                    0 <= i < desired_of(cols).len() && desired_of(cols)[i] == x;
                if cols.last().1.spec_is_index() {
                    assert(i != rest.len());
                }
                assert(rest[i] == x);
            }
            lemma_desired_of_declared(cols.drop_last(), x);
            let i = choose|i: int|
                0 <= i < cols.drop_last().len() && (#[trigger] cols.drop_last()[i]).0@ == x;
            assert(cols[i].0@ == x);
        }
    }
}

/// With pairwise-distinct field identifiers the wanted list repeats none.
pub proof fn lemma_desired_of_distinct(cols: Seq<(String, ColumnAttr)>)
    requires
        crate::kv::distinct_keys(cols),
    ensures
        desired_of(cols).no_duplicates(),
    decreases cols.len(),
{
    if cols.len() == 0 {
    } else {
        lemma_desired_of_distinct(cols.drop_last());
        let rest = desired_of(cols.drop_last());
        if cols.last().1.spec_is_index() {
            assert(!rest.contains(cols.last().0@)) by {
                if rest.contains(cols.last().0@) {
                    lemma_desired_of_declared(cols.drop_last(), cols.last().0@);
                    let i = choose|i: int|
                        0 <= i < cols.drop_last().len() && (#[trigger] cols.drop_last()[i]).0@
                            == cols.last().0@;
                    assert(cols[i].0@ == cols[cols.len() - 1].0@);
                }
            }
        }
    }
}

/// Reconciliation is idempotent. Once the live indexes carry, outside the
/// identifier index, exactly the field names the schema wants — each once, in
/// any listing order, with any options — a further pass plans no creations
/// and no drops.
pub proof fn lemma_reconcile_idempotent(cols: Seq<(String, ColumnAttr)>, live: Seq<LiveIndex>)
    requires
        crate::kv::distinct_keys(cols),
        flat_keys(live).no_duplicates(),
        forall|x: Seq<char>| #[trigger]
            flat_keys(live).contains(x) <==> desired_of(cols).contains(x),
    ensures
        scan_result(cols, live).desired =~= Seq::<Seq<char>>::empty(),
        scan_result(cols, live).drops =~= Seq::<Option<Seq<char>>>::empty(),
{
    let st = ScanState { desired: desired_of(cols), drops: Seq::empty() };
    lemma_desired_of_distinct(cols);
    lemma_scan_live_set(st, live);
    let fin = scan_live(st, live);
    assert(fin.desired.len() == 0) by {
        if fin.desired.len() > 0 {
            assert(fin.desired.contains(fin.desired[0]));
        }
    }
    assert(fin.desired =~= Seq::<Seq<char>>::empty());
}

proof fn lemma_remove_first_at(s: Seq<Seq<char>>, k: Seq<char>, p: int)
    requires
        0 <= p < s.len(),
        s[p] == k,
        forall|j: int| 0 <= j < p ==> s[j] != k,
    ensures
        remove_first(s, k) =~= s.remove(p),
    decreases p,
{
    if p == 0 {
        assert(remove_first(s, k) == s.drop_first());
        assert(s.drop_first() =~= s.remove(0));
    } else {
        assert(s[0] != k);
        lemma_remove_first_at(s.drop_first(), k, p - 1);
        assert(seq![s[0]] + s.drop_first().remove(p - 1) =~= s.remove(p));
    }
}

proof fn lemma_contains_first(s: Seq<Seq<char>>, k: Seq<char>, p: int)
    requires
        0 <= p < s.len(),
        s[p] == k,
    ensures
        s.contains(k),
{
}

fn position_str(v: &Vec<String>, s: &str) -> (r: Option<usize>)
    ensures
        match r {
            Some(i) => 0 <= i < v@.len() && v@[i as int]@ == s@ && forall|j: int|
                0 <= j < i ==> v@[j]@ != s@,
            None => forall|j: int| 0 <= j < v@.len() ==> v@[j]@ != s@,
        },
{
    let k: String = s.to_owned();
    let n = v.len();
    let mut i: usize = 0;
    while i < n
        invariant
            n == v@.len(),
            0 <= i <= n,
            k@ == s@,
            forall|j: int| 0 <= j < i ==> v@[j]@ != s@,
        decreases n - i,
    {
        let hit = v[i] == k;
        if hit {
            return Some(i);
        }
        i = i + 1;
    }
    None
}

/// Cross a wanted name off the desired list, if present; say whether it was.
fn consume_desired(desired: &mut Vec<String>, k: &str) -> (hit: bool)
    ensures
        hit == str_views(old(desired)@).contains(k@),
        str_views(final(desired)@) == if str_views(old(desired)@).contains(k@) {
            remove_first(str_views(old(desired)@), k@)
        } else {
            str_views(old(desired)@)
        },
        forall|j: int|
            0 <= j < final(desired)@.len() ==> str_views(old(desired)@).contains(
                #[trigger] str_views(final(desired)@)[j],
            ),
{
    let ghost before = str_views(desired@);
    match position_str(desired, k) {
        Some(p) => {
            proof {
                lemma_contains_first(before, k@, p as int);
                lemma_remove_first_at(before, k@, p as int);
            }
            desired.remove(p);
            proof {
                assert(str_views(desired@) =~= before.remove(p as int));
                assert forall|j: int|
                    0 <= j < desired@.len() implies before.contains(
                    #[trigger] str_views(desired@)[j],
                ) by {
                    if j < p {
                        assert(str_views(desired@)[j] == before[j]);
                    } else {
                        assert(str_views(desired@)[j] == before[j + 1]);
                    }
                }
            }
            true
        },
        None => {
            proof {
                if before.contains(k@) {
                    let j = choose|j: int| 0 <= j < before.len() && before[j] == k@;
                    assert(desired@[j]@ != k@);
                }
                assert forall|j: int|
                    0 <= j < desired@.len() implies before.contains(
                    #[trigger] str_views(desired@)[j],
                ) by {
                    assert(before[j] == str_views(desired@)[j]);
                }
            }
            false
        },
    }
}

/// Diff the live indexes against the declared columns: cross off every live
/// key that a column wants, collect the orphans' drop names, and plan one
/// creation for every wanted field that no live index carries.
pub fn reconcile(schema: &Schema, live: &Vec<LiveIndex>) -> (plan: ReconcilePlan)
    requires
        schema.wf(),
    ensures
        opt_views(plan.drops@) == scan_result(schema.cols_seq(), live@).drops,
        index_views(plan.creates@) == creates_of(
            scan_result(schema.cols_seq(), live@).desired,
            schema.attr_map(),
        ),
{
    let ghost cols = schema.cols_seq();
    // collect the wanted field names
    let n = schema.len();
    let mut desired: Vec<String> = Vec::new();
    let mut i: usize = 0;
    while i < n
        invariant
            n == cols.len(),
            cols == schema.cols_seq(),
            schema.wf(),
            0 <= i <= n,
            str_views(desired@) =~= desired_of(cols.take(i as int)),
            forall|j: int|
                0 <= j < desired@.len() ==> schema.attr_map().contains_key(
                    #[trigger] str_views(desired@)[j],
                ),
        decreases n - i,
    {
        let col = schema.col_at(i);
        if col.1.is_index() {
            desired.push(col.0.clone());
            proof {
                crate::kv::lemma_map_of_index(cols, i as int);
            }
        }
        proof {
            assert(cols.take((i + 1) as int).drop_last() =~= cols.take(i as int));
            assert(cols.take((i + 1) as int).last() == cols[i as int]);
            assert(str_views(desired@) =~= desired_of(cols.take((i + 1) as int)));
        }
        i = i + 1;
    }
    proof {
        assert(cols.take(n as int) =~= cols);
    }
    let ghost st0 = ScanState { desired: str_views(desired@), drops: Seq::empty() };

    // scan the live descriptors
    let id_name: String = "_id".to_owned();
    let mut drops: Vec<Option<String>> = Vec::new();
    let m = live.len();
    let mut a: usize = 0;
    while a < m
        invariant
            m == live@.len(),
            0 <= a <= m,
            opt_views(drops@) =~= scan_live(st0, live@.take(a as int)).drops,
            str_views(desired@) =~= scan_live(st0, live@.take(a as int)).desired,
            id_name@ == "_id"@,
            forall|j: int|
                0 <= j < desired@.len() ==> schema.attr_map().contains_key(
                    #[trigger] str_views(desired@)[j],
                ),
        decreases m - a,
    {
        let li = &live[a];
        let ghost st_in = scan_live(st0, live@.take(a as int));
        let ghost keys_v = str_views(li.keys@);
        let ghost opts_v = live_opts(live@[a as int]);
        let kn = li.keys.len();
        let mut b: usize = 0;
        while b < kn
            invariant
                m == live@.len(),
                0 <= a < m,
                kn == li.keys@.len(),
                li == live@[a as int],
                keys_v == str_views(li.keys@),
                opts_v == live_opts(live@[a as int]),
                0 <= b <= kn,
                opt_views(drops@) =~= scan_keys(st_in, keys_v.take(b as int), opts_v).drops,
                str_views(desired@) =~= scan_keys(st_in, keys_v.take(b as int), opts_v).desired,
                id_name@ == "_id"@,
                forall|j: int|
                    0 <= j < desired@.len() ==> schema.attr_map().contains_key(
                        #[trigger] str_views(desired@)[j],
                    ),
            decreases kn - b,
        {
            let key = &li.keys[b];
            let ghost st_b = scan_keys(st_in, keys_v.take(b as int), opts_v);
            let is_id = *key == id_name;
            if !is_id {
                let hit = consume_desired(&mut desired, key.as_str());
                if !hit {
                    match &li.options {
                        None => {},
                        Some(o) => {
                            if !o.has_language {
                                let nm: Option<String> = match &o.name {
                                    Some(s) => Some(s.clone()),
                                    None => None,
                                };
                                drops.push(nm);
                                proof {
                                    assert(opt_views(drops@) =~= opt_views(drops@.drop_last()).push(
                                        opt_view(drops@.last()),
                                    ));
                                }
                            } else {
                                match &o.name {
                                    None => {
                                        drops.push(None);
                                        proof {
                                            assert(opt_views(drops@) =~= opt_views(
                                                drops@.drop_last(),
                                            ).push(opt_view(drops@.last())));
                                        }
                                    },
                                    Some(nm) => {
                                        let hit2 = consume_desired(&mut desired, nm.as_str());
                                        if !hit2 {
                                            drops.push(Some(nm.clone()));
                                            proof {
                                                assert(opt_views(drops@) =~= opt_views(
                                                    drops@.drop_last(),
                                                ).push(opt_view(drops@.last())));
                                            }
                                        }
                                    },
                                }
                            }
                        },
                    }
                }
            }
            proof {
                assert(keys_v.take((b + 1) as int).drop_last() =~= keys_v.take(b as int));
                assert(keys_v.take((b + 1) as int).last() == keys_v[b as int]);
                assert(keys_v[b as int] == li.keys@[b as int]@);
                assert(opt_views(drops@) =~= scan_keys(
                    st_in,
                    keys_v.take((b + 1) as int),
                    opts_v,
                ).drops);
                assert(str_views(desired@) =~= scan_keys(
                    st_in,
                    keys_v.take((b + 1) as int),
                    opts_v,
                ).desired);
            }
            b = b + 1;
        }
        proof {
            assert(keys_v.take(kn as int) =~= keys_v);
            assert(live@.take((a + 1) as int).drop_last() =~= live@.take(a as int));
            assert(live@.take((a + 1) as int).last() == live@[a as int]);
        }
        a = a + 1;
    }
    proof {
        assert(live@.take(m as int) =~= live@);
    }

    // build one creation for each field still wanted
    let ghost final_desired = str_views(desired@);
    let dn = desired.len();
    let mut creates: Vec<DeclaredIndex> = Vec::new();
    let mut c: usize = 0;
    while c < dn
        invariant
            dn == desired@.len(),
            final_desired == str_views(desired@),
            0 <= c <= dn,
            creates@.len() == c,
            schema.wf(),
            forall|j: int|
                0 <= j < desired@.len() ==> schema.attr_map().contains_key(
                    #[trigger] str_views(desired@)[j],
                ),
            index_views(creates@) =~= creates_of(
                final_desired.take(c as int),
                schema.attr_map(),
            ),
        decreases dn - c,
    {
        let id = &desired[c];
        proof {
            assert(str_views(desired@)[c as int] == id@);
        }
        let attr = match schema.get(id.as_str()) {
            Some(attr) => attr,
            None => {
                proof {
                    assert(false);
                }
                vstd::pervasive::unreached()
            },
        };
        let item = match &attr.text {
            Some(lang) => DeclaredIndex::Text {
                field: id.clone(),
                unique: attr.unique,
                language: lang.clone(),
            },
            None => if attr.sphere2d {
                DeclaredIndex::Sphere2d { field: id.clone(), unique: attr.unique }
            } else {
                DeclaredIndex::Scalar {
                    field: id.clone(),
                    unique: attr.unique,
                    descending: attr.desc,
                }
            },
        };
        proof {
            assert(schema.attr_map().contains_key(id@));
            assert(*attr == schema.attr_map()[id@]);
            assert(item@ == create_of(id@, schema.attr_map()[id@]));
        }
        let ghost creates_before = creates@;
        creates.push(item);
        proof {
            assert(creates@ == creates_before.push(item));
            assert(creates@.last()@ == create_of(id@, schema.attr_map()[id@]));
            assert(final_desired[c as int] == id@);
            assert forall|j: int| 0 <= j < c implies index_views(creates@)[j] == creates_of(
                final_desired.take((c + 1) as int),
                schema.attr_map(),
            )[j] by {
                assert(index_views(creates@)[j] == creates@[j]@);
                assert(creates@[j] == creates_before[j]);
                assert(index_views(creates_before)[j] == creates_of(
                    final_desired.take(c as int),
                    schema.attr_map(),
                )[j]);
            }
            assert(index_views(creates@) =~= creates_of(
                final_desired.take((c + 1) as int),
                schema.attr_map(),
            ));
        }
        c = c + 1;
    }
    proof {
        assert(final_desired.take(dn as int) =~= final_desired);
    }
    ReconcilePlan { creates, drops }
}

} // verus!
