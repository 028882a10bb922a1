//! Facts about association lists: a sequence of (name, value) pairs viewed
//! as a map from name to value. Shared by documents and by schemas.

use vstd::prelude::*;

verus! {

/// The map a pair list denotes; a later pair with the same key wins.
pub open spec fn map_of<T>(ps: Seq<(String, T)>) -> Map<Seq<char>, T>
    decreases ps.len(),
{
    if ps.len() == 0 {
        Map::<Seq<char>, T>::empty()
    } else {
        map_of(ps.drop_last()).insert(ps.last().0@, ps.last().1)
    }
}

/// The key names of a pair list, in order.
pub open spec fn keys_of<T>(ps: Seq<(String, T)>) -> Seq<Seq<char>> {
    ps.map_values(|p: (String, T)| p.0@)
}

/// The views of a list of strings, in order.
pub open spec fn str_views(ss: Seq<String>) -> Seq<Seq<char>> {
    ss.map_values(|s: String| s@)
}

/// No key name occurs twice.
pub open spec fn distinct_keys<T>(ps: Seq<(String, T)>) -> bool {
    forall|i: int, j: int| 0 <= i < j < ps.len() ==> ps[i].0@ != ps[j].0@
}

pub proof fn lemma_map_of_contains_key<T>(ps: Seq<(String, T)>, k: Seq<char>)
    ensures
        map_of(ps).contains_key(k) <==> keys_of(ps).contains(k),
    decreases ps.len(),
{
    if ps.len() == 0 {
        assert(keys_of(ps).len() == 0);
    } else {
        lemma_map_of_contains_key(ps.drop_last(), k);
        if k == ps.last().0@ {
            assert(keys_of(ps)[ps.len() - 1] == k);
        } else {
            if keys_of(ps.drop_last()).contains(k) {
                let i = choose|i: int|
                    0 <= i < keys_of(ps.drop_last()).len() && keys_of(ps.drop_last())[i] == k;
                assert(keys_of(ps)[i] == k);
            }
            if keys_of(ps).contains(k) {
                let i = choose|i: int| 0 <= i < keys_of(ps).len() && keys_of(ps)[i] == k;
                assert(i != ps.len() - 1);
                assert(keys_of(ps.drop_last())[i] == k);
            }
        }
    }
}

pub proof fn lemma_map_of_contains<T>(ps: Seq<(String, T)>)
    ensures
        forall|k: Seq<char>| #[trigger] map_of(ps).contains_key(k) <==> keys_of(ps).contains(k),
{
    assert forall|k: Seq<char>| #[trigger]
        map_of(ps).contains_key(k) <==> keys_of(ps).contains(k) by {
        lemma_map_of_contains_key(ps, k);
    }
}

pub proof fn lemma_map_of_index<T>(ps: Seq<(String, T)>, i: int)
    requires
        distinct_keys(ps),
        0 <= i < ps.len(),
    ensures
        map_of(ps).contains_key(ps[i].0@),
        map_of(ps)[ps[i].0@] == ps[i].1,
    decreases ps.len(),
{
    if i == ps.len() - 1 {
    } else {
        lemma_map_of_index(ps.drop_last(), i);
        assert(ps[i].0@ != ps.last().0@);
    }
}

pub proof fn lemma_map_of_update<T>(ps: Seq<(String, T)>, i: int, p: (String, T))
    requires
        distinct_keys(ps),
        0 <= i < ps.len(),
        p.0@ == ps[i].0@,
    ensures
        map_of(ps.update(i, p)) =~= map_of(ps).insert(p.0@, p.1),
        distinct_keys(ps.update(i, p)),
    decreases ps.len(),
{
    if i == ps.len() - 1 {
        assert(ps.update(i, p).drop_last() =~= ps.drop_last());
        assert(ps.update(i, p).last() == p);
        assert(map_of(ps.update(i, p)) == map_of(ps.drop_last()).insert(p.0@, p.1));
        assert(map_of(ps.drop_last()).insert(ps.last().0@, ps.last().1).insert(p.0@, p.1)
            =~= map_of(ps.drop_last()).insert(p.0@, p.1));
    } else {
        lemma_map_of_update(ps.drop_last(), i, p);
        assert(ps.update(i, p).drop_last() =~= ps.drop_last().update(i, p));
        assert(ps.update(i, p).last() == ps.last());
        assert(p.0@ != ps.last().0@);
        assert(map_of(ps.update(i, p)) == map_of(ps.drop_last().update(i, p)).insert(
            ps.last().0@,
            ps.last().1,
        ));
        assert(map_of(ps.drop_last()).insert(p.0@, p.1).insert(ps.last().0@, ps.last().1)
            =~= map_of(ps.drop_last()).insert(ps.last().0@, ps.last().1).insert(p.0@, p.1));
    }
}

pub proof fn lemma_map_of_remove<T>(ps: Seq<(String, T)>, i: int)
    requires
        distinct_keys(ps),
        0 <= i < ps.len(),
    ensures
        map_of(ps.remove(i)) =~= map_of(ps).remove(ps[i].0@),
        distinct_keys(ps.remove(i)),
    decreases ps.len(),
{
    lemma_map_of_contains(ps.drop_last());
    if i == ps.len() - 1 {
        assert(ps.remove(i) =~= ps.drop_last());
        assert(!map_of(ps.drop_last()).contains_key(ps.last().0@)) by {
            if map_of(ps.drop_last()).contains_key(ps.last().0@) {
                let j = choose|j: int|
                    0 <= j < keys_of(ps.drop_last()).len()
                        && keys_of(ps.drop_last())[j] == ps.last().0@;
                assert(ps[j].0@ == ps[ps.len() - 1].0@);
            }
        }
        assert(map_of(ps.drop_last()) =~= map_of(ps).remove(ps.last().0@));
    } else {
        lemma_map_of_remove(ps.drop_last(), i);
        assert(ps.remove(i).drop_last() =~= ps.drop_last().remove(i));
        assert(ps.remove(i).last() == ps.last());
        assert(ps[i].0@ != ps.last().0@);
        assert(map_of(ps.remove(i)) == map_of(ps.drop_last().remove(i)).insert(
            ps.last().0@,
            ps.last().1,
        ));
        assert(map_of(ps.drop_last()).remove(ps[i].0@).insert(ps.last().0@, ps.last().1)
            =~= map_of(ps.drop_last()).insert(ps.last().0@, ps.last().1).remove(ps[i].0@));
    }
}

} // verus!
