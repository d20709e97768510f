//! Tables keyed by text: a `Vec` of `(key, value)` pairs with distinct keys,
//! read as a map.  Where the analyser walks such a table, it walks it in the
//! order of its entries.
use vstd::prelude::*;

verus! {

/// The keys of the entries `t`, in order.
pub open spec fn keys<W>(t: Seq<(Seq<char>, W)>) -> Seq<Seq<char>> {
    t.map_values(|e: (Seq<char>, W)| e.0)
}

/// The entries `t` read as a map; a later entry wins over an earlier one.
pub open spec fn as_map<W>(t: Seq<(Seq<char>, W)>) -> Map<Seq<char>, W>
    decreases t.len(),
{
    if t.len() == 0 {
        Map::empty()
    } else {
        as_map(t.drop_last()).insert(t.last().0, t.last().1)
    }
}

pub proof fn lemma_as_map_push<W>(t: Seq<(Seq<char>, W)>, k: Seq<char>, w: W)
    ensures
        as_map(t.push((k, w))) == as_map(t).insert(k, w),
        keys(t.push((k, w))) == keys(t).push(k),
{
    assert(t.push((k, w)).drop_last() =~= t);
    assert(keys(t.push((k, w))) =~= keys(t).push(k));
}

pub proof fn lemma_as_map_dom<W>(t: Seq<(Seq<char>, W)>)
    ensures
        forall|k: Seq<char>| #[trigger] as_map(t).contains_key(k) <==> keys(t).contains(k),
    decreases t.len(),
{
    if t.len() > 0 {
        lemma_as_map_dom(t.drop_last());
        assert(keys(t) =~= keys(t.drop_last()).push(t.last().0));
        let dl = t.drop_last();
        assert forall|k: Seq<char>| #[trigger] as_map(t).contains_key(k) <==> keys(t).contains(k) by {
            if as_map(t).contains_key(k) {
                if k == t.last().0 {
                    assert(keys(t)[t.len() - 1] == k);
                } else {
                    assert(as_map(dl).contains_key(k));
                    assert(keys(dl).contains(k));
                    let i = choose|i: int| 0 <= i < keys(dl).len() && keys(dl)[i] == k;
                    assert(keys(t)[i] == k);
                }
            }
            if keys(t).contains(k) {
                let i = choose|i: int| 0 <= i < keys(t).len() && keys(t)[i] == k;
                if i < t.len() - 1 {
                    assert(keys(dl)[i] == k);
                    assert(as_map(dl).contains_key(k));
                }
            }
        }
    }
}

pub proof fn lemma_as_map_index<W>(t: Seq<(Seq<char>, W)>, i: int)
    requires
        keys(t).no_duplicates(),
        0 <= i < t.len(),
    ensures
        as_map(t).contains_key(t[i].0),
        as_map(t)[t[i].0] == t[i].1,
    decreases t.len(),
{
    if i < t.len() - 1 {
        assert(keys(t.drop_last()) =~= keys(t).drop_last());
        assert(keys(t)[i] == t[i].0);
        assert(keys(t)[t.len() - 1] == t.last().0);
        lemma_as_map_index(t.drop_last(), i);
        assert(t.drop_last()[i] == t[i]);
    }
}

pub proof fn lemma_as_map_update<W>(t: Seq<(Seq<char>, W)>, i: int, w: W)
    requires
        keys(t).no_duplicates(),
        0 <= i < t.len(),
    ensures
        as_map(t.update(i, (t[i].0, w))) == as_map(t).insert(t[i].0, w),
        keys(t.update(i, (t[i].0, w))) == keys(t),
    decreases t.len(),
{
    let u = t.update(i, (t[i].0, w));
    assert(keys(u) =~= keys(t));
    if i == t.len() - 1 {
        assert(u.drop_last() =~= t.drop_last());
        assert(as_map(u) =~= as_map(t).insert(t[i].0, w));
    } else {
        assert(keys(t.drop_last()) =~= keys(t).drop_last());
        assert(u.drop_last() =~= t.drop_last().update(i, (t[i].0, w)));
        lemma_as_map_update(t.drop_last(), i, w);
        assert(keys(t)[i] == t[i].0);
        assert(keys(t)[t.len() - 1] == t.last().0);
        assert(t[i].0 != t.last().0);
        assert(as_map(u) =~= as_map(t).insert(t[i].0, w));
    }
}

/// Where in `t` the key `k` stands.
pub fn find_key<V>(t: &Vec<(String, V)>, k: &String) -> (r: Option<usize>)
    ensures
        r matches Some(i) ==> i < t@.len() && t@[i as int].0@ == k@ && forall|j: int|
            0 <= j < i ==> t@[j].0@ != k@,
        r is None ==> forall|j: int| 0 <= j < t@.len() ==> t@[j].0@ != k@,
{
    let mut i: usize = 0;
    while i < t.len()
        invariant
            i <= t@.len(),
            forall|j: int| 0 <= j < i ==> t@[j].0@ != k@,
        decreases t@.len() - i,
    {
        if t[i].0 == *k {
            return Some(i);
        }
        i += 1;
    }
    None
}

} // verus!
