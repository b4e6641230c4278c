use vstd::prelude::*;
use crate::text::text_eq;

verus! {

/// The map a list of key-value pairs gives, a later pair for a key replacing
/// an earlier one.
pub open spec fn assoc_map<V>(s: Seq<(Seq<char>, V)>) -> Map<Seq<char>, V>
    decreases s.len(),
{
    if s.len() == 0 {
        Map::empty()
    } else {
        assoc_map(s.drop_last()).insert(s.last().0, s.last().1)
    }
}

/// Whether no key occurs twice in a list of pairs.
pub open spec fn distinct_keys<V>(s: Seq<(Seq<char>, V)>) -> bool {
    forall|i: int, j: int| 0 <= i < j < s.len() ==> s[i].0 != s[j].0
}

/// The keys of a vector of pairs keyed by strings, as texts.
pub open spec fn string_keys<V>(v: Seq<(String, V)>) -> Seq<Seq<char>> {
    v.map_values(|p: (String, V)| p.0@)
}

pub proof fn lemma_assoc_distinct<V>(s: Seq<(Seq<char>, V)>)
    requires
        distinct_keys(s),
    ensures
        forall|i: int| 0 <= i < s.len() ==> #[trigger] assoc_map(s).contains_key(s[i].0)
            && assoc_map(s)[s[i].0] == s[i].1,
        forall|k: Seq<char>| #[trigger] assoc_map(s).contains_key(k) ==> exists|i: int| 0 <= i < s.len() && s[i].0 == k,
    decreases s.len(),
{
    if s.len() > 0 {
        let t = s.drop_last();
        assert(distinct_keys(t));
        lemma_assoc_distinct(t);
        assert forall|i: int| 0 <= i < s.len() implies #[trigger] assoc_map(s).contains_key(s[i].0)
            && assoc_map(s)[s[i].0] == s[i].1 by {
            if i < s.len() - 1 {
                assert(t[i] == s[i]);
                assert(s[i].0 != s.last().0);
                assert(assoc_map(t).contains_key(t[i].0) && assoc_map(t)[t[i].0] == t[i].1);
            }
        }
        assert forall|k: Seq<char>| #[trigger] assoc_map(s).contains_key(k) implies exists|i: int| 0 <= i < s.len() && s[i].0 == k by {
            if k != s.last().0 {
                assert(assoc_map(t).contains_key(k));
                let i = choose|i: int| 0 <= i < t.len() && t[i].0 == k;
                assert(s[i] == t[i]);
            } else {
                assert(s[s.len() - 1].0 == k);
            }
        }
    }
}

pub proof fn lemma_assoc_update<V>(s: Seq<(Seq<char>, V)>, k: int, v: V)
    requires
        distinct_keys(s),
        0 <= k < s.len(),
    ensures
        distinct_keys(s.update(k, (s[k].0, v))),
        assoc_map(s.update(k, (s[k].0, v))) == assoc_map(s).insert(s[k].0, v),
    decreases s.len(),
{
    let e = (s[k].0, v);
    let u = s.update(k, e);
    assert(distinct_keys(u)) by {
        assert forall|i: int, j: int| 0 <= i < j < u.len() implies u[i].0 != u[j].0 by {
            assert(s[i].0 != s[j].0);
        }
    }
    if k == s.len() - 1 {
        assert(u.drop_last() =~= s.drop_last());
        assert(assoc_map(s).insert(e.0, v) =~= assoc_map(s.drop_last()).insert(e.0, v));
    } else {
        let t = s.drop_last();
        assert(distinct_keys(t));
        lemma_assoc_update(t, k, v);
        assert(u.drop_last() =~= t.update(k, e));
        assert(t[k] == s[k]);
        assert(s.last().0 != e.0);
        assert(assoc_map(u) =~= assoc_map(s).insert(e.0, v));
    }
}

pub proof fn lemma_assoc_remove<V>(s: Seq<(Seq<char>, V)>, k: int)
    requires
        distinct_keys(s),
        0 <= k < s.len(),
    ensures
        distinct_keys(s.remove(k)),
        assoc_map(s.remove(k)) == assoc_map(s).remove(s[k].0),
    decreases s.len(),
{
    let u = s.remove(k);
    assert(distinct_keys(u)) by {
        assert forall|i: int, j: int| 0 <= i < j < u.len() implies u[i].0 != u[j].0 by {
            let i2 = if i < k { i } else { i + 1 };
            let j2 = if j < k { j } else { j + 1 };
            assert(u[i] == s[i2]);
            assert(u[j] == s[j2]);
        }
    }
    let t = s.drop_last();
    assert(distinct_keys(t));
    if k == s.len() - 1 {
        assert(u =~= t);
        lemma_assoc_distinct(t);
        assert(!assoc_map(t).contains_key(s[k].0)) by {
            if assoc_map(t).contains_key(s[k].0) {
                let i = choose|i: int| 0 <= i < t.len() && t[i].0 == s[k].0;
                assert(s[i].0 == s[k].0);
            }
        }
        assert(assoc_map(s).remove(s[k].0) =~= assoc_map(t));
    } else {
        lemma_assoc_remove(t, k);
        assert(u.drop_last() =~= t.remove(k));
        assert(u.last() == s.last());
        assert(t[k] == s[k]);
        assert(s.last().0 != s[k].0);
        assert(assoc_map(u) =~= assoc_map(s).remove(s[k].0));
    }
}

pub proof fn lemma_assoc_push<V>(s: Seq<(Seq<char>, V)>, key: Seq<char>, v: V)
    requires
        distinct_keys(s),
        !assoc_map(s).contains_key(key),
    ensures
        distinct_keys(s.push((key, v))),
        assoc_map(s.push((key, v))) == assoc_map(s).insert(key, v),
{
    lemma_assoc_distinct(s);
    let u = s.push((key, v));
    assert(distinct_keys(u)) by {
        assert forall|i: int, j: int| 0 <= i < j < u.len() implies u[i].0 != u[j].0 by {
            if j == s.len() {
                assert(u[i] == s[i]);
                assert(assoc_map(s).contains_key(s[i].0));
            } else {
                assert(u[i] == s[i] && u[j] == s[j]);
            }
        }
    }
    assert(u.drop_last() =~= s);
}

/// Position of the first pair whose key is `key`, if there is one.
pub fn find_key<V>(v: &Vec<(String, V)>, key: &str) -> (r: Option<usize>)
    ensures
        match r {
            Some(k) => k < v@.len() && v@[k as int].0@ == key@,
            None => forall|i: int| 0 <= i < v@.len() ==> v@[i].0@ != key@,
        },
{
    let mut k: usize = 0;
    while k < v.len()
        invariant
            k <= v@.len(),
            forall|i: int| 0 <= i < k ==> v@[i].0@ != key@,
        decreases v.len() - k,
    {
        if text_eq(v[k].0.as_str(), key) {
            return Some(k);
        }
        k = k + 1;
    }
    None
}

/// A key absent from every pair is absent from the map.
pub proof fn lemma_assoc_absent<V>(s: Seq<(Seq<char>, V)>, key: Seq<char>)
    requires
        forall|i: int| 0 <= i < s.len() ==> s[i].0 != key,
    ensures
        !assoc_map(s).contains_key(key),
    decreases s.len(),
{
    if s.len() > 0 {
        lemma_assoc_absent(s.drop_last(), key);
        assert(s.last().0 == s[s.len() - 1].0);
    }
}

/// With distinct keys, the map has as many keys as the list has pairs.
pub proof fn lemma_assoc_len<V>(s: Seq<(Seq<char>, V)>)
    requires
        distinct_keys(s),
    ensures
        assoc_map(s).dom().finite(),
        assoc_map(s).dom().len() == s.len(),
    decreases s.len(),
{
    if s.len() > 0 {
        let t = s.drop_last();
        assert(distinct_keys(t));
        lemma_assoc_len(t);
        assert forall|i: int| 0 <= i < t.len() implies t[i].0 != s.last().0 by {
            assert(t[i] == s[i]);
        }
        lemma_assoc_absent(t, s.last().0);
    }
}

} // verus!
