//! Small string-keyed tables kept as vectors of (key, value) with distinct
//! keys, seen as maps.

use vstd::prelude::*;

verus! {

pub open spec fn keys_distinct<K, V>(s: Seq<(K, V)>) -> bool {
    forall|i: int, j: int| 0 <= i < j < s.len() ==> s[i].0 != s[j].0
}

/// The map a table stands for.
pub open spec fn table_map<K, V>(s: Seq<(K, V)>) -> Map<K, V>
    decreases s.len(),
{
    if s.len() == 0 {
        Map::empty()
    } else {
        table_map(s.drop_last()).insert(s.last().0, s.last().1)
    }
}

pub proof fn lemma_table_map_dom<K, V>(s: Seq<(K, V)>, k: K)
    ensures
        table_map(s).dom().contains(k) <==> exists|i: int| 0 <= i < s.len() && s[i].0 == k,
    decreases s.len(),
{
    if s.len() > 0 {
        lemma_table_map_dom(s.drop_last(), k);
        if table_map(s).dom().contains(k) && k != s.last().0 {
            let i = choose|i: int| 0 <= i < s.drop_last().len() && s.drop_last()[i].0 == k;
            assert(s[i].0 == k);
        }
        if exists|i: int| 0 <= i < s.len() && s[i].0 == k {
            let i = choose|i: int| 0 <= i < s.len() && s[i].0 == k;
            if i < s.len() - 1 {
                assert(s.drop_last()[i].0 == k);
            }
        }
    }
}

/// In a table with distinct keys, the entry at `i` is what the map holds.
pub proof fn lemma_table_map_at<K, V>(s: Seq<(K, V)>, i: int)
    requires
        keys_distinct(s),
        0 <= i < s.len(),
    ensures
        table_map(s).dom().contains(s[i].0),
        table_map(s)[s[i].0] == s[i].1,
    decreases s.len(),
{
    if i < s.len() - 1 {
        let p = s.drop_last();
        assert(p[i] == s[i]);
        lemma_table_map_at(p, i);
        assert(s[i].0 != s.last().0);
    }
}

/// Replacing the value of the entry at `i` updates the map at its key.
pub proof fn lemma_table_map_update<K, V>(s: Seq<(K, V)>, i: int, v: V)
    requires
        keys_distinct(s),
        0 <= i < s.len(),
    ensures
        table_map(s.update(i, (s[i].0, v))) == table_map(s).insert(s[i].0, v),
        keys_distinct(s.update(i, (s[i].0, v))),
    decreases s.len(),
{
    let t = s.update(i, (s[i].0, v));
    if i == s.len() - 1 {
        assert(t.drop_last() =~= s.drop_last());
        assert(table_map(t) =~= table_map(s).insert(s[i].0, v));
    } else {
        let p = s.drop_last();
        assert(t.drop_last() =~= p.update(i, (p[i].0, v)));
        lemma_table_map_update(p, i, v);
        assert(s[i].0 != s.last().0);
        assert(table_map(t) =~= table_map(s).insert(s[i].0, v));
    }
}

/// Appending an entry with a new key.
pub proof fn lemma_table_push<K, V>(s: Seq<(K, V)>, k: K, v: V)
    requires
        keys_distinct(s),
        !table_map(s).dom().contains(k),
    ensures
        table_map(s.push((k, v))) == table_map(s).insert(k, v),
        keys_distinct(s.push((k, v))),
{
    assert(s.push((k, v)).drop_last() =~= s);
    assert forall|i: int| 0 <= i < s.len() implies s[i].0 != k by {
        lemma_table_map_dom(s, k);
    }
}


/// Inserting an entry with a new key anywhere in the table.
pub proof fn lemma_table_insert<K, V>(s: Seq<(K, V)>, pos: int, k: K, v: V)
    requires
        keys_distinct(s),
        0 <= pos <= s.len(),
        !table_map(s).dom().contains(k),
    ensures
        table_map(s.insert(pos, (k, v))) == table_map(s).insert(k, v),
        keys_distinct(s.insert(pos, (k, v))),
    decreases s.len(),
{
    lemma_table_map_dom(s, k);
    assert forall|i: int| 0 <= i < s.len() implies s[i].0 != k by {}
    let t = s.insert(pos, (k, v));
    assert forall|i: int, j: int| 0 <= i < j < t.len() implies t[i].0 != t[j].0 by {
        if i < pos && j < pos {
        } else if i < pos && j == pos {
        } else if i < pos {
            assert(t[j] == s[j - 1]);
        } else if i == pos {
            assert(t[j] == s[j - 1]);
        } else {
            assert(t[i] == s[i - 1] && t[j] == s[j - 1]);
        }
    }
    if pos == s.len() {
        assert(t =~= s.push((k, v)));
        lemma_table_push(s, k, v);
    } else {
        let p = s.drop_last();
        assert(t.drop_last() =~= p.insert(pos, (k, v)));
        assert(t.last() == s.last());
        assert forall|i: int, j: int| 0 <= i < j < p.len() implies p[i].0 != p[j].0 by {
            assert(p[i] == s[i] && p[j] == s[j]);
        }
        lemma_table_map_dom(p, k);
        if table_map(p).dom().contains(k) {
            let i = choose|i: int| 0 <= i < p.len() && p[i].0 == k;
            assert(s[i].0 == k);
        }
        lemma_table_insert(p, pos, k, v);
        assert(table_map(t) =~= table_map(s).insert(k, v));
    }
}


/// Removing the entry at `i` removes its key from the map.
pub proof fn lemma_table_remove<K, V>(s: Seq<(K, V)>, i: int)
    requires
        keys_distinct(s),
        0 <= i < s.len(),
    ensures
        table_map(s.remove(i)) == table_map(s).remove(s[i].0),
        keys_distinct(s.remove(i)),
    decreases s.len(),
{
    let t = s.remove(i);
    assert forall|a: int, b: int| 0 <= a < b < t.len() implies t[a].0 != t[b].0 by {
        if b < i {
        } else if a < i {
            assert(t[b] == s[b + 1]);
        } else {
            assert(t[a] == s[a + 1] && t[b] == s[b + 1]);
        }
    }
    if i == s.len() - 1 {
        assert(t =~= s.drop_last());
        lemma_table_map_dom(s.drop_last(), s[i].0);
        if table_map(s.drop_last()).dom().contains(s[i].0) {
            let j = choose|j: int| 0 <= j < s.drop_last().len() && s.drop_last()[j].0 == s[i].0;
            assert(s[j].0 == s[i].0);
        }
        assert(table_map(t) =~= table_map(s).remove(s[i].0));
    } else {
        let p = s.drop_last();
        assert forall|a: int, b: int| 0 <= a < b < p.len() implies p[a].0 != p[b].0 by {
            assert(p[a] == s[a] && p[b] == s[b]);
        }
        lemma_table_remove(p, i);
        assert(t.drop_last() =~= p.remove(i));
        assert(t.last() == s.last());
        assert(s[i].0 != s.last().0);
        assert(table_map(t) =~= table_map(s).remove(s[i].0));
    }
}


/// A table with distinct keys stands for a finite map with as many keys.
pub proof fn lemma_table_len<K, V>(s: Seq<(K, V)>)
    requires
        keys_distinct(s),
    ensures
        table_map(s).dom().finite(),
        table_map(s).len() == s.len(),
    decreases s.len(),
{
    if s.len() > 0 {
        let p = s.drop_last();
        assert forall|i: int, j: int| 0 <= i < j < p.len() implies p[i].0 != p[j].0 by {
            assert(p[i] == s[i] && p[j] == s[j]);
        }
        lemma_table_len(p);
        lemma_table_map_dom(p, s.last().0);
        if table_map(p).dom().contains(s.last().0) {
            let i = choose|i: int| 0 <= i < p.len() && p[i].0 == s.last().0;
            assert(s[i].0 == s[s.len() - 1].0);
        }
    } else {
        assert(table_map(s).dom() =~= Set::<K>::empty());
    }
}

} // verus!
