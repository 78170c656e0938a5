//! Association vectors with unique string keys: the verified replacement for
//! the hash maps behind the per-file name set and the global symbol table.

use vstd::prelude::*;

verus! {

/// The map an association list denotes; a later entry for a key wins.
pub open spec fn assoc_map<V>(s: Seq<(String, V)>) -> Map<Seq<char>, V>
    decreases s.len(),
{
    if s.len() == 0 {
        Map::empty()
    } else {
        assoc_map(s.drop_last()).insert(s.last().0@, s.last().1)
    }
}

/// No two entries share a key.
pub open spec fn keys_unique<V>(s: Seq<(String, V)>) -> bool {
    forall|i: int, j: int| 0 <= i < j < s.len() ==> s[i].0@ != s[j].0@
}

/// A key is in the denoted map exactly when some entry holds it.
pub proof fn lemma_assoc_contains<V>(s: Seq<(String, V)>, k: Seq<char>)
    ensures
        assoc_map(s).contains_key(k) <==> exists|i: int| 0 <= i < s.len() && s[i].0@ == k,
    decreases s.len(),
{
    if s.len() > 0 {
        lemma_assoc_contains(s.drop_last(), k);
        if s.last().0@ == k {
            assert(s[s.len() - 1].0@ == k);
        } else if assoc_map(s).contains_key(k) {
            let i = choose|i: int| 0 <= i < s.drop_last().len() && s.drop_last()[i].0@ == k;
            assert(s[i].0@ == k);
        } else if exists|i: int| 0 <= i < s.len() && s[i].0@ == k {
            let i = choose|i: int| 0 <= i < s.len() && s[i].0@ == k;
            assert(s.drop_last()[i].0@ == k);
        }
    }
}

/// With unique keys, each entry's key maps to that entry's value.
pub proof fn lemma_assoc_value<V>(s: Seq<(String, V)>, i: int)
    requires
        keys_unique(s),
        0 <= i < s.len(),
    ensures
        assoc_map(s).contains_key(s[i].0@),
        assoc_map(s)[s[i].0@] == s[i].1,
    decreases s.len(),
{
    if i < s.len() - 1 {
        assert(s.drop_last()[i] == s[i]);
        lemma_assoc_value(s.drop_last(), i);
    }
}

/// Removing the entry at `i` removes exactly its key from the denoted map.
pub proof fn lemma_assoc_remove_at<V>(s: Seq<(String, V)>, i: int)
    requires
        keys_unique(s),
        0 <= i < s.len(),
    ensures
        keys_unique(s.remove(i)),
        assoc_map(s.remove(i)) == assoc_map(s).remove(s[i].0@),
    decreases s.len(),
{
    assert(keys_unique(s.remove(i))) by {
        assert forall|a: int, b: int| 0 <= a < b < s.remove(i).len() implies s.remove(i)[a].0@
            != s.remove(i)[b].0@ by {
            assert(s.remove(i)[a] == if a < i {
                s[a]
            } else {
                s[a + 1]
            });
            assert(s.remove(i)[b] == if b < i {
                s[b]
            } else {
                s[b + 1]
            });
        }
    }
    if i == s.len() - 1 {
        assert(s.remove(i) =~= s.drop_last());
        lemma_assoc_contains(s.drop_last(), s[i].0@);
        assert(assoc_map(s.remove(i)) =~= assoc_map(s).remove(s[i].0@));
    } else {
        lemma_assoc_remove_at(s.drop_last(), i);
        assert(s.remove(i).drop_last() =~= s.drop_last().remove(i));
        assert(s.remove(i).last() == s.last());
        assert(s.drop_last()[i] == s[i]);
        assert(assoc_map(s.remove(i)) =~= assoc_map(s).remove(s[i].0@));
    }
}

/// Appending an entry inserts its pair into the denoted map.
pub proof fn lemma_assoc_push<V>(s: Seq<(String, V)>, key: String, val: V)
    ensures
        assoc_map(s.push((key, val))) == assoc_map(s).insert(key@, val),
{
    assert(s.push((key, val)).drop_last() =~= s);
    assert(s.push((key, val)).last() == (key, val));
}

/// Look a key up; `Some` exactly when the denoted map holds it.
pub(crate) fn assoc_get<'a, V>(v: &'a Vec<(String, V)>, key: &String) -> (r: Option<&'a V>)
    requires
        keys_unique(v@),
    ensures
        match r {
            Some(val) => assoc_map(v@).contains_key(key@) && *val == assoc_map(v@)[key@],
            None => !assoc_map(v@).contains_key(key@),
        },
{
    let mut i: usize = 0;
    while i < v.len()
        invariant
            keys_unique(v@),
            i <= v@.len(),
            forall|j: int| 0 <= j < i ==> v@[j].0@ != key@,
        decreases v@.len() - i,
    {
        if v[i].0 == *key {
            proof {
                lemma_assoc_value(v@, i as int);
            }
            return Some(&v[i].1);
        }
        i += 1;
    }
    proof {
        lemma_assoc_contains(v@, key@);
    }
    None
}

/// Bind a key to a value, replacing any previous binding.
pub(crate) fn assoc_set<V>(v: &mut Vec<(String, V)>, key: String, val: V)
    requires
        keys_unique(old(v)@),
    ensures
        keys_unique(final(v)@),
        assoc_map(final(v)@) == assoc_map(old(v)@).insert(key@, val),
{
    assoc_remove(v, &key);
    let ghost removed = v@;
    v.push((key, val));
    proof {
        lemma_assoc_push(removed, key, val);
        assert(assoc_map(final(v)@) =~= assoc_map(old(v)@).insert(key@, val));
        assert forall|a: int, b: int| 0 <= a < b < final(v)@.len() implies final(v)@[a].0@
            != final(v)@[b].0@ by {
            if b == final(v)@.len() - 1 {
                lemma_assoc_contains(removed, key@);
            }
        }
    }
}

/// Drop a key's binding if it has one.
pub(crate) fn assoc_remove<V>(v: &mut Vec<(String, V)>, key: &String)
    requires
        keys_unique(old(v)@),
    ensures
        keys_unique(final(v)@),
        assoc_map(final(v)@) == assoc_map(old(v)@).remove(key@),
{
    let mut i: usize = 0;
    while i < v.len()
        invariant
            keys_unique(v@),
            v@ == old(v)@,
            i <= v@.len(),
            forall|j: int| 0 <= j < i ==> v@[j].0@ != key@,
        decreases v@.len() - i,
    {
        if v[i].0 == *key {
            proof {
                lemma_assoc_remove_at(v@, i as int);
            }
            let _ = v.remove(i);
            return ;
        }
        i += 1;
    }
    proof {
        lemma_assoc_contains(v@, key@);
        assert(assoc_map(v@) =~= assoc_map(v@).remove(key@));
    }
}

} // verus!
