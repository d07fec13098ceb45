//! Small string-keyed maps kept as lists of pairs, where a later pair for a key
//! overrides an earlier one.

use vstd::prelude::*;

verus! {

/// The map a list of pairs stands for: each key maps to its last value.
pub open spec fn assoc_map<V>(s: Seq<(String, V)>) -> Map<Seq<char>, V>
    decreases s.len(),
{
    if s.len() == 0 {
        Map::empty()
    } else {
        assoc_map(s.drop_last()).insert(s.last().0@, s.last().1)
    }
}

/// A list without `key` stands for the map without `key`.
proof fn lemma_assoc_without<V>(s: Seq<(String, V)>, key: Seq<char>)
    requires
        forall|i: int| 0 <= i < s.len() ==> s[i].0@ != key,
    ensures
        !assoc_map(s).contains_key(key),
    decreases s.len(),
{
    if s.len() > 0 {
        lemma_assoc_without(s.drop_last(), key);
    }
}

/// The pairs of `s` for keys other than `key`, in order.
pub open spec fn without_key<V>(s: Seq<(String, V)>, key: Seq<char>) -> Seq<(String, V)>
    decreases s.len(),
{
    if s.len() == 0 {
        s
    } else if s.last().0@ == key {
        without_key(s.drop_last(), key)
    } else {
        without_key(s.drop_last(), key).push(s.last())
    }
}

/// Dropping every pair for `key` drops `key` from the map.
proof fn lemma_assoc_without_key<V>(s: Seq<(String, V)>, key: Seq<char>)
    ensures
        assoc_map(without_key(s, key)) == assoc_map(s).remove(key),
    decreases s.len(),
{
    if s.len() == 0 {
        assert(assoc_map(without_key(s, key)) =~= assoc_map(s).remove(key));
    } else {
        let init = s.drop_last();
        lemma_assoc_without_key(init, key);
        let t = without_key(s, key);
        if s.last().0@ == key {
            assert(assoc_map(t) =~= assoc_map(s).remove(key));
        } else {
            assert(t.drop_last() == without_key(init, key));
            assert(assoc_map(t) =~= assoc_map(s).remove(key));
        }
    }
}

/// The value the list gives `key`: its last pair for it.
pub fn assoc_get<'a, V>(s: &'a Vec<(String, V)>, key: &String) -> (r: Option<&'a V>)
    ensures
        match r {
            Some(v) => assoc_map(s@).contains_key(key@) && assoc_map(s@)[key@] == *v,
            None => !assoc_map(s@).contains_key(key@),
        },
{
    let mut i = s.len();
    assert(s@.take(i as int) =~= s@);
    while i > 0
        invariant
            i <= s@.len(),
            assoc_map(s@).contains_key(key@) == assoc_map(s@.take(i as int)).contains_key(key@),
            assoc_map(s@).contains_key(key@) ==> assoc_map(s@)[key@] == assoc_map(
                s@.take(i as int),
            )[key@],
        decreases i,
    {
        let k = i - 1;
        assert(s@.take(i as int).drop_last() =~= s@.take(k as int));
        assert(s@.take(i as int).last() == s@[k as int]);
        if s[k].0 == *key {
            return Some(&s[k].1);
        }
        i = k;
    }
    assert(s@.take(0) =~= Seq::<(String, V)>::empty());
    None
}

/// Drop every pair for `key`.
pub fn assoc_remove<V>(s: &mut Vec<(String, V)>, key: &String)
    ensures
        assoc_map(final(s)@) == assoc_map(old(s)@).remove(key@),
{
    let mut all: Vec<(String, V)> = Vec::new();
    std::mem::swap(&mut all, s);
    let ghost source = all@;
    let mut kept: Vec<(String, V)> = Vec::new();
    // Walk the pairs front to back, keeping those for other keys.
    while all.len() > 0
        invariant
            all@.len() <= source.len(),
            all@ == source.skip(source.len() - all@.len()),
            kept@ == without_key(source.take(source.len() - all@.len()), key@),
        decreases all@.len(),
    {
        let ghost done = source.len() - all@.len();
        let pair = all.remove(0);
        proof {
            assert(pair == source[done]);
            assert(source.take(done + 1).drop_last() =~= source.take(done));
            assert(source.take(done + 1).last() == pair);
            assert(all@ =~= source.skip(done + 1));
        }
        if pair.0 != *key {
            kept.push(pair);
        }
    }
    proof {
        assert(source.take(source.len() as int) =~= source);
        lemma_assoc_without_key(source, key@);
    }
    *s = kept;
}

/// The value the map gives `key`, if any.
pub open spec fn assoc_lookup<V>(m: Map<Seq<char>, V>, key: Seq<char>) -> Option<V> {
    if m.contains_key(key) {
        Some(m[key])
    } else {
        None
    }
}

/// Take `key`'s value out, dropping every pair for it.
pub fn assoc_take<V>(s: &mut Vec<(String, V)>, key: &String) -> (r: Option<V>)
    ensures
        r == assoc_lookup(assoc_map(old(s)@), key@),
        assoc_map(final(s)@) == assoc_map(old(s)@).remove(key@),
{
    let mut i = s.len();
    assert(s@.take(i as int) =~= s@);
    let mut found: Option<usize> = None;
    while i > 0
        invariant_except_break
            found is None,
        invariant
            i <= s@.len(),
            assoc_map(s@).contains_key(key@) == assoc_map(s@.take(i as int)).contains_key(key@),
            assoc_map(s@).contains_key(key@) ==> assoc_map(s@)[key@] == assoc_map(
                s@.take(i as int),
            )[key@],
        ensures
            found matches Some(k) ==> k < s@.len() && s@[k as int].0@ == key@ && assoc_map(
                s@,
            ).contains_key(key@) && assoc_map(s@)[key@] == s@[k as int].1,
            found is None ==> !assoc_map(s@).contains_key(key@),
        decreases i,
    {
        let k = i - 1;
        assert(s@.take(i as int).drop_last() =~= s@.take(k as int));
        assert(s@.take(i as int).last() == s@[k as int]);
        if s[k].0 == *key {
            found = Some(k);
            break;
        }
        i = k;
    }
    if i == 0 {
        assert(s@.take(0) =~= Seq::<(String, V)>::empty());
    }
    match found {
        Some(k) => {
            let ghost before = s@;
            let (_, value) = s.remove(k);
            assoc_remove(s, key);
            proof {
                lemma_assoc_remove_index(before, k as int);
            }
            Some(value)
        },
        None => {
            assoc_remove(s, key);
            None
        },
    }
}

/// Removing one pair for `key` and then every other leaves the same map as
/// removing every pair for `key` at once.
proof fn lemma_assoc_remove_index<V>(s: Seq<(String, V)>, k: int)
    requires
        0 <= k < s.len(),
    ensures
        assoc_map(s.remove(k)).remove(s[k].0@) == assoc_map(s).remove(s[k].0@),
{
    let key = s[k].0@;
    lemma_assoc_without_key(s, key);
    lemma_assoc_without_key(s.remove(k), key);
    lemma_without_key_remove(s, k);
}

proof fn lemma_without_key_remove<V>(s: Seq<(String, V)>, k: int)
    requires
        0 <= k < s.len(),
    ensures
        without_key(s.remove(k), s[k].0@) == without_key(s, s[k].0@),
    decreases s.len(),
{
    let key = s[k].0@;
    if k == s.len() - 1 {
        assert(s.remove(k) =~= s.drop_last());
    } else {
        let init = s.drop_last();
        lemma_without_key_remove(init, k);
        assert(s.remove(k).drop_last() =~= init.remove(k));
        assert(s.remove(k).last() == s.last());
    }
}

/// Make `key` map to `value`.
pub fn assoc_set<V>(s: &mut Vec<(String, V)>, key: String, value: V)
    ensures
        assoc_map(final(s)@) == assoc_map(old(s)@).insert(key@, value),
{
    assoc_remove(s, &key);
    let ghost before = s@;
    s.push((key, value));
    proof {
        assert(s@.drop_last() =~= before);
        assert(assoc_map(s@) =~= assoc_map(before).insert(key@, value));
    }
}

} // verus!
