//! Association lists with unique keys, viewed as maps: the library's
//! mappings (chapter number to chapter, page number to content, book name to
//! book, domain to pacing state) all live on this.
use vstd::prelude::*;

verus! {

/// No key occurs twice.
pub open spec fn keys_unique<T>(s: Seq<(u16, T)>) -> bool {
    forall|i: int, j: int| 0 <= i < j < s.len() ==> s[i].0 != s[j].0
}

/// The mapping an association list denotes.
pub open spec fn as_map<T>(s: Seq<(u16, T)>) -> Map<u16, T>
    decreases s.len(),
{
    if s.len() == 0 {
        Map::empty()
    } else {
        as_map(s.drop_last()).insert(s.last().0, s.last().1)
    }
}

/// A key is in the mapping exactly when some entry carries it.
pub proof fn lemma_as_map_contains<T>(s: Seq<(u16, T)>, k: u16)
    ensures
        as_map(s).contains_key(k) <==> exists|i: int| 0 <= i < s.len() && s[i].0 == k,
    decreases s.len(),
{
    if s.len() > 0 {
        lemma_as_map_contains(s.drop_last(), k);
        if s.last().0 == k {
            assert(s[s.len() - 1].0 == k);
        } else {
            if exists|i: int| 0 <= i < s.len() && s[i].0 == k {
                let i = choose|i: int| 0 <= i < s.len() && s[i].0 == k;
                assert(0 <= i < s.len() - 1 && s.drop_last()[i].0 == k);
            }
        }
    }
}

/// With unique keys, each entry is what the mapping holds at its key.
pub proof fn lemma_as_map_index<T>(s: Seq<(u16, T)>, i: int)
    requires
        keys_unique(s),
        0 <= i < s.len(),
    ensures
        as_map(s).contains_key(s[i].0),
        as_map(s)[s[i].0] == s[i].1,
    decreases s.len(),
{
    if i == s.len() - 1 {
    } else {
        assert(keys_unique(s.drop_last()));
        lemma_as_map_index(s.drop_last(), i);
        assert(s.drop_last()[i] == s[i]);
        assert(s[i].0 != s.last().0);
    }
}

/// The mapping's keys are finite, and with unique entries as many as the
/// entries.
pub proof fn lemma_as_map_len<T>(s: Seq<(u16, T)>)
    requires
        keys_unique(s),
    ensures
        as_map(s).dom().finite(),
        as_map(s).dom().len() == s.len(),
    decreases s.len(),
{
    if s.len() == 0 {
        assert(as_map(s).dom() =~= Set::<u16>::empty());
    } else {
        assert(keys_unique(s.drop_last()));
        lemma_as_map_len(s.drop_last());
        lemma_as_map_contains(s.drop_last(), s.last().0);
        assert(forall|i: int|
            0 <= i < s.len() - 1 ==> s.drop_last()[i].0 != s.last().0);
        assert(!as_map(s.drop_last()).contains_key(s.last().0));
        assert(as_map(s).dom() =~= as_map(s.drop_last()).dom().insert(s.last().0));
    }
}

/// Removing an entry removes its key from the mapping.
pub proof fn lemma_as_map_remove<T>(s: Seq<(u16, T)>, i: int)
    requires
        keys_unique(s),
        0 <= i < s.len(),
    ensures
        keys_unique(s.remove(i)),
        as_map(s.remove(i)) == as_map(s).remove(s[i].0),
    decreases s.len(),
{
    assert(keys_unique(s.remove(i))) by {
        assert(forall|j: int| 0 <= j < i ==> s.remove(i)[j] == s[j]);
        assert(forall|j: int|
            i <= j < s.len() - 1 ==> s.remove(i)[j] == s[j + 1]);
    }
    if i == s.len() - 1 {
        assert(s.remove(i) =~= s.drop_last());
        lemma_as_map_contains(s.drop_last(), s.last().0);
        assert(forall|j: int|
            0 <= j < s.len() - 1 ==> s.drop_last()[j].0 != s.last().0);
        assert(!as_map(s.drop_last()).contains_key(s.last().0));
        assert(as_map(s.drop_last()) =~= as_map(s.drop_last()).insert(
            s.last().0,
            s.last().1,
        ).remove(s.last().0));
    } else {
        assert(keys_unique(s.drop_last()));
        lemma_as_map_remove(s.drop_last(), i);
        assert(s.remove(i).drop_last() =~= s.drop_last().remove(i));
        assert(s.remove(i).last() == s.last());
        assert(s.drop_last()[i] == s[i]);
        assert(s[i].0 != s.last().0);
        assert(as_map(s.remove(i)) == as_map(s.drop_last().remove(i)).insert(
            s.last().0,
            s.last().1,
        ));
        assert(as_map(s.drop_last()).remove(s[i].0).insert(s.last().0, s.last().1)
            =~= as_map(s.drop_last()).insert(s.last().0, s.last().1).remove(s[i].0));
    }
}

/// The entry carrying the given key, if any.
pub fn find_key<T>(v: &Vec<(u16, T)>, key: u16) -> (r: Option<usize>)
    ensures
        match r {
            Some(i) => i < v@.len() && v@[i as int].0 == key,
            None => forall|i: int| 0 <= i < v@.len() ==> v@[i].0 != key,
        },
{
    let n: usize = v.len();
    let mut i: usize = 0;
    while i < n
        invariant
            n == v@.len(),
            0 <= i <= n,
            forall|j: int| 0 <= j < i ==> v@[j].0 != key,
        decreases n - i,
    {
        if v[i].0 == key {
            return Some(i);
        }
        i += 1;
    }
    None
}

/// Map the key to the value, yielding any value it replaced.
pub fn put<T>(v: &mut Vec<(u16, T)>, key: u16, val: T) -> (prior: Option<T>)
    requires
        keys_unique(old(v)@),
    ensures
        keys_unique(final(v)@),
        as_map(final(v)@) == as_map(old(v)@).insert(key, val),
        forall|j: int|
            0 <= j < final(v)@.len() ==> #[trigger] final(v)@[j] == (key, val)
                || exists|i: int| 0 <= i < old(v)@.len() && final(v)@[j] == old(v)@[i],
        match prior {
            Some(t) => as_map(old(v)@).contains_key(key) && as_map(old(v)@)[key] == t,
            None => !as_map(old(v)@).contains_key(key),
        },
{
    let ghost s = v@;
    proof {
        lemma_as_map_contains(s, key);
    }
    match find_key(v, key) {
        Some(i) => {
            proof {
                lemma_as_map_index(s, i as int);
                lemma_as_map_remove(s, i as int);
            }
            let out: (u16, T) = v.remove(i);
            let ghost removed = v@;
            v.push((key, val));
            proof {
                assert(v@.drop_last() =~= removed);
                assert(keys_unique(v@)) by {
                    assert(forall|j: int|
                        0 <= j < removed.len() ==> removed[j] == v@[j]);
                    lemma_as_map_contains(removed, key);
                    assert(!as_map(removed).contains_key(key));
                    assert(forall|j: int|
                        0 <= j < removed.len() ==> removed[j].0 != key);
                }
                assert(as_map(v@) == as_map(removed).insert(key, val));
                assert(as_map(s).remove(key).insert(key, val) =~= as_map(s).insert(
                    key,
                    val,
                ));
            }
            Some(out.1)
        },
        None => {
            let ghost before = v@;
            v.push((key, val));
            proof {
                assert(v@.drop_last() =~= before);
                assert(keys_unique(v@));
            }
            None
        },
    }
}

/// Unmap the key, yielding the value it carried, if any.
pub fn take_out<T>(v: &mut Vec<(u16, T)>, key: u16) -> (r: Option<T>)
    requires
        keys_unique(old(v)@),
    ensures
        keys_unique(final(v)@),
        as_map(final(v)@) == as_map(old(v)@).remove(key),
        forall|j: int|
            0 <= j < final(v)@.len() ==> exists|i: int|
                0 <= i < old(v)@.len() && #[trigger] final(v)@[j] == old(v)@[i],
        match r {
            Some(t) => as_map(old(v)@).contains_key(key) && as_map(old(v)@)[key] == t,
            None => !as_map(old(v)@).contains_key(key) && final(v)@ == old(v)@,
        },
{
    let ghost s = v@;
    proof {
        lemma_as_map_contains(s, key);
    }
    match find_key(v, key) {
        Some(i) => {
            proof {
                lemma_as_map_index(s, i as int);
                lemma_as_map_remove(s, i as int);
            }
            let out: (u16, T) = v.remove(i);
            Some(out.1)
        },
        None => {
            proof {
                assert(!as_map(s).contains_key(key));
                assert(as_map(s) =~= as_map(s).remove(key));
            }
            None
        },
    }
}

/// No name occurs twice.
pub open spec fn names_unique<T>(s: Seq<(String, T)>) -> bool {
    forall|i: int, j: int| 0 <= i < j < s.len() ==> s[i].0@ != s[j].0@
}

/// The mapping a name-keyed association list denotes.
pub open spec fn as_smap<T>(s: Seq<(String, T)>) -> Map<Seq<char>, T>
    decreases s.len(),
{
    if s.len() == 0 {
        Map::empty()
    } else {
        as_smap(s.drop_last()).insert(s.last().0@, s.last().1)
    }
}

/// A name is in the mapping exactly when some entry carries it.
pub proof fn lemma_as_smap_contains<T>(s: Seq<(String, T)>, k: Seq<char>)
    ensures
        as_smap(s).contains_key(k) <==> exists|i: int| 0 <= i < s.len() && s[i].0@ == k,
    decreases s.len(),
{
    if s.len() > 0 {
        lemma_as_smap_contains(s.drop_last(), k);
        if s.last().0@ == k {
            assert(s[s.len() - 1].0@ == k);
        } else {
            if exists|i: int| 0 <= i < s.len() && s[i].0@ == k {
                let i = choose|i: int| 0 <= i < s.len() && s[i].0@ == k;
                assert(0 <= i < s.len() - 1 && s.drop_last()[i].0@ == k);
            }
        }
    }
}

/// With unique names, each entry is what the mapping holds at its name.
pub proof fn lemma_as_smap_index<T>(s: Seq<(String, T)>, i: int)
    requires
        names_unique(s),
        0 <= i < s.len(),
    ensures
        as_smap(s).contains_key(s[i].0@),
        as_smap(s)[s[i].0@] == s[i].1,
    decreases s.len(),
{
    if i == s.len() - 1 {
    } else {
        assert(names_unique(s.drop_last()));
        lemma_as_smap_index(s.drop_last(), i);
        assert(s.drop_last()[i] == s[i]);
        assert(s[i].0@ != s.last().0@);
    }
}

/// The mapping's names are finite, and with unique entries as many as the
/// entries.
pub proof fn lemma_as_smap_len<T>(s: Seq<(String, T)>)
    requires
        names_unique(s),
    ensures
        as_smap(s).dom().finite(),
        as_smap(s).dom().len() == s.len(),
    decreases s.len(),
{
    if s.len() == 0 {
        assert(as_smap(s).dom() =~= Set::<Seq<char>>::empty());
    } else {
        assert(names_unique(s.drop_last()));
        lemma_as_smap_len(s.drop_last());
        lemma_as_smap_contains(s.drop_last(), s.last().0@);
        assert(forall|i: int|
            0 <= i < s.len() - 1 ==> s.drop_last()[i].0@ != s.last().0@);
        assert(!as_smap(s.drop_last()).contains_key(s.last().0@));
        assert(as_smap(s).dom() =~= as_smap(s.drop_last()).dom().insert(s.last().0@));
    }
}

/// Removing an entry removes its name from the mapping.
pub proof fn lemma_as_smap_remove<T>(s: Seq<(String, T)>, i: int)
    requires
        names_unique(s),
        0 <= i < s.len(),
    ensures
        names_unique(s.remove(i)),
        as_smap(s.remove(i)) == as_smap(s).remove(s[i].0@),
    decreases s.len(),
{
    assert(names_unique(s.remove(i))) by {
        assert(forall|j: int| 0 <= j < i ==> s.remove(i)[j] == s[j]);
        assert(forall|j: int|
            i <= j < s.len() - 1 ==> s.remove(i)[j] == s[j + 1]);
    }
    if i == s.len() - 1 {
        assert(s.remove(i) =~= s.drop_last());
        lemma_as_smap_contains(s.drop_last(), s.last().0@);
        assert(forall|j: int|
            0 <= j < s.len() - 1 ==> s.drop_last()[j].0@ != s.last().0@);
        assert(!as_smap(s.drop_last()).contains_key(s.last().0@));
        assert(as_smap(s.drop_last()) =~= as_smap(s.drop_last()).insert(
            s.last().0@,
            s.last().1,
        ).remove(s.last().0@));
    } else {
        assert(names_unique(s.drop_last()));
        lemma_as_smap_remove(s.drop_last(), i);
        assert(s.remove(i).drop_last() =~= s.drop_last().remove(i));
        assert(s.remove(i).last() == s.last());
        assert(s.drop_last()[i] == s[i]);
        assert(s[i].0@ != s.last().0@);
        assert(as_smap(s.remove(i)) == as_smap(s.drop_last().remove(i)).insert(
            s.last().0@,
            s.last().1,
        ));
        assert(as_smap(s.drop_last()).remove(s[i].0@).insert(s.last().0@, s.last().1)
            =~= as_smap(s.drop_last()).insert(s.last().0@, s.last().1).remove(
            s[i].0@,
        ));
    }
}

/// The entry carrying the given name, if any.
pub fn find_name<T>(v: &Vec<(String, T)>, key: &str) -> (r: Option<usize>)
    ensures
        match r {
            Some(i) => i < v@.len() && v@[i as int].0@ == key@,
            None => forall|i: int| 0 <= i < v@.len() ==> v@[i].0@ != key@,
        },
{
    let n: usize = v.len();
    let mut i: usize = 0;
    while i < n
        invariant
            n == v@.len(),
            0 <= i <= n,
            forall|j: int| 0 <= j < i ==> v@[j].0@ != key@,
        decreases n - i,
    {
        if crate::chars::str_eq(v[i].0.as_str(), key) {
            return Some(i);
        }
        i += 1;
    }
    None
}

/// Map the name to the value, yielding any value it replaced.
pub fn put_name<T>(v: &mut Vec<(String, T)>, key: String, val: T) -> (prior: Option<T>)
    requires
        names_unique(old(v)@),
    ensures
        names_unique(final(v)@),
        as_smap(final(v)@) == as_smap(old(v)@).insert(key@, val),
        forall|j: int|
            0 <= j < final(v)@.len() ==> (#[trigger] final(v)@[j]).0@ == key@
                && final(v)@[j].1 == val || exists|i: int|
                0 <= i < old(v)@.len() && final(v)@[j] == old(v)@[i],
        match prior {
            Some(t) => as_smap(old(v)@).contains_key(key@) && as_smap(old(v)@)[key@]
                == t,
            None => !as_smap(old(v)@).contains_key(key@),
        },
{
    let ghost s = v@;
    proof {
        lemma_as_smap_contains(s, key@);
    }
    match find_name(v, key.as_str()) {
        Some(i) => {
            proof {
                lemma_as_smap_index(s, i as int);
                lemma_as_smap_remove(s, i as int);
            }
            let out: (String, T) = v.remove(i);
            let ghost removed = v@;
            v.push((key, val));
            proof {
                assert(v@.drop_last() =~= removed);
                assert(names_unique(v@)) by {
                    assert(forall|j: int|
                        0 <= j < removed.len() ==> removed[j] == v@[j]);
                    lemma_as_smap_contains(removed, v@.last().0@);
                    assert(!as_smap(removed).contains_key(v@.last().0@));
                    assert(forall|j: int|
                        0 <= j < removed.len() ==> removed[j].0@ != v@.last().0@);
                }
                assert(as_smap(v@) == as_smap(removed).insert(v@.last().0@, val));
                assert(as_smap(s).remove(v@.last().0@).insert(v@.last().0@, val)
                    =~= as_smap(s).insert(v@.last().0@, val));
            }
            Some(out.1)
        },
        None => {
            let ghost before = v@;
            v.push((key, val));
            proof {
                assert(v@.drop_last() =~= before);
                assert(names_unique(v@));
            }
            None
        },
    }
}

/// Unmap the name, yielding the value it carried, if any.
pub fn take_out_name<T>(v: &mut Vec<(String, T)>, key: &str) -> (r: Option<T>)
    requires
        names_unique(old(v)@),
    ensures
        names_unique(final(v)@),
        as_smap(final(v)@) == as_smap(old(v)@).remove(key@),
        forall|j: int|
            0 <= j < final(v)@.len() ==> exists|i: int|
                0 <= i < old(v)@.len() && #[trigger] final(v)@[j] == old(v)@[i],
        match r {
            Some(t) => exists|i: int|
                {
                    &&& 0 <= i < old(v)@.len()
                    &&& (#[trigger] old(v)@[i]).0@ == key@
                    &&& old(v)@[i].1 == t
                    &&& final(v)@ == old(v)@.remove(i)
                } && as_smap(old(v)@).contains_key(key@) && as_smap(old(v)@)[key@] == t,
            None => !as_smap(old(v)@).contains_key(key@) && final(v)@ == old(v)@,
        },
{
    let ghost s = v@;
    proof {
        lemma_as_smap_contains(s, key@);
    }
    match find_name(v, key) {
        Some(i) => {
            proof {
                lemma_as_smap_index(s, i as int);
                lemma_as_smap_remove(s, i as int);
            }
            let out: (String, T) = v.remove(i);
            Some(out.1)
        },
        None => {
            proof {
                assert(!as_smap(s).contains_key(key@));
                assert(as_smap(s) =~= as_smap(s).remove(key@));
            }
            None
        },
    }
}

/// Inserting an entry with a fresh name anywhere in the list maps its name
/// to its value.
pub proof fn lemma_as_smap_insert_at<T>(s: Seq<(String, T)>, i: int, e: (String, T))
    requires
        0 <= i <= s.len(),
        forall|k: int| 0 <= k < s.len() ==> (#[trigger] s[k]).0@ != e.0@,
    ensures
        as_smap(s.insert(i, e)) == as_smap(s).insert(e.0@, e.1),
    decreases s.len(),
{
    if i == s.len() {
        assert(s.insert(i, e) =~= s.push(e));
        assert(s.push(e).drop_last() =~= s);
    } else {
        assert(s.insert(i, e).drop_last() =~= s.drop_last().insert(i, e));
        assert(s.insert(i, e).last() == s.last());
        assert(forall|k: int|
            0 <= k < s.drop_last().len() ==> (#[trigger] s.drop_last()[k]).0@
                != e.0@);
        lemma_as_smap_insert_at(s.drop_last(), i, e);
        assert(s.last().0@ != e.0@);
        assert(as_smap(s.drop_last()).insert(e.0@, e.1).insert(
            s.last().0@,
            s.last().1,
        ) =~= as_smap(s.drop_last()).insert(s.last().0@, s.last().1).insert(
            e.0@,
            e.1,
        ));
    }
}

/// The value at the name, if any.
pub fn get_name<'a, T>(v: &'a Vec<(String, T)>, key: &str) -> (r: Option<&'a T>)
    requires
        names_unique(v@),
    ensures
        match r {
            Some(t) => as_smap(v@).contains_key(key@) && as_smap(v@)[key@] == *t,
            None => !as_smap(v@).contains_key(key@),
        },
{
    proof {
        lemma_as_smap_contains(v@, key@);
    }
    match find_name(v, key) {
        Some(i) => {
            proof {
                lemma_as_smap_index(v@, i as int);
            }
            Some(&v[i].1)
        },
        None => None,
    }
}

/// The value at the key, if any.
pub fn get_at<'a, T>(v: &'a Vec<(u16, T)>, key: u16) -> (r: Option<&'a T>)
    requires
        keys_unique(v@),
    ensures
        match r {
            Some(t) => as_map(v@).contains_key(key) && as_map(v@)[key] == *t,
            None => !as_map(v@).contains_key(key),
        },
{
    proof {
        lemma_as_map_contains(v@, key);
    }
    match find_key(v, key) {
        Some(i) => {
            proof {
                lemma_as_map_index(v@, i as int);
            }
            Some(&v[i].1)
        },
        None => None,
    }
}

} // verus!
