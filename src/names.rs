//! The name index: a map from each node's name to its handle.
use vstd::prelude::*;
use vstd::hash_map::StringHashMap;

verus! {

/// The contents of each string of `v`.
pub open spec fn string_views(v: Seq<String>) -> Seq<Seq<char>> {
    Seq::new(v.len(), |i: int| v[i]@)
}

/// No two entries of `names` are equal.
pub open spec fn names_unique(names: Seq<Seq<char>>) -> bool {
    forall|i: int, j: int| 0 <= i < j < names.len() ==> names[i] != names[j]
}

/// `names[j]` repeats an earlier entry, and no earlier entry does.
pub open spec fn is_first_repeat(names: Seq<Seq<char>>, j: int) -> bool {
    &&& 0 <= j < names.len()
    &&& names_unique(names.take(j))
    &&& exists|i: int| 0 <= i < j && names[i] == names[j]
}

/// `m` maps each entry of `names` to its position and holds nothing else.
pub open spec fn indexes(m: Map<Seq<char>, usize>, names: Seq<Seq<char>>) -> bool {
    &&& forall|k: Seq<char>|
        #[trigger] m.contains_key(k) <==> exists|i: int| 0 <= i < names.len() && names[i] == k
    &&& forall|i: int| 0 <= i < names.len() ==> #[trigger] m[names[i]] == i
}

/// Builds the map from each name to its position, or returns the first name
/// that repeats an earlier one.
pub fn index_names(names: &Vec<String>) -> (r: Result<StringHashMap<usize>, String>)
    ensures
        match r {
            Ok(m) => names_unique(string_views(names@)) && indexes(
                m@,
                string_views(names@),
            ),
            Err(s) => exists|j: int|
                is_first_repeat(string_views(names@), j) && s@ == names@[j]@,
        },
{
    let ghost v = string_views(names@);
    let mut m: StringHashMap<usize> = StringHashMap::with_capacity(names.len());
    let mut i: usize = 0;
    while i < names.len()
        invariant
            i <= names@.len(),
            v == string_views(names@),
            names_unique(v.take(i as int)),
            indexes(m@, v.take(i as int)),
        decreases names@.len() - i,
    {
        let name = &names[i];
        if m.contains_key(name.as_str()) {
            proof {
                let w = choose|w: int| 0 <= w < i && v.take(i as int)[w] == name@;
                assert(v[w] == v[i as int]);
                assert(is_first_repeat(v, i as int));
            }
            return Err(name.clone());
        }
        let ghost m0 = m@;
        m.insert(name.clone(), i);
        proof {
            let t = v.take(i as int + 1);
            assert(t =~= v.take(i as int).push(v[i as int]));
            assert forall|a: int, b: int| 0 <= a < b < t.len() implies t[a] != t[b] by {
                if b == i {
                    if t[a] == t[b] {
                        assert(v.take(i as int)[a] == name@);
                    }
                }
            }
            assert forall|k: Seq<char>|
                #[trigger] m@.contains_key(k) <==> exists|a: int| 0 <= a < t.len() && t[a] == k by {
                if k == name@ {
                    assert(t[i as int] == k);
                } else if m0.contains_key(k) {
                    let a = choose|a: int| 0 <= a < i && v.take(i as int)[a] == k;
                    assert(t[a] == k);
                } else {
                    if exists|a: int| 0 <= a < t.len() && t[a] == k {
                        let a = choose|a: int| 0 <= a < t.len() && t[a] == k;
                        assert(v.take(i as int)[a] == k);
                    }
                }
            }
            assert forall|a: int| 0 <= a < t.len() implies #[trigger] m@[t[a]] == a by {
                if a < i {
                    assert(v.take(i as int)[a] == t[a]);
                    assert(m0[t[a]] == a);
                }
            }
        }
        i = i + 1;
    }
    proof {
        assert(v.take(names@.len() as int) =~= v);
    }
    Ok(m)
}

} // verus!
