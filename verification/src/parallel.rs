//! Selection of entries on several threads.
use crate::entries::lemma_concat;
use crate::hash_key::{is_default, HashKey};
use crate::hash_map::GenericHashMap;
use crate::hash_map_ops::lemma_union_len;
use crate::hash_map_ops::{fresh, says, united};
use crate::node::{distinct, find, Pair};
use crate::shared::{inside, share};
use crate::trie::{lemma_seen, lemma_stored, lemma_submap_insert, pairs_map, stored_keys};
use vstd::prelude::*;

verus! {

/// How many entries one thread takes on without looking for help.
pub const GRAIN: usize = 64;

/// `rayon::join`: calls both functions, on two threads where one is free, and
/// returns both results.
#[verifier::external_body]
pub(crate) fn both<A, B, RA, RB>(a: A, b: B) -> (results: (RA, RB)) where
    A: FnOnce() -> RA + Send,
    B: FnOnce() -> RB + Send,
    RA: Send,
    RB: Send,

    requires
        a.requires(()),
        b.requires(()),
    ensures
        a.ensures((), results.0),
        b.ensures((), results.1),
{
    rayon::join(a, b)
}

/// Whether a function accepts every entry of a list.
pub open spec fn accepts_list<K, V, F: Fn(&K, &V) -> bool>(f: &F, pairs: Seq<Pair<K, V>>) -> bool {
    forall|i: int|
        0 <= i < pairs.len() ==> (*f).requires((&*(#[trigger] pairs[i]).0, &*pairs[i].1))
}

/// Whether a map holds of some entries those that a function may say `true` of.
pub open spec fn keeps<K: View, V, F: Fn(&K, &V) -> bool>(
    f: &F,
    whole: Map<K::V, V>,
    part: Map<K::V, V>,
) -> bool {
    &&& part.submap_of(whole)
    &&& forall|key: K::V| #[trigger]
        whole.contains_key(key) ==> says(*f, key, whole[key], part.contains_key(key))
}

/// Whether a map may have been made anew, with a default hasher state.
pub open spec fn anew<K: View, V, S: Default>(map: GenericHashMap<K, V, S>) -> bool {
    is_default(map.state()) && fresh(map)
}

/// The two halves of a list of entries, as maps.
pub(crate) proof fn lemma_halves<K: View, V>(
    pairs: Seq<Pair<K, V>>,
    left: Seq<Pair<K, V>>,
    right: Seq<Pair<K, V>>,
)
    requires
        distinct(pairs),
        pairs == left + right,
    ensures
        distinct(left),
        distinct(right),
        pairs_map(left).dom().disjoint(pairs_map(right).dom()),
        pairs_map(pairs) == pairs_map(left).union_prefer_right(pairs_map(right)),
        stored_keys(left).submap_of(stored_keys(pairs)),
        stored_keys(right).submap_of(stored_keys(pairs)),
{
    let n = left.len();
    assert forall|i: int, j: int| 0 <= i < j < left.len() implies (*(#[trigger] left[i]).0)@ != (*(
    #[trigger] left[j]).0)@ by {
        assert((*pairs[i].0)@ != (*pairs[j].0)@);
    }
    assert forall|i: int, j: int| 0 <= i < j < right.len() implies (*(#[trigger] right[i]).0)@ != (
    *(#[trigger] right[j]).0)@ by {
        assert((*pairs[n + i].0)@ != (*pairs[n + j].0)@);
    }
    assert forall|i: int, j: int| 0 <= i < left.len() && 0 <= j < right.len() implies (*(
    #[trigger] left[i]).0)@ != (*(#[trigger] right[j]).0)@ by {
        assert((*pairs[i].0)@ != (*pairs[n + j].0)@);
    }
    lemma_concat(left, right);
    assert forall|key: K::V| !(find(left, key) is Some && find(right, key) is Some) by {
        if find(left, key) is Some && find(right, key) is Some {
            let i = crate::node::lemma_found(left, key);
            let j = crate::node::lemma_found(right, key);
            assert((*left[i].0)@ != (*right[j].0)@);
        }
    }
    assert(pairs_map(pairs) =~= pairs_map(left).union_prefer_right(pairs_map(right)));
    assert forall|key: K::V| #[trigger] stored_keys(left).contains_key(key) implies stored_keys(
        pairs,
    ).contains_pair(key, stored_keys(left)[key]) by {
        assert(find(left, key) is Some);
    }
    assert forall|key: K::V| #[trigger] stored_keys(right).contains_key(key) implies stored_keys(
        pairs,
    ).contains_pair(key, stored_keys(right)[key]) by {
        assert(find(right, key) is Some);
    }
}

/// A function that accepts a list accepts its halves.
proof fn lemma_accept_halves<K, V, F: Fn(&K, &V) -> bool>(
    f: &F,
    pairs: Seq<Pair<K, V>>,
    left: Seq<Pair<K, V>>,
    right: Seq<Pair<K, V>>,
)
    requires
        accepts_list(f, pairs),
        pairs == left + right,
    ensures
        accepts_list(f, left),
        accepts_list(f, right),
{
    assert forall|i: int| 0 <= i < left.len() implies (*f).requires(
        (&*(#[trigger] left[i]).0, &*left[i].1),
    ) by {
        assert(left[i] == pairs[i]);
    }
    assert forall|i: int| 0 <= i < right.len() implies (*f).requires(
        (&*(#[trigger] right[i]).0, &*right[i].1),
    ) by {
        assert(right[i] == pairs[left.len() + i]);
    }
}

/// What two selections make together.
proof fn lemma_keeps_both<K: View, V, F: Fn(&K, &V) -> bool>(
    f: &F,
    left: Map<K::V, V>,
    right: Map<K::V, V>,
    a: Map<K::V, V>,
    b: Map<K::V, V>,
)
    requires
        left.dom().disjoint(right.dom()),
        keeps(f, left, a),
        keeps(f, right, b),
        a.dom().finite(),
        b.dom().finite(),
    ensures
        keeps(f, left.union_prefer_right(right), b.union_prefer_right(a)),
        b.union_prefer_right(a).len() <= a.len() + b.len(),
{
    let whole = left.union_prefer_right(right);
    let part = b.union_prefer_right(a);
    lemma_union_len(a, b);
    assert forall|key: K::V| #[trigger] whole.contains_key(key) implies says(
        *f,
        key,
        whole[key],
        part.contains_key(key),
    ) by {
        if left.contains_key(key) {
            assert(!b.contains_key(key)) by {
                if b.contains_key(key) {
                    assert(right.contains_key(key));
                }
            }
            assert(says(*f, key, left[key], a.contains_key(key)));
        } else {
            assert(!a.contains_key(key)) by {
                if a.contains_key(key) {
                    assert(left.contains_key(key));
                }
            }
            assert(says(*f, key, right[key], b.contains_key(key)));
        }
    }
    assert forall|key: K::V| #[trigger] part.contains_key(key) implies whole.contains_key(key)
        && whole[key] == part[key] by {
        if a.contains_key(key) {
            assert(left.contains_key(key) && left[key] == a[key]);
        } else {
            assert(right.contains_key(key) && right[key] == b[key]);
        }
    }
    assert(part.submap_of(whole));
}

/// The union of two maps that were made anew is such a map.
pub(crate) proof fn lemma_united<S: Default, K: HashKey<S>, V>(
    a: GenericHashMap<K, V, S>,
    b: GenericHashMap<K, V, S>,
    map: GenericHashMap<K, V, S>,
)
    requires
        a.wf(),
        b.wf(),
        map.wf(),
        anew(a),
        anew(b),
        united(a, b, map),
    ensures
        anew(map),
{
    a.lemma_map();
    b.lemma_map();
    map.lemma_map();
    map.lemma_top();
    if map@ == Map::<K::V, V>::empty() {
        assert forall|key: K::V| !b@.contains_key(key) by {
            assert(!map@.contains_key(key));
        }
        assert(b@.dom() =~= Set::empty());
    } else if map.kv_merkle() is Some {
        assert(map@ == a@ || map@ == b@);
    }
}

impl<K, V, S> GenericHashMap<K, V, S> {
    /// The entries of a list that a function says `true` of.
    fn keep_list<F: Fn(&K, &V) -> bool>(pairs: &[Pair<K, V>], f: &F) -> (map: Self) where
        K: HashKey<S>,
        S: Default,

        requires
            distinct(pairs@),
            accepts_list(f, pairs@),
        ensures
            map.wf(),
            keeps(f, pairs_map(pairs@), map@),
            map@.len() <= pairs@.len(),
            anew(map),
            map.held_keys().submap_of(stored_keys(pairs@)),
    {
        let mut map = Self::new();
        let mut i: usize = 0;
        proof {
            lemma_seen(pairs@, 0);
            assert(pairs@.len() == pairs.len());
        }
        while i < pairs.len()
            invariant
                i <= pairs@.len(),
                pairs@.len() <= usize::MAX,
                distinct(pairs@),
                accepts_list(f, pairs@),
                map.wf(),
                map@.dom().finite(),
                map@.len() <= i,
                keeps(f, pairs_map(pairs@.take(i as int)), map@),
                anew(map),
                map.held_keys().submap_of(stored_keys(pairs@)),
            decreases pairs@.len() - i,
        {
            let pair = &pairs[i];
            let ghost before = map@;
            let ghost key = (*pair.0)@;
            proof {
                lemma_seen(pairs@, i as int);
                lemma_stored(pairs@, i as int);
                assert((*f).requires((&*pairs@[i as int].0, &*pairs@[i as int].1)));
            }
            let keep = f(&*pair.0, &*pair.1);
            proof {
                assert(inside(pair.0)@ == key);
                assert(says(*f, key, inside(pair.1), keep));
                assert(!before.contains_key(key));
            }
            if keep {
                proof {
                    lemma_submap_insert(
                        map.held_keys(),
                        stored_keys(pairs@),
                        key,
                        inside(pair.0),
                    );
                }
                map.insert_pair(share(&pair.0), share(&pair.1));
                assert(map@.contains_key(key));
            }
            i += 1;
            proof {
                let seen = pairs_map(pairs@.take(i - 1));
                let longer = pairs_map(pairs@.take(i as int));
                assert forall|k: K::V| #[trigger] longer.contains_key(k) implies says(
                    *f,
                    k,
                    longer[k],
                    map@.contains_key(k),
                ) by {
                    if k != key {
                        assert(seen.contains_key(k));
                    }
                }
            }
        }
        proof {
            lemma_seen(pairs@, pairs@.len() as int);
        }
        map
    }

    /// The entries of a list that a function says `true` of, found on several
    /// threads: a long list is halved.
    pub(crate) fn par_keep<F: Fn(&K, &V) -> bool + Sync>(pairs: &[Pair<K, V>], f: &F) -> (map:
        Self) where K: HashKey<S> + Send + Sync, V: Send + Sync, S: Default + Send + Sync
        requires
            distinct(pairs@),
            accepts_list(f, pairs@),
        ensures
            map.wf(),
            keeps(f, pairs_map(pairs@), map@),
            map@.len() <= pairs@.len(),
            anew(map),
            map.held_keys().submap_of(stored_keys(pairs@)),
        decreases pairs@.len(),
    {
        if pairs.len() <= GRAIN {
            return Self::keep_list(pairs, f);
        }
        let ghost whole = pairs@;
        proof {
            assert(whole.len() == pairs.len());
        }
        let mid: usize = pairs.len() / 2;
        let (left, right) = pairs.split_at(mid);
        proof {
            assert(whole =~= left@ + right@);
            lemma_halves(whole, left@, right@);
            lemma_accept_halves(f, whole, left@, right@);
        }
        let lower = || -> (part: Self)
            requires
                distinct(left@),
                accepts_list(f, left@),
                left@.len() < whole.len(),
            ensures
                part.wf(),
                keeps(f, pairs_map(left@), part@),
                part@.len() <= left@.len(),
                anew(part),
                part.held_keys().submap_of(stored_keys(left@)),
            { Self::par_keep(left, f) };
        let upper = || -> (part: Self)
            requires
                distinct(right@),
                accepts_list(f, right@),
                right@.len() < whole.len(),
            ensures
                part.wf(),
                keeps(f, pairs_map(right@), part@),
                part@.len() <= right@.len(),
                anew(part),
                part.held_keys().submap_of(stored_keys(right@)),
            { Self::par_keep(right, f) };
        let (a, b) = both(lower, upper);
        proof {
            a.lemma_map();
            b.lemma_map();
            lemma_keeps_both(f, pairs_map(left@), pairs_map(right@), a@, b@);
        }
        let map = a.union(b);
        proof {
            lemma_united(a, b, map);
            assert forall|key: K::V| #[trigger] map.held_keys().contains_key(key) implies
                stored_keys(whole).contains_pair(key, map.held_keys()[key]) by {
                if a.held_keys().contains_key(key) {
                    assert(stored_keys(left@).contains_key(key));
                }
                if b.held_keys().contains_key(key) {
                    assert(stored_keys(right@).contains_key(key));
                }
            }
        }
        map
    }
}

} // verus!
