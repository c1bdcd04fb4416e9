//! A map from strings to values, kept in key order.

use vstd::prelude::*;

use crate::text::{
    compare_keys, key_le, key_lt, lemma_key_lt_antisymmetric, lemma_key_lt_irreflexive,
    lemma_key_lt_transitive, Side,
};

verus! {

/// Whether every key is smaller than the keys after it.
pub open spec fn keys_increase<V>(pairs: Seq<(Seq<char>, V)>) -> bool {
    forall|i: int, j: int| #![trigger pairs[i], pairs[j]]
        0 <= i < j < pairs.len() ==> key_lt(pairs[i].0, pairs[j].0)
}

/// The map that a sequence of pairs with increasing keys lists.
pub open spec fn as_map<V>(pairs: Seq<(Seq<char>, V)>) -> Map<Seq<char>, V> {
    Map::new(
        |k: Seq<char>| exists|i: int| 0 <= i < pairs.len() && #[trigger] pairs[i].0 == k,
        |k: Seq<char>| pairs[choose|i: int| 0 <= i < pairs.len() && #[trigger] pairs[i].0 == k].1,
    )
}

/// A map from strings to values whose pairs stand in the byte order of their
/// keys, each key once.
#[derive(Debug)]
pub struct StrMap<V> {
    entries: Vec<(String, V)>,
}

impl<V> StrMap<V> {
    /// The pairs in key order.
    pub closed spec fn pairs(&self) -> Seq<(Seq<char>, V)> {
        self.entries@.map_values(|e: (String, V)| (e.0@, e.1))
    }

    #[verifier::type_invariant]
    closed spec fn ordered(&self) -> bool {
        keys_increase(self.pairs())
    }
}

impl<V> View for StrMap<V> {
    type V = Map<Seq<char>, V>;

    open spec fn view(&self) -> Map<Seq<char>, V> {
        as_map(self.pairs())
    }
}

/// Where `key` stands among pairs with increasing keys: the number of keys
/// that are smaller.
pub open spec fn is_position<V>(pairs: Seq<(Seq<char>, V)>, key: Seq<char>, at: int) -> bool {
    &&& 0 <= at <= pairs.len()
    &&& forall|i: int| 0 <= i < at ==> key_lt(#[trigger] pairs[i].0, key)
    &&& forall|i: int| at <= i < pairs.len() ==> key_le(key, #[trigger] pairs[i].0)
}

/// The listed map holds at a listed key the value beside it.
pub proof fn lemma_as_map_at<V>(pairs: Seq<(Seq<char>, V)>, i: int)
    requires
        keys_increase(pairs),
        0 <= i < pairs.len(),
    ensures
        as_map(pairs).contains_key(pairs[i].0),
        as_map(pairs)[pairs[i].0] == pairs[i].1,
{
    let k = pairs[i].0;
    let j = choose|j: int| 0 <= j < pairs.len() && #[trigger] pairs[j].0 == k;
    if j < i {
        lemma_key_lt_irreflexive(k);
    } else if i < j {
        lemma_key_lt_irreflexive(k);
    }
}

/// A key that is in the map stands at its position.
pub proof fn lemma_as_map_has<V>(pairs: Seq<(Seq<char>, V)>, key: Seq<char>, at: int)
    requires
        keys_increase(pairs),
        is_position(pairs, key, at),
    ensures
        as_map(pairs).contains_key(key) <==> at < pairs.len() && pairs[at].0 == key,
        as_map(pairs).contains_key(key) ==> as_map(pairs)[key] == pairs[at].1,
{
    if as_map(pairs).contains_key(key) {
        let j = choose|j: int| 0 <= j < pairs.len() && #[trigger] pairs[j].0 == key;
        if j < at {
            lemma_key_lt_irreflexive(key);
        } else if at < j {
            assert(key_le(key, pairs[at].0));
            assert(key_lt(pairs[at].0, pairs[j].0));
            lemma_key_lt_antisymmetric(pairs[at].0, key);
        }
    }
    if at < pairs.len() && pairs[at].0 == key {
        lemma_as_map_at(pairs, at);
    }
}

/// Putting a new value beside a listed key sets that key in the map.
proof fn lemma_update<V>(pairs: Seq<(Seq<char>, V)>, at: int, value: V)
    requires
        keys_increase(pairs),
        0 <= at < pairs.len(),
    ensures
        keys_increase(pairs.update(at, (pairs[at].0, value))),
        as_map(pairs.update(at, (pairs[at].0, value))) == as_map(pairs).insert(pairs[at].0, value),
{
    let next = pairs.update(at, (pairs[at].0, value));
    assert forall|i: int| 0 <= i < pairs.len() implies #[trigger] next[i].0 == pairs[i].0 by {}
    assert forall|k: Seq<char>| as_map(next).contains_key(k) implies as_map(pairs).insert(
        pairs[at].0,
        value,
    ).contains_key(k) && as_map(next)[k] == as_map(pairs).insert(pairs[at].0, value)[k] by {
        let j = choose|j: int| 0 <= j < next.len() && #[trigger] next[j].0 == k;
        assert(pairs[j].0 == k);
        lemma_as_map_at(next, j);
        lemma_as_map_at(pairs, j);
    }
    assert forall|k: Seq<char>| as_map(pairs).insert(pairs[at].0, value).contains_key(k) implies as_map(
        next,
    ).contains_key(k) by {
        if k == pairs[at].0 {
            assert(next[at].0 == k);
        } else {
            let j = choose|j: int| 0 <= j < pairs.len() && #[trigger] pairs[j].0 == k;
            assert(next[j].0 == k);
        }
    }
    assert(as_map(next) =~= as_map(pairs).insert(pairs[at].0, value));
}

/// Putting a pair at the position of its key adds that key to the map.
proof fn lemma_insert<V>(pairs: Seq<(Seq<char>, V)>, at: int, key: Seq<char>, value: V)
    requires
        keys_increase(pairs),
        is_position(pairs, key, at),
        at < pairs.len() ==> pairs[at].0 != key,
    ensures
        keys_increase(pairs.insert(at, (key, value))),
        as_map(pairs.insert(at, (key, value))) == as_map(pairs).insert(key, value),
{
    let next = pairs.insert(at, (key, value));
    assert forall|i: int, j: int| #![trigger next[i], next[j]]
        0 <= i < j < next.len() implies key_lt(next[i].0, next[j].0) by {
        if j < at {
            assert(key_lt(pairs[i].0, pairs[j].0));
        } else if j == at {
            assert(key_lt(pairs[i].0, key));
        } else if i == at {
            assert(key_le(key, pairs[j - 1].0));
            assert(key_le(key, pairs[at].0));
            if j - 1 != at {
                lemma_key_lt_transitive(key, pairs[at].0, pairs[j - 1].0);
            }
        } else if i < at {
            assert(key_lt(pairs[i].0, pairs[j - 1].0));
        } else {
            assert(key_lt(pairs[i - 1].0, pairs[j - 1].0));
        }
    }
    assert forall|k: Seq<char>| as_map(next).contains_key(k) implies as_map(pairs).insert(
        key,
        value,
    ).contains_key(k) && as_map(next)[k] == as_map(pairs).insert(key, value)[k] by {
        let j = choose|j: int| 0 <= j < next.len() && #[trigger] next[j].0 == k;
        lemma_as_map_at(next, j);
        if j < at {
            lemma_as_map_at(pairs, j);
            lemma_key_lt_irreflexive(key);
        } else if j > at {
            assert(next[j] == pairs[j - 1]);
            lemma_as_map_at(pairs, j - 1);
            assert(key_lt(next[at].0, next[j].0));
            lemma_key_lt_irreflexive(key);
        }
    }
    assert forall|k: Seq<char>| as_map(pairs).insert(key, value).contains_key(k) implies as_map(
        next,
    ).contains_key(k) by {
        if k == key {
            assert(next[at].0 == k);
        } else {
            let j = choose|j: int| 0 <= j < pairs.len() && #[trigger] pairs[j].0 == k;
            if j < at {
                assert(next[j].0 == k);
            } else {
                assert(next[j + 1] == pairs[j]);
                assert(next[j + 1].0 == k);
            }
        }
    }
    assert(as_map(next) =~= as_map(pairs).insert(key, value));
}

/// Listing one pair more: the pairs up to `i` are those before it and the
/// pair at `i`.
pub proof fn lemma_as_map_take<V>(pairs: Seq<(Seq<char>, V)>, i: int)
    requires
        keys_increase(pairs),
        0 <= i < pairs.len(),
    ensures
        keys_increase(pairs.take(i)),
        !as_map(pairs.take(i)).contains_key(pairs[i].0),
        as_map(pairs.take(i + 1)) == as_map(pairs.take(i)).insert(pairs[i].0, pairs[i].1),
{
    let init = pairs.take(i);
    assert forall|j: int| 0 <= j < init.len() implies key_lt(#[trigger] init[j].0, pairs[i].0) by {
        assert(init[j] == pairs[j]);
    }
    assert(is_position(init, pairs[i].0, i));
    lemma_as_map_has(init, pairs[i].0, i);
    lemma_insert(init, i, pairs[i].0, pairs[i].1);
    assert(pairs.take(i + 1) =~= init.insert(i, (pairs[i].0, pairs[i].1)));
}

/// The pairs with `key` set, where `at` is its position.
pub open spec fn with_pair<V>(
    pairs: Seq<(Seq<char>, V)>,
    at: int,
    key: Seq<char>,
    value: V,
) -> Seq<(Seq<char>, V)> {
    if at < pairs.len() && pairs[at].0 == key {
        pairs.update(at, (key, value))
    } else {
        pairs.insert(at, (key, value))
    }
}

/// A key has one position.
pub proof fn lemma_position_unique<V>(
    pairs: Seq<(Seq<char>, V)>,
    key: Seq<char>,
    a: int,
    b: int,
)
    requires
        is_position(pairs, key, a),
        is_position(pairs, key, b),
    ensures
        a == b,
{
    if a < b {
        assert(key_lt(pairs[a].0, key) && key_le(key, pairs[a].0));
        lemma_key_lt_antisymmetric(pairs[a].0, key);
    } else if b < a {
        assert(key_lt(pairs[b].0, key) && key_le(key, pairs[b].0));
        lemma_key_lt_antisymmetric(pairs[b].0, key);
    }
}

/// Setting a key in the pairs sets it in the map that they list.
pub proof fn lemma_with_pair<V>(pairs: Seq<(Seq<char>, V)>, at: int, key: Seq<char>, value: V)
    requires
        keys_increase(pairs),
        is_position(pairs, key, at),
    ensures
        keys_increase(with_pair(pairs, at, key, value)),
        as_map(with_pair(pairs, at, key, value)) == as_map(pairs).insert(key, value),
{
    if at < pairs.len() && pairs[at].0 == key {
        lemma_update(pairs, at, value);
    } else {
        lemma_insert(pairs, at, key, value);
    }
}

/// Keeping some of the pairs keeps them in order.
pub proof fn lemma_filter_keys_increase<V>(
    pairs: Seq<(Seq<char>, V)>,
    keep: spec_fn((Seq<char>, V)) -> bool,
)
    requires
        keys_increase(pairs),
    ensures
        keys_increase(pairs.filter(keep)),
        forall|i: int|
            0 <= i < pairs.filter(keep).len() ==> exists|j: int|
                0 <= j < pairs.len() && pairs[j] == #[trigger] pairs.filter(keep)[i],
    decreases pairs.len(),
{
    reveal(Seq::filter);
    if pairs.len() > 0 {
        let init = pairs.drop_last();
        assert forall|i: int, j: int| #![trigger init[i], init[j]]
            0 <= i < j < init.len() implies key_lt(init[i].0, init[j].0) by {
            assert(key_lt(pairs[i].0, pairs[j].0));
        }
        lemma_filter_keys_increase(init, keep);
        let kept = init.filter(keep);
        let all = pairs.filter(keep);
        assert forall|i: int| 0 <= i < all.len() implies exists|j: int|
            0 <= j < pairs.len() && pairs[j] == #[trigger] all[i] by {
            if i < kept.len() {
                let j = choose|j: int| 0 <= j < init.len() && init[j] == kept[i];
                assert(pairs[j] == all[i]);
            } else {
                assert(pairs[pairs.len() - 1] == all[i]);
            }
        }
        assert forall|i: int, j: int| #![trigger all[i], all[j]]
            0 <= i < j < all.len() implies key_lt(all[i].0, all[j].0) by {
            if j < kept.len() {
                assert(key_lt(kept[i].0, kept[j].0));
            } else {
                let k = choose|k: int| 0 <= k < init.len() && init[k] == kept[i];
                assert(key_lt(pairs[k].0, pairs[pairs.len() - 1].0));
            }
        }
    }
}

/// The pairs by the views of their values.
pub open spec fn views<V: View>(pairs: Seq<(Seq<char>, V)>) -> Seq<(Seq<char>, V::V)> {
    pairs.map_values(|e: (Seq<char>, V)| (e.0, e.1@))
}

/// The map that the views list has the keys of the map that the pairs list,
/// with the views of their values.
pub proof fn lemma_views<V: View>(pairs: Seq<(Seq<char>, V)>)
    requires
        keys_increase(pairs),
    ensures
        keys_increase(views(pairs)),
        as_map(views(pairs)).dom() == as_map(pairs).dom(),
        forall|k: Seq<char>|
            as_map(pairs).contains_key(k) ==> #[trigger] as_map(views(pairs))[k] == as_map(
                pairs,
            )[k]@,
{
    let rows = views(pairs);
    assert forall|i: int, j: int| #![trigger rows[i], rows[j]]
        0 <= i < j < rows.len() implies key_lt(rows[i].0, rows[j].0) by {
        assert(key_lt(pairs[i].0, pairs[j].0));
    }
    assert forall|k: Seq<char>| as_map(rows).contains_key(k) implies #[trigger] as_map(
        pairs,
    ).contains_key(k) by {
        let j = choose|j: int| 0 <= j < rows.len() && #[trigger] rows[j].0 == k;
        assert(pairs[j].0 == k);
    }
    assert forall|k: Seq<char>| as_map(pairs).contains_key(k) implies as_map(rows).contains_key(k)
        && #[trigger] as_map(rows)[k] == as_map(pairs)[k]@ by {
        let j = choose|j: int| 0 <= j < pairs.len() && #[trigger] pairs[j].0 == k;
        assert(rows[j].0 == k);
        lemma_as_map_at(rows, j);
        lemma_as_map_at(pairs, j);
    }
    assert forall|k: Seq<char>| #[trigger] as_map(rows).dom().contains(k) == as_map(
        pairs,
    ).dom().contains(k) by {
        assert(as_map(pairs).contains_key(k) ==> as_map(rows)[k] == as_map(pairs)[k]@);
    }
    assert(as_map(rows).dom() =~= as_map(pairs).dom());
}

/// Setting a key sets it by the view of its value.
pub proof fn lemma_views_with_pair<V: View>(
    pairs: Seq<(Seq<char>, V)>,
    at: int,
    key: Seq<char>,
    value: V,
)
    requires
        keys_increase(pairs),
        is_position(pairs, key, at),
    ensures
        is_position(views(pairs), key, at),
        views(with_pair(pairs, at, key, value)) == with_pair(views(pairs), at, key, value@),
        keys_increase(views(with_pair(pairs, at, key, value))),
        as_map(views(with_pair(pairs, at, key, value))) == as_map(views(pairs)).insert(
            key,
            value@,
        ),
{
    let rows = views(pairs);
    lemma_views(pairs);
    assert forall|i: int| 0 <= i < rows.len() implies #[trigger] rows[i].0 == pairs[i].0 by {}
    lemma_with_pair(rows, at, key, value@);
    assert(views(with_pair(pairs, at, key, value)) =~= with_pair(rows, at, key, value@));
}

impl<V> StrMap<V> {
    /// An empty map.
    pub fn new() -> (m: Self)
        ensures
            m.pairs() == Seq::<(Seq<char>, V)>::empty(),
            m@ == Map::<Seq<char>, V>::empty(),
    {
        let m = StrMap { entries: Vec::new() };
        assert(m.pairs() =~= Seq::empty());
        assert(m@ =~= Map::empty());
        m
    }

    /// Does nothing but recall that the keys increase.
    pub(crate) fn recall_order(&self)
        ensures
            keys_increase(self.pairs()),
    {
        proof {
            use_type_invariant(self);
        }
    }

    /// The number of keys.
    pub fn len(&self) -> (n: usize)
        ensures
            n == self.pairs().len(),
            keys_increase(self.pairs()),
    {
        proof {
            use_type_invariant(self);
        }
        self.entries.len()
    }

    /// The pair at a place in key order.
    pub fn at(&self, i: usize) -> (pair: (&String, &V))
        requires
            i < self.pairs().len(),
        ensures
            (pair.0@, *pair.1) == self.pairs()[i as int],
    {
        (&self.entries[i].0, &self.entries[i].1)
    }

    /// The number of keys smaller than `key`.
    pub fn position(&self, key: &str) -> (at: usize)
        ensures
            is_position(self.pairs(), key@, at as int),
    {
        proof {
            use_type_invariant(self);
        }
        let ghost pairs = self.pairs();
        let mut lo: usize = 0;
        let mut hi: usize = self.entries.len();
        while lo < hi
            invariant
                lo <= hi <= self.entries@.len(),
                pairs == self.pairs(),
                keys_increase(pairs),
                pairs.len() == self.entries@.len(),
                forall|i: int| 0 <= i < lo ==> key_lt(#[trigger] pairs[i].0, key@),
                forall|i: int| hi <= i < pairs.len() ==> key_le(key@, #[trigger] pairs[i].0),
            decreases hi - lo,
        {
            let mid = lo + (hi - lo) / 2;
            assert(pairs[mid as int].0 == self.entries@[mid as int].0@);
            match compare_keys(self.entries[mid].0.as_str(), key) {
                Side::Before => {
                    assert forall|i: int| 0 <= i < mid + 1 implies key_lt(
                        #[trigger] pairs[i].0,
                        key@,
                    ) by {
                        if i < mid {
                            lemma_key_lt_transitive(pairs[i].0, pairs[mid as int].0, key@);
                        }
                    }
                    lo = mid + 1;
                },
                _ => {
                    assert forall|i: int| mid <= i < pairs.len() implies key_le(
                        key@,
                        #[trigger] pairs[i].0,
                    ) by {
                        if mid < i && key@ != pairs[mid as int].0 {
                            lemma_key_lt_transitive(key@, pairs[mid as int].0, pairs[i].0);
                        }
                    }
                    hi = mid;
                },
            }
        }
        lo
    }

    /// The value of `key`, if it has one.
    pub fn get(&self, key: &str) -> (found: Option<&V>)
        ensures
            found is Some <==> self@.contains_key(key@),
            found matches Some(v) ==> *v == self@[key@],
    {
        proof {
            use_type_invariant(self);
        }
        let at = self.position(key);
        proof {
            lemma_as_map_has(self.pairs(), key@, at as int);
        }
        if at < self.entries.len() {
            assert(self.pairs()[at as int].0 == self.entries@[at as int].0@);
            if compare_keys(self.entries[at].0.as_str(), key) == Side::Same {
                return Some(&self.entries[at].1);
            }
        }
        None
    }

    /// Whether `key` has a value.
    pub fn contains_key(&self, key: &str) -> (found: bool)
        ensures
            found == self@.contains_key(key@),
    {
        self.get(key).is_some()
    }

    /// Gives `key` the value, in place of the one it had.
    pub fn insert(&mut self, key: String, value: V)
        ensures
            final(self)@ == old(self)@.insert(key@, value),
            keys_increase(final(self).pairs()),
            forall|at: int| #[trigger]
                is_position(old(self).pairs(), key@, at) ==> final(self).pairs() == with_pair(
                    old(self).pairs(),
                    at,
                    key@,
                    value,
                ),
    {
        proof {
            use_type_invariant(&*self);
        }
        let at = self.position(key.as_str());
        let present = self.contains_key(key.as_str());
        let ghost pairs = self.pairs();
        proof {
            lemma_as_map_has(pairs, key@, at as int);
            lemma_with_pair(pairs, at as int, key@, value);
            assert forall|i: int| #[trigger] is_position(pairs, key@, i) implies i == at by {
                lemma_position_unique(pairs, key@, i, at as int);
            }
        }
        let mut entries: Vec<(String, V)> = Vec::new();
        std::mem::swap(&mut entries, &mut self.entries);
        if present {
            entries[at] = (key, value);
        } else {
            entries.insert(at, (key, value));
        }
        assert(entries@.map_values(|e: (String, V)| (e.0@, e.1)) =~= with_pair(
            pairs,
            at as int,
            key@,
            value,
        ));
        self.entries = entries;
    }

    /// Keeps the pairs whose value `keep` accepts.
    pub fn retain<F: Fn(&V) -> bool>(&mut self, keep: F, Ghost(kept): Ghost<spec_fn(V) -> bool>)
        requires
            forall|v: &V| keep.requires((v,)),
            forall|v: &V, b: bool| keep.ensures((v,), b) ==> b == kept(*v),
        ensures
            final(self).pairs() == old(self).pairs().filter(|e: (Seq<char>, V)| kept(e.1)),
    {
        proof {
            use_type_invariant(&*self);
        }
        let ghost pairs = self.pairs();
        let ghost pred = |e: (Seq<char>, V)| kept(e.1);
        let ghost name = |e: (String, V)| (e.0@, e.1);
        let mut entries: Vec<(String, V)> = Vec::new();
        std::mem::swap(&mut entries, &mut self.entries);
        let ghost all = entries@;
        assert(pairs == all.map_values(name));
        let mut left: Vec<(String, V)> = Vec::new();
        assert(pairs.take(0) =~= Seq::empty());
        assert(left@.map_values(name) =~= pairs.take(0).filter(pred)) by {
            reveal(Seq::filter);
        }
        for e in it: entries
            invariant
                it.seq() == all,
                pairs == all.map_values(name),
                name == (|e: (String, V)| (e.0@, e.1)),
                pred == (|e: (Seq<char>, V)| kept(e.1)),
                forall|v: &V| keep.requires((v,)),
                forall|v: &V, b: bool| keep.ensures((v,), b) ==> b == kept(*v),
                left@.map_values(name) == pairs.take(it.index()).filter(pred),
        {
            let ghost i = it.index();
            let ghost before = left@;
            assert(pairs[i] == name(e));
            assert(pairs.take(i + 1).drop_last() =~= pairs.take(i));
            assert(pairs.take(i + 1).last() == pairs[i]);
            let ok = keep(&e.1);
            if ok {
                left.push(e);
            }
            proof {
                reveal(Seq::filter);
                if ok {
                    assert(left@.map_values(name) =~= before.map_values(name).push(name(e)));
                }
            }
        }
        assert(pairs.take(pairs.len() as int) =~= pairs);
        proof {
            lemma_filter_keys_increase(pairs, pred);
        }
        self.entries = left;
    }
}

impl<V: Clone> Clone for StrMap<V> {
    fn clone(&self) -> (copy: Self)
        ensures
            copy.pairs().len() == self.pairs().len(),
            forall|i: int|
                0 <= i < self.pairs().len() ==> (#[trigger] copy.pairs()[i]).0 == self.pairs()[i].0,
            forall|i: int|
                0 <= i < self.pairs().len() ==> cloned::<V>(
                    self.pairs()[i].1,
                    (#[trigger] copy.pairs()[i]).1,
                ),
    {
        proof {
            use_type_invariant(self);
        }
        let mut entries: Vec<(String, V)> = Vec::new();
        let mut i: usize = 0;
        while i < self.entries.len()
            invariant
                i <= self.entries@.len(),
                entries@.len() == i,
                forall|j: int|
                    0 <= j < i ==> (#[trigger] entries@[j]).0@ == self.entries@[j].0@ && cloned::<V>(
                        self.entries@[j].1,
                        entries@[j].1,
                    ),
            decreases self.entries@.len() - i,
        {
            entries.push((self.entries[i].0.clone(), self.entries[i].1.clone()));
            i = i + 1;
        }
        let ghost copied = entries@.map_values(|e: (String, V)| (e.0@, e.1));
        assert forall|a: int, b: int| #![trigger copied[a], copied[b]]
            0 <= a < b < copied.len() implies key_lt(copied[a].0, copied[b].0) by {
            assert(key_lt(self.pairs()[a].0, self.pairs()[b].0));
        }
        StrMap { entries }
    }
}

} // verus!
