//! Facts about sequences.

use vstd::prelude::*;

verus! {

/// The first `limit` elements, or all where there are fewer.
pub open spec fn at_most<T>(s: Seq<T>, limit: int) -> Seq<T> {
    if limit < s.len() {
        s.take(limit)
    } else {
        s
    }
}

/// Filtering one element more.
pub proof fn lemma_filter_step<T>(s: Seq<T>, i: int, keep: spec_fn(T) -> bool)
    requires
        0 <= i < s.len(),
    ensures
        s.take(i + 1).filter(keep) == if keep(s[i]) {
            s.take(i).filter(keep).push(s[i])
        } else {
            s.take(i).filter(keep)
        },
{
    reveal(Seq::filter);
    assert(s.take(i + 1).drop_last() =~= s.take(i));
    assert(s.take(i + 1).last() == s[i]);
}

/// Nothing is left where no element is kept.
pub proof fn lemma_filter_nothing<T>(s: Seq<T>, keep: spec_fn(T) -> bool)
    requires
        forall|i: int| 0 <= i < s.len() ==> !keep(#[trigger] s[i]),
    ensures
        s.filter(keep) == Seq::<T>::empty(),
    decreases s.len(),
{
    reveal(Seq::filter);
    if s.len() > 0 {
        lemma_filter_nothing(s.drop_last(), keep);
    }
}

/// All is left where every element is kept.
pub proof fn lemma_filter_everything<T>(s: Seq<T>, keep: spec_fn(T) -> bool)
    requires
        forall|i: int| 0 <= i < s.len() ==> keep(#[trigger] s[i]),
    ensures
        s.filter(keep) == s,
    decreases s.len(),
{
    reveal(Seq::filter);
    if s.len() > 0 {
        lemma_filter_everything(s.drop_last(), keep);
        assert(s.drop_last().push(s.last()) =~= s);
    }
}

/// What is kept of a whole is what is kept of a first part and of the rest.
pub proof fn lemma_filter_split<T>(s: Seq<T>, i: int, keep: spec_fn(T) -> bool)
    requires
        0 <= i <= s.len(),
    ensures
        s.filter(keep) == s.take(i).filter(keep) + s.skip(i).filter(keep),
{
    assert(s =~= s.take(i) + s.skip(i));
    Seq::filter_distributes_over_add(s.take(i), s.skip(i), keep);
}

/// Filtering by what the elements are mapped to, and mapping what is filtered,
/// come to the same.
pub proof fn lemma_filter_map<A, B>(
    s: Seq<A>,
    f: spec_fn(A) -> B,
    keep_a: spec_fn(A) -> bool,
    keep_b: spec_fn(B) -> bool,
)
    requires
        forall|a: A| #[trigger] keep_a(a) == keep_b(f(a)),
    ensures
        s.filter(keep_a).map_values(f) == s.map_values(f).filter(keep_b),
    decreases s.len(),
{
    reveal(Seq::filter);
    if s.len() > 0 {
        let init = s.drop_last();
        lemma_filter_map(init, f, keep_a, keep_b);
        assert(s.map_values(f).drop_last() =~= init.map_values(f));
        if keep_a(s.last()) {
            assert(s.filter(keep_a).map_values(f) =~= init.filter(keep_a).map_values(f).push(
                f(s.last()),
            ));
        }
    } else {
        assert(s.filter(keep_a).map_values(f) =~= Seq::<B>::empty());
    }
}

/// What is kept was there.
pub proof fn lemma_filter_source<T>(s: Seq<T>, keep: spec_fn(T) -> bool, i: int)
    requires
        0 <= i < s.filter(keep).len(),
    ensures
        s.contains(s.filter(keep)[i]),
        keep(s.filter(keep)[i]),
    decreases s.len(),
{
    reveal(Seq::filter);
    let init = s.drop_last();
    if i < init.filter(keep).len() {
        lemma_filter_source(init, keep, i);
        let j = choose|j: int| 0 <= j < init.len() && init[j] == init.filter(keep)[i];
        assert(s[j] == s.filter(keep)[i]);
    } else {
        assert(s[s.len() - 1] == s.filter(keep)[i]);
    }
}

/// Keeping some of different elements keeps them different.
pub proof fn lemma_filter_no_duplicates<T>(s: Seq<T>, keep: spec_fn(T) -> bool)
    requires
        s.no_duplicates(),
    ensures
        s.filter(keep).no_duplicates(),
    decreases s.len(),
{
    reveal(Seq::filter);
    if s.len() > 0 {
        let init = s.drop_last();
        lemma_filter_no_duplicates(init, keep);
        let kept = init.filter(keep);
        assert forall|i: int| 0 <= i < kept.len() implies #[trigger] kept[i] != s.last() by {
            lemma_filter_source(init, keep, i);
            let j = choose|j: int| 0 <= j < init.len() && init[j] == kept[i];
            assert(s[j] != s[s.len() - 1]);
        }
    }
}

} // verus!
