use vstd::prelude::*;

verus! {

/// Keeping twice is keeping what passes both times.
pub proof fn lemma_filter_twice<A>(list: Seq<A>, p: spec_fn(A) -> bool, q: spec_fn(A) -> bool)
    ensures
        list.filter(p).filter(q) == list.filter(|x: A| p(x) && q(x)),
    decreases list.len(),
{
    reveal(Seq::filter);
    let both = |x: A| p(x) && q(x);
    if list.len() > 0 {
        let rest = list.drop_last();
        lemma_filter_twice(rest, p, q);
        if p(list.last()) {
            let kept = rest.filter(p);
            assert(list.filter(p) == kept.push(list.last()));
            assert(kept.push(list.last()).drop_last() =~= kept);
            assert(kept.push(list.last()).last() == list.last());
        }
    } else {
        assert(list.filter(p) =~= Seq::<A>::empty());
    }
}

/// Where all pass, all are kept.
pub proof fn lemma_filter_all<A>(list: Seq<A>, p: spec_fn(A) -> bool)
    requires
        forall|k: int| 0 <= k < list.len() ==> p(#[trigger] list[k]),
    ensures
        list.filter(p) == list,
    decreases list.len(),
{
    reveal(Seq::filter);
    if list.len() > 0 {
        let rest = list.drop_last();
        assert forall|k: int| 0 <= k < rest.len() implies p(#[trigger] rest[k]) by {
            assert(rest[k] == list[k]);
        }
        lemma_filter_all(rest, p);
        assert(p(list[list.len() - 1]));
        assert(rest.push(list.last()) =~= list);
    }
}

/// Where none pass, none are kept.
pub proof fn lemma_filter_none<A>(list: Seq<A>, p: spec_fn(A) -> bool)
    requires
        forall|k: int| 0 <= k < list.len() ==> !p(#[trigger] list[k]),
    ensures
        list.filter(p) == Seq::<A>::empty(),
    decreases list.len(),
{
    reveal(Seq::filter);
    if list.len() > 0 {
        let rest = list.drop_last();
        assert forall|k: int| 0 <= k < rest.len() implies !p(#[trigger] rest[k]) by {
            assert(rest[k] == list[k]);
        }
        lemma_filter_none(rest, p);
        assert(!p(list[list.len() - 1]));
    }
}

/// What passes and was there is kept.
pub proof fn lemma_filter_keeps<A>(list: Seq<A>, p: spec_fn(A) -> bool, k: int)
    requires
        0 <= k < list.len(),
        p(list[k]),
    ensures
        list.filter(p).contains(list[k]),
    decreases list.len(),
{
    reveal(Seq::filter);
    let rest = list.drop_last();
    let all = list.filter(p);
    if k == list.len() - 1 {
        assert(all[all.len() - 1] == list[k]);
    } else {
        lemma_filter_keeps(rest, p, k);
        let kept = rest.filter(p);
        let j = choose|j: int| 0 <= j < kept.len() && kept[j] == rest[k];
        assert(all[j] == list[k]);
    }
}

/// Keeping from two lists in a row is keeping from each.
pub proof fn lemma_filter_concat<A>(a: Seq<A>, b: Seq<A>, p: spec_fn(A) -> bool)
    ensures
        (a + b).filter(p) == a.filter(p) + b.filter(p),
    decreases b.len(),
{
    reveal(Seq::filter);
    if b.len() == 0 {
        assert(a + b =~= a);
        assert(a.filter(p) + b.filter(p) =~= a.filter(p));
    } else {
        let rest = b.drop_last();
        lemma_filter_concat(a, rest, p);
        assert((a + b).drop_last() =~= a + rest);
        assert((a + b).last() == b.last());
        if p(b.last()) {
            assert(a.filter(p) + rest.filter(p).push(b.last()) =~= (a.filter(p) + rest.filter(
                p,
            )).push(b.last()));
        }
    }
}

/// A list without duplicates whose elements are all in another is no longer than it.
pub proof fn lemma_no_longer<A>(list: Seq<A>, other: Seq<A>)
    requires
        list.no_duplicates(),
        forall|k: int| 0 <= k < list.len() ==> other.contains(#[trigger] list[k]),
    ensures
        list.len() <= other.len(),
{
    list.unique_seq_to_set();
    other.lemma_cardinality_of_set();
    vstd::seq_lib::seq_to_set_is_finite(other);
    assert(list.to_set().subset_of(other.to_set()));
    vstd::set_lib::lemma_len_subset(list.to_set(), other.to_set());
}

/// What a longer list holds.
pub proof fn lemma_push_to_set<A>(list: Seq<A>, element: A)
    ensures
        list.push(element).to_set() == list.to_set().insert(element),
{
    let longer = list.push(element);
    assert forall|x: A| longer.to_set().contains(x) == list.to_set().insert(element).contains(x) by {
        if list.contains(x) {
            let j = choose|j: int| 0 <= j < list.len() && list[j] == x;
            assert(longer[j] == x);
        }
        assert(longer[list.len() as int] == element);
        if longer.contains(x) {
            let j = choose|j: int| 0 <= j < longer.len() && longer[j] == x;
            if j < list.len() {
                assert(list[j] == x);
            }
        }
    }
    assert(longer.to_set() =~= list.to_set().insert(element));
}

} // verus!
