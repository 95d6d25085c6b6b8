//! Sequences of descriptions in strictly increasing order of identity: how
//! one is built, searched, and told apart from another.

use vstd::prelude::*;
use crate::descriptions::Identified;
use crate::descriptions::key_lt;
use crate::descriptions::same_identity;
use crate::descriptions::identity_before;
use crate::descriptions::lemma_key_lt_transitive;
use crate::descriptions::lemma_key_lt_total;

verus! {

/// Each element comes before every later one, so no identity occurs twice.
pub open spec fn strictly_sorted<T: Identified>(s: Seq<T>) -> bool {
    forall|i: int, j: int| 0 <= i < j < s.len() ==> key_lt(#[trigger] s[i].key(), #[trigger] s[j].key())
}

/// Some element of `s` has the identity `k`.
pub open spec fn has_key<T: Identified>(s: Seq<T>, k: (Seq<char>, Seq<char>)) -> bool {
    exists|i: int| 0 <= i < s.len() && (#[trigger] s[i]).key() == k
}

/// The identities that occur in `s`.
pub open spec fn key_set<T: Identified>(s: Seq<T>) -> Set<(Seq<char>, Seq<char>)> {
    Set::new(|k: (Seq<char>, Seq<char>)| has_key(s, k))
}

/// No earlier element of `items` has the identity of the one at `i`.
pub open spec fn first_of_its_key<T: Identified>(items: Seq<T>, i: int) -> bool {
    forall|j: int| 0 <= j < i ==> (#[trigger] items[j]).key() != items[i].key()
}

/// `r` is `items` put in order: every element of `r` is one of `items`, every
/// identity in `items` occurs in `r` exactly once, and where several elements
/// of `items` share an identity `r` holds the first of them.
pub open spec fn is_ordered_set_of<T: Identified>(r: Seq<T>, items: Seq<T>) -> bool {
    &&& strictly_sorted(r)
    &&& forall|e: T| r.contains(e) ==> items.contains(e)
    &&& forall|i: int| 0 <= i < items.len() ==> has_key(r, (#[trigger] items[i]).key())
    &&& forall|i: int|
        0 <= i < items.len() && #[trigger] first_of_its_key(items, i) ==> r.contains(items[i])
}

/// Whether an element is kept: its identity occurs in `others`, or does not,
/// as `present` says.
pub open spec fn keeps<T: Identified>(others: Seq<T>, present: bool) -> spec_fn(T) -> bool {
    |d: T| has_key(others, d.key()) == present
}

/// The elements of `from` whose identity does not occur in `others`, in the
/// order of `from`.
pub open spec fn difference_of<T: Identified>(from: Seq<T>, others: Seq<T>) -> Seq<T> {
    from.filter(keeps(others, false))
}

/// The elements of `from` whose identity occurs in `others`, in the order of
/// `from`.
pub open spec fn intersection_of<T: Identified>(from: Seq<T>, others: Seq<T>) -> Seq<T> {
    from.filter(keeps(others, true))
}

/// The first position of `set` whose element does not come before `d`.
pub fn lower_bound<T: Identified>(set: &Vec<T>, d: &T) -> (p: usize)
    requires
        strictly_sorted(set@),
    ensures
        p <= set.len(),
        forall|i: int| 0 <= i < p ==> key_lt((#[trigger] set@[i]).key(), d.key()),
        forall|i: int| p <= i < set.len() ==> !key_lt((#[trigger] set@[i]).key(), d.key()),
{
    let mut lo: usize = 0;
    let mut hi: usize = set.len();
    while lo < hi
        invariant
            lo <= hi <= set.len(),
            strictly_sorted(set@),
            forall|i: int| 0 <= i < lo ==> key_lt((#[trigger] set@[i]).key(), d.key()),
            forall|i: int| hi <= i < set.len() ==> !key_lt((#[trigger] set@[i]).key(), d.key()),
        decreases hi - lo,
    {
        let mid: usize = lo + (hi - lo) / 2;
        if identity_before(&set[mid], d) {
            proof {
                assert forall|i: int| 0 <= i < mid + 1 implies key_lt(
                    (#[trigger] set@[i]).key(),
                    d.key(),
                ) by {
                    if i < mid {
                        lemma_key_lt_transitive(set@[i].key(), set@[mid as int].key(), d.key());
                    }
                }
            }
            lo = mid + 1;
        } else {
            proof {
                assert forall|i: int| mid <= i < set.len() implies !key_lt(
                    (#[trigger] set@[i]).key(),
                    d.key(),
                ) by {
                    if i > mid && key_lt(set@[i].key(), d.key()) {
                        lemma_key_lt_transitive(set@[mid as int].key(), set@[i].key(), d.key());
                    }
                }
            }
            hi = mid;
        }
    }
    lo
}

/// In a sorted sequence an identity can only occur at its lower bound.
pub proof fn lemma_found_at_lower_bound<T: Identified>(s: Seq<T>, k: (Seq<char>, Seq<char>), p: int)
    requires
        strictly_sorted(s),
        0 <= p <= s.len(),
        forall|i: int| 0 <= i < p ==> key_lt((#[trigger] s[i]).key(), k),
        forall|i: int| p <= i < s.len() ==> !key_lt((#[trigger] s[i]).key(), k),
    ensures
        has_key(s, k) <==> (p < s.len() && s[p].key() == k),
        p < s.len() && s[p].key() != k ==> key_lt(k, s[p].key()),
{
    if p < s.len() {
        lemma_key_lt_total(s[p].key(), k);
    }
    if has_key(s, k) {
        let i = choose|i: int| 0 <= i < s.len() && (#[trigger] s[i]).key() == k;
        lemma_key_lt_total(s[i].key(), k);
        if i > p {
            assert(key_lt(s[p].key(), s[i].key()));
        }
    }
}

/// Whether some element of `set` is the same artifact as `d`.
pub fn contains_identity<T: Identified>(set: &Vec<T>, d: &T) -> (r: bool)
    requires
        strictly_sorted(set@),
    ensures
        r == has_key(set@, d.key()),
{
    let p = lower_bound(set, d);
    proof {
        lemma_found_at_lower_bound(set@, d.key(), p as int);
    }
    p < set.len() && same_identity(&set[p], d)
}

/// Puts `d` in its place in `set`, unless `set` already holds the same
/// artifact: then `set` stays as it is.
pub fn insert_ordered<T: Identified>(set: &mut Vec<T>, d: T)
    requires
        strictly_sorted(old(set)@),
    ensures
        strictly_sorted(final(set)@),
        has_key(old(set)@, d.key()) ==> final(set)@ == old(set)@,
        !has_key(old(set)@, d.key()) ==> exists|p: int|
            0 <= p <= old(set)@.len() && final(set)@ == #[trigger] old(set)@.insert(p, d),
{
    let p = lower_bound(set, &d);
    proof {
        lemma_found_at_lower_bound(set@, d.key(), p as int);
    }
    if p < set.len() && same_identity(&set[p], &d) {
        return;
    }
    let ghost before = set@;
    set.insert(p, d);
    proof {
        before.insert_ensures(p as int, d);
        let after = set@;
        assert forall|i: int, j: int| 0 <= i < j < after.len() implies key_lt(
            #[trigger] after[i].key(),
            #[trigger] after[j].key(),
        ) by {
            if j < p {
                assert(after[i] == before[i] && after[j] == before[j]);
            } else if j == p {
                assert(after[i] == before[i]);
            } else {
                assert(after[j] == before[j - 1]);
                if i < p {
                    assert(after[i] == before[i]);
                } else if i == p {
                    if j - 1 > p {
                        assert(key_lt(before[p as int].key(), before[j - 1].key()));
                        lemma_key_lt_transitive(
                            d.key(),
                            before[p as int].key(),
                            before[j - 1].key(),
                        );
                    }
                } else {
                    assert(after[i] == before[i - 1]);
                }
            }
        }
    }
}

/// Adding one element by `insert_ordered` keeps the result the ordered set of
/// all elements added so far.
pub proof fn lemma_ordered_set_grows<T: Identified>(r: Seq<T>, r2: Seq<T>, items: Seq<T>, d: T)
    requires
        is_ordered_set_of(r, items),
        strictly_sorted(r2),
        has_key(r, d.key()) ==> r2 == r,
        !has_key(r, d.key()) ==> exists|p: int| 0 <= p <= r.len() && r2 == #[trigger] r.insert(p, d),
    ensures
        is_ordered_set_of(r2, items.push(d)),
{
    let items2 = items.push(d);
    let n = items.len() as int;
    assert(items2[n] == d);
    assert forall|i: int| 0 <= i < n implies items2[i] == items[i] by {}
    if has_key(r, d.key()) {
        assert forall|e: T| r2.contains(e) implies items2.contains(e) by {
            assert(items.contains(e));
            let i = choose|i: int| 0 <= i < items.len() && items[i] == e;
            assert(items2[i] == e);
        }
        assert forall|i: int| 0 <= i < items2.len() implies has_key(
            r2,
            (#[trigger] items2[i]).key(),
        ) by {
            if i < n {
                assert(has_key(r, items[i].key()));
            }
        }
        assert forall|i: int|
            0 <= i < items2.len() && #[trigger] first_of_its_key(items2, i) implies r2.contains(
            items2[i],
        ) by {
            if i < n {
                assert forall|j: int| 0 <= j < i implies (#[trigger] items[j]).key()
                    != items[i].key() by {
                    assert(items2[j].key() != items2[i].key());
                }
                assert(first_of_its_key(items, i));
            } else {
                let q = choose|q: int| 0 <= q < r.len() && (#[trigger] r[q]).key() == d.key();
                assert(r.contains(r[q]));
                assert(items.contains(r[q]));
                let j = choose|j: int| 0 <= j < items.len() && items[j] == r[q];
                assert(items2[j].key() == items2[i].key());
            }
        }
    } else {
        let p = choose|p: int| 0 <= p <= r.len() && r2 == #[trigger] r.insert(p, d);
        r.insert_ensures(p, d);
        assert forall|q: int| 0 <= q < r.len() implies r2.contains(#[trigger] r[q]) by {
            if q < p {
                assert(r2[q] == r[q]);
            } else {
                assert(r2[q + 1] == r[q]);
            }
        }
        assert forall|e: T| r2.contains(e) implies items2.contains(e) by {
            let q = choose|q: int| 0 <= q < r2.len() && r2[q] == e;
            if q == p {
                assert(items2[n] == e);
            } else {
                if q < p {
                    assert(r[q] == e);
                } else {
                    assert(r2[(q - 1) + 1] == r[q - 1]);
                    assert(r[q - 1] == e);
                }
                assert(r.contains(e));
                assert(items.contains(e));
                let i = choose|i: int| 0 <= i < items.len() && items[i] == e;
                assert(items2[i] == e);
            }
        }
        assert forall|i: int| 0 <= i < items2.len() implies has_key(
            r2,
            (#[trigger] items2[i]).key(),
        ) by {
            if i < n {
                assert(has_key(r, items[i].key()));
                let q = choose|q: int| 0 <= q < r.len() && (#[trigger] r[q]).key() == items[i].key();
                assert(r2.contains(r[q]));
                let q2 = choose|q2: int| 0 <= q2 < r2.len() && r2[q2] == r[q];
                assert(r2[q2].key() == items2[i].key());
            } else {
                assert(r2[p].key() == d.key());
            }
        }
        assert forall|i: int|
            0 <= i < items2.len() && #[trigger] first_of_its_key(items2, i) implies r2.contains(
            items2[i],
        ) by {
            if i < n {
                assert forall|j: int| 0 <= j < i implies (#[trigger] items[j]).key()
                    != items[i].key() by {
                    assert(items2[j].key() != items2[i].key());
                }
                assert(first_of_its_key(items, i));
                assert(r.contains(items[i]));
                let q = choose|q: int| 0 <= q < r.len() && r[q] == items[i];
                assert(r2.contains(r[q]));
            } else {
                assert(r2[p] == d);
            }
        }
    }
}

/// The positions in `s` of the elements that a filter keeps: they increase,
/// so a filter keeps the order of `s`.
pub proof fn lemma_filter_positions<T>(s: Seq<T>, pred: spec_fn(T) -> bool) -> (at: Seq<int>)
    ensures
        at.len() == s.filter(pred).len(),
        forall|k: int|
            0 <= k < at.len() ==> 0 <= #[trigger] at[k] < s.len() && s.filter(pred)[k] == s[at[k]],
        forall|k1: int, k2: int| 0 <= k1 < k2 < at.len() ==> at[k1] < at[k2],
    decreases s.len(),
{
    reveal(Seq::filter);
    if s.len() == 0 {
        Seq::empty()
    } else {
        let rest = lemma_filter_positions(s.drop_last(), pred);
        if pred(s.last()) {
            rest.push(s.len() - 1)
        } else {
            rest
        }
    }
}

/// What is kept of a sorted sequence is sorted.
pub proof fn lemma_selection_sorted<T: Identified>(from: Seq<T>, others: Seq<T>, present: bool)
    requires
        strictly_sorted(from),
    ensures
        strictly_sorted(from.filter(keeps(others, present))),
{
    let kept = from.filter(keeps(others, present));
    let at = lemma_filter_positions(from, keeps(others, present));
    assert forall|i: int, j: int| 0 <= i < j < kept.len() implies key_lt(
        #[trigger] kept[i].key(),
        #[trigger] kept[j].key(),
    ) by {
        assert(kept[i] == from[at[i]]);
        assert(kept[j] == from[at[j]]);
        assert(at[i] < at[j]);
    }
}

/// The identities that are kept are those of `from` that occur in `others`,
/// or do not, as `present` says.
pub proof fn lemma_selection_keys<T: Identified>(from: Seq<T>, others: Seq<T>, present: bool)
    ensures
        forall|k: (Seq<char>, Seq<char>)| #[trigger]
            has_key(from.filter(keeps(others, present)), k) <==> has_key(from, k) && has_key(
                others,
                k,
            ) == present,
{
    let pred = keeps(others, present);
    let kept = from.filter(pred);
    let at = lemma_filter_positions(from, pred);
    assert forall|k: (Seq<char>, Seq<char>)| #[trigger]
        has_key(kept, k) <==> has_key(from, k) && has_key(others, k) == present by {
        if has_key(kept, k) {
            let i = choose|i: int| 0 <= i < kept.len() && (#[trigger] kept[i]).key() == k;
            assert(kept[i] == from[at[i]]);
            from.lemma_filter_pred(pred, i);
        }
        if has_key(from, k) && has_key(others, k) == present {
            let i = choose|i: int| 0 <= i < from.len() && (#[trigger] from[i]).key() == k;
            assert(pred(from[i]));
            from.lemma_filter_contains(pred, i);
            let q = choose|q: int| 0 <= q < kept.len() && kept[q] == from[i];
            assert(kept[q].key() == k);
        }
    }
}

/// The three classes of a reconciliation share no identity, and together hold
/// exactly the identities of the desired and the existing state: what is
/// deleted is existing but not desired, what is new is desired but not
/// existing, what is old is both.
pub proof fn lemma_classification_partitions<T: Identified>(desired: Seq<T>, existing: Seq<T>)
    ensures
        key_set(difference_of(existing, desired)) == key_set(existing).difference(
            key_set(desired),
        ),
        key_set(difference_of(desired, existing)) == key_set(desired).difference(
            key_set(existing),
        ),
        key_set(intersection_of(desired, existing)) == key_set(desired).intersect(
            key_set(existing),
        ),
        key_set(difference_of(existing, desired)).union(
            key_set(difference_of(desired, existing)),
        ).union(key_set(intersection_of(desired, existing))) == key_set(desired).union(
            key_set(existing),
        ),
        key_set(difference_of(existing, desired)).disjoint(
            key_set(difference_of(desired, existing)),
        ),
        key_set(difference_of(existing, desired)).disjoint(
            key_set(intersection_of(desired, existing)),
        ),
        key_set(difference_of(desired, existing)).disjoint(
            key_set(intersection_of(desired, existing)),
        ),
{
    lemma_selection_keys(existing, desired, false);
    lemma_selection_keys(desired, existing, false);
    lemma_selection_keys(desired, existing, true);
    let deleted = key_set(difference_of(existing, desired));
    let created = key_set(difference_of(desired, existing));
    let kept = key_set(intersection_of(desired, existing));
    assert(deleted =~= key_set(existing).difference(key_set(desired)));
    assert(created =~= key_set(desired).difference(key_set(existing)));
    assert(kept =~= key_set(desired).intersect(key_set(existing)));
    assert(deleted.union(created).union(kept) =~= key_set(desired).union(key_set(existing)));
}

/// An artifact that is both desired and existing is old, and neither new nor
/// deleted, whatever else the two descriptions of it hold.
pub proof fn lemma_same_identity_is_old<T: Identified>(
    desired: Seq<T>,
    existing: Seq<T>,
    d: T,
    e: T,
)
    requires
        desired.contains(d),
        existing.contains(e),
        d.key() == e.key(),
    ensures
        intersection_of(desired, existing).contains(d),
        !has_key(difference_of(desired, existing), d.key()),
        !has_key(difference_of(existing, desired), d.key()),
{
    lemma_selection_keys(existing, desired, false);
    lemma_selection_keys(desired, existing, false);
    let i = choose|i: int| 0 <= i < desired.len() && desired[i] == d;
    let j = choose|j: int| 0 <= j < existing.len() && existing[j] == e;
    assert(existing[j].key() == d.key());
    assert(desired[i].key() == d.key());
    assert(has_key(existing, d.key()));
    assert(has_key(desired, d.key()));
    assert(keeps(existing, true)(desired[i]));
    desired.lemma_filter_contains(keeps(existing, true), i);
}

fn select<T: Identified>(from: &Vec<T>, others: &Vec<T>, present: bool) -> (r: Vec<T>)
    requires
        strictly_sorted(others@),
    ensures
        r@ == from@.filter(keeps(others@, present)),
{
    let mut out: Vec<T> = Vec::new();
    let mut i: usize = 0;
    proof {
        reveal(Seq::filter);
        assert(from@.take(0) =~= Seq::<T>::empty());
    }
    while i < from.len()
        invariant
            i <= from.len(),
            strictly_sorted(others@),
            out@ == from@.take(i as int).filter(keeps(others@, present)),
        decreases from.len() - i,
    {
        let found = contains_identity(others, &from[i]);
        proof {
            reveal(Seq::filter);
            assert(from@.take(i + 1).drop_last() =~= from@.take(i as int));
            assert(from@.take(i + 1).last() == from@[i as int]);
        }
        if found == present {
            out.push(from[i].duplicate());
        }
        i += 1;
    }
    proof {
        assert(from@.take(from.len() as int) =~= from@);
    }
    out
}

/// The elements of `from` that are no artifact of `others`.
pub fn difference<T: Identified>(from: &Vec<T>, others: &Vec<T>) -> (r: Vec<T>)
    requires
        strictly_sorted(others@),
    ensures
        r@ == difference_of(from@, others@),
        strictly_sorted(from@) ==> strictly_sorted(r@),
{
    proof {
        if strictly_sorted(from@) {
            lemma_selection_sorted(from@, others@, false);
        }
    }
    select(from, others, false)
}

/// The elements of `from` that are an artifact of `others` too.
pub fn intersection<T: Identified>(from: &Vec<T>, others: &Vec<T>) -> (r: Vec<T>)
    requires
        strictly_sorted(others@),
    ensures
        r@ == intersection_of(from@, others@),
        strictly_sorted(from@) ==> strictly_sorted(r@),
{
    proof {
        if strictly_sorted(from@) {
            lemma_selection_sorted(from@, others@, true);
        }
    }
    select(from, others, true)
}

} // verus!
