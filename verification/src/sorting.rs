//! Stable sorting by an integer key: the insertion-sort definition the
//! contracts speak of, its properties, and an in-place implementation.
use vstd::prelude::*;

verus! {

/// Types ordered by an integer key.
pub trait SortKey {
    spec fn spec_key(&self) -> int;

    fn sort_key(&self) -> (k: u32)
        ensures
            k as int == self.spec_key(),
    ;
}

/// `s` with `e` inserted after every element whose key is at most `e`'s
/// (scanning from the end): one step of a stable insertion sort.
pub open spec fn insert_by_key<T: SortKey>(s: Seq<T>, e: T) -> Seq<T>
    decreases s.len(),
{
    if s.len() == 0 {
        seq![e]
    } else if s.last().spec_key() <= e.spec_key() {
        s.push(e)
    } else {
        insert_by_key(s.drop_last(), e).push(s.last())
    }
}

/// The elements of `s` stably sorted by ascending key.
pub open spec fn sort_by_key<T: SortKey>(s: Seq<T>) -> Seq<T>
    decreases s.len(),
{
    if s.len() == 0 {
        s
    } else {
        insert_by_key(sort_by_key(s.drop_last()), s.last())
    }
}

/// Keys never decrease along `s`.
pub open spec fn key_sorted<T: SortKey>(s: Seq<T>) -> bool {
    forall|i: int, j: int| 0 <= i <= j < s.len() ==> s[i].spec_key() <= s[j].spec_key()
}

/// Inserting into a key-sorted list keeps it sorted and adds exactly `e`.
pub proof fn lemma_insert_by_key<T: SortKey>(s: Seq<T>, e: T)
    requires
        key_sorted(s),
    ensures
        key_sorted(insert_by_key(s, e)),
        insert_by_key(s, e).to_multiset() =~= s.to_multiset().insert(e),
        insert_by_key(s, e).len() == s.len() + 1,
    decreases s.len(),
{
    broadcast use vstd::seq_lib::group_to_multiset_ensures;
    if s.len() == 0 {
        assert(seq![e] =~= Seq::<T>::empty().push(e));
    } else if s.last().spec_key() <= e.spec_key() {
    } else {
        let t = s.drop_last();
        assert(key_sorted(t));
        lemma_insert_by_key(t, e);
        let r = insert_by_key(t, e);
        assert(s =~= t.push(s.last()));
        // every element of r is an element of t or e, all of X at most s.last().x
        assert forall|k: int| #![auto] 0 <= k < r.len() implies r[k].spec_key() <= s.last().spec_key() by {
            assert(r.to_multiset().contains(r[k]));
            if r[k] != e {
                assert(t.to_multiset().contains(r[k]));
                assert(t.contains(r[k]));
            }
        }
    }
}

/// Sorting yields a key-sorted permutation of the input.
pub proof fn lemma_sort_by_key<T: SortKey>(s: Seq<T>)
    ensures
        key_sorted(sort_by_key(s)),
        sort_by_key(s).to_multiset() =~= s.to_multiset(),
        sort_by_key(s).len() == s.len(),
    decreases s.len(),
{
    broadcast use vstd::seq_lib::group_to_multiset_ensures;
    if s.len() > 0 {
        lemma_sort_by_key(s.drop_last());
        lemma_insert_by_key(sort_by_key(s.drop_last()), s.last());
        assert(s =~= s.drop_last().push(s.last()));
    }
}

/// An already X-sorted list is left as it is.
pub proof fn lemma_sort_by_key_sorted<T: SortKey>(s: Seq<T>)
    requires
        key_sorted(s),
    ensures
        sort_by_key(s) == s,
    decreases s.len(),
{
    if s.len() > 0 {
        assert(key_sorted(s.drop_last()));
        lemma_sort_by_key_sorted(s.drop_last());
        assert(s.drop_last().push(s.last()) =~= s);
    }
}

/// Inserting `e` adds exactly `f(e)` to the image of `s` under `f`.
pub proof fn lemma_insert_keeps_mapped<T: SortKey, U>(s: Seq<T>, e: T, f: spec_fn(T) -> U)
    ensures
        insert_by_key(s, e).map_values(f).to_multiset() =~= s.map_values(f).to_multiset().insert(f(e)),
    decreases s.len(),
{
    broadcast use vstd::seq_lib::group_to_multiset_ensures;
    if s.len() == 0 {
        assert(seq![e].map_values(f) =~= Seq::<U>::empty().push(f(e)));
        assert(s.map_values(f) =~= Seq::<U>::empty());
    } else if s.last().spec_key() <= e.spec_key() {
        assert(s.push(e).map_values(f) =~= s.map_values(f).push(f(e)));
    } else {
        let t = s.drop_last();
        lemma_insert_keeps_mapped(t, e, f);
        assert(insert_by_key(t, e).push(s.last()).map_values(f) =~= insert_by_key(t, e).map_values(f).push(
            f(s.last()),
        ));
        assert(s.map_values(f) =~= t.map_values(f).push(f(s.last())));
    }
}

/// Sorting keeps the image of a list under any function, counted with
/// multiplicity.
pub proof fn lemma_sort_keeps_mapped<T: SortKey, U>(s: Seq<T>, f: spec_fn(T) -> U)
    ensures
        sort_by_key(s).map_values(f).to_multiset() =~= s.map_values(f).to_multiset(),
    decreases s.len(),
{
    broadcast use vstd::seq_lib::group_to_multiset_ensures;
    if s.len() == 0 {
    } else {
        let t = s.drop_last();
        lemma_sort_keeps_mapped(t, f);
        lemma_insert_keeps_mapped(sort_by_key(t), s.last(), f);
        assert(s.map_values(f) =~= t.map_values(f).push(f(s.last())));
    }
}

/// Stable insertion sort by key, in place.
pub fn stable_sort<T: SortKey + Copy>(v: &mut Vec<T>)
    ensures
        final(v)@ == sort_by_key(old(v)@),
{
    let n = v.len();
    let ghost input = v@;
    let mut i: usize = 0;
    while i < n
        invariant
            n == input.len(),
            i <= n,
            v@.len() == n,
            v@.subrange(0, i as int) == sort_by_key(input.subrange(0, i as int)),
            v@.subrange(i as int, n as int) == input.subrange(i as int, n as int),
        decreases n - i,
    {
        let ghost sorted_prefix = v@.subrange(0, i as int);
        let e = v[i];
        assert(input.subrange(0, i + 1).drop_last() =~= input.subrange(0, i as int));
        assert(input.subrange(0, i + 1).last() == e) by {
            assert(v@.subrange(i as int, n as int)[0] == input.subrange(i as int, n as int)[0]);
        }
        // bubble `e` left past every element with a greater key
        let mut j: usize = i;
        proof {
            let a = v@.subrange(i + 1, n as int);
            let b = input.subrange(i + 1, n as int);
            let a0 = v@.subrange(i as int, n as int);
            let b0 = input.subrange(i as int, n as int);
            assert forall|k: int| 0 <= k < a.len() implies #[trigger] a[k] == b[k] by {
                assert(a0[k + 1] == b0[k + 1]);
            }
            assert(a =~= b);
            assert(sorted_prefix.subrange(0, i as int) =~= sorted_prefix);
            assert(sorted_prefix.subrange(i as int, i as int) =~= Seq::<T>::empty());
            assert(insert_by_key(sorted_prefix, e) =~= insert_by_key(sorted_prefix.subrange(0, i as int), e)
                + sorted_prefix.subrange(i as int, i as int));
            assert(v@.subrange(i + 1, i + 1) =~= sorted_prefix.subrange(i as int, i as int));
        }
        while j > 0 && v[j - 1].sort_key() > e.sort_key()
            invariant
                j <= i < n,
                v@.len() == n,
                sorted_prefix.len() == i,
                v[j as int] == e,
                v@.subrange(0, j as int) == sorted_prefix.subrange(0, j as int),
                v@.subrange(j + 1, i + 1) == sorted_prefix.subrange(j as int, i as int),
                v@.subrange(i + 1, n as int) == input.subrange(i + 1, n as int),
                insert_by_key(sorted_prefix, e) == insert_by_key(sorted_prefix.subrange(0, j as int), e)
                    + sorted_prefix.subrange(j as int, i as int),
            decreases j,
        {
            let prev = v[j - 1];
            proof {
                let p = sorted_prefix.subrange(0, j as int);
                assert(p.last() == prev) by {
                    assert(v@.subrange(0, j as int)[j - 1] == p[j - 1]);
                }
                assert(p.drop_last() =~= sorted_prefix.subrange(0, j - 1));
                assert(insert_by_key(p, e) == insert_by_key(p.drop_last(), e).push(prev));
                assert(insert_by_key(p.drop_last(), e).push(prev) + sorted_prefix.subrange(j as int, i as int)
                    =~= insert_by_key(p.drop_last(), e) + sorted_prefix.subrange(j - 1, i as int));
                assert(sorted_prefix.subrange(j - 1, i as int)[0] == prev);
            }
            let ghost before = v@;
            v.set(j, prev);
            v.set(j - 1, e);
            j = j - 1;
            proof {
                let a1 = v@.subrange(0, j as int);
                let b1 = sorted_prefix.subrange(0, j as int);
                let a1o = before.subrange(0, j + 1);
                let b1o = sorted_prefix.subrange(0, j + 1);
                assert forall|k: int| 0 <= k < a1.len() implies #[trigger] a1[k] == b1[k] by {
                    assert(a1o[k] == b1o[k]);
                }
                assert(a1 =~= b1);
                let a2 = v@.subrange(j + 1, i + 1);
                let b2 = sorted_prefix.subrange(j as int, i as int);
                let a2o = before.subrange(j + 2, i + 1);
                let b2o = sorted_prefix.subrange(j + 1, i as int);
                assert forall|k: int| 0 <= k < a2.len() implies #[trigger] a2[k] == b2[k] by {
                    if k > 0 {
                        assert(a2o[k - 1] == b2o[k - 1]);
                    }
                }
                assert(a2 =~= b2);
                let a3 = v@.subrange(i + 1, n as int);
                let b3 = input.subrange(i + 1, n as int);
                let a3o = before.subrange(i + 1, n as int);
                assert forall|k: int| 0 <= k < a3.len() implies #[trigger] a3[k] == b3[k] by {
                    assert(a3o[k] == b3[k]);
                }
                assert(a3 =~= b3);
            }
        }
        proof {
            let p = sorted_prefix.subrange(0, j as int);
            if j > 0 {
                assert(p.last() == v[j - 1]);
            }
            assert(insert_by_key(p, e) == p.push(e)) by {
                if j > 0 {
                    assert(p.last().spec_key() <= e.spec_key());
                }
            }
            assert(v@.subrange(0, i + 1) =~= p.push(e) + sorted_prefix.subrange(j as int, i as int));
        }
        i = i + 1;
        assert(v@.subrange(i as int, n as int) =~= input.subrange(i as int, n as int));
    }
    assert(v@.subrange(0, n as int) =~= v@);
    assert(input.subrange(0, n as int) =~= input);
}

} // verus!
