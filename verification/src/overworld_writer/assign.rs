//! Hammer Bro level pool: spreading encounters with the same enemy set.
use vstd::prelude::*;
use rand_chacha::ChaCha8Rng;
use crate::overworld_writer::march_veto::{insert_unique, lemma_ins_unique, strictly_sorted};
use crate::pipe_helpers::PointerEntry;
use crate::rng::shuffle_in_place;

verus! {

/// The object pointer of an entry (its enemy set).
pub open spec fn obj_of(e: PointerEntry) -> u16 {
    (e.obj_lo as int + 256 * e.obj_hi as int) as u16
}

/// The object pointers of a list of entries.
pub open spec fn keys_of(s: Seq<PointerEntry>) -> Seq<u16> {
    s.map_values(|e: PointerEntry| obj_of(e))
}

/// The entries of `s` with object pointer `k`, in list order.
pub open spec fn key_group(s: Seq<PointerEntry>, k: u16) -> Seq<PointerEntry>
    decreases s.len(),
{
    if s.len() == 0 {
        Seq::empty()
    } else {
        let g = key_group(s.drop_last(), k);
        if obj_of(s.last()) == k {
            g.push(s.last())
        } else {
            g
        }
    }
}

/// One round: for each key of `order` whose group has an entry at index
/// `r`, that entry.
pub open spec fn round_of(order: Seq<u16>, groups: Map<u16, Seq<PointerEntry>>, r: int) -> Seq<PointerEntry>
    decreases order.len(),
{
    if order.len() == 0 {
        Seq::empty()
    } else {
        let p = round_of(order.drop_last(), groups, r);
        let g = groups[order.last()];
        if r < g.len() {
            p.push(g[r])
        } else {
            p
        }
    }
}

/// The first `r` rounds, one after another.
pub open spec fn rounds(order: Seq<u16>, groups: Map<u16, Seq<PointerEntry>>, r: int) -> Seq<PointerEntry>
    decreases r,
{
    if r <= 0 {
        Seq::empty()
    } else {
        rounds(order, groups, r - 1) + round_of(order, groups, r - 1)
    }
}

/// `out` interleaves `levels` by enemy set: the distinct object pointers
/// in some order, each pointer's entries in some order, and then round by
/// round one entry of every group that still has one, until the largest
/// group is used up.
pub open spec fn interleaved(levels: Seq<PointerEntry>, out: Seq<PointerEntry>) -> bool {
    exists|order: Seq<u16>, groups: Map<u16, Seq<PointerEntry>>, m: int|
        {
            &&& order.no_duplicates()
            &&& forall|k: u16|
                #[trigger] order.contains(k) <==> exists|i: int| 0 <= i < levels.len() && obj_of(levels[i]) == k
            &&& forall|k: u16|
                #[trigger] order.contains(k) ==> groups.contains_key(k) && groups[k].to_multiset() == key_group(
                    levels,
                    k,
                ).to_multiset() && groups[k].len() <= m
            &&& (levels.len() > 0 ==> exists|k: u16| #[trigger] order.contains(k) && groups[k].len() == m)
            &&& out == rounds(order, groups, m)
        }
}

pub(crate) fn obj_ptr(e: &PointerEntry) -> (k: u16)
    ensures
        k == obj_of(*e),
{
    e.obj_lo as u16 + 256 * e.obj_hi as u16
}

fn collect_group(levels: &Vec<PointerEntry>, k: u16) -> (g: Vec<PointerEntry>)
    ensures
        g@ == key_group(levels@, k),
{
    let mut g: Vec<PointerEntry> = Vec::new();
    let mut i: usize = 0;
    assert(levels@.take(0) =~= Seq::<PointerEntry>::empty());
    while i < levels.len()
        invariant
            i <= levels@.len(),
            g@ == key_group(levels@.take(i as int), k),
        decreases levels@.len() - i,
    {
        let e = levels[i];
        assert(levels@.take(i + 1).drop_last() =~= levels@.take(i as int));
        assert(levels@.take(i + 1).last() == e);
        if obj_ptr(&e) == k {
            g.push(e);
        }
        i = i + 1;
    }
    assert(levels@.take(levels@.len() as int) =~= levels@);
    g
}

pub(crate) proof fn lemma_key_group_nonempty(s: Seq<PointerEntry>, k: u16, i: int)
    requires
        0 <= i < s.len(),
        obj_of(s[i]) == k,
    ensures
        key_group(s, k).len() > 0,
    decreases s.len(),
{
    if i < s.len() - 1 {
        assert(s.drop_last()[i] == s[i]);
        lemma_key_group_nonempty(s.drop_last(), k, i);
    }
}

/// The distinct object pointers of `levels`, ascending.
pub(crate) fn distinct_keys(levels: &Vec<PointerEntry>) -> (keys: Vec<u16>)
    ensures
        strictly_sorted(keys@),
        forall|k: u16| #[trigger] keys@.contains(k) <==> exists|j: int| 0 <= j < levels@.len() && obj_of(levels@[j]) == k,
{
    let mut keys: Vec<u16> = Vec::new();
    let mut i: usize = 0;
    while i < levels.len()
        invariant
            i <= levels@.len(),
            strictly_sorted(keys@),
            forall|k: u16| #[trigger] keys@.contains(k) <==> exists|j: int| 0 <= j < i && obj_of(levels@[j]) == k,
        decreases levels@.len() - i,
    {
        let k = obj_ptr(&levels[i]);
        proof {
            lemma_ins_unique(keys@, k);
        }
        let ghost before = keys@;
        insert_unique(&mut keys, k);
        proof {
            assert forall|q: u16| #[trigger] keys@.contains(q) <==> exists|j: int|
                0 <= j < i + 1 && obj_of(levels@[j]) == q by {
                if keys@.contains(q) && q != k {
                    assert(before.contains(q));
                }
                if exists|j: int| 0 <= j < i + 1 && obj_of(levels@[j]) == q {
                    let j = choose|j: int| 0 <= j < i + 1 && obj_of(levels@[j]) == q;
                    if j < i {
                        assert(before.contains(q));
                    }
                }
            }
        }
        i = i + 1;
    }
    keys
}

/// Each key's entries, shuffled, in key order.
pub(crate) fn shuffled_groups(levels: &Vec<PointerEntry>, keys: &Vec<u16>, rng: &mut ChaCha8Rng) -> (groups: Vec<
    Vec<PointerEntry>,
>)
    ensures
        groups@.len() == keys@.len(),
        forall|h: int|
            0 <= h < keys@.len() ==> (#[trigger] groups@[h])@.to_multiset() == key_group(levels@, keys@[h]).to_multiset(),
{
    let mut groups: Vec<Vec<PointerEntry>> = Vec::new();
    let mut g: usize = 0;
    while g < keys.len()
        invariant
            g <= keys@.len(),
            groups@.len() == g,
            forall|h: int|
                0 <= h < g ==> (#[trigger] groups@[h])@.to_multiset() == key_group(levels@, keys@[h]).to_multiset(),
        decreases keys@.len() - g,
    {
        let mut grp = collect_group(levels, keys[g]);
        shuffle_in_place(&mut grp, rng);
        groups.push(grp);
        g = g + 1;
    }
    groups
}

/// The size of the largest group.
fn largest(groups: &Vec<Vec<PointerEntry>>) -> (m: usize)
    ensures
        forall|q: int| 0 <= q < groups@.len() ==> (#[trigger] groups@[q])@.len() <= m,
        groups@.len() > 0 ==> exists|q: int| 0 <= q < groups@.len() && (#[trigger] groups@[q])@.len() == m,
{
    let mut m: usize = 0;
    let mut h: usize = 0;
    while h < groups.len()
        invariant
            h <= groups@.len(),
            h == 0 ==> m == 0,
            forall|q: int| 0 <= q < h ==> (#[trigger] groups@[q])@.len() <= m,
            h > 0 ==> exists|q: int| 0 <= q < h && (#[trigger] groups@[q])@.len() == m,
        decreases groups@.len() - h,
    {
        if groups[h].len() > m {
            m = groups[h].len();
            assert(groups@[h as int]@.len() == m);
        } else if h == 0 {
            assert(groups@[0]@.len() == m);
        }
        h = h + 1;
    }
    m
}

/// The groups as a map from key to entries.
pub open spec fn group_map(keys: Seq<u16>, groups: Seq<Vec<PointerEntry>>) -> Map<u16, Seq<PointerEntry>> {
    Map::new(|k: u16| keys.contains(k), |k: u16| groups[keys.index_of(k)]@)
}

proof fn lemma_group_map(keys: Seq<u16>, groups: Seq<Vec<PointerEntry>>)
    requires
        strictly_sorted(keys),
    ensures
        forall|q: int|
            0 <= q < keys.len() ==> #[trigger] group_map(keys, groups).contains_key(keys[q]) && group_map(
                keys,
                groups,
            )[keys[q]] == groups[q]@,
{
    assert forall|q: int| 0 <= q < keys.len() implies #[trigger] group_map(keys, groups).contains_key(keys[q])
        && group_map(keys, groups)[keys[q]] == groups[q]@ by {
        assert(keys.contains(keys[q]));
        let i = keys.index_of(keys[q]);
        assert(keys[i] == keys[q]);
        if i < q {
            assert(keys[i] < keys[q]);
        } else if i > q {
            assert(keys[q] < keys[i]);
        }
    }
}

/// Round robin over `order`: round by round, one entry of every group that
/// still has one.
#[verifier::loop_isolation(false)]
fn round_robin(
    order: &Vec<u16>,
    keys: &Vec<u16>,
    groups: &Vec<Vec<PointerEntry>>,
    m: usize,
) -> (r: Vec<PointerEntry>)
    requires
        strictly_sorted(keys@),
        groups@.len() == keys@.len(),
        forall|k: u16| #[trigger] order@.contains(k) ==> keys@.contains(k),
    ensures
        r@ == rounds(order@, group_map(keys@, groups@), m as int),
{
    let ghost gm = group_map(keys@, groups@);
    proof {
        lemma_group_map(keys@, groups@);
    }
    let mut result: Vec<PointerEntry> = Vec::new();
    let mut round: usize = 0;
    while round < m
        invariant
            round <= m,
            result@ == rounds(order@, gm, round as int),
        decreases m - round,
    {
        let mut j: usize = 0;
        assert(order@.take(0) =~= Seq::<u16>::empty());
        while j < order.len()
            invariant
                j <= order@.len(),
                round < m,
                result@ == rounds(order@, gm, round as int) + round_of(order@.take(j as int), gm, round as int),
            decreases order@.len() - j,
        {
            let key = order[j];
            assert(order@.contains(key));
            assert(keys@.contains(key));
            let mut q: usize = 0;
            while q < keys.len() && keys[q] != key
                invariant
                    q <= keys@.len(),
                    keys@.contains(key),
                    forall|p: int| 0 <= p < q ==> keys@[p] != key,
                decreases keys@.len() - q,
            {
                q = q + 1;
            }
            assert(q < keys@.len());
            assert(gm.contains_key(keys@[q as int]) && gm[keys@[q as int]] == groups@[q as int]@);
            let grp = &groups[q];
            assert(order@.take(j + 1).drop_last() =~= order@.take(j as int));
            assert(order@.take(j + 1).last() == key);
            if round < grp.len() {
                result.push(grp[round]);
            }
            j = j + 1;
            assert(result@ =~= rounds(order@, gm, round as int) + round_of(order@.take(j as int), gm, round as int));
        }
        assert(order@.take(order@.len() as int) =~= order@);
        round = round + 1;
    }
    result
}

/// Reorder the Hammer Bro level pool so that entries with the same object
/// pointer (the same enemies) are spread out: the pointers are shuffled,
/// each pointer's entries are shuffled, and then, round by round, one entry
/// of every pointer that still has one is taken, so every enemy set shows
/// up once before any repeats.
pub fn interleave_hb_by_obj_ptr(levels: Vec<PointerEntry>, rng: &mut ChaCha8Rng) -> (r: Vec<
    PointerEntry,
>)
    ensures
        interleaved(levels@, r@),
{
    if levels.len() == 0 {
        proof {
            let order = Seq::<u16>::empty();
            let groups = Map::<u16, Seq<PointerEntry>>::empty();
            assert(levels@ =~= rounds(order, groups, 0));
        }
        return levels;
    }
    let keys = distinct_keys(&levels);
    let mut order: Vec<u16> = Vec::new();
    let mut c: usize = 0;
    while c < keys.len()
        invariant
            c <= keys@.len(),
            order@ == keys@.take(c as int),
        decreases keys@.len() - c,
    {
        order.push(keys[c]);
        c = c + 1;
        assert(order@ =~= keys@.take(c as int));
    }
    assert(keys@.take(keys@.len() as int) =~= keys@);
    shuffle_in_place(&mut order, rng);
    let groups = shuffled_groups(&levels, &keys, rng);
    let m = largest(&groups);
    proof {
        broadcast use vstd::seq_lib::group_to_multiset_ensures;
        assert forall|k: u16| #[trigger] order@.contains(k) <==> keys@.contains(k) by {
            assert(order@.contains(k) <==> order@.to_multiset().count(k) > 0);
            assert(keys@.contains(k) <==> keys@.to_multiset().count(k) > 0);
        }
    }
    let result = round_robin(&order, &keys, &groups, m);
    proof {
        broadcast use vstd::seq_lib::group_to_multiset_ensures;
        let ks = keys@;
        let ord = order@;
        let gm = group_map(ks, groups@);
        lemma_group_map(ks, groups@);
        assert(ks.no_duplicates()) by {
            assert forall|a: int, b: int| 0 <= a < ks.len() && 0 <= b < ks.len() && a != b implies ks[a] != ks[b] by {
                if a < b {
                    assert(ks[a] < ks[b]);
                } else {
                    assert(ks[b] < ks[a]);
                }
            }
        }
        ks.lemma_multiset_has_no_duplicates();
        assert forall|x: u16| ord.to_multiset().contains(x) implies ord.to_multiset().count(x) == 1 by {
            assert(ks.to_multiset().contains(x));
        }
        ord.lemma_multiset_has_no_duplicates_conv();
        assert forall|k: u16| #[trigger] ord.contains(k) implies gm.contains_key(k) && gm[k].to_multiset()
            == key_group(levels@, k).to_multiset() && gm[k].len() <= m by {
            assert(ks.contains(k));
            let q = choose|q: int| 0 <= q < ks.len() && ks[q] == k;
            assert(gm.contains_key(ks[q]) && gm[ks[q]] == groups@[q]@);
            assert(groups@[q]@.len() <= m);
        }
        assert(ks.contains(obj_of(levels@[0])));
        let q0 = choose|q: int| 0 <= q < groups@.len() && (#[trigger] groups@[q])@.len() == m;
        assert(gm.contains_key(ks[q0]) && gm[ks[q0]] == groups@[q0]@);
        assert(ord.contains(ks[q0]));
        assert(interleaved(levels@, result@));
    }
    result
}

/// The members of a key group are entries of the list with that key.
pub(crate) proof fn lemma_key_group_members(s: Seq<PointerEntry>, k: u16)
    ensures
        forall|x: PointerEntry| #[trigger] key_group(s, k).contains(x) ==> obj_of(x) == k && s.contains(x),
    decreases s.len(),
{
    lemma_key_group_keys(s, k);
    if s.len() > 0 {
        lemma_key_group_members(s.drop_last(), k);
        let g = key_group(s.drop_last(), k);
        assert forall|x: PointerEntry| #[trigger] key_group(s, k).contains(x) implies s.contains(x) by {
            let i = choose|i: int| 0 <= i < key_group(s, k).len() && key_group(s, k)[i] == x;
            if i < g.len() {
                assert(g[i] == x);
                assert(g.contains(x));
                let j = choose|j: int| 0 <= j < s.drop_last().len() && s.drop_last()[j] == x;
                assert(s[j] == x);
            } else {
                assert(x == s.last());
                assert(s[s.len() - 1] == x);
            }
        }
    }
}

proof fn lemma_key_group_keys(s: Seq<PointerEntry>, k: u16)
    ensures
        forall|x: PointerEntry| #[trigger] key_group(s, k).contains(x) ==> obj_of(x) == k,
    decreases s.len(),
{
    if s.len() > 0 {
        lemma_key_group_keys(s.drop_last(), k);
        let g = key_group(s.drop_last(), k);
        assert forall|x: PointerEntry| #[trigger] key_group(s, k).contains(x) implies obj_of(x) == k by {
            if obj_of(s.last()) == k {
                let i = choose|i: int| 0 <= i < key_group(s, k).len() && key_group(s, k)[i] == x;
                if i < g.len() {
                    assert(g[i] == x);
                    assert(g.contains(x));
                }
            } else {
                assert(g.contains(x));
            }
        }
    }
}

/// With every group at least `r + 1` long and holding only entries of its
/// own key, round `r` lists one entry per key, in key order.
proof fn lemma_round_keys(order: Seq<u16>, groups: Map<u16, Seq<PointerEntry>>, r: int)
    requires
        0 <= r,
        forall|k: u16| #[trigger] order.contains(k) ==> groups[k].len() > r && obj_of(groups[k][r]) == k,
    ensures
        round_of(order, groups, r).map_values(|e: PointerEntry| obj_of(e)) == order,
    decreases order.len(),
{
    if order.len() > 0 {
        let t = order.drop_last();
        assert forall|k: u16| #[trigger] t.contains(k) implies groups[k].len() > r && obj_of(groups[k][r]) == k by {
            let i = choose|i: int| 0 <= i < t.len() && t[i] == k;
            assert(order[i] == k);
            assert(order.contains(k));
        }
        lemma_round_keys(t, groups, r);
        assert(order.contains(order.last())) by {
            assert(order[order.len() - 1] == order.last());
        }
        let f = |e: PointerEntry| obj_of(e);
        assert(round_of(order, groups, r).map_values(f) =~= round_of(t, groups, r).map_values(f).push(
            order.last(),
        ));
        assert(order =~= t.push(order.last()));
    }
}

proof fn lemma_rounds_start(order: Seq<u16>, groups: Map<u16, Seq<PointerEntry>>, m: int)
    requires
        m >= 1,
    ensures
        rounds(order, groups, m).take(round_of(order, groups, 0).len() as int) == round_of(order, groups, 0),
        round_of(order, groups, 0).len() <= rounds(order, groups, m).len(),
    decreases m,
{
    if m == 1 {
        assert(rounds(order, groups, 0) =~= Seq::<PointerEntry>::empty());
        assert(rounds(order, groups, 1) =~= round_of(order, groups, 0));
    } else {
        lemma_rounds_start(order, groups, m - 1);
        let p = rounds(order, groups, m - 1);
        let n = round_of(order, groups, 0).len() as int;
        assert((p + round_of(order, groups, m - 1)).take(n) =~= p.take(n));
    }
}

/// Every enemy set shows up once before any repeats: some prefix of the
/// interleaved pool holds each object pointer of the pool exactly once.
pub proof fn lemma_interleaved_first_round(levels: Seq<PointerEntry>, out: Seq<PointerEntry>)
    requires
        interleaved(levels, out),
        levels.len() > 0,
    ensures
        exists|d: int|
            0 <= d <= out.len() && (#[trigger] keys_of(out.take(d))).no_duplicates() && forall|i: int|
                0 <= i < levels.len() ==> keys_of(out.take(d)).contains(obj_of(levels[i])),
{
    broadcast use vstd::seq_lib::group_to_multiset_ensures;
    let (order, groups, m) = choose|order: Seq<u16>, groups: Map<u16, Seq<PointerEntry>>, m: int|
        {
            &&& order.no_duplicates()
            &&& forall|k: u16|
                #[trigger] order.contains(k) <==> exists|i: int| 0 <= i < levels.len() && obj_of(levels[i]) == k
            &&& forall|k: u16|
                #[trigger] order.contains(k) ==> groups.contains_key(k) && groups[k].to_multiset() == key_group(
                    levels,
                    k,
                ).to_multiset() && groups[k].len() <= m
            &&& (levels.len() > 0 ==> exists|k: u16| #[trigger] order.contains(k) && groups[k].len() == m)
            &&& out == rounds(order, groups, m)
        };
    assert forall|k: u16| #[trigger] order.contains(k) implies groups[k].len() > 0 && obj_of(groups[k][0]) == k by {
        let i = choose|i: int| 0 <= i < levels.len() && obj_of(levels[i]) == k;
        lemma_key_group_nonempty(levels, k, i);
        let kg = key_group(levels, k);
        assert(kg.contains(kg[0]));
        assert(groups[k].to_multiset().count(kg[0]) > 0);
        assert(groups[k].len() > 0);
        assert(groups[k].contains(groups[k][0]));
        assert(kg.to_multiset().count(groups[k][0]) > 0);
        lemma_key_group_keys(levels, k);
    }
    let k0 = choose|k: u16| #[trigger] order.contains(k) && groups[k].len() == m;
    assert(m >= 1);
    lemma_round_keys(order, groups, 0);
    lemma_rounds_start(order, groups, m);
    let r0 = round_of(order, groups, 0);
    let d = r0.len() as int;
    assert(out.take(d) == r0);
    assert(keys_of(out.take(d)) == order);
    assert forall|i: int| 0 <= i < levels.len() implies keys_of(out.take(d)).contains(obj_of(levels[i])) by {
        assert(order.contains(obj_of(levels[i])));
    }
}

} // verus!
