//! Merging per-hashtag fetch results into one deduplicated stream, ordered
//! by the status-ID order, newest first.

use vstd::prelude::*;

verus! {

use crate::ids::{id_bytes, id_le_str, id_lt_str, id_less, lemma_id_le_transitive,
    lemma_id_lt_le_transitive, lemma_id_order_strict_total};
use crate::record::{models_of, StatusRecord};
use vstd::seq_lib::group_to_multiset_ensures;
use vstd::string::StringSliceAdditionalSpecFns;

/// Non-increasing in the ID order: newest (greatest ID) first.
pub open spec fn sorted_desc_by_id(s: Seq<StatusRecord>) -> bool {
    forall|i: int, j: int|
        0 <= i < j < s.len() ==> id_le_str(#[trigger] s[j]@.id, #[trigger] s[i]@.id)
}

/// No two elements carry the same ID.
pub open spec fn distinct_ids(s: Seq<StatusRecord>) -> bool {
    forall|i: int, j: int|
        0 <= i < j < s.len() ==> id_bytes(#[trigger] s[i]@.id) != id_bytes(#[trigger] s[j]@.id)
}

/// Whether some element of `s` carries the ID `id`.
pub open spec fn has_id(s: Seq<StatusRecord>, id: Seq<char>) -> bool {
    exists|k: int| 0 <= k < s.len() && id_bytes(#[trigger] s[k]@.id) == id_bytes(id)
}

/// Sorts the statuses by ID, newest (greatest) first.
pub fn sort_by_id_desc(v: &mut Vec<StatusRecord>)
    ensures
        final(v)@.to_multiset() == old(v)@.to_multiset(),
        final(v)@.len() == old(v)@.len(),
        sorted_desc_by_id(final(v)@),
{
    broadcast use group_to_multiset_ensures;

    if v.len() < 2 {
        return;
    }
    let ghost orig = v@;
    let mut i: usize = 1;
    while i < v.len()
        invariant
            1 <= i <= v@.len(),
            v@.len() == orig.len(),
            v@.len() >= 2,
            v@.to_multiset() == orig.to_multiset(),
            sorted_desc_by_id(v@.subrange(0, i as int)),
        decreases v@.len() - i,
    {
        let ghost pre = v@;
        let x = v.remove(i);
        let ghost w = v@;
        let mut j: usize = i;
        while j > 0 && id_less(v[j - 1].id.as_str(), x.id.as_str())
            invariant
                0 <= j <= i,
                i < pre.len(),
                v@ == w,
                w == pre.remove(i as int),
                forall|k: int| j <= k < i ==> id_lt_str(#[trigger] w[k]@.id, x@.id),
            decreases j,
        {
            j -= 1;
        }
        v.insert(j, x);
        proof {
            let u = v@;
            assert(u == w.insert(j as int, x));
            w.insert_ensures(j as int, x);
            // the batch keeps the same statuses
            vstd::seq_lib::to_multiset_remove(pre, i as int);
            vstd::seq_lib::to_multiset_insert(w, j as int, x);
            assert(w.to_multiset() == pre.to_multiset().remove(pre[i as int]));
            assert(u.to_multiset() == w.to_multiset().insert(x));
            assert(pre.contains(x));
            pre.to_multiset_ensures();
            assert(pre.to_multiset().contains(x));
            assert(u.to_multiset() =~= pre.to_multiset());
            // and the sorted prefix has grown by one
            if j > 0 {
                lemma_id_order_strict_total(id_bytes(x@.id), id_bytes(w[j - 1]@.id));
            }
            assert forall|p: int, q: int| 0 <= p < q < i + 1 implies id_le_str(
                u[q]@.id,
                u[p]@.id,
            ) by {
                let ji = j as int;
                if q < ji {
                    assert(pre.subrange(0, i as int)[p] == pre[p]);
                    assert(pre.subrange(0, i as int)[q] == pre[q]);
                } else if p < ji && q == ji {
                    // u[q] is x; x ranks at or below w[j-1], which ranks at or below w[p]
                    if p < ji - 1 {
                        assert(pre.subrange(0, i as int)[p] == pre[p]);
                        assert(pre.subrange(0, i as int)[ji - 1] == pre[ji - 1]);
                        lemma_id_le_transitive(
                            id_bytes(x@.id),
                            id_bytes(w[ji - 1]@.id),
                            id_bytes(w[p]@.id),
                        );
                    }
                } else if p < ji && q > ji {
                    assert(u[q] == w[q - 1]);
                    assert(pre.subrange(0, i as int)[p] == pre[p]);
                    assert(pre.subrange(0, i as int)[q - 1] == pre[q - 1]);
                } else if p == ji {
                    // u[q] was found strictly below x by the search
                    assert(u[q] == w[q - 1]);
                } else {
                    assert(u[p] == w[p - 1]);
                    assert(u[q] == w[q - 1]);
                    if w[q - 1]@.id != x@.id || w[p - 1]@.id != x@.id {
                        assert(pre.subrange(0, i as int)[p - 1] == pre[p - 1]);
                        assert(pre.subrange(0, i as int)[q - 1] == pre[q - 1]);
                    }
                    assert(pre.subrange(0, i as int)[p - 1] == pre[p - 1]);
                    assert(pre.subrange(0, i as int)[q - 1] == pre[q - 1]);
                }
            }
            assert(sorted_desc_by_id(u.subrange(0, i + 1)));
        }
        i += 1;
    }
    proof {
        assert(v@.subrange(0, v@.len() as int) =~= v@);
    }
}

/// Every element of `r` models some element of `v`.
pub open spec fn drawn_from(r: Seq<StatusRecord>, v: Seq<StatusRecord>) -> bool {
    forall|m: int| 0 <= m < r.len() ==> models_of(v).contains((#[trigger] r[m])@)
}

/// Every ID of `v` appears in `r`.
pub open spec fn covers(r: Seq<StatusRecord>, v: Seq<StatusRecord>) -> bool {
    forall|k: int| 0 <= k < v.len() ==> has_id(r, (#[trigger] v[k])@.id)
}

/// `drawn_from`, restricted to the first `i` elements of `v`.
spec fn drawn_upto(r: Seq<StatusRecord>, v: Seq<StatusRecord>, i: int) -> bool {
    forall|m: int| 0 <= m < r.len() ==> models_of(v).take(i).contains((#[trigger] r[m])@)
}

/// `covers`, restricted to the first `i` elements of `v`.
spec fn covers_upto(r: Seq<StatusRecord>, v: Seq<StatusRecord>, i: int) -> bool {
    forall|k: int| 0 <= k < i ==> has_id(r, (#[trigger] v[k])@.id)
}

/// The last element ranks at or below every element.
spec fn last_is_least(r: Seq<StatusRecord>) -> bool {
    forall|m: int| 0 <= m < r.len() ==> id_le_str(r[r.len() - 1]@.id, (#[trigger] r[m])@.id)
}

/// Everything of `v` from `i` on ranks at or below the last element of `r`.
spec fn last_bounds_rest(r: Seq<StatusRecord>, v: Seq<StatusRecord>, i: int) -> bool {
    forall|k: int| i <= k < v.len() ==> id_le_str((#[trigger] v[k])@.id, r[r.len() - 1]@.id)
}

proof fn lemma_dedup_push(
    v: Seq<StatusRecord>,
    old_r: Seq<StatusRecord>,
    new_r: Seq<StatusRecord>,
    i: int,
)
    requires
        sorted_desc_by_id(v),
        0 <= i < v.len(),
        sorted_desc_by_id(old_r),
        distinct_ids(old_r),
        drawn_upto(old_r, v, i),
        covers_upto(old_r, v, i),
        old_r.len() > 0 ==> last_is_least(old_r),
        old_r.len() > 0 ==> id_lt_str(v[i]@.id, old_r[old_r.len() - 1]@.id),
        new_r.len() == old_r.len() + 1,
        new_r[new_r.len() - 1]@ == v[i]@,
        forall|m: int| 0 <= m < old_r.len() ==> #[trigger] new_r[m] == old_r[m],
    ensures
        sorted_desc_by_id(new_r),
        distinct_ids(new_r),
        drawn_upto(new_r, v, i + 1),
        covers_upto(new_r, v, i + 1),
        last_is_least(new_r),
        last_bounds_rest(new_r, v, i + 1),
{
    let last = new_r.len() - 1;
    if old_r.len() > 0 {
        assert forall|m: int| 0 <= m < last implies id_lt_str(
            new_r[last]@.id,
            (#[trigger] new_r[m])@.id,
        ) && id_bytes(new_r[last]@.id) != id_bytes(new_r[m]@.id) by {
            lemma_id_lt_le_transitive(
                id_bytes(new_r[last]@.id),
                id_bytes(old_r[old_r.len() - 1]@.id),
                id_bytes(old_r[m]@.id),
            );
        }
    }
    assert forall|p: int, q: int| 0 <= p < q < new_r.len() implies id_le_str(
        (#[trigger] new_r[q])@.id,
        (#[trigger] new_r[p])@.id,
    ) && id_bytes(new_r[p]@.id) != id_bytes(new_r[q]@.id) by {
        if q < last {
            assert(new_r[p] == old_r[p]);
            assert(new_r[q] == old_r[q]);
        } else {
            assert(id_lt_str(new_r[last]@.id, new_r[p]@.id));
        }
    }
    assert(models_of(v).take(i + 1) =~= models_of(v).take(i).push(v[i]@));
    assert forall|m: int| 0 <= m < new_r.len() implies models_of(v).take(i + 1).contains(
        (#[trigger] new_r[m])@,
    ) by {
        if m < last {
            assert(new_r[m] == old_r[m]);
            assert(models_of(v).take(i).contains(old_r[m]@));
            let k0 = choose|k: int|
                0 <= k < models_of(v).take(i).len() && models_of(v).take(i)[k] == old_r[m]@;
            assert(models_of(v).take(i + 1)[k0] == new_r[m]@);
        } else {
            assert(models_of(v).take(i + 1)[i] == new_r[m]@);
        }
    }
    assert forall|k: int| 0 <= k < i + 1 implies has_id(new_r, (#[trigger] v[k])@.id) by {
        if k < i {
            assert(has_id(old_r, v[k]@.id));
            let m0 = choose|m: int|
                0 <= m < old_r.len() && id_bytes((#[trigger] old_r[m])@.id) == id_bytes(
                    v[k]@.id,
                );
            assert(id_bytes(new_r[m0]@.id) == id_bytes(v[k]@.id));
        } else {
            assert(id_bytes(new_r[last]@.id) == id_bytes(v[k]@.id));
        }
    }
    assert forall|k: int| i + 1 <= k < v.len() implies id_le_str(
        (#[trigger] v[k])@.id,
        new_r[new_r.len() - 1]@.id,
    ) by {
        assert(id_le_str(v[k]@.id, v[i]@.id));
    }
}

proof fn lemma_dedup_skip(v: Seq<StatusRecord>, r: Seq<StatusRecord>, i: int)
    requires
        sorted_desc_by_id(v),
        0 <= i < v.len(),
        r.len() > 0,
        drawn_upto(r, v, i),
        covers_upto(r, v, i),
        last_bounds_rest(r, v, i),
        !id_lt_str(v[i]@.id, r[r.len() - 1]@.id),
    ensures
        drawn_upto(r, v, i + 1),
        covers_upto(r, v, i + 1),
        last_bounds_rest(r, v, i + 1),
{
    let last = r.len() - 1;
    assert(id_le_str(v[i]@.id, r[last]@.id));
    assert(id_bytes(v[i]@.id) == id_bytes(r[last]@.id));
    assert(models_of(v).take(i + 1) =~= models_of(v).take(i).push(v[i]@));
    assert forall|m: int| 0 <= m < r.len() implies models_of(v).take(i + 1).contains(
        (#[trigger] r[m])@,
    ) by {
        assert(models_of(v).take(i).contains(r[m]@));
        let k0 = choose|k: int|
            0 <= k < models_of(v).take(i).len() && models_of(v).take(i)[k] == r[m]@;
        assert(models_of(v).take(i + 1)[k0] == r[m]@);
    }
    assert forall|k: int| 0 <= k < i + 1 implies has_id(r, (#[trigger] v[k])@.id) by {
        if k == i {
            assert(id_bytes(r[last]@.id) == id_bytes(v[k]@.id));
        }
    }
    assert forall|k: int| i + 1 <= k < v.len() implies id_le_str(
        (#[trigger] v[k])@.id,
        r[r.len() - 1]@.id,
    ) by {
        assert(id_le_str(v[k]@.id, v[i]@.id));
    }
}

proof fn lemma_upto_full(r: Seq<StatusRecord>, v: Seq<StatusRecord>)
    requires
        drawn_upto(r, v, v.len() as int),
        covers_upto(r, v, v.len() as int),
    ensures
        drawn_from(r, v),
        covers(r, v),
{
    assert(models_of(v).take(v.len() as int) =~= models_of(v));
    assert forall|m: int| 0 <= m < r.len() implies models_of(v).contains(
        (#[trigger] r[m])@,
    ) by {
        assert(models_of(v).take(v.len() as int).contains(r[m]@));
    }
}

/// Drops every repeated ID from a list already sorted by ID, keeping one
/// status per ID.  Which of several equal-ID copies stays is not pinned:
/// IDs are globally unique, so equal-ID copies describe the same status.
pub fn dedup_by_id(v: &Vec<StatusRecord>) -> (r: Vec<StatusRecord>)
    requires
        sorted_desc_by_id(v@),
    ensures
        sorted_desc_by_id(r@),
        distinct_ids(r@),
        drawn_from(r@, v@),
        covers(r@, v@),
{
    let mut r: Vec<StatusRecord> = Vec::new();
    let mut i: usize = 0;
    while i < v.len()
        invariant
            0 <= i <= v@.len(),
            sorted_desc_by_id(v@),
            sorted_desc_by_id(r@),
            distinct_ids(r@),
            drawn_upto(r@, v@, i as int),
            covers_upto(r@, v@, i as int),
            r@.len() > 0 ==> last_is_least(r@),
            r@.len() > 0 ==> last_bounds_rest(r@, v@, i as int),
        decreases v@.len() - i,
    {
        let is_new = r.len() == 0 || id_less(v[i].id.as_str(), r[r.len() - 1].id.as_str());
        let ghost old_r = r@;
        if is_new {
            r.push(v[i].clone());
            proof {
                lemma_dedup_push(v@, old_r, r@, i as int);
            }
        } else {
            proof {
                lemma_dedup_skip(v@, r@, i as int);
            }
        }
        i += 1;
    }
    proof {
        lemma_upto_full(r@, v@);
    }
    r
}

/// The statuses of a list of fetched pages, in fetch order.
pub open spec fn pages_flat(pages: Seq<Vec<StatusRecord>>) -> Seq<StatusRecord> {
    pages.map_values(|p: Vec<StatusRecord>| p@).flatten()
}

/// Merges per-hashtag fetch results into one stream: all pages concatenated,
/// sorted by ID newest first, deduplicated by ID.  A status found under
/// several hashtags keeps exactly one copy.
pub fn merge_results(pages: Vec<Vec<StatusRecord>>) -> (r: Vec<StatusRecord>)
    ensures
        sorted_desc_by_id(r@),
        distinct_ids(r@),
        drawn_from(r@, pages_flat(pages@)),
        covers(r@, pages_flat(pages@)),
{
    let ghost orig = pages@;
    let mut pages = pages;
    let mut all: Vec<StatusRecord> = Vec::new();
    while pages.len() > 0
        invariant
            all@ + pages_flat(pages@) =~= pages_flat(orig),
        decreases pages@.len(),
    {
        let ghost before = pages@;
        let mut p = pages.remove(0);
        proof {
            assert(before.map_values(|q: Vec<StatusRecord>| q@).drop_first() =~= before.remove(
                0,
            ).map_values(|q: Vec<StatusRecord>| q@));
            assert(pages_flat(before) =~= before[0]@ + pages_flat(before.remove(0)));
        }
        all.append(&mut p);
        proof {
            assert(all@ + pages_flat(pages@) =~= pages_flat(orig));
        }
    }
    proof {
        assert(pages_flat(pages@) =~= Seq::<StatusRecord>::empty());
        assert(all@ =~= pages_flat(orig));
    }
    sort_by_id_desc(&mut all);
    let ghost sorted = all@;
    let r = dedup_by_id(&all);
    proof {
        sorted.to_multiset_ensures();
        pages_flat(orig).to_multiset_ensures();
        assert forall|m: int| 0 <= m < r@.len() implies models_of(pages_flat(orig)).contains(
            (#[trigger] r@[m])@,
        ) by {
            assert(models_of(sorted).contains(r@[m]@));
            let k1 = choose|k: int|
                0 <= k < models_of(sorted).len() && models_of(sorted)[k] == r@[m]@;
            assert(sorted.contains(sorted[k1]));
            assert(sorted.to_multiset().contains(sorted[k1]));
            assert(pages_flat(orig).to_multiset().contains(sorted[k1]));
            assert(pages_flat(orig).contains(sorted[k1]));
            let k2 = choose|k: int|
                0 <= k < pages_flat(orig).len() && pages_flat(orig)[k] == sorted[k1];
            assert(models_of(pages_flat(orig))[k2] == r@[m]@);
        }
        assert forall|k: int| 0 <= k < pages_flat(orig).len() implies has_id(
            r@,
            (#[trigger] pages_flat(orig)[k])@.id,
        ) by {
            assert(pages_flat(orig).contains(pages_flat(orig)[k]));
            assert(pages_flat(orig).to_multiset().contains(pages_flat(orig)[k]));
            assert(sorted.to_multiset().contains(pages_flat(orig)[k]));
            assert(sorted.contains(pages_flat(orig)[k]));
            let k1 = choose|m: int| 0 <= m < sorted.len() && sorted[m] == pages_flat(orig)[k];
            assert(has_id(r@, (sorted[k1])@.id));
            let m0 = choose|m: int|
                0 <= m < r@.len() && id_bytes((#[trigger] r@[m])@.id) == id_bytes(
                    (sorted[k1])@.id,
                );
            assert(id_bytes(r@[m0]@.id) == id_bytes((pages_flat(orig)[k])@.id));
        }
        assert(drawn_from(r@, pages_flat(orig)));
        assert(covers(r@, pages_flat(orig)));
    }
    r
}

} // verus!
