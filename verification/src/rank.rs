//! Ranked selection: picking the top entries by a numeric key, as every
//! index query does — by recency, by engagement, or by tag count.

use vstd::prelude::*;

verus! {

/// Mathematical model of one ranked item.
pub ghost struct RankedModel {
    pub id: Seq<char>,
    pub key: int,
}

/// An item to rank: an ID and the key it is ranked by.
pub struct Ranked {
    pub id: String,
    pub key: i64,
}

impl View for Ranked {
    type V = RankedModel;

    open spec fn view(&self) -> RankedModel {
        RankedModel { id: self.id@, key: self.key as int }
    }
}

impl DeepView for Ranked {
    type V = RankedModel;

    open spec fn deep_view(&self) -> RankedModel {
        self.view()
    }
}

/// The models of a list of ranked items.
pub open spec fn ranked_models(s: Seq<Ranked>) -> Seq<RankedModel> {
    s.map_values(|r: Ranked| r@)
}

/// No two items carry the same ID.
pub open spec fn ranked_distinct(s: Seq<RankedModel>) -> bool {
    forall|i: int, j: int| 0 <= i < j < s.len() ==> (#[trigger] s[i]).id != (#[trigger] s[j]).id
}

/// Whether some item of `s` carries the ID `id`.
pub open spec fn ranked_has(s: Seq<RankedModel>, id: Seq<char>) -> bool {
    exists|k: int| 0 <= k < s.len() && (#[trigger] s[k]).id == id
}

/// The position of the item of `s` carrying `id`; meaningful where
/// `ranked_has` holds and the IDs of `s` are distinct.
pub open spec fn ranked_idx(s: Seq<RankedModel>, id: Seq<char>) -> int {
    choose|k: int| 0 <= k < s.len() && (#[trigger] s[k]).id == id
}

/// The key of the item of `s` carrying `id`; meaningful where `ranked_has`
/// holds and the IDs of `s` are distinct.
pub open spec fn key_in(s: Seq<RankedModel>, id: Seq<char>) -> int {
    s[ranked_idx(s, id)].key
}

/// Whether some element of `ids` is the string `id`.
pub open spec fn contains_str(ids: Seq<String>, id: Seq<char>) -> bool {
    exists|m: int| 0 <= m < ids.len() && (#[trigger] ids[m])@ == id
}

pub proof fn lemma_key_in(s: Seq<RankedModel>, k: int)
    requires
        ranked_distinct(s),
        0 <= k < s.len(),
    ensures
        ranked_has(s, s[k].id),
        key_in(s, s[k].id) == s[k].key,
{
    let k0 = choose|j: int| 0 <= j < s.len() && (#[trigger] s[j]).id == s[k].id;
    assert(k0 == k);
}

/// Sorts ranked items by key, greatest first.
fn sort_ranked_desc(v: &mut Vec<Ranked>)
    ensures
        final(v)@.to_multiset() == old(v)@.to_multiset(),
        final(v)@.len() == old(v)@.len(),
        forall|p: int, q: int| 0 <= p < q < final(v)@.len() ==> (#[trigger] final(v)@[p])@.key
            >= (#[trigger] final(v)@[q])@.key,
{
    broadcast use vstd::seq_lib::group_to_multiset_ensures;

    if v.len() < 2 {
        return;
    }
    let ghost orig = v@;
    let mut i: usize = 1;
    while i < v.len()
        invariant
            1 <= i <= v@.len(),
            v@.len() == orig.len(),
            v@.len() >= 2,
            v@.to_multiset() == orig.to_multiset(),
            forall|p: int, q: int| 0 <= p < q < i ==> (#[trigger] v@[p])@.key
                >= (#[trigger] v@[q])@.key,
        decreases v@.len() - i,
    {
        let ghost pre = v@;
        let x = v.remove(i);
        let ghost w = v@;
        let mut j: usize = i;
        while j > 0 && v[j - 1].key < x.key
            invariant
                0 <= j <= i,
                i < pre.len(),
                v@ == w,
                w == pre.remove(i as int),
                forall|k: int| j <= k < i ==> (#[trigger] w[k])@.key < x@.key,
            decreases j,
        {
            j -= 1;
        }
        v.insert(j, x);
        proof {
            let u = v@;
            w.insert_ensures(j as int, x);
            vstd::seq_lib::to_multiset_remove(pre, i as int);
            vstd::seq_lib::to_multiset_insert(w, j as int, x);
            pre.to_multiset_ensures();
            assert(pre.contains(x));
            assert(u.to_multiset() =~= pre.to_multiset());
            assert forall|p: int, q: int| 0 <= p < q < i + 1 implies (#[trigger] u[p])@.key
                >= (#[trigger] u[q])@.key by {
                let ji = j as int;
                if q < ji {
                    assert(u[p] == pre[p] && u[q] == pre[q]);
                } else if p < ji && q == ji {
                    assert(u[p] == pre[p]);
                    assert(w[ji - 1] == pre[ji - 1]);
                } else if p < ji && q > ji {
                    assert(u[p] == pre[p] && u[q] == w[q - 1] && w[q - 1] == pre[q - 1]);
                } else if p == ji {
                    assert(u[q] == w[q - 1]);
                } else {
                    assert(u[p] == w[p - 1] && u[q] == w[q - 1]);
                    assert(w[p - 1] == pre[p - 1] && w[q - 1] == pre[q - 1]);
                }
            }
        }
        i += 1;
    }
}

/// Two lists holding the same items have distinct IDs together.
proof fn lemma_distinct_ids_permutation(a: Seq<Ranked>, b: Seq<Ranked>)
    requires
        a.to_multiset() == b.to_multiset(),
        ranked_distinct(ranked_models(a)),
    ensures
        ranked_distinct(ranked_models(b)),
{
    a.to_multiset_ensures();
    b.to_multiset_ensures();
    assert(a.no_duplicates()) by {
        assert forall|i: int, j: int| 0 <= i < j < a.len() implies a[i] != a[j] by {
            assert(ranked_models(a)[i].id != ranked_models(a)[j].id);
        }
    }
    a.lemma_multiset_has_no_duplicates();
    b.lemma_multiset_has_no_duplicates_conv();
    assert forall|p: int, q: int| 0 <= p < q < b.len() implies
        (#[trigger] ranked_models(b)[p]).id != (#[trigger] ranked_models(b)[q]).id by {
        if b[p] == b[q] {
            let bs = b;
            assert(!bs.no_duplicates());
        } else if b[p]@.id == b[q]@.id {
            assert(b.contains(b[p]));
            assert(b.to_multiset().count(b[p]) > 0);
            assert(a.to_multiset().count(b[p]) > 0);
            assert(a.contains(b[p]));
            assert(b.contains(b[q]));
            assert(b.to_multiset().count(b[q]) > 0);
            assert(a.to_multiset().count(b[q]) > 0);
            assert(a.contains(b[q]));
            let i1 = choose|i: int| 0 <= i < a.len() && a[i] == b[p];
            let i2 = choose|i: int| 0 <= i < a.len() && a[i] == b[q];
            assert(ranked_models(a)[i1].id == ranked_models(a)[i2].id);
        }
    }
}

/// Picks the `limit` greatest-keyed items, greatest first.
///
/// Every returned item is one of the given items; none is repeated; they
/// come sorted by key descending; and an item left out only ever loses to a
/// full result whose last (least) kept key is at least its own.
pub fn top_ranked(items: Vec<Ranked>, limit: usize) -> (r: Vec<Ranked>)
    requires
        ranked_distinct(ranked_models(items@)),
    ensures
        r@.len() == if limit as int <= items@.len() {
            limit as int
        } else {
            items@.len() as int
        },
        ranked_distinct(ranked_models(r@)),
        forall|m: int| 0 <= m < r@.len() ==> ranked_models(items@).contains(
            (#[trigger] r@[m])@,
        ),
        forall|p: int, q: int| 0 <= p < q < r@.len() ==> (#[trigger] r@[p])@.key
            >= (#[trigger] r@[q])@.key,
        forall|k: int| 0 <= k < items@.len() && !ranked_has(
            ranked_models(r@),
            (#[trigger] items@[k])@.id,
        ) ==> r@.len() == limit && (r@.len() > 0 ==> items@[k]@.key <= r@[r@.len() - 1]@.key),
{
    broadcast use vstd::seq_lib::group_to_multiset_ensures;

    let ghost orig = items@;
    let mut items = items;
    sort_ranked_desc(&mut items);
    let ghost sorted = items@;
    proof {
        assert forall|k: int| 0 <= k < sorted.len() implies ranked_models(orig).contains(
            (#[trigger] sorted[k])@,
        ) by {
            orig.to_multiset_ensures();
            sorted.to_multiset_ensures();
            assert(sorted.contains(sorted[k]));
            assert(sorted.to_multiset().count(sorted[k]) > 0);
            assert(orig.to_multiset().count(sorted[k]) > 0);
            assert(orig.contains(sorted[k]));
            let k1 = choose|j: int| 0 <= j < orig.len() && orig[j] == sorted[k];
            assert(ranked_models(orig)[k1] == sorted[k]@);
        }
        lemma_distinct_ids_permutation(orig, sorted);
    }
    if limit < items.len() {
        items.truncate(limit);
        proof {
            assert(items@ == sorted.take(limit as int));
            assert forall|p: int, q: int| 0 <= p < q < items@.len() implies
                (#[trigger] ranked_models(items@)[p]).id != (#[trigger] ranked_models(
                items@,
            )[q]).id by {
                assert(items@[p] == sorted[p] && items@[q] == sorted[q]);
                assert(ranked_models(items@)[p] == items@[p]@);
                assert(ranked_models(items@)[q] == items@[q]@);
                assert(ranked_models(sorted)[p] == sorted[p]@);
                assert(ranked_models(sorted)[q] == sorted[q]@);
            }
            assert forall|k: int|
                0 <= k < orig.len() && !ranked_has(
                    ranked_models(items@),
                    (#[trigger] orig[k])@.id,
                ) && items@.len() > 0 implies orig[k]@.key <= items@[items@.len() - 1]@.key by {
                orig.to_multiset_ensures();
                sorted.to_multiset_ensures();
                assert(orig.contains(orig[k]));
                assert(orig.to_multiset().count(orig[k]) > 0);
                assert(sorted.to_multiset().count(orig[k]) > 0);
                assert(sorted.contains(orig[k]));
                let s_k = choose|j: int| 0 <= j < sorted.len() && sorted[j] == orig[k];
                if s_k < limit {
                    assert(ranked_models(items@)[s_k] == orig[k]@);
                    assert(ranked_has(ranked_models(items@), orig[k]@.id));
                } else {
                    assert(sorted[s_k]@.key <= sorted[limit - 1]@.key);
                    assert(items@[limit - 1] == sorted[limit - 1]);
                }
            }
        }
        return items;
    }
    proof {
        assert forall|k: int|
            0 <= k < orig.len() implies ranked_has(
            ranked_models(items@),
            (#[trigger] orig[k])@.id,
        ) by {
            orig.to_multiset_ensures();
            sorted.to_multiset_ensures();
            assert(orig.contains(orig[k]));
            assert(orig.to_multiset().count(orig[k]) > 0);
            assert(sorted.to_multiset().count(orig[k]) > 0);
            assert(sorted.contains(orig[k]));
            let s_k = choose|j: int| 0 <= j < sorted.len() && sorted[j] == orig[k];
            assert(ranked_models(items@)[s_k] == orig[k]@);
        }
    }
    items
}

/// What a ranked selection promises: `r` holds `limit` of `m`'s IDs (all of
/// them, if `m` is smaller), distinct, ordered by their keys descending; an
/// ID of `m` is left out only when `r` is full and every kept key is at
/// least its own.
pub open spec fn selection_ok(m: Seq<RankedModel>, limit: int, r: Seq<String>) -> bool {
    &&& r.len() == (if limit <= m.len() {
        limit
    } else {
        m.len() as int
    })
    &&& forall|p: int, q: int| 0 <= p < q < r.len() ==> (#[trigger] r[p])@ != (#[trigger] r[q])@
    &&& forall|i: int| 0 <= i < r.len() ==> ranked_has(m, (#[trigger] r[i])@)
    &&& forall|p: int, q: int|
        #![trigger r[p], r[q]]
        0 <= p < q < r.len() ==> key_in(m, r[p]@) >= key_in(m, r[q]@)
    &&& forall|k: int|
        0 <= k < m.len() && !contains_str(r, (#[trigger] m[k]).id) ==> r.len() == limit && (
        r.len() > 0 ==> m[k].key <= key_in(m, r[r.len() - 1]@))
}

/// Picks the IDs of the `limit` greatest-keyed items, greatest first.
pub fn select_ids(items: Vec<Ranked>, limit: usize) -> (r: Vec<String>)
    requires
        ranked_distinct(ranked_models(items@)),
    ensures
        selection_ok(ranked_models(items@), limit as int, r@),
{
    let ghost m_in = ranked_models(items@);
    let tr = top_ranked(items, limit);
    let mut r: Vec<String> = Vec::new();
    let mut m: usize = 0;
    while m < tr.len()
        invariant
            0 <= m <= tr@.len(),
            r@.len() == m,
            forall|k: int| 0 <= k < m ==> (#[trigger] r@[k])@ == tr@[k]@.id,
        decreases tr@.len() - m,
    {
        r.push(tr[m].id.clone());
        m += 1;
    }
    proof {
        assert forall|p: int, q: int| 0 <= p < q < r@.len() implies (#[trigger] r@[p])@ != (
        #[trigger] r@[q])@ by {
            assert(ranked_models(tr@)[p] == tr@[p]@);
            assert(ranked_models(tr@)[q] == tr@[q]@);
        }
        assert forall|p: int| 0 <= p < r@.len() implies ranked_has(m_in, (#[trigger] r@[p])@)
            && key_in(m_in, r@[p]@) == tr@[p]@.key by {
            assert(m_in.contains(tr@[p]@));
            let kp = choose|k: int| 0 <= k < m_in.len() && m_in[k] == tr@[p]@;
            lemma_key_in(m_in, kp);
        }
        assert forall|k: int|
            0 <= k < m_in.len() && !contains_str(r@, (#[trigger] m_in[k]).id) implies r@.len()
            == limit && (r@.len() > 0 ==> m_in[k].key <= key_in(m_in, r@[r@.len() - 1]@)) by {
            assert(!ranked_has(ranked_models(tr@), m_in[k].id)) by {
                if ranked_has(ranked_models(tr@), m_in[k].id) {
                    let j = choose|j: int|
                        0 <= j < ranked_models(tr@).len() && (#[trigger] ranked_models(
                            tr@,
                        )[j]).id == m_in[k].id;
                    assert(ranked_models(tr@)[j] == tr@[j]@);
                    assert(r@[j]@ == m_in[k].id);
                }
            }
        }
    }
    r
}

} // verus!
