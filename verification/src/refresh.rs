//! The refresh scheduler's decisions: tiers evaluated in ascending max-age
//! order, the time window each tier asks the index about, the rate-limit
//! chunking of re-fetches, and the wake cadence of the refresh worker.

use vstd::prelude::*;

verus! {

use crate::settings::StatusRefreshSettings;

/// Sorted so that younger, more time-sensitive tiers come first.
pub open spec fn tiers_sorted(s: Seq<StatusRefreshSettings>) -> bool {
    forall|i: int, j: int|
        0 <= i < j < s.len() ==> (#[trigger] s[i]).max_age.secs <= (#[trigger] s[j]).max_age.secs
}

/// Orders the tiers by max age ascending.
pub fn sort_tiers(tiers: Vec<StatusRefreshSettings>) -> (r: Vec<StatusRefreshSettings>)
    ensures
        r@.to_multiset() == tiers@.to_multiset(),
        r@.len() == tiers@.len(),
        tiers_sorted(r@),
{
    broadcast use vstd::seq_lib::group_to_multiset_ensures;

    let mut v = tiers;
    if v.len() < 2 {
        return v;
    }
    let ghost orig = v@;
    let mut i: usize = 1;
    while i < v.len()
        invariant
            1 <= i <= v@.len(),
            v@.len() == orig.len(),
            v@.len() >= 2,
            v@.to_multiset() == orig.to_multiset(),
            tiers_sorted(v@.subrange(0, i as int)),
        decreases v@.len() - i,
    {
        let ghost pre = v@;
        let x = v.remove(i);
        let ghost w = v@;
        let mut j: usize = i;
        while j > 0 && v[j - 1].max_age.secs > x.max_age.secs
            invariant
                0 <= j <= i,
                i < pre.len(),
                v@ == w,
                w == pre.remove(i as int),
                forall|k: int| j <= k < i ==> (#[trigger] w[k]).max_age.secs > x.max_age.secs,
            decreases j,
        {
            j -= 1;
        }
        v.insert(j, x);
        proof {
            let u = v@;
            w.insert_ensures(j as int, x);
            vstd::seq_lib::to_multiset_remove(pre, i as int);
            vstd::seq_lib::to_multiset_insert(w, j as int, x);
            pre.to_multiset_ensures();
            assert(pre.contains(x));
            assert(u.to_multiset() =~= pre.to_multiset());
            assert forall|p: int, q: int| 0 <= p < q < i + 1 implies (#[trigger] u[p]).max_age.secs
                <= (#[trigger] u[q]).max_age.secs by {
                let ji = j as int;
                if q < ji {
                    assert(u[p] == pre[p] && u[q] == pre[q]);
                } else if p < ji && q == ji {
                    assert(u[p] == pre[p]);
                    assert(w[ji - 1] == pre[ji - 1]);
                } else if p < ji && q > ji {
                    assert(u[p] == pre[p] && u[q] == w[q - 1] && w[q - 1] == pre[q - 1]);
                } else if p == ji {
                    assert(u[q] == w[q - 1]);
                } else {
                    assert(u[p] == w[p - 1] && u[q] == w[q - 1]);
                    assert(w[p - 1] == pre[p - 1] && w[q - 1] == pre[q - 1]);
                }
            }
        }
        i += 1;
    }
    proof {
        assert(v@.subrange(0, v@.len() as int) =~= v@);
    }
    v
}

/// The tightest configured frequency: the refresh worker's wake cadence.
/// `None` exactly when no tier is configured — the worker then never runs.
pub fn min_frequency(tiers: &Vec<StatusRefreshSettings>) -> (r: Option<u64>)
    ensures
        (r is None) <==> tiers@.len() == 0,
        r matches Some(f) ==> (exists|k: int|
            0 <= k < tiers@.len() && (#[trigger] tiers@[k]).frequency.secs == f) && forall|k: int|
            0 <= k < tiers@.len() ==> f <= (#[trigger] tiers@[k]).frequency.secs,
{
    if tiers.len() == 0 {
        return None;
    }
    let mut best: u64 = tiers[0].frequency.secs;
    let mut i: usize = 1;
    while i < tiers.len()
        invariant
            1 <= i <= tiers@.len(),
            exists|k: int| 0 <= k < i && (#[trigger] tiers@[k]).frequency.secs == best,
            forall|k: int| 0 <= k < i ==> best <= (#[trigger] tiers@[k]).frequency.secs,
        decreases tiers@.len() - i,
    {
        if tiers[i].frequency.secs < best {
            best = tiers[i].frequency.secs;
        }
        i += 1;
    }
    Some(best)
}

/// The window a tier asks the index about at time `now`: `since` reaches
/// `max_age` back, `fresh_since` reaches `frequency` back, each clamped at
/// the representable minimum rather than wrapping.
pub fn refresh_window(now: i64, tier: &StatusRefreshSettings) -> (r: (i64, i64))
    ensures
        r.0 as int == (if now - tier.max_age.secs < i64::MIN {
            i64::MIN as int
        } else {
            now - tier.max_age.secs
        }),
        r.1 as int == (if now - tier.frequency.secs < i64::MIN {
            i64::MIN as int
        } else {
            now - tier.frequency.secs
        }),
{
    (sub_clamped(now, tier.max_age.secs), sub_clamped(now, tier.frequency.secs))
}

/// `now - delta`, clamped at the representable minimum.
fn sub_clamped(now: i64, delta: u64) -> (r: i64)
    ensures
        r as int == (if now - delta < i64::MIN {
            i64::MIN as int
        } else {
            now - delta
        }),
{
    if delta > u64::MAX / 2 {
        // farther back than any representable time
        if now < 0 {
            return i64::MIN;
        }
        let d2 = delta - now as u64;
        if d2 > i64::MAX as u64 {
            return i64::MIN;
        }
        return -(d2 as i64);
    }
    let d = delta as i64;
    if now >= i64::MIN + d {
        now - d
    } else {
        i64::MIN
    }
}

/// Splits the IDs to re-fetch into chunks of at most `size`, full chunks
/// first, keeping order: the batches sent against the remote rate limit.
pub fn chunk_ids(ids: Vec<String>, size: usize) -> (r: Vec<Vec<String>>)
    requires
        size > 0,
    ensures
        r@.map_values(|c: Vec<String>| c@).flatten() == ids@,
        forall|k: int| 0 <= k < r@.len() ==> (#[trigger] r@[k])@.len() <= size,
        forall|k: int| 0 <= k < r@.len() - 1 ==> (#[trigger] r@[k])@.len() == size,
{
    let mut r: Vec<Vec<String>> = Vec::new();
    let mut cur: Vec<String> = Vec::new();
    let mut ids = ids;
    let ghost orig = ids@;
    let n0 = ids.len();
    proof {
        assert(orig.len() == n0);
    }
    let mut i: usize = 0;
    while ids.len() > 0
        invariant
            orig.len() - ids@.len() == i,
            0 <= i <= orig.len(),
            orig.len() <= usize::MAX,
            ids@ == orig.skip(i as int),
            r@.map_values(|c: Vec<String>| c@).flatten() + cur@ == orig.take(i as int),
            cur@.len() < size,
            forall|k: int| 0 <= k < r@.len() ==> (#[trigger] r@[k])@.len() == size,
        decreases ids@.len(),
    {
        let ghost flat_pre = r@.map_values(|c: Vec<String>| c@).flatten();
        let x = ids.remove(0);
        proof {
            assert(ids@ =~= orig.skip(i + 1));
            assert(x == orig[i as int]);
        }
        cur.push(x);
        proof {
            assert(orig.take(i + 1) =~= orig.take(i as int).push(orig[i as int]));
            assert(flat_pre + cur@ =~= orig.take(i + 1));
        }
        if cur.len() == size {
            let ghost rpre = r@;
            let ghost curv = cur@;
            let full = cur;
            cur = Vec::new();
            r.push(full);
            proof {
                let m_pre = rpre.map_values(|c: Vec<String>| c@);
                let m_post = r@.map_values(|c: Vec<String>| c@);
                assert(m_post =~= m_pre.push(curv));
                crate::pagination::lemma_flatten_push(m_pre, curv);
                assert(m_post.flatten() + cur@ =~= flat_pre + curv);
            }
        }
        i += 1;
    }
    if cur.len() > 0 {
        let ghost rpre = r@;
        let ghost curv = cur@;
        r.push(cur);
        proof {
            let m_pre = rpre.map_values(|c: Vec<String>| c@);
            let m_post = r@.map_values(|c: Vec<String>| c@);
            assert(m_post =~= m_pre.push(curv));
            crate::pagination::lemma_flatten_push(m_pre, curv);
            assert(m_post.flatten() =~= m_pre.flatten() + curv);
            assert(orig.take(orig.len() as int) =~= orig);
            assert(m_post.flatten() == orig);
        }
    } else {
        proof {
            let m = r@.map_values(|c: Vec<String>| c@);
            assert(m.flatten() + cur@ =~= m.flatten());
            assert(orig.take(orig.len() as int) =~= orig);
        }
    }
    r
}

} // verus!
