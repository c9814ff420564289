//! The status index: queryable metadata over every stored status — identity,
//! creation time, author, engagement counters, tag associations and refresh
//! stamp — with the query semantics the read path and the refresh scheduler
//! rely on.
//!
//! Inserting is an idempotent upsert: re-inserting a status replaces its row,
//! its whole tag set and its refresh stamp, and never duplicates anything.

use vstd::prelude::*;

verus! {

use crate::casing::{lower_of, lowercase};
use crate::rank::{key_in, ranked_distinct, ranked_has, ranked_idx, ranked_models, select_ids,
    selection_ok, top_ranked, Ranked, RankedModel};
use crate::record::{clone_strings, models_of, StatusModel, StatusRecord};
use vstd::pervasive::VecAdditionalExecFns;

/// Mathematical model of one index row.
pub ghost struct EntryModel {
    pub id: Seq<char>,
    pub created_at: int,
    pub account_id: Seq<char>,
    pub account_acct: Seq<char>,
    pub replies_count: int,
    pub reblogs_count: int,
    pub favourites_count: int,
    pub tags: Seq<Seq<char>>,
    pub refreshed_at: Option<int>,
}

impl EntryModel {
    /// The engagement proxy "popular" queries rank by.
    pub open spec fn engagement(self) -> int {
        self.replies_count + self.reblogs_count + self.favourites_count
    }
}

/// One index row.  A missing refresh stamp means "never refreshed".
pub struct IndexEntry {
    pub id: String,
    pub created_at: i64,
    pub account_id: String,
    pub account_acct: String,
    pub replies_count: u32,
    pub reblogs_count: u32,
    pub favourites_count: u32,
    pub tags: Vec<String>,
    pub refreshed_at: Option<i64>,
}

impl View for IndexEntry {
    type V = EntryModel;

    open spec fn view(&self) -> EntryModel {
        EntryModel {
            id: self.id@,
            created_at: self.created_at as int,
            account_id: self.account_id@,
            account_acct: self.account_acct@,
            replies_count: self.replies_count as int,
            reblogs_count: self.reblogs_count as int,
            favourites_count: self.favourites_count as int,
            tags: self.tags.deep_view(),
            refreshed_at: match self.refreshed_at {
                Some(t) => Some(t as int),
                None => None,
            },
        }
    }
}

impl DeepView for IndexEntry {
    type V = EntryModel;

    open spec fn deep_view(&self) -> EntryModel {
        self.view()
    }
}

/// The row an inserted status makes, stamped as refreshed at `now`.
pub open spec fn entry_of(s: StatusModel, now: int) -> EntryModel {
    EntryModel {
        id: s.id,
        created_at: s.created_at,
        account_id: s.account_id,
        account_acct: s.account_acct,
        replies_count: s.replies_count,
        reblogs_count: s.reblogs_count,
        favourites_count: s.favourites_count,
        tags: s.tags,
        refreshed_at: Some(now),
    }
}

/// Whether a row with this ID exists.
pub open spec fn has_entry(entries: Seq<EntryModel>, id: Seq<char>) -> bool {
    exists|k: int| 0 <= k < entries.len() && (#[trigger] entries[k]).id == id
}

/// The position of the row with this ID; meaningful under `entries_wf`
/// where `has_entry` holds.
pub open spec fn idx_of(entries: Seq<EntryModel>, id: Seq<char>) -> int {
    choose|k: int| 0 <= k < entries.len() && (#[trigger] entries[k]).id == id
}

/// The row with this ID.
pub open spec fn entry_for(entries: Seq<EntryModel>, id: Seq<char>) -> EntryModel {
    entries[idx_of(entries, id)]
}

/// One row per status ID.
pub open spec fn entries_wf(entries: Seq<EntryModel>) -> bool {
    forall|i: int, j: int|
        0 <= i < j < entries.len() ==> (#[trigger] entries[i]).id != (#[trigger] entries[j]).id
}

/// One upsert: replace the row carrying this status's ID, or append one.
pub open spec fn upsert_one(
    entries: Seq<EntryModel>,
    s: StatusModel,
    now: int,
) -> Seq<EntryModel> {
    if has_entry(entries, s.id) {
        entries.update(idx_of(entries, s.id), entry_of(s, now))
    } else {
        entries.push(entry_of(s, now))
    }
}

/// A whole batch upserted in order.
pub open spec fn upsert_all(
    entries: Seq<EntryModel>,
    batch: Seq<StatusModel>,
    now: int,
) -> Seq<EntryModel>
    decreases batch.len(),
{
    if batch.len() == 0 {
        entries
    } else {
        upsert_one(upsert_all(entries, batch.drop_last(), now), batch.last(), now)
    }
}

/// An upsert keeps one row per ID.
pub proof fn lemma_upsert_one_wf(entries: Seq<EntryModel>, s: StatusModel, now: int)
    requires
        entries_wf(entries),
    ensures
        entries_wf(upsert_one(entries, s, now)),
        has_entry(upsert_one(entries, s, now), s.id),
        entry_for(upsert_one(entries, s, now), s.id) == entry_of(s, now),
        forall|id: Seq<char>| id != s.id ==> (has_entry(upsert_one(entries, s, now), id)
            <==> has_entry(entries, id)),
        forall|id: Seq<char>| id != s.id && has_entry(entries, id) ==> entry_for(
            upsert_one(entries, s, now),
            id,
        ) == entry_for(entries, id),
{
    let u = upsert_one(entries, s, now);
    if has_entry(entries, s.id) {
        let k = idx_of(entries, s.id);
        assert(0 <= k < entries.len() && entries[k].id == s.id);
        assert forall|i: int, j: int| 0 <= i < j < u.len() implies (#[trigger] u[i]).id
            != (#[trigger] u[j]).id by {
            assert(entries[i].id != entries[j].id);
        }
        assert(u[k].id == s.id);
        assert(idx_of(u, s.id) == k) by {
            let k2 = idx_of(u, s.id);
            assert(u[k].id == s.id);
            assert(0 <= k2 < u.len() && u[k2].id == s.id);
            if k2 != k {
                assert(u[k2].id == entries[k2].id);
                assert(entries[k2].id != entries[k].id);
            }
        }
        assert forall|id: Seq<char>| id != s.id && has_entry(entries, id) implies entry_for(
            u,
            id,
        ) == entry_for(entries, id) by {
            let p = idx_of(entries, id);
            assert(0 <= p < entries.len() && entries[p].id == id);
            assert(p != k);
            assert(u[p] == entries[p]);
            let p2 = idx_of(u, id);
            assert(0 <= p2 < u.len() && u[p2].id == id);
            if p2 != p {
                if p2 == k {
                    assert(u[k].id == s.id);
                } else {
                    assert(u[p2] == entries[p2]);
                    assert(entries_wf(entries) && entries[p2].id == entries[p].id);
                }
            }
        }
        assert forall|id: Seq<char>| id != s.id implies (has_entry(u, id) <==> has_entry(
            entries,
            id,
        )) by {
            if has_entry(u, id) {
                let p2 = idx_of(u, id);
                assert(0 <= p2 < u.len() && u[p2].id == id);
                assert(p2 != k);
                assert(entries[p2].id == id);
            }
            if has_entry(entries, id) {
                let p = idx_of(entries, id);
                assert(0 <= p < entries.len() && entries[p].id == id);
                assert(p != k);
                assert(u[p].id == id);
            }
        }
    } else {
        let n = entries.len() as int;
        assert(u[n].id == s.id);
        assert forall|i: int, j: int| 0 <= i < j < u.len() implies (#[trigger] u[i]).id
            != (#[trigger] u[j]).id by {
            if j < n {
                assert(entries[i].id != entries[j].id);
            } else {
                assert(u[i] == entries[i]);
                assert(!has_entry(entries, s.id));
                if u[i].id == s.id {
                    assert(entries[i].id == s.id);
                }
            }
        }
        assert(idx_of(u, s.id) == n) by {
            let k2 = idx_of(u, s.id);
            assert(0 <= k2 < u.len() && u[k2].id == s.id);
            if k2 != n {
                assert(entries[k2].id == s.id);
            }
        }
        assert forall|id: Seq<char>| id != s.id && has_entry(entries, id) implies entry_for(
            u,
            id,
        ) == entry_for(entries, id) by {
            let p = idx_of(entries, id);
            assert(0 <= p < entries.len() && entries[p].id == id);
            assert(u[p].id == id);
            let p2 = idx_of(u, id);
            assert(0 <= p2 < u.len() && u[p2].id == id);
            if p2 != p {
                if p2 == n {
                    assert(u[n].id == s.id);
                } else {
                    assert(entries[p2].id == entries[p].id);
                }
            }
        }
        assert forall|id: Seq<char>| id != s.id implies (has_entry(u, id) <==> has_entry(
            entries,
            id,
        )) by {
            if has_entry(u, id) {
                let p2 = idx_of(u, id);
                assert(0 <= p2 < u.len() && u[p2].id == id);
                if p2 == n {
                    assert(u[n].id == s.id);
                }
                assert(entries[p2].id == id);
            }
            if has_entry(entries, id) {
                let p = idx_of(entries, id);
                assert(u[p].id == id);
            }
        }
    }
}

/// Law (idempotent upsert): inserting the same status twice leaves the index
/// exactly as inserting it once at the later time would — one row for its ID,
/// the tag associations and refresh stamp wholly replaced, nothing
/// duplicated.
pub proof fn lemma_upsert_idempotent(
    entries: Seq<EntryModel>,
    s: StatusModel,
    t1: int,
    t2: int,
)
    requires
        entries_wf(entries),
    ensures
        upsert_one(upsert_one(entries, s, t1), s, t2) == upsert_one(entries, s, t2),
{
    let e1 = upsert_one(entries, s, t1);
    lemma_upsert_one_wf(entries, s, t1);
    lemma_upsert_one_wf(e1, s, t2);
    if has_entry(entries, s.id) {
        let k = idx_of(entries, s.id);
        assert(0 <= k < entries.len() && entries[k].id == s.id);
        assert(e1 == entries.update(k, entry_of(s, t1)));
        assert(e1[k].id == s.id);
        assert(idx_of(e1, s.id) == k) by {
            let k2 = idx_of(e1, s.id);
            assert(0 <= k2 < e1.len() && e1[k2].id == s.id);
            if k2 != k {
                assert(e1[k2] == entries[k2]);
                assert(entries[k2].id != entries[k].id);
            }
        }
        assert(upsert_one(e1, s, t2) =~= entries.update(k, entry_of(s, t2)));
    } else {
        let n = entries.len() as int;
        assert(e1 == entries.push(entry_of(s, t1)));
        assert(idx_of(e1, s.id) == n) by {
            let k2 = idx_of(e1, s.id);
            assert(0 <= k2 < e1.len() && e1[k2].id == s.id);
            if k2 != n {
                assert(entries[k2].id == s.id);
            }
        }
        assert(has_entry(e1, s.id));
        assert(upsert_one(e1, s, t2) =~= entries.push(entry_of(s, t2)));
    }
}

/// The in-memory status index.  `entries` is exposed so that callers and
/// tests can inspect it; every operation keeps `wf` — one row per ID.
pub struct StatusIndex {
    pub entries: Vec<IndexEntry>,
}

impl StatusIndex {
    pub open spec fn wf(&self) -> bool {
        entries_wf(self.entries.deep_view())
    }

    /// The models of the rows.
    pub open spec fn rows(&self) -> Seq<EntryModel> {
        self.entries.deep_view()
    }

    /// An empty index.
    pub fn new() -> (r: Self)
        ensures
            r.wf(),
            r.rows().len() == 0,
    {
        StatusIndex { entries: Vec::new() }
    }

    /// Where the row carrying `id` sits, if anywhere.
    fn find_by_id(entries: &Vec<IndexEntry>, id: &String) -> (r: Option<usize>)
        ensures
            match r {
                Some(k) => 0 <= k < entries.deep_view().len() && entries.deep_view()[k as int].id
                    == id@,
                None => !has_entry(entries.deep_view(), id@),
            },
    {
        let mut k: usize = 0;
        while k < entries.len()
            invariant
                0 <= k <= entries.deep_view().len(),
                entries.deep_view().len() == entries@.len(),
                forall|j: int| 0 <= j < k ==> (#[trigger] entries.deep_view()[j]).id != id@,
            decreases entries@.len() - k,
        {
            if entries[k].id == *id {
                proof {
                    assert(entries.deep_view()[k as int].id == id@);
                }
                return Some(k);
            }
            k += 1;
        }
        None
    }

    /// Upserts a batch: one transaction's worth of fetched statuses, each
    /// replacing its prior row, tag set and refresh stamp, stamped `now`.
    pub fn insert_statuses(&mut self, statuses: &Vec<StatusRecord>, now: i64)
        requires
            old(self).wf(),
        ensures
            final(self).wf(),
            final(self).rows() == upsert_all(
                old(self).rows(),
                models_of(statuses@),
                now as int,
            ),
    {
        let ghost orig = self.rows();
        let ghost batch = models_of(statuses@);
        let mut i: usize = 0;
        while i < statuses.len()
            invariant
                0 <= i <= statuses@.len(),
                batch == models_of(statuses@),
                batch.len() == statuses@.len(),
                entries_wf(self.rows()),
                self.rows() == upsert_all(orig, batch.take(i as int), now as int),
            decreases statuses@.len() - i,
        {
            let ghost pre = self.rows();
            let s = &statuses[i];
            let e = IndexEntry {
                id: s.id.clone(),
                created_at: s.created_at,
                account_id: s.account_id.clone(),
                account_acct: s.account_acct.clone(),
                replies_count: s.replies_count,
                reblogs_count: s.reblogs_count,
                favourites_count: s.favourites_count,
                tags: clone_strings(&s.tags),
                refreshed_at: Some(now),
            };
            proof {
                assert(e@ == entry_of(batch[i as int], now as int));
            }
            match Self::find_by_id(&self.entries, &s.id) {
                Some(k) => {
                    self.entries.set(k, e);
                    proof {
                        lemma_upsert_one_wf(pre, batch[i as int], now as int);
                        assert(has_entry(pre, batch[i as int].id)) by {
                            assert(pre[k as int].id == batch[i as int].id);
                        }
                        assert(idx_of(pre, batch[i as int].id) == k as int) by {
                            let k2 = idx_of(pre, batch[i as int].id);
                            assert(0 <= k2 < pre.len() && pre[k2].id == batch[i as int].id);
                            if k2 != k as int {
                                assert(pre[k2].id != pre[k as int].id);
                            }
                        }
                        assert(self.rows() =~= upsert_one(pre, batch[i as int], now as int));
                    }
                },
                None => {
                    self.entries.push(e);
                    proof {
                        lemma_upsert_one_wf(pre, batch[i as int], now as int);
                        assert(self.rows() =~= upsert_one(pre, batch[i as int], now as int));
                    }
                },
            }
            proof {
                assert(batch.take(i + 1).drop_last() =~= batch.take(i as int));
                assert(batch.take(i + 1).last() == batch[i as int]);
                assert(upsert_all(orig, batch.take(i + 1), now as int) == upsert_one(
                    upsert_all(orig, batch.take(i as int), now as int),
                    batch[i as int],
                    now as int,
                ));
            }
            i += 1;
        }
        proof {
            assert(batch.take(batch.len() as int) =~= batch);
        }
    }
}

/// Two tag lists share a tag, compared case-insensitively.
pub open spec fn tag_matches(tags: Seq<Seq<char>>, q: Seq<Seq<char>>) -> bool {
    exists|i: int, j: int|
        0 <= i < tags.len() && 0 <= j < q.len() && lower_of(#[trigger] tags[i]) == lower_of(
            #[trigger] q[j],
        )
}

/// A row matches an optional hashtag filter (no filter matches everything).
pub open spec fn entry_matches(e: EntryModel, q: Option<Seq<Seq<char>>>) -> bool {
    match q {
        None => true,
        Some(qs) => tag_matches(e.tags, qs),
    }
}

/// The view of an optional hashtag filter.
pub open spec fn opt_q(hashtags: Option<&Vec<String>>) -> Option<Seq<Seq<char>>> {
    match hashtags {
        Some(v) => Some(v.deep_view()),
        None => None,
    }
}

/// The rows passing `pred`, as ranked items keyed by `keyf`.
pub open spec fn matched(
    entries: Seq<EntryModel>,
    pred: spec_fn(EntryModel) -> bool,
    keyf: spec_fn(EntryModel) -> RankedModel,
) -> Seq<RankedModel> {
    entries.filter(pred).map_values(keyf)
}

/// Matching an optional hashtag filter.
pub open spec fn search_pred(q: Option<Seq<Seq<char>>>) -> spec_fn(EntryModel) -> bool {
    |e: EntryModel| entry_matches(e, q)
}

/// Matching an optional hashtag filter and created at `since` or later.
pub open spec fn popular_pred(
    q: Option<Seq<Seq<char>>>,
    since: int,
) -> spec_fn(EntryModel) -> bool {
    |e: EntryModel| entry_matches(e, q) && e.created_at >= since
}

/// Stale: created within `[since, fresh_since)` and not refreshed since
/// `fresh_since` — a missing refresh stamp counts as never refreshed.
pub open spec fn stale_pred(since: int, fresh_since: int) -> spec_fn(EntryModel) -> bool {
    |e: EntryModel| e.created_at >= since && e.created_at < fresh_since && (match e.refreshed_at {
        None => true,
        Some(t) => t < fresh_since,
    })
}

/// Ranked by creation time.
pub open spec fn recency_key() -> spec_fn(EntryModel) -> RankedModel {
    |e: EntryModel| RankedModel { id: e.id, key: e.created_at }
}

/// Ranked by the engagement proxy.
pub open spec fn engagement_key() -> spec_fn(EntryModel) -> RankedModel {
    |e: EntryModel| RankedModel { id: e.id, key: e.engagement() }
}

/// A kept row is one of the rows.
proof fn lemma_filter_elem_from(
    entries: Seq<EntryModel>,
    pred: spec_fn(EntryModel) -> bool,
    p: int,
)
    requires
        0 <= p < entries.filter(pred).len(),
    ensures
        entries.contains(entries.filter(pred)[p]),
    decreases entries.len(),
{
    reveal(Seq::filter);
    let f = entries.filter(pred);
    if entries.len() > 0 {
        let ep = entries.drop_last();
        if pred(entries.last()) && p == f.len() - 1 {
            assert(f[p] == entries.last());
            assert(entries[entries.len() - 1] == entries.last());
        } else {
            assert(f[p] == ep.filter(pred)[p]);
            lemma_filter_elem_from(ep, pred, p);
            let k = choose|k: int| 0 <= k < ep.len() && ep[k] == ep.filter(pred)[p];
            assert(entries[k] == ep[k]);
        }
    }
}

/// Filtering keeps one row per ID.
proof fn lemma_filter_wf(entries: Seq<EntryModel>, pred: spec_fn(EntryModel) -> bool)
    requires
        entries_wf(entries),
    ensures
        entries_wf(entries.filter(pred)),
    decreases entries.len(),
{
    reveal(Seq::filter);
    if entries.len() > 0 {
        let ep = entries.drop_last();
        assert(entries_wf(ep)) by {
            assert forall|i: int, j: int| 0 <= i < j < ep.len() implies (#[trigger] ep[i]).id
                != (#[trigger] ep[j]).id by {
                assert(ep[i] == entries[i] && ep[j] == entries[j]);
            }
        }
        lemma_filter_wf(ep, pred);
        let fp = ep.filter(pred);
        if pred(entries.last()) {
            let f = entries.filter(pred);
            assert(f == fp.push(entries.last()));
            assert forall|p: int, q: int| 0 <= p < q < f.len() implies (#[trigger] f[p]).id
                != (#[trigger] f[q]).id by {
                if q < fp.len() {
                    assert(f[p] == fp[p] && f[q] == fp[q]);
                } else {
                    assert(f[p] == fp[p]);
                    lemma_filter_elem_from(ep, pred, p);
                    assert(ep.contains(fp[p]));
                    let k = choose|k: int| 0 <= k < ep.len() && ep[k] == fp[p];
                    assert(ep[k] == fp[p]);
                    assert(ep[k] == entries[k]);
                    assert(f[q] == entries.last());
                    assert(entries.last() == entries[entries.len() - 1]);
                    assert(entries[k].id != entries[entries.len() - 1].id);
                }
            }
        }
    }
}

/// The ranked items drawn from a well-formed index carry distinct IDs.
proof fn lemma_matched_distinct(
    entries: Seq<EntryModel>,
    pred: spec_fn(EntryModel) -> bool,
    keyf: spec_fn(EntryModel) -> RankedModel,
)
    requires
        entries_wf(entries),
        forall|e: EntryModel| (#[trigger] keyf(e)).id == e.id,
    ensures
        ranked_distinct(matched(entries, pred, keyf)),
{
    lemma_filter_wf(entries, pred);
    let f = entries.filter(pred);
    let m = matched(entries, pred, keyf);
    assert forall|p: int, q: int| 0 <= p < q < m.len() implies (#[trigger] m[p]).id != (
    #[trigger] m[q]).id by {
        assert(m[p] == keyf(f[p]) && m[q] == keyf(f[q]));
    }
}

/// One step of filtering a growing prefix.
proof fn lemma_filter_take_step(
    entries: Seq<EntryModel>,
    pred: spec_fn(EntryModel) -> bool,
    i: int,
)
    requires
        0 <= i < entries.len(),
    ensures
        entries.take(i + 1).filter(pred) == if pred(entries[i]) {
            entries.take(i).filter(pred).push(entries[i])
        } else {
            entries.take(i).filter(pred)
        },
{
    reveal(Seq::filter);
    assert(entries.take(i + 1).drop_last() =~= entries.take(i));
    assert(entries.take(i + 1).last() == entries[i]);
}

/// Lowercases every hashtag of a query.
fn lower_all(q: &Vec<String>) -> (r: Vec<String>)
    ensures
        r@.len() == q@.len(),
        forall|j: int| 0 <= j < r@.len() ==> (#[trigger] r@[j])@ == lower_of(q@[j]@),
{
    let mut r: Vec<String> = Vec::new();
    let mut j: usize = 0;
    while j < q.len()
        invariant
            0 <= j <= q@.len(),
            r@.len() == j,
            forall|k: int| 0 <= k < j ==> (#[trigger] r@[k])@ == lower_of(q@[k]@),
        decreases q@.len() - j,
    {
        r.push(lowercase(q[j].as_str()));
        j += 1;
    }
    r
}

/// Whether a row's tags share a tag with the (pre-lowercased) query.
fn tags_match(tags: &Vec<String>, q_lower: &Vec<String>, Ghost(q): Ghost<Seq<Seq<char>>>) -> (r:
    bool)
    requires
        q_lower@.len() == q.len(),
        forall|j: int| 0 <= j < q.len() ==> (#[trigger] q_lower@[j])@ == lower_of(q[j]),
    ensures
        r == tag_matches(tags.deep_view(), q),
{
    let ghost tv = tags.deep_view();
    let mut i: usize = 0;
    while i < tags.len()
        invariant
            0 <= i <= tags@.len(),
            tv == tags.deep_view(),
            tv.len() == tags@.len(),
            q_lower@.len() == q.len(),
            forall|j: int| 0 <= j < q.len() ==> (#[trigger] q_lower@[j])@ == lower_of(q[j]),
            forall|a: int, b: int|
                0 <= a < i && 0 <= b < q.len() ==> lower_of(#[trigger] tv[a]) != lower_of(
                    #[trigger] q[b],
                ),
        decreases tags@.len() - i,
    {
        let lt = lowercase(tags[i].as_str());
        let mut j: usize = 0;
        while j < q_lower.len()
            invariant
                0 <= j <= q.len(),
                i < tv.len(),
                tv == tags.deep_view(),
                lt@ == lower_of(tv[i as int]),
                q_lower@.len() == q.len(),
                forall|b: int| 0 <= b < q.len() ==> (#[trigger] q_lower@[b])@ == lower_of(q[b]),
                forall|b: int| 0 <= b < j ==> lower_of(tv[i as int]) != lower_of(#[trigger] q[b]),
            decreases q.len() - j,
        {
            if lt == q_lower[j] {
                proof {
                    assert(lower_of(tv[i as int]) == lower_of(q[j as int]));
                }
                return true;
            }
            j += 1;
        }
        i += 1;
    }
    false
}

impl StatusIndex {
    /// IDs of the statuses matching the optional hashtag filter, most
    /// recently created first, at most `limit` of them — the limit applied
    /// here, not by the caller.
    pub fn search_statuses(&self, hashtags: Option<&Vec<String>>, limit: u16) -> (r: Vec<String>)
        requires
            self.wf(),
        ensures
            selection_ok(
                matched(self.rows(), search_pred(opt_q(hashtags)), recency_key()),
                limit as int,
                r@,
            ),
    {
        let ghost e_rows = self.rows();
        let ghost q = opt_q(hashtags);
        let lowered: Option<Vec<String>> = match hashtags {
            Some(hs) => Some(lower_all(hs)),
            None => None,
        };
        let mut items: Vec<Ranked> = Vec::new();
        let mut i: usize = 0;
        while i < self.entries.len()
            invariant
                0 <= i <= self.entries@.len(),
                e_rows == self.rows(),
                e_rows.len() == self.entries@.len(),
                q == opt_q(hashtags),
                match (hashtags, &lowered) {
                    (Some(hs), Some(lq)) => lq@.len() == hs.deep_view().len() && forall|j: int|
                        0 <= j < lq@.len() ==> (#[trigger] lq@[j])@ == lower_of(
                            hs.deep_view()[j],
                        ),
                    (None, None) => true,
                    _ => false,
                },
                ranked_models(items@) == matched(
                    e_rows.take(i as int),
                    search_pred(q),
                    recency_key(),
                ),
            decreases self.entries@.len() - i,
        {
            let ghost pre = ranked_models(items@);
            let keep = match &lowered {
                None => true,
                Some(lq) => tags_match(&self.entries[i].tags, lq, Ghost(q.unwrap())),
            };
            proof {
                assert(keep == search_pred(q)(e_rows[i as int]));
                lemma_filter_take_step(e_rows, search_pred(q), i as int);
            }
            if keep {
                let e = &self.entries[i];
                items.push(Ranked { id: e.id.clone(), key: e.created_at });
                proof {
                    assert(items@[items@.len() - 1]@ == recency_key()(e_rows[i as int]));
                    assert(ranked_models(items@) =~= pre.push(recency_key()(e_rows[i as int])));
                    assert(e_rows.take(i as int).filter(search_pred(q)).push(
                        e_rows[i as int],
                    ).map_values(recency_key()) =~= pre.push(recency_key()(e_rows[i as int])));
                }
            }
            i += 1;
        }
        proof {
            assert(e_rows.take(e_rows.len() as int) =~= e_rows);
            lemma_matched_distinct(e_rows, search_pred(q), recency_key());
        }
        select_ids(items, limit as usize)
    }

    /// IDs of the stale statuses: created within `[since, fresh_since)` and
    /// not refreshed at `fresh_since` or later (never refreshed counts as
    /// stale), most recently created first, at most `limit` of them.
    pub fn list_stale_statuses(&self, since: i64, fresh_since: i64, limit: u16) -> (r: Vec<
        String,
    >)
        requires
            self.wf(),
        ensures
            selection_ok(
                matched(
                    self.rows(),
                    stale_pred(since as int, fresh_since as int),
                    recency_key(),
                ),
                limit as int,
                r@,
            ),
    {
        let ghost e_rows = self.rows();
        let ghost pred = stale_pred(since as int, fresh_since as int);
        let mut items: Vec<Ranked> = Vec::new();
        let mut i: usize = 0;
        while i < self.entries.len()
            invariant
                0 <= i <= self.entries@.len(),
                e_rows == self.rows(),
                e_rows.len() == self.entries@.len(),
                pred == stale_pred(since as int, fresh_since as int),
                ranked_models(items@) == matched(e_rows.take(i as int), pred, recency_key()),
            decreases self.entries@.len() - i,
        {
            let ghost pre = ranked_models(items@);
            let e = &self.entries[i];
            let fresh = match e.refreshed_at {
                None => false,
                Some(t) => t >= fresh_since,
            };
            let keep = e.created_at >= since && e.created_at < fresh_since && !fresh;
            proof {
                assert(keep == pred(e_rows[i as int]));
                lemma_filter_take_step(e_rows, pred, i as int);
            }
            if keep {
                items.push(Ranked { id: e.id.clone(), key: e.created_at });
                proof {
                    assert(items@[items@.len() - 1]@ == recency_key()(e_rows[i as int]));
                    assert(ranked_models(items@) =~= pre.push(recency_key()(e_rows[i as int])));
                    assert(e_rows.take(i as int).filter(pred).push(e_rows[i as int]).map_values(
                        recency_key(),
                    ) =~= pre.push(recency_key()(e_rows[i as int])));
                }
            }
            i += 1;
        }
        proof {
            assert(e_rows.take(e_rows.len() as int) =~= e_rows);
            lemma_matched_distinct(e_rows, pred, recency_key());
        }
        select_ids(items, limit as usize)
    }

    /// IDs of the statuses matching the optional hashtag filter and created
    /// at `since` or later, ranked by the engagement proxy (replies, boosts
    /// and favourites summed), at most `limit` of them.
    pub fn popular_statuses(
        &self,
        hashtags: Option<&Vec<String>>,
        since: i64,
        limit: u16,
    ) -> (r: Vec<String>)
        requires
            self.wf(),
        ensures
            selection_ok(
                matched(
                    self.rows(),
                    popular_pred(opt_q(hashtags), since as int),
                    engagement_key(),
                ),
                limit as int,
                r@,
            ),
    {
        let ghost e_rows = self.rows();
        let ghost q = opt_q(hashtags);
        let ghost pred = popular_pred(q, since as int);
        let lowered: Option<Vec<String>> = match hashtags {
            Some(hs) => Some(lower_all(hs)),
            None => None,
        };
        let mut items: Vec<Ranked> = Vec::new();
        let mut i: usize = 0;
        while i < self.entries.len()
            invariant
                0 <= i <= self.entries@.len(),
                e_rows == self.rows(),
                e_rows.len() == self.entries@.len(),
                q == opt_q(hashtags),
                pred == popular_pred(q, since as int),
                match (hashtags, &lowered) {
                    (Some(hs), Some(lq)) => lq@.len() == hs.deep_view().len() && forall|j: int|
                        0 <= j < lq@.len() ==> (#[trigger] lq@[j])@ == lower_of(
                            hs.deep_view()[j],
                        ),
                    (None, None) => true,
                    _ => false,
                },
                ranked_models(items@) == matched(e_rows.take(i as int), pred, engagement_key()),
            decreases self.entries@.len() - i,
        {
            let ghost pre = ranked_models(items@);
            let e = &self.entries[i];
            let tag_ok = match &lowered {
                None => true,
                Some(lq) => tags_match(&e.tags, lq, Ghost(q.unwrap())),
            };
            let keep = tag_ok && e.created_at >= since;
            proof {
                assert(keep == pred(e_rows[i as int]));
                lemma_filter_take_step(e_rows, pred, i as int);
            }
            if keep {
                let key = e.replies_count as i64 + e.reblogs_count as i64
                    + e.favourites_count as i64;
                items.push(Ranked { id: e.id.clone(), key });
                proof {
                    assert(items@[items@.len() - 1]@ == engagement_key()(e_rows[i as int]));
                    assert(ranked_models(items@) =~= pre.push(
                        engagement_key()(e_rows[i as int]),
                    ));
                    assert(e_rows.take(i as int).filter(pred).push(e_rows[i as int]).map_values(
                        engagement_key(),
                    ) =~= pre.push(engagement_key()(e_rows[i as int])));
                }
            }
            i += 1;
        }
        proof {
            assert(e_rows.take(e_rows.len() as int) =~= e_rows);
            lemma_matched_distinct(e_rows, pred, engagement_key());
        }
        select_ids(items, limit as usize)
    }
}

/// How often `name` occurs in a tag list.
pub open spec fn count_in_tags(tags: Seq<Seq<char>>, name: Seq<char>) -> nat
    decreases tags.len(),
{
    if tags.len() == 0 {
        0
    } else {
        count_in_tags(tags.drop_last(), name) + (if tags.last() == name {
            1nat
        } else {
            0nat
        })
    }
}

/// How often `name` is attached to a status created at `since` or later.
pub open spec fn tag_count(entries: Seq<EntryModel>, since: int, name: Seq<char>) -> nat
    decreases entries.len(),
{
    if entries.len() == 0 {
        0
    } else {
        tag_count(entries.drop_last(), since, name) + (if entries.last().created_at >= since {
            count_in_tags(entries.last().tags, name)
        } else {
            0nat
        })
    }
}

/// A count held to what a `u32` can carry.
pub open spec fn capped(n: nat) -> int {
    if n > u32::MAX as nat {
        u32::MAX as int
    } else {
        n as int
    }
}

/// Counts seen so far, one item per tag name, key = capped count.
spec fn counts_ok(acc: Seq<RankedModel>, entries: Seq<EntryModel>, since: int, i: int, j: int)
    -> bool {
    &&& forall|name: Seq<char>| ranked_has(acc, name) <==> partial_count(
        entries,
        since,
        i,
        j,
        name,
    ) > 0
    &&& forall|m: int| 0 <= m < acc.len() ==> (#[trigger] acc[m]).key == capped(
        partial_count(entries, since, i, j, acc[m].id),
    )
}

/// `tag_count` over the first `i` rows plus the first `j` tags of row `i`.
pub open spec fn partial_count(
    entries: Seq<EntryModel>,
    since: int,
    i: int,
    j: int,
    name: Seq<char>,
) -> nat {
    tag_count(entries.take(i), since, name) + (if 0 <= i < entries.len()
        && entries[i].created_at >= since {
        count_in_tags(entries[i].tags.take(j), name)
    } else {
        0nat
    })
}

proof fn lemma_tag_count_step(entries: Seq<EntryModel>, since: int, i: int, name: Seq<char>)
    requires
        0 <= i < entries.len(),
    ensures
        tag_count(entries.take(i + 1), since, name) == tag_count(entries.take(i), since, name)
            + (if entries[i].created_at >= since {
            count_in_tags(entries[i].tags, name)
        } else {
            0nat
        }),
{
    assert(entries.take(i + 1).drop_last() =~= entries.take(i));
    assert(entries.take(i + 1).last() == entries[i]);
}

proof fn lemma_count_tags_step(tags: Seq<Seq<char>>, j: int, name: Seq<char>)
    requires
        0 <= j < tags.len(),
    ensures
        count_in_tags(tags.take(j + 1), name) == count_in_tags(tags.take(j), name) + (if tags[j]
            == name {
            1nat
        } else {
            0nat
        }),
{
    assert(tags.take(j + 1).drop_last() =~= tags.take(j));
    assert(tags.take(j + 1).last() == tags[j]);
}

/// Raises the count of `name` by one, saturating at what a `u32` carries.
fn bump_tag(acc: &mut Vec<Ranked>, name: &String)
    requires
        ranked_distinct(ranked_models(old(acc)@)),
        forall|m: int| 0 <= m < old(acc)@.len() ==> 0 <= (#[trigger] old(acc)@[m])@.key
            <= u32::MAX,
    ensures
        ranked_distinct(ranked_models(final(acc)@)),
        forall|m: int| 0 <= m < final(acc)@.len() ==> 0 <= (#[trigger] final(acc)@[m])@.key
            <= u32::MAX,
        ranked_has(ranked_models(final(acc)@), name@),
        forall|id: Seq<char>| id != name@ ==> (ranked_has(ranked_models(final(acc)@), id)
            <==> ranked_has(ranked_models(old(acc)@), id)),
        forall|id: Seq<char>| id != name@ && ranked_has(ranked_models(old(acc)@), id)
            ==> key_in(ranked_models(final(acc)@), id) == key_in(
            ranked_models(old(acc)@),
            id,
        ),
        key_in(ranked_models(final(acc)@), name@) == if ranked_has(
            ranked_models(old(acc)@),
            name@,
        ) {
            if key_in(ranked_models(old(acc)@), name@) + 1 > u32::MAX as int {
                u32::MAX as int
            } else {
                key_in(ranked_models(old(acc)@), name@) + 1
            }
        } else {
            1int
        },
{
    let ghost pre = ranked_models(acc@);
    let mut k: usize = 0;
    while k < acc.len()
        invariant
            0 <= k <= acc@.len(),
            acc@ == old(acc)@,
            pre == ranked_models(acc@),
            pre.len() == acc@.len(),
            ranked_distinct(pre),
            forall|m: int| 0 <= m < pre.len() ==> 0 <= (#[trigger] pre[m]).key <= u32::MAX,
            forall|m: int| 0 <= m < k ==> (#[trigger] pre[m]).id != name@,
        decreases acc@.len() - k,
    {
        if acc[k].id == *name {
            proof {
                assert(pre[k as int].id == name@);
            }
            let old_key = acc[k].key;
            let new_key: i64 = if old_key < u32::MAX as i64 {
                old_key + 1
            } else {
                old_key
            };
            let id2 = acc[k].id.clone();
            acc.set(k, Ranked { id: id2, key: new_key });
            proof {
                let post = ranked_models(acc@);
                assert(post =~= pre.update(k as int, RankedModel { id: name@, key: new_key as int }));
                assert forall|m: int| 0 <= m < acc@.len() implies 0 <= (#[trigger] acc@[m])@.key
                    <= u32::MAX by {
                    assert(post[m] == acc@[m]@);
                    if m != k as int {
                        assert(post[m] == pre[m]);
                    }
                }
                assert forall|p: int, q: int| 0 <= p < q < post.len() implies
                    (#[trigger] post[p]).id != (#[trigger] post[q]).id by {
                    assert(post[p].id == pre[p].id && post[q].id == pre[q].id);
                    assert(pre[p].id != pre[q].id);
                }
                assert(ranked_idx(pre, name@) == k as int) by {
                    let k2 = ranked_idx(pre, name@);
                    assert(pre[k as int].id == name@);
                    assert(0 <= k2 < pre.len() && pre[k2].id == name@);
                    if k2 != k as int {
                        assert(pre[k2].id != pre[k as int].id);
                    }
                }
                assert(ranked_idx(post, name@) == k as int) by {
                    let k2 = ranked_idx(post, name@);
                    assert(post[k as int].id == name@);
                    assert(0 <= k2 < post.len() && post[k2].id == name@);
                    if k2 != k as int {
                        assert(pre[k2].id != pre[k as int].id);
                    }
                }
                assert forall|id: Seq<char>| id != name@ && ranked_has(pre, id) implies key_in(
                    post,
                    id,
                ) == key_in(pre, id) by {
                    let p = ranked_idx(pre, id);
                    assert(0 <= p < pre.len() && pre[p].id == id);
                    assert(p != k as int);
                    assert(post[p] == pre[p]);
                    let p2 = ranked_idx(post, id);
                    assert(0 <= p2 < post.len() && post[p2].id == id);
                    if p2 != p {
                        if p2 == k as int {
                            assert(post[k as int].id == name@);
                        } else {
                            assert(post[p2] == pre[p2]);
                            assert(pre[p2].id == pre[p].id);
                        }
                    }
                }
                assert forall|id: Seq<char>| id != name@ implies (ranked_has(post, id)
                    <==> ranked_has(pre, id)) by {
                    if ranked_has(post, id) {
                        let p2 = ranked_idx(post, id);
                        assert(0 <= p2 < post.len() && post[p2].id == id);
                        assert(p2 != k as int);
                        assert(pre[p2].id == id);
                    }
                    if ranked_has(pre, id) {
                        let p = ranked_idx(pre, id);
                        assert(0 <= p < pre.len() && pre[p].id == id);
                        assert(p != k as int);
                        assert(post[p].id == id);
                    }
                }
            }
            return;
        }
        k += 1;
    }
    acc.push(Ranked { id: name.clone(), key: 1 });
    proof {
        let post = ranked_models(acc@);
        let n = pre.len() as int;
        assert(post =~= pre.push(RankedModel { id: name@, key: 1 }));
        assert(!ranked_has(pre, name@)) by {
            if ranked_has(pre, name@) {
                let p = ranked_idx(pre, name@);
                assert(0 <= p < pre.len() && pre[p].id == name@);
            }
        }
        assert(post[n].id == name@);
        assert forall|p: int, q: int| 0 <= p < q < post.len() implies (#[trigger] post[p]).id
            != (#[trigger] post[q]).id by {
            if q < n {
                assert(post[p].id == pre[p].id && post[q].id == pre[q].id);
            } else {
                assert(post[p] == pre[p]);
                if post[p].id == name@ {
                    assert(ranked_has(pre, name@));
                }
            }
        }
        assert(ranked_idx(post, name@) == n) by {
            let k2 = ranked_idx(post, name@);
            assert(0 <= k2 < post.len() && post[k2].id == name@);
            if k2 != n {
                assert(pre[k2].id == name@);
                assert(ranked_has(pre, name@));
            }
        }
        assert forall|id: Seq<char>| id != name@ && ranked_has(pre, id) implies key_in(
            post,
            id,
        ) == key_in(pre, id) by {
            let p = ranked_idx(pre, id);
            assert(0 <= p < pre.len() && pre[p].id == id);
            assert(post[p] == pre[p]);
            let p2 = ranked_idx(post, id);
            assert(0 <= p2 < post.len() && post[p2].id == id);
            if p2 != p {
                if p2 == n {
                    assert(post[n].id == name@);
                } else {
                    assert(pre[p2].id == pre[p].id);
                }
            }
        }
        assert forall|id: Seq<char>| id != name@ implies (ranked_has(post, id) <==> ranked_has(
            pre,
            id,
        )) by {
            if ranked_has(post, id) {
                let p2 = ranked_idx(post, id);
                assert(0 <= p2 < post.len() && post[p2].id == id);
                if p2 == n {
                    assert(post[n].id == name@);
                }
                assert(pre[p2].id == id);
            }
            if ranked_has(pre, id) {
                let p = ranked_idx(pre, id);
                assert(post[p].id == id);
            }
        }
    }
}

/// Whether some pair of `r` names `name`.
pub open spec fn pair_has(r: Seq<(String, u32)>, name: Seq<char>) -> bool {
    exists|m: int| 0 <= m < r.len() && (#[trigger] r[m]).0@ == name
}

/// What a tag listing promises of rows `rows`, window start `since` and
/// `limit`: distinct names, each with its exact (capped) count of uses on
/// statuses created at `since` or later, most-used first, at most `limit`
/// pairs, and a used name is left out only when the listing is full and
/// every kept count is at least its own.
pub open spec fn tag_listing_ok(
    rows: Seq<EntryModel>,
    since: int,
    limit: int,
    r: Seq<(String, u32)>,
) -> bool {
    &&& forall|p: int, q: int| 0 <= p < q < r.len() ==> (#[trigger] r[p]).0@ != (
    #[trigger] r[q]).0@
    &&& forall|m: int| 0 <= m < r.len() ==> tag_count(rows, since, (#[trigger] r[m]).0@) > 0
        && r[m].1 as int == capped(tag_count(rows, since, r[m].0@))
    &&& forall|p: int, q: int|
        #![trigger r[p], r[q]]
        0 <= p < q < r.len() ==> r[p].1 >= r[q].1
    &&& r.len() <= limit
    &&& forall|name: Seq<char>|
        tag_count(rows, since, name) > 0 && !pair_has(r, name) ==> r.len() == limit && (r.len()
            > 0 ==> capped(tag_count(rows, since, name)) <= r[r.len() - 1].1 as int)
}

impl StatusIndex {
    /// The hashtags attached to statuses created at `since` or later, with
    /// how many such statuses carry each, most-used first, at most `limit`
    /// of them.  Counts saturate at what a `u32` carries.
    #[verifier::rlimit(60)]
    pub fn popular_tags(&self, since: i64, limit: u16) -> (r: Vec<(String, u32)>)
        requires
            self.wf(),
        ensures
            tag_listing_ok(self.rows(), since as int, limit as int, r@),
    {
        let ghost e_rows = self.rows();
        let ghost s_int = since as int;
        let mut acc: Vec<Ranked> = Vec::new();
        let mut i: usize = 0;
        while i < self.entries.len()
            invariant
                0 <= i <= self.entries@.len(),
                e_rows == self.rows(),
                s_int == since as int,
                e_rows.len() == self.entries@.len(),
                entries_wf(e_rows),
                ranked_distinct(ranked_models(acc@)),
                forall|m: int| 0 <= m < acc@.len() ==> 0 <= (#[trigger] acc@[m])@.key
                    <= u32::MAX,
                forall|name: Seq<char>| ranked_has(ranked_models(acc@), name) <==> tag_count(
                    e_rows.take(i as int),
                    s_int,
                    name,
                ) > 0,
                forall|m: int| 0 <= m < acc@.len() ==> (#[trigger] acc@[m])@.key == capped(
                    tag_count(e_rows.take(i as int), s_int, acc@[m]@.id),
                ),
            decreases self.entries@.len() - i,
        {
            let e = &self.entries[i];
            let ghost row = e_rows[i as int];
            if e.created_at >= since {
                let ghost tv = row.tags;
                let mut j: usize = 0;
                while j < e.tags.len()
                    invariant
                        0 <= j <= e.tags@.len(),
                        0 <= i < e_rows.len(),
                        e == self.entries@[i as int],
                        row == e_rows[i as int],
                        row.created_at >= s_int,
                        tv == row.tags,
                        tv.len() == e.tags@.len(),
                        tv == e.tags.deep_view(),
                        ranked_distinct(ranked_models(acc@)),
                        forall|m: int| 0 <= m < acc@.len() ==> 0 <= (#[trigger] acc@[m])@.key
                            <= u32::MAX,
                        forall|name: Seq<char>| ranked_has(ranked_models(acc@), name)
                            <==> tag_count(e_rows.take(i as int), s_int, name) + count_in_tags(
                            tv.take(j as int),
                            name,
                        ) > 0,
                        forall|m: int| 0 <= m < acc@.len() ==> (#[trigger] acc@[m])@.key
                            == capped(
                            tag_count(e_rows.take(i as int), s_int, acc@[m]@.id)
                                + count_in_tags(tv.take(j as int), acc@[m]@.id),
                        ),
                    decreases e.tags@.len() - j,
                {
                    let ghost pre_acc = ranked_models(acc@);
                    let ghost bumped = tv[j as int];
                    proof {
                        assert forall|m2: int| 0 <= m2 < pre_acc.len() implies (
                        #[trigger] pre_acc[m2]).key == capped(
                            tag_count(e_rows.take(i as int), s_int, pre_acc[m2].id)
                                + count_in_tags(tv.take(j as int), pre_acc[m2].id),
                        ) by {
                            assert(pre_acc[m2] == acc@[m2]@);
                        }
                    }
                    bump_tag(&mut acc, &e.tags[j]);
                    proof {
                        let post_acc = ranked_models(acc@);
                        assert forall|name: Seq<char>|
                            true implies (count_in_tags(tv.take(j + 1), name) == count_in_tags(
                            tv.take(j as int),
                            name,
                        ) + (if tv[j as int] == name {
                            1nat
                        } else {
                            0nat
                        })) by {
                            lemma_count_tags_step(tv, j as int, name);
                        }
                        assert forall|name: Seq<char>| ranked_has(post_acc, name)
                            <==> tag_count(e_rows.take(i as int), s_int, name) + count_in_tags(
                            tv.take(j + 1),
                            name,
                        ) > 0 by {
                            if name == bumped {
                                assert(ranked_has(post_acc, name));
                            }
                        }
                        assert forall|m: int| 0 <= m < acc@.len() implies (
                        #[trigger] acc@[m])@.key == capped(
                            tag_count(e_rows.take(i as int), s_int, acc@[m]@.id)
                                + count_in_tags(tv.take(j + 1), acc@[m]@.id),
                        ) by {
                            let id = acc@[m]@.id;
                            assert(post_acc[m] == acc@[m]@);
                            assert(ranked_has(post_acc, id)) by {
                                assert(post_acc[m].id == id);
                            }
                            let old_count = tag_count(e_rows.take(i as int), s_int, id)
                                + count_in_tags(tv.take(j as int), id);
                            if id == bumped {
                                assert(key_in(post_acc, id) == post_acc[
                                    crate::rank::ranked_idx(post_acc, id)
                                ].key);
                                assert(crate::rank::ranked_idx(post_acc, id) == m) by {
                                    let k2 = crate::rank::ranked_idx(post_acc, id);
                                    assert(post_acc[m].id == id);
                                    assert(0 <= k2 < post_acc.len() && post_acc[k2].id == id);
                                    if k2 != m {
                                        assert(post_acc[k2].id != post_acc[m].id);
                                    }
                                }
                                if ranked_has(pre_acc, id) {
                                    let kp = crate::rank::ranked_idx(pre_acc, id);
                                    assert(0 <= kp < pre_acc.len() && pre_acc[kp].id == id);
                                    assert(pre_acc[kp].key == capped(old_count));
                                    assert(key_in(pre_acc, id) == capped(old_count));
                                } else {
                                    assert(old_count == 0) by {
                                        if old_count > 0 {
                                            assert(ranked_has(pre_acc, id));
                                        }
                                    }
                                }
                            } else {
                                if ranked_has(pre_acc, id) {
                                    let kp = crate::rank::ranked_idx(pre_acc, id);
                                    assert(0 <= kp < pre_acc.len() && pre_acc[kp].id == id);
                                    assert(key_in(pre_acc, id) == pre_acc[kp].key);
                                    assert(key_in(post_acc, id) == key_in(pre_acc, id));
                                    assert(crate::rank::ranked_idx(post_acc, id) == m) by {
                                        let k2 = crate::rank::ranked_idx(post_acc, id);
                                        assert(post_acc[m].id == id);
                                        if k2 != m {
                                            assert(post_acc[k2].id != post_acc[m].id);
                                        }
                                    }
                                    assert(acc@[m]@.key == key_in(post_acc, id));
                                } else {
                                    assert(!ranked_has(post_acc, id));
                                    assert(post_acc[m].id == id);
                                }
                            }
                        }
                    }
                    j += 1;
                }
                proof {
                    assert(tv.take(tv.len() as int) =~= tv);
                    assert forall|name: Seq<char>|
                        true implies tag_count(e_rows.take(i + 1), s_int, name) == tag_count(
                        e_rows.take(i as int),
                        s_int,
                        name,
                    ) + count_in_tags(tv, name) by {
                        lemma_tag_count_step(e_rows, s_int, i as int, name);
                    }
                }
            } else {
                proof {
                    assert forall|name: Seq<char>|
                        true implies tag_count(e_rows.take(i + 1), s_int, name) == tag_count(
                        e_rows.take(i as int),
                        s_int,
                        name,
                    ) by {
                        lemma_tag_count_step(e_rows, s_int, i as int, name);
                    }
                }
            }
            i += 1;
        }
        proof {
            assert(e_rows.take(e_rows.len() as int) =~= e_rows);
        }
        let ghost counts = ranked_models(acc@);
        let top = top_ranked(acc, limit as usize);
        let mut r: Vec<(String, u32)> = Vec::new();
        let mut m: usize = 0;
        while m < top.len()
            invariant
                0 <= m <= top@.len(),
                r@.len() == m,
                forall|k: int| 0 <= k < top@.len() ==> counts.contains((#[trigger] top@[k])@),
                forall|k: int| 0 <= k < counts.len() ==> 0 <= (#[trigger] counts[k]).key
                    <= u32::MAX,
                forall|k: int| 0 <= k < m ==> (#[trigger] r@[k]).0@ == top@[k]@.id && r@[k].1
                    as int == top@[k]@.key,
            decreases top@.len() - m,
        {
            proof {
                assert(counts.contains(top@[m as int]@));
                let kc = choose|k: int| 0 <= k < counts.len() && counts[k] == top@[m as int]@;
                assert(0 <= counts[kc].key <= u32::MAX);
            }
            r.push((top[m].id.clone(), top[m].key as u32));
            m += 1;
        }
        proof {
            assert forall|k: int| 0 <= k < r@.len() implies tag_count(
                e_rows,
                s_int,
                (#[trigger] r@[k]).0@,
            ) > 0 && r@[k].1 as int == capped(tag_count(e_rows, s_int, r@[k].0@)) by {
                assert(counts.contains(top@[k]@));
                let kc = choose|j: int| 0 <= j < counts.len() && counts[j] == top@[k]@;
                assert(counts[kc].key == capped(tag_count(e_rows, s_int, counts[kc].id)));
                assert(ranked_has(counts, counts[kc].id)) by {
                    assert(counts[kc].id == counts[kc].id);
                }
                assert(tag_count(e_rows, s_int, counts[kc].id) > 0);
            }
            assert forall|p: int, q: int| 0 <= p < q < r@.len() implies (#[trigger] r@[p]).0@
                != (#[trigger] r@[q]).0@ by {
                assert(ranked_models(top@)[p] == top@[p]@);
                assert(ranked_models(top@)[q] == top@[q]@);
            }
            assert forall|name: Seq<char>|
                tag_count(e_rows, s_int, name) > 0 && !pair_has(r@, name) implies r@.len()
                == limit && (r@.len() > 0 ==> capped(tag_count(e_rows, s_int, name)) <= r@[
                r@.len() - 1].1 as int) by {
                assert(ranked_has(counts, name));
                let kn = crate::rank::ranked_idx(counts, name);
                assert(0 <= kn < counts.len() && counts[kn].id == name);
                assert(counts[kn].key == capped(tag_count(e_rows, s_int, name)));
                assert(!ranked_has(ranked_models(top@), name)) by {
                    if ranked_has(ranked_models(top@), name) {
                        let jt = choose|j: int|
                            0 <= j < ranked_models(top@).len() && (#[trigger] ranked_models(
                                top@,
                            )[j]).id == name;
                        assert(ranked_models(top@)[jt] == top@[jt]@);
                        assert(r@[jt].0@ == name);
                    }
                }
            }
        }
        r
    }
}

} // verus!
