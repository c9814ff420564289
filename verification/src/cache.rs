//! The timeline cache: the content store, status index, watermark store and
//! hashtag table behind one value — the state the background workers write
//! and the read path queries.

use vstd::prelude::*;

verus! {

use crate::content::{blobs_after, hydrated, ContentStore};
use crate::hashtags::HashtagTable;
use crate::index::{entries_wf, matched, opt_q, recency_key, search_pred, upsert_all,
    upsert_one, EntryModel, StatusIndex};
use crate::kvstore::{kv_set, kv_wf, lemma_kv_set_idempotent, KvModel};
use crate::merge::sorted_desc_by_id;
use crate::rank::selection_ok;
use crate::record::{models_of, StatusModel, StatusRecord};
use crate::watermark::WatermarkStore;

/// The whole cached state.
pub struct TimelineCache {
    pub content: ContentStore,
    pub index: StatusIndex,
    pub watermarks: WatermarkStore,
    pub hashtags: HashtagTable,
}

impl TimelineCache {
    pub open spec fn wf(&self) -> bool {
        self.content.wf() && self.index.wf() && self.watermarks.wf() && self.hashtags.wf()
    }

    /// An empty cache.
    pub fn new() -> (r: Self)
        ensures
            r.wf(),
            r.content.bindings().len() == 0,
            r.index.rows().len() == 0,
            r.watermarks.bindings().len() == 0,
            r.hashtags.rows().len() == 0,
    {
        TimelineCache {
            content: ContentStore::new(),
            index: StatusIndex::new(),
            watermarks: WatermarkStore::new(),
            hashtags: HashtagTable::new(),
        }
    }

    /// Persists a merged batch: every status's payload into the content
    /// store and its row, tag set and refresh stamp into the index, as one
    /// logical write.
    pub fn persist_statuses(&mut self, statuses: &Vec<StatusRecord>, now: i64)
        requires
            old(self).wf(),
        ensures
            final(self).wf(),
            final(self).content.bindings() == blobs_after(
                old(self).content.bindings(),
                models_of(statuses@),
            ),
            final(self).index.rows() == upsert_all(
                old(self).index.rows(),
                models_of(statuses@),
                now as int,
            ),
            final(self).watermarks == old(self).watermarks,
            final(self).hashtags == old(self).hashtags,
    {
        self.content.insert_statuses(statuses);
        self.index.insert_statuses(statuses, now);
    }

    /// The read path: the payloads of the statuses matching the optional
    /// hashtag filter, most recently created first, at most `limit` — and
    /// the IDs they were found under.  An indexed ID whose blob is missing
    /// degrades out of the payload list without failing the query.
    pub fn retrieve_statuses(&self, hashtags: Option<&Vec<String>>, limit: u16) -> (r: (
        Vec<String>,
        Vec<String>,
    ))
        requires
            self.wf(),
        ensures
            selection_ok(
                matched(self.index.rows(), search_pred(opt_q(hashtags)), recency_key()),
                limit as int,
                r.1@,
            ),
            r.0.deep_view() == hydrated(self.content.bindings(), r.1.deep_view()),
    {
        let ids = self.index.search_statuses(hashtags, limit);
        let payloads = self.content.hydrate(&ids);
        (payloads, ids)
    }
}

/// Law (idempotent persist): storing the same status twice leaves exactly
/// one content blob and one index row — the later write's payload, tag set
/// and refresh stamp — exactly as the later write alone would.
pub proof fn lemma_persist_idempotent(
    blobs: Seq<KvModel>,
    rows: Seq<EntryModel>,
    s: StatusModel,
    t1: int,
    t2: int,
)
    requires
        kv_wf(blobs),
        entries_wf(rows),
    ensures
        kv_set(kv_set(blobs, s.id, s.payload), s.id, s.payload) == kv_set(
            blobs,
            s.id,
            s.payload,
        ),
        upsert_one(upsert_one(rows, s, t1), s, t2) == upsert_one(rows, s, t2),
{
    lemma_kv_set_idempotent(blobs, s.id, s.payload, s.payload);
    crate::index::lemma_upsert_idempotent(rows, s, t1, t2);
}

} // verus!
