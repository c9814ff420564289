//! The storage and service interfaces: trait-based dispatch over store
//! implementations, with the in-memory reference implementations of this
//! crate behind them.  Each trait exposes the mathematical model of the
//! store it stands for, and its methods promise the same behavior the
//! concrete types prove — so a caller that only sees the trait still knows
//! exactly what a call does.

use vstd::prelude::*;

verus! {

use crate::clock::{now_secs, EPOCH_SECS_BOUND};
use crate::hashtags::{listing_ok, vote_cast, HashtagRowModel, HashtagTable};
use crate::index::{tag_listing_ok, upsert_all, EntryModel, StatusIndex};
use crate::kvstore::{kv_at, kv_has, kv_set, KvModel};
use crate::record::{models_of, StatusRecord};
use crate::watermark::WatermarkStore;

/// A storage failure: the connection pool, or the database itself.
#[derive(Clone, Copy, PartialEq, Eq, Structural, Debug)]
pub enum DbError {
    PoolError,
    SqlError,
}

/// Writes batches of statuses into the queryable index.  A batch is atomic:
/// it upserts whole — every status's row, tag set and refresh stamp
/// replaced, stamped `now` — or leaves the index untouched.
pub trait StatusesIndexer {
    spec fn inv(&self) -> bool;

    /// The indexed rows.
    spec fn index_model(&self) -> Seq<EntryModel>;

    fn insert_statuses(&mut self, statuses: &Vec<StatusRecord>, now: i64) -> (r: Result<
        (),
        DbError,
    >)
        requires
            old(self).inv(),
        ensures
            final(self).inv(),
            r is Ok ==> final(self).index_model() == upsert_all(
                old(self).index_model(),
                models_of(statuses@),
                now as int,
            ),
            r is Err ==> final(self).index_model() == old(self).index_model(),
    ;
}

/// Where a rolling window of `days` days ending at `now` starts.
pub open spec fn window_start(now: int, days: int) -> int {
    now - days * 86400
}

/// `tags` is a correct tag listing over a rolling window of `days` days
/// ending at some clock reading within chrono's representable range.
pub open spec fn rolling_tags_ok(
    rows: Seq<EntryModel>,
    days: int,
    limit: int,
    tags: Seq<(String, u32)>,
) -> bool {
    exists|now: int|
        {
            &&& -(EPOCH_SECS_BOUND as int) <= now <= EPOCH_SECS_BOUND as int
            &&& #[trigger] tag_listing_ok(rows, window_start(now, days), limit, tags)
        }
}

/// Counts how often each tag was used on recent statuses, over a rolling
/// window of the given number of days ending now.
pub trait StatusTagsCollection {
    spec fn inv(&self) -> bool;

    /// The rows the counts are drawn from.
    spec fn tags_model(&self) -> Seq<EntryModel>;

    fn popular_tags(&self, duration_days: &u16, limit: &u16) -> (r: Result<
        Vec<(String, u32)>,
        DbError,
    >)
        requires
            self.inv(),
        ensures
            r is Ok,
            r matches Ok(tags) ==> rolling_tags_ok(
                self.tags_model(),
                *duration_days as int,
                *limit as int,
                tags@,
            ),
    ;
}

/// Everything a storage backend offers the engine.
pub trait DataAccessLayer: StatusesIndexer + StatusTagsCollection {

}

/// The per-hashtag pagination watermark: one most-recent status ID per
/// hashtag, replaced on every write.
pub trait RecentStatusesService {
    spec fn inv(&self) -> bool;

    /// The hashtag-to-ID bindings.
    spec fn marks_model(&self) -> Seq<KvModel>;

    fn get_recent_status_id(&self, key: &String) -> (r: Option<String>)
        requires
            self.inv(),
        ensures
            match r {
                Some(v) => kv_has(self.marks_model(), key@) && v@ == kv_at(
                    self.marks_model(),
                    key@,
                ),
                None => !kv_has(self.marks_model(), key@),
            },
    ;

    fn set_recent_status_id(&mut self, key: &String, value: &String) -> (r: Option<String>)
        requires
            old(self).inv(),
        ensures
            final(self).inv(),
            final(self).marks_model() == kv_set(old(self).marks_model(), key@, value@),
            match r {
                Some(v) => kv_has(old(self).marks_model(), key@) && v@ == kv_at(
                    old(self).marks_model(),
                    key@,
                ),
                None => !kv_has(old(self).marks_model(), key@),
            },
    ;
}

/// The subscribed-hashtag list, and suggestions to it: listing returns the
/// approved names in order, a non-empty suggestion casts a vote, an empty
/// one changes nothing.
pub trait SubscribedHashtagsService {
    spec fn inv(&self) -> bool;

    /// The hashtag table rows.
    spec fn rows_model(&self) -> Seq<HashtagRowModel>;

    fn list_hashtags(&self) -> (r: Vec<String>)
        requires
            self.inv(),
        ensures
            listing_ok(self.rows_model(), r@),
    ;

    fn suggest_hashtag(&mut self, key: &String, now: i64)
        requires
            old(self).inv(),
        ensures
            final(self).inv(),
            key@.len() == 0 ==> final(self).rows_model() == old(self).rows_model(),
            key@.len() > 0 ==> final(self).rows_model() == vote_cast(
                old(self).rows_model(),
                key@,
                now as int,
            ),
    ;
}

/// The approved-subscription store the hashtag service sits on.  A
/// successful vote casts exactly one vote; a failed one changes nothing.
pub trait SubscribedHashtagRepository {
    spec fn inv(&self) -> bool;

    /// The hashtag table rows.
    spec fn rows_model(&self) -> Seq<HashtagRowModel>;

    fn increment_vote(&mut self, key: &String, now: i64) -> (r: Result<(), DbError>)
        requires
            old(self).inv(),
        ensures
            final(self).inv(),
            r is Ok ==> final(self).rows_model() == vote_cast(
                old(self).rows_model(),
                key@,
                now as int,
            ),
            r is Err ==> final(self).rows_model() == old(self).rows_model(),
    ;

    fn list(&self) -> (r: Result<Vec<String>, DbError>)
        requires
            self.inv(),
        ensures
            r matches Ok(names) ==> listing_ok(self.rows_model(), names@),
    ;
}

/// What the render layer asks about hashtags.  An empty suggestion succeeds
/// without touching anything; a non-empty one casts exactly one vote on the
/// repository, or propagates the repository's failure leaving it unchanged.
pub trait SubscribedHashtagService {
    spec fn inv(&self) -> bool;

    /// The rows of the repository behind the service.
    spec fn repo_model(&self) -> Seq<HashtagRowModel>;

    fn list_hashtags(&self) -> (r: Result<Vec<String>, DbError>)
        requires
            self.inv(),
        ensures
            r matches Ok(names) ==> listing_ok(self.repo_model(), names@),
    ;

    fn suggest_hashtag(&mut self, key: &String, now: i64) -> (r: Result<(), DbError>)
        requires
            old(self).inv(),
        ensures
            final(self).inv(),
            key@.len() == 0 ==> r is Ok && final(self).repo_model() == old(self).repo_model(),
            key@.len() > 0 && r is Ok ==> final(self).repo_model() == vote_cast(
                old(self).repo_model(),
                key@,
                now as int,
            ),
            key@.len() > 0 && r is Err ==> final(self).repo_model() == old(self).repo_model(),
    ;
}

impl StatusesIndexer for StatusIndex {
    open spec fn inv(&self) -> bool {
        self.wf()
    }

    open spec fn index_model(&self) -> Seq<EntryModel> {
        self.rows()
    }

    fn insert_statuses(&mut self, statuses: &Vec<StatusRecord>, now: i64) -> (r: Result<
        (),
        DbError,
    >) {
        StatusIndex::insert_statuses(self, statuses, now);
        Ok(())
    }
}

impl StatusTagsCollection for StatusIndex {
    open spec fn inv(&self) -> bool {
        self.wf()
    }

    open spec fn tags_model(&self) -> Seq<EntryModel> {
        self.rows()
    }

    /// Reads the clock, then counts within the rolling day window.
    fn popular_tags(&self, duration_days: &u16, limit: &u16) -> (r: Result<
        Vec<(String, u32)>,
        DbError,
    >) {
        let now = now_secs();
        let since = now - (*duration_days as i64) * 86400;
        let tags = StatusIndex::popular_tags(self, since, *limit);
        proof {
            assert(-(EPOCH_SECS_BOUND as int) <= now as int <= EPOCH_SECS_BOUND as int);
            assert(since as int == window_start(now as int, *duration_days as int));
            assert(tag_listing_ok(
                self.tags_model(),
                window_start(now as int, *duration_days as int),
                *limit as int,
                tags@,
            ));
            assert(rolling_tags_ok(
                self.tags_model(),
                *duration_days as int,
                *limit as int,
                tags@,
            ));
        }
        Ok(tags)
    }
}

impl DataAccessLayer for StatusIndex {

}

impl RecentStatusesService for WatermarkStore {
    open spec fn inv(&self) -> bool {
        self.wf()
    }

    open spec fn marks_model(&self) -> Seq<KvModel> {
        self.bindings()
    }

    fn get_recent_status_id(&self, key: &String) -> (r: Option<String>) {
        WatermarkStore::get_recent_status_id(self, key)
    }

    fn set_recent_status_id(&mut self, key: &String, value: &String) -> (r: Option<String>) {
        WatermarkStore::set_recent_status_id(self, key, value)
    }
}

impl SubscribedHashtagsService for HashtagTable {
    open spec fn inv(&self) -> bool {
        self.wf()
    }

    open spec fn rows_model(&self) -> Seq<HashtagRowModel> {
        self.rows()
    }

    fn list_hashtags(&self) -> (r: Vec<String>) {
        HashtagTable::list_hashtags(self)
    }

    fn suggest_hashtag(&mut self, key: &String, now: i64) {
        HashtagTable::suggest_hashtag(self, key, now)
    }
}

impl SubscribedHashtagRepository for HashtagTable {
    open spec fn inv(&self) -> bool {
        self.wf()
    }

    open spec fn rows_model(&self) -> Seq<HashtagRowModel> {
        self.rows()
    }

    fn increment_vote(&mut self, key: &String, now: i64) -> (r: Result<(), DbError>) {
        HashtagTable::increment_vote(self, key, now);
        Ok(())
    }

    fn list(&self) -> (r: Result<Vec<String>, DbError>) {
        Ok(HashtagTable::list_hashtags(self))
    }
}

/// The hashtag service over any repository.
pub struct SubscribedHashtagServiceImpl<R: SubscribedHashtagRepository> {
    pub repository: R,
}

impl<R: SubscribedHashtagRepository> SubscribedHashtagServiceImpl<R> {
    pub fn new(repository: R) -> (r: Self)
        ensures
            r.repository == repository,
    {
        SubscribedHashtagServiceImpl { repository }
    }
}

impl<R: SubscribedHashtagRepository> SubscribedHashtagService for SubscribedHashtagServiceImpl<
    R,
> {
    open spec fn inv(&self) -> bool {
        self.repository.inv()
    }

    open spec fn repo_model(&self) -> Seq<HashtagRowModel> {
        self.repository.rows_model()
    }

    fn list_hashtags(&self) -> (r: Result<Vec<String>, DbError>) {
        self.repository.list()
    }

    /// An empty suggestion is ignored; any other casts a vote.
    fn suggest_hashtag(&mut self, key: &String, now: i64) -> (r: Result<(), DbError>) {
        if key.as_str().is_empty() {
            Ok(())
        } else {
            self.repository.increment_vote(key, now)
        }
    }
}

} // verus!
