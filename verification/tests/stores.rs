use media_timeline::cache::TimelineCache;
use media_timeline::content::{directory_for_status, ContentStore};
use media_timeline::hashtags::HashtagTable;
use media_timeline::index::{IndexEntry, StatusIndex};
use media_timeline::record::StatusRecord;
use media_timeline::traits::{
    RecentStatusesService, StatusTagsCollection, StatusesIndexer, SubscribedHashtagService,
    SubscribedHashtagServiceImpl,
};
use media_timeline::watermark::WatermarkStore;

const DAY: i64 = 86400;

fn status(id: &str, created_at: i64, tags: &[&str]) -> StatusRecord {
    StatusRecord {
        id: id.to_string(),
        created_at,
        account_id: "acct-1".to_string(),
        account_acct: "someone@example.test".to_string(),
        replies_count: 0,
        reblogs_count: 0,
        favourites_count: 0,
        tags: tags.iter().map(|t| t.to_string()).collect(),
        payload: format!("{{\"id\":\"{}\"}}", id),
    }
}

fn entry(id: &str, created_at: i64, refreshed_at: Option<i64>) -> IndexEntry {
    IndexEntry {
        id: id.to_string(),
        created_at,
        account_id: "acct-1".to_string(),
        account_acct: "someone@example.test".to_string(),
        replies_count: 0,
        reblogs_count: 0,
        favourites_count: 0,
        tags: vec!["art".to_string()],
        refreshed_at,
    }
}

#[test]
fn insert_twice_keeps_one_row_with_latest_tags() {
    let mut index = StatusIndex::new();
    let first = status("7", 100, &["art", "paint"]);
    index.insert_statuses(&vec![first], 1000);
    let second = status("7", 100, &["sculpture"]);
    index.insert_statuses(&vec![second], 2000);
    assert_eq!(index.entries.len(), 1);
    assert_eq!(index.entries[0].id, "7");
    assert_eq!(index.entries[0].tags, vec!["sculpture".to_string()]);
    assert_eq!(index.entries[0].refreshed_at, Some(2000));
}

#[test]
fn persist_twice_keeps_one_blob_and_one_row() {
    let mut cache = TimelineCache::new();
    let s = status("9", 50, &["art"]);
    cache.persist_statuses(&vec![s.clone()], 10);
    cache.persist_statuses(&vec![s], 20);
    assert_eq!(cache.content.blobs.entries.len(), 1);
    assert_eq!(cache.index.entries.len(), 1);
    assert_eq!(cache.index.entries[0].refreshed_at, Some(20));
}

#[test]
fn search_matches_tags_case_insensitively() {
    let mut index = StatusIndex::new();
    index.insert_statuses(
        &vec![
            status("1", 10, &["Art"]),
            status("2", 20, &["music"]),
            status("3", 30, &["ART", "paint"]),
        ],
        100,
    );
    let q = vec!["aRt".to_string()];
    let ids = index.search_statuses(Some(&q), 10);
    assert_eq!(ids, vec!["3".to_string(), "1".to_string()]);
}

#[test]
fn search_orders_by_recency_and_applies_limit() {
    let mut index = StatusIndex::new();
    index.insert_statuses(
        &vec![status("1", 10, &["a"]), status("2", 30, &["a"]), status("3", 20, &["a"])],
        100,
    );
    let ids = index.search_statuses(None, 2);
    assert_eq!(ids, vec!["2".to_string(), "3".to_string()]);
}

#[test]
fn stale_selection_honours_window_and_missing_refresh() {
    let now = 100 * DAY;
    let mut index = StatusIndex::new();
    // created 10 days ago, never refreshed
    index.entries.push(entry("old", now - 10 * DAY, None));
    // created 10 days ago, freshly refreshed
    index.entries.push(entry("fresh", now - 10 * DAY, Some(now - 60)));
    // created half a day ago, never refreshed
    index.entries.push(entry("young", now - DAY / 2, None));

    // a window reaching eleven days back catches the unrefreshed old status
    let ids = index.list_stale_statuses(now - 11 * DAY, now - 3600, 10);
    assert_eq!(ids, vec!["young".to_string(), "old".to_string()]);

    // a window reaching only eight days back no longer covers it
    let ids = index.list_stale_statuses(now - 8 * DAY, now - 3600, 10);
    assert_eq!(ids, vec!["young".to_string()]);

    // a status refreshed within the hour is never stale
    assert!(!index
        .list_stale_statuses(now - 11 * DAY, now - 3600, 10)
        .contains(&"fresh".to_string()));
}

#[test]
fn popular_statuses_rank_by_engagement_within_window() {
    let mut index = StatusIndex::new();
    let mut busy = status("1", 10, &["a"]);
    busy.replies_count = 5;
    busy.reblogs_count = 7;
    let mut quiet = status("2", 20, &["a"]);
    quiet.favourites_count = 3;
    let mut outside = status("3", 1, &["a"]);
    outside.replies_count = 100;
    index.insert_statuses(&vec![busy, quiet, outside], 100);
    let ids = index.popular_statuses(None, 5, 10);
    assert_eq!(ids, vec!["1".to_string(), "2".to_string()]);
}

#[test]
fn popular_tags_count_within_window_most_used_first() {
    let mut index = StatusIndex::new();
    index.insert_statuses(
        &vec![
            status("1", 10, &["art", "paint"]),
            status("2", 20, &["art"]),
            status("3", 30, &["music"]),
            status("4", 1, &["music"]),
        ],
        100,
    );
    let tags = index.popular_tags(5, 10);
    assert_eq!(
        tags,
        vec![("art".to_string(), 2u32), ("paint".to_string(), 1u32), ("music".to_string(), 1u32)]
    );

    let top_one = index.popular_tags(5, 1);
    assert_eq!(top_one, vec![("art".to_string(), 2u32)]);
}

#[test]
fn content_store_keeps_latest_blob_and_skips_missing_on_hydrate() {
    let mut store = ContentStore::new();
    store.insert_statuses(&vec![status("1", 1, &["a"]), status("2", 2, &["a"])]);
    assert_eq!(store.get(&"1".to_string()), Some("{\"id\":\"1\"}".to_string()));
    assert_eq!(store.get(&"9".to_string()), None);
    let ids = vec!["2".to_string(), "9".to_string(), "1".to_string()];
    let payloads = store.hydrate(&ids);
    assert_eq!(payloads, vec!["{\"id\":\"2\"}".to_string(), "{\"id\":\"1\"}".to_string()]);
}

#[test]
fn watermarks_replace_and_report_previous() {
    let mut wm = WatermarkStore::new();
    assert_eq!(wm.get_recent_status_id(&"art".to_string()), None);
    assert_eq!(wm.set_recent_status_id(&"art".to_string(), &"5".to_string()), None);
    assert_eq!(
        wm.set_recent_status_id(&"art".to_string(), &"9".to_string()),
        Some("5".to_string())
    );
    assert_eq!(wm.get_recent_status_id(&"art".to_string()), Some("9".to_string()));
    assert_eq!(wm.marks.entries.len(), 1);
}

#[test]
fn suggestions_vote_and_empty_names_are_ignored() {
    let mut table = HashtagTable::new();
    table.suggest_hashtag(&"craft".to_string(), 50);
    table.suggest_hashtag(&"craft".to_string(), 60);
    table.suggest_hashtag(&"".to_string(), 70);
    assert_eq!(table.entries.len(), 1);
    assert_eq!(table.entries[0].name, "craft");
    assert!(!table.entries[0].attrs.approved);
    assert_eq!(table.entries[0].attrs.votes, 2);
    assert_eq!(table.entries[0].attrs.created_at, 50);
}

#[test]
fn list_hashtags_returns_approved_names_sorted() {
    let mut table = HashtagTable::new();
    table.suggest_hashtag(&"zebra".to_string(), 1);
    table.suggest_hashtag(&"art".to_string(), 2);
    table.suggest_hashtag(&"music".to_string(), 3);
    table.entries[0].attrs.approved = true;
    table.entries[2].attrs.approved = true;
    let names = table.list_hashtags();
    assert_eq!(names, vec!["music".to_string(), "zebra".to_string()]);
}

#[test]
fn retrieve_statuses_hydrates_matching_ids() {
    let mut cache = TimelineCache::new();
    cache.persist_statuses(
        &vec![status("1", 10, &["art"]), status("2", 20, &["art"]), status("3", 30, &["misc"])],
        100,
    );
    let q = vec!["ART".to_string()];
    let (payloads, ids) = cache.retrieve_statuses(Some(&q), 10);
    assert_eq!(ids, vec!["2".to_string(), "1".to_string()]);
    assert_eq!(payloads, vec!["{\"id\":\"2\"}".to_string(), "{\"id\":\"1\"}".to_string()]);
}

#[test]
fn sharding_cuts_trailing_digit_groups() {
    assert_eq!(directory_for_status("123"), "data/statuses/0/0");
    assert_eq!(directory_for_status("113348777497898893"), "data/statuses/0/1133");
    assert_eq!(directory_for_status("1133487774978988931"), "data/statuses/1/11334");
}

#[test]
fn a_limit_of_zero_returns_nothing() {
    let mut index = StatusIndex::new();
    index.insert_statuses(&vec![status("1", 10, &["a"])], 100);
    assert!(index.search_statuses(None, 0).is_empty());
    assert!(index.popular_statuses(None, 0, 0).is_empty());
    assert!(index.popular_tags(0, 0).is_empty());
}

#[test]
fn votes_saturate_at_the_counter_limit() {
    let mut table = HashtagTable::new();
    table.suggest_hashtag(&"busy".to_string(), 1);
    table.entries[0].attrs.votes = u16::MAX;
    table.suggest_hashtag(&"busy".to_string(), 2);
    assert_eq!(table.entries[0].attrs.votes, u16::MAX);
}

#[test]
fn service_ignores_empty_suggestions_and_votes_otherwise() {
    let mut svc = SubscribedHashtagServiceImpl::new(HashtagTable::new());
    assert_eq!(svc.suggest_hashtag(&"".to_string(), 10), Ok(()));
    assert_eq!(svc.repository.entries.len(), 0);
    assert_eq!(svc.suggest_hashtag(&"craft".to_string(), 10), Ok(()));
    assert_eq!(svc.suggest_hashtag(&"craft".to_string(), 20), Ok(()));
    assert_eq!(svc.repository.entries.len(), 1);
    assert_eq!(svc.repository.entries[0].attrs.votes, 2);
    // nothing approved yet, so the listing is empty
    assert_eq!(svc.list_hashtags(), Ok(vec![]));
    svc.repository.entries[0].attrs.approved = true;
    assert_eq!(svc.list_hashtags(), Ok(vec!["craft".to_string()]));
}

#[test]
fn indexer_trait_upserts_and_reports_ok() {
    let mut index = StatusIndex::new();
    let s = status("4", 30, &["art"]);
    assert_eq!(StatusesIndexer::insert_statuses(&mut index, &vec![s], 99), Ok(()));
    assert_eq!(index.entries.len(), 1);
    assert_eq!(index.entries[0].refreshed_at, Some(99));
}

#[test]
fn tags_trait_counts_over_a_rolling_day_window() {
    let now = chrono::Utc::now().timestamp();
    let mut index = StatusIndex::new();
    index.insert_statuses(
        &vec![
            status("1", now - 3600, &["art"]),
            status("2", now - 7200, &["art", "music"]),
            // outside a seven-day window
            status("3", now - 10 * DAY, &["art"]),
        ],
        now,
    );
    let tags = StatusTagsCollection::popular_tags(&index, &7, &10).unwrap();
    assert_eq!(tags, vec![("art".to_string(), 2u32), ("music".to_string(), 1u32)]);
}

#[test]
fn watermark_trait_replaces_bindings() {
    let mut wm = WatermarkStore::new();
    assert_eq!(
        RecentStatusesService::set_recent_status_id(&mut wm, &"art".to_string(), &"7".to_string()),
        None
    );
    assert_eq!(
        RecentStatusesService::get_recent_status_id(&wm, &"art".to_string()),
        Some("7".to_string())
    );
}
