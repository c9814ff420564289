use media_timeline::ids::{id_less, lex_less};
use media_timeline::merge::{dedup_by_id, merge_results, sort_by_id_desc};
use media_timeline::pagination::{paginate_pages, page_max_index, Paginator};
use media_timeline::record::StatusRecord;

fn status(id: &str, created_at: i64) -> StatusRecord {
    StatusRecord {
        id: id.to_string(),
        created_at,
        account_id: "acct-1".to_string(),
        account_acct: "someone@example.test".to_string(),
        replies_count: 0,
        reblogs_count: 0,
        favourites_count: 0,
        tags: vec!["art".to_string()],
        payload: format!("{{\"id\":\"{}\"}}", id),
    }
}

#[test]
fn id_order_prefers_longer_strings() {
    // "99" ranks below "100": length decides before digits
    assert!(id_less("99", "100"));
    assert!(!id_less("100", "99"));
    // a 21-character ID ranks above a 20-character one regardless of digits
    assert!(id_less("12345678901234567890", "123456789012345678901"));
    assert!(!id_less("123456789012345678901", "12345678901234567890"));
}

#[test]
fn id_order_is_lexicographic_at_equal_length() {
    assert!(id_less("123", "124"));
    assert!(!id_less("124", "123"));
    assert!(!id_less("123", "123"));
}

#[test]
fn lexicographic_order_ignores_length() {
    assert!(lex_less("100", "99"));
    assert!(!lex_less("99", "100"));
    assert!(lex_less("abc", "abd"));
    assert!(lex_less("ab", "abc"));
}

#[test]
fn sort_by_id_puts_newest_first() {
    let mut v = vec![status("99", 1), status("100", 2), status("98", 3)];
    sort_by_id_desc(&mut v);
    let ids: Vec<&str> = v.iter().map(|s| s.id.as_str()).collect();
    assert_eq!(ids, vec!["100", "99", "98"]);
}

#[test]
fn dedup_keeps_one_copy_per_id() {
    let mut v = vec![status("3", 1), status("3", 1), status("2", 1)];
    sort_by_id_desc(&mut v);
    let d = dedup_by_id(&v);
    let ids: Vec<&str> = d.iter().map(|s| s.id.as_str()).collect();
    assert_eq!(ids, vec!["3", "2"]);
}

#[test]
fn merge_keeps_one_copy_of_a_shared_status() {
    // two hashtags' results share status "2"
    let page_a = vec![status("3", 3), status("2", 2)];
    let page_b = vec![status("2", 2), status("1", 1)];
    let merged = merge_results(vec![page_a, page_b]);
    let ids: Vec<&str> = merged.iter().map(|s| s.id.as_str()).collect();
    assert_eq!(ids, vec!["3", "2", "1"]);
}

#[test]
fn page_max_finds_greatest_id() {
    let page = vec![status("8", 1), status("10", 2), status("9", 3)];
    let k = page_max_index(&page);
    assert_eq!(page[k].id, "10");
}

#[test]
fn pagination_stops_after_empty_page_and_advances_to_max() {
    // a mocked client answering with two pages, then an empty page
    let p1 = vec![status("7", 7), status("6", 6)];
    let p2 = vec![status("9", 9), status("8", 8)];
    let pages = vec![p1, p2, vec![]];
    let (statuses, used, watermark) = paginate_pages(Some("5".to_string()), &pages);
    assert_eq!(used, 3);
    let ids: Vec<&str> = statuses.iter().map(|s| s.id.as_str()).collect();
    assert_eq!(ids, vec!["9", "8", "7", "6"]);
    assert_eq!(watermark, Some("9".to_string()));
}

#[test]
fn first_fetch_takes_one_page_and_records_oldest() {
    let p1 = vec![status("5", 5), status("4", 4), status("3", 3)];
    let pages = vec![p1];
    let (statuses, used, watermark) = paginate_pages(None, &pages);
    assert_eq!(used, 1);
    let ids: Vec<&str> = statuses.iter().map(|s| s.id.as_str()).collect();
    assert_eq!(ids, vec!["5", "4", "3"]);
    assert_eq!(watermark, Some("3".to_string()));
}

#[test]
fn paginator_persists_watermark_after_every_page() {
    let mut pag = Paginator::begin(Some("1".to_string()));
    assert_eq!(pag.next_request(), Some(Some("1".to_string())));
    let persist = pag.on_page(vec![status("3", 3), status("2", 2)]);
    assert_eq!(persist, Some("3".to_string()));
    assert_eq!(pag.next_request(), Some(Some("3".to_string())));
    let persist = pag.on_page(vec![]);
    assert_eq!(persist, None);
    assert_eq!(pag.next_request(), None);
    let statuses = pag.into_statuses();
    assert_eq!(statuses.len(), 2);
}

#[test]
fn merging_nothing_yields_nothing() {
    let merged = merge_results(vec![]);
    assert!(merged.is_empty());
    let merged = merge_results(vec![vec![], vec![]]);
    assert!(merged.is_empty());
}

#[test]
fn an_empty_id_ranks_below_everything() {
    assert!(id_less("", "0"));
    assert!(!id_less("0", ""));
    assert!(!id_less("", ""));
}
