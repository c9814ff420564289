use media_timeline::duration::{parse_duration, DurationParseError, DurationValue};
use media_timeline::freshness::{conditional_response, freshest_timestamp, ConditionalResponse};
use media_timeline::record::StatusRecord;
use media_timeline::refresh::{chunk_ids, min_frequency, refresh_window, sort_tiers};
use media_timeline::settings::{ApplicationSettings, StatusRefreshSettings};
use media_timeline::worker::{WorkerEvent, WorkerLoop, WorkerStep};

fn status(id: &str, created_at: i64) -> StatusRecord {
    StatusRecord {
        id: id.to_string(),
        created_at,
        account_id: "acct-1".to_string(),
        account_acct: "someone@example.test".to_string(),
        replies_count: 0,
        reblogs_count: 0,
        favourites_count: 0,
        tags: vec![],
        payload: String::new(),
    }
}

fn tier(max_age: u64, frequency: u64) -> StatusRefreshSettings {
    StatusRefreshSettings {
        max_age: DurationValue::from_secs(max_age),
        frequency: DurationValue::from_secs(frequency),
    }
}

#[test]
fn durations_parse_with_units() {
    assert_eq!(parse_duration("5"), Ok(DurationValue::from_secs(5)));
    assert_eq!(parse_duration("5 seconds"), Ok(DurationValue::from_secs(5)));
    assert_eq!(parse_duration("1 second"), Ok(DurationValue::from_secs(1)));
    assert_eq!(parse_duration("3 minutes"), Ok(DurationValue::from_secs(180)));
    assert_eq!(parse_duration("2 hours"), Ok(DurationValue::from_secs(7200)));
    assert_eq!(parse_duration("1 day"), Ok(DurationValue::from_secs(86400)));
    assert_eq!(parse_duration("10days"), Ok(DurationValue::from_secs(864000)));
    assert_eq!(parse_duration("5 "), Ok(DurationValue::from_secs(5)));
}

#[test]
fn bad_durations_are_rejected() {
    assert_eq!(parse_duration(""), Err(DurationParseError::InvalidFormat));
    assert_eq!(parse_duration("abc"), Err(DurationParseError::InvalidFormat));
    assert_eq!(parse_duration("5 weeks"), Err(DurationParseError::InvalidFormat));
    assert_eq!(parse_duration("seconds"), Err(DurationParseError::InvalidFormat));
    assert_eq!(parse_duration("5 days x"), Err(DurationParseError::InvalidFormat));
    assert_eq!(
        parse_duration("99999999999999999999999"),
        Err(DurationParseError::TooLarge)
    );
    assert_eq!(
        parse_duration("999999999999999999 days"),
        Err(DurationParseError::TooLarge)
    );
}

#[test]
fn conditional_response_matches_client_timestamp() {
    let t = 1_700_000_000i64;
    // client copy as fresh as the content: nothing to serve
    let r = conditional_response(t, Some(t), 300);
    assert!(matches!(r, ConditionalResponse::NotModified));
    // client copy a second older: serve, max-age equal to the update cadence
    let r = conditional_response(t, Some(t - 1), 300);
    match r {
        ConditionalResponse::Fresh { directives } => {
            assert_eq!(directives.max_age_secs, 300);
            assert_eq!(directives.stale_while_revalidate_secs, 120);
        }
        _ => panic!("expected fresh content"),
    }
    // no client timestamp at all: serve
    assert!(matches!(
        conditional_response(t, None, 300),
        ConditionalResponse::Fresh { .. }
    ));
}

#[test]
fn freshest_timestamp_uses_first_status_or_now() {
    let v = vec![status("3", 300), status("2", 200)];
    assert_eq!(freshest_timestamp(&v, 999), 300);
    assert_eq!(freshest_timestamp(&vec![], 999), 999);
}

#[test]
fn tiers_sort_ascending_by_max_age() {
    let tiers = vec![tier(86400 * 7, 3600 * 6), tier(86400, 600), tier(86400 * 30, 86400)];
    let sorted = sort_tiers(tiers);
    let ages: Vec<u64> = sorted.iter().map(|t| t.max_age.secs).collect();
    assert_eq!(ages, vec![86400, 86400 * 7, 86400 * 30]);
}

#[test]
fn minimum_frequency_drives_the_wake_cadence() {
    assert_eq!(min_frequency(&vec![]), None);
    let tiers = vec![tier(86400 * 7, 3600 * 6), tier(86400, 600), tier(86400 * 30, 86400)];
    assert_eq!(min_frequency(&tiers), Some(600));
}

#[test]
fn refresh_windows_reach_back_and_clamp() {
    let t = tier(10 * 86400, 3600);
    let now = 100 * 86400i64;
    let (since, fresh_since) = refresh_window(now, &t);
    assert_eq!(since, 90 * 86400);
    assert_eq!(fresh_since, 100 * 86400 - 3600);
    let far = tier(u64::MAX, u64::MAX);
    let (since, fresh_since) = refresh_window(0, &far);
    assert_eq!(since, i64::MIN);
    assert_eq!(fresh_since, i64::MIN);
}

#[test]
fn chunking_respects_the_batch_size() {
    let ids: Vec<String> = (0..25).map(|i| i.to_string()).collect();
    let chunks = chunk_ids(ids.clone(), 10);
    assert_eq!(chunks.len(), 3);
    assert_eq!(chunks[0].len(), 10);
    assert_eq!(chunks[1].len(), 10);
    assert_eq!(chunks[2].len(), 5);
    let flat: Vec<String> = chunks.into_iter().flatten().collect();
    assert_eq!(flat, ids);
}

#[test]
fn worker_runs_immediately_then_follows_events() {
    let (mut w, first) = WorkerLoop::start();
    assert!(matches!(first, WorkerStep::RunCycle));
    assert!(matches!(w.on_event(WorkerEvent::TimerElapsed), WorkerStep::RunCycle));
    assert!(matches!(w.on_event(WorkerEvent::CancelRequested), WorkerStep::Exit));
    // once cancelled, no event starts another cycle
    assert!(matches!(w.on_event(WorkerEvent::TimerElapsed), WorkerStep::Exit));
    assert!(matches!(w.on_event(WorkerEvent::CancelRequested), WorkerStep::Exit));
}

#[test]
fn settings_expose_the_update_cadence() {
    let settings = ApplicationSettings {
        timeline_update_frequency: DurationValue::from_secs(300),
        timeline_statuses_count: 50,
        status_refresh: vec![tier(86400, 600)],
    };
    assert_eq!(settings.timeline_update_frequency_secs(), 300);
    assert_eq!(settings.timeline_statuses_count, 50);
}

#[test]
fn leading_zeros_parse_as_plain_digits() {
    assert_eq!(parse_duration("007 minutes"), Ok(DurationValue::from_secs(420)));
    assert_eq!(parse_duration("0"), Ok(DurationValue::from_secs(0)));
}
