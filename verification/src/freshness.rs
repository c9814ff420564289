//! The conditional-response decision: whether a client that sent an
//! If-Modified-Since timestamp needs content at all and, when it does,
//! which cache directives to attach.  Clients are never told content is
//! fresher than the engine's own update cadence.

use vstd::prelude::*;

verus! {

use crate::record::StatusRecord;

/// The grace window during which stale content may still be served while a
/// revalidation runs, in seconds.
pub const STALE_WHILE_REVALIDATE_SECS: u64 = 120;

/// Cache directives for a served response.
pub struct CacheDirectives {
    /// How long the response may be cached: the engine's own update
    /// frequency, so the externally observable lifetime tracks it.
    pub max_age_secs: u64,
    /// The stale-while-revalidate grace window.
    pub stale_while_revalidate_secs: u64,
}

/// What to answer a conditional request.
pub enum ConditionalResponse {
    /// The client's copy is current: serve nothing.
    NotModified,
    /// Serve fresh content with these cache directives.
    Fresh { directives: CacheDirectives },
}

/// The creation time of the freshest status to be served: the first one,
/// since results come newest first — or `now` when there is nothing.
pub fn freshest_timestamp(statuses: &Vec<StatusRecord>, now: i64) -> (r: i64)
    ensures
        statuses@.len() > 0 ==> r as int == statuses@[0]@.created_at,
        statuses@.len() == 0 ==> r == now,
{
    if statuses.len() > 0 {
        statuses[0].created_at
    } else {
        now
    }
}

/// Decides a conditional request: not modified exactly when the client's
/// timestamp is at or past the freshest content; otherwise fresh content
/// whose max-age equals the configured update frequency, with the
/// stale-while-revalidate grace window.
pub fn conditional_response(
    freshest: i64,
    if_modified_since: Option<i64>,
    update_frequency_secs: u64,
) -> (r: ConditionalResponse)
    ensures
        (match if_modified_since {
            Some(t) => t >= freshest,
            None => false,
        }) <==> r is NotModified,
        !(match if_modified_since {
            Some(t) => t >= freshest,
            None => false,
        }) ==> r == (ConditionalResponse::Fresh {
            directives: CacheDirectives {
                max_age_secs: update_frequency_secs,
                stale_while_revalidate_secs: STALE_WHILE_REVALIDATE_SECS,
            },
        }),
{
    let not_modified = match if_modified_since {
        Some(t) => t >= freshest,
        None => false,
    };
    if not_modified {
        ConditionalResponse::NotModified
    } else {
        ConditionalResponse::Fresh {
            directives: CacheDirectives {
                max_age_secs: update_frequency_secs,
                stale_while_revalidate_secs: STALE_WHILE_REVALIDATE_SECS,
            },
        }
    }
}

} // verus!
