//! The SQLite-backed repository handles: each holds a shared connection
//! pool, which this crate carries opaquely — the SQL itself runs outside
//! the verified library, against the same pool.

use vstd::prelude::*;

verus! {

use std::sync::Arc;

/// A pooled SQLite connection handle: an r2d2 pool of SQLite connections,
/// carried opaquely — declaring `r2d2::Pool` to the verifier would need its
/// `ManageConnection` bound declared as well, so the pool is held behind
/// this one opaque wrapper instead.  The field stays reachable for the
/// unverified storage layer that runs the SQL.
#[verifier::external_body]
pub struct Connection(pub r2d2::Pool<r2d2_sqlite::SqliteConnectionManager>);

/// The subscribed-hashtag table, behind a pooled SQLite connection.
pub struct SubscribedHashtagSqliteRepository {
    pub pool: Arc<Connection>,
}

impl SubscribedHashtagSqliteRepository {
    pub fn new(pool: Arc<Connection>) -> (r: Self)
        ensures
            r.pool == pool,
    {
        SubscribedHashtagSqliteRepository { pool }
    }

    /// The pool this repository runs its statements on.
    pub fn pool(&self) -> (r: &Arc<Connection>)
        ensures
            *r == self.pool,
    {
        &self.pool
    }
}

/// The per-hashtag watermark table, behind a pooled SQLite connection.
pub struct RecentStatusSqliteRepository {
    pub pool: Arc<Connection>,
}

impl RecentStatusSqliteRepository {
    pub fn new(pool: Arc<Connection>) -> (r: Self)
        ensures
            r.pool == pool,
    {
        RecentStatusSqliteRepository { pool }
    }

    /// The pool this repository runs its statements on.
    pub fn pool(&self) -> (r: &Arc<Connection>)
        ensures
            *r == self.pool,
    {
        &self.pool
    }
}

/// The status index tables, behind a pooled SQLite connection.
pub struct StatusSqliteRepository {
    pub pool: Arc<Connection>,
}

impl StatusSqliteRepository {
    pub fn new(pool: Arc<Connection>) -> (r: Self)
        ensures
            r.pool == pool,
    {
        StatusSqliteRepository { pool }
    }

    /// The pool this repository runs its statements on.
    pub fn pool(&self) -> (r: &Arc<Connection>)
        ensures
            *r == self.pool,
    {
        &self.pool
    }
}

} // verus!
