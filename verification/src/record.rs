//! The status record: one fetched remote post, holding as plain values the
//! fields the engine reads, with the rest of the remote payload riding along
//! as an opaque serialized blob.

use vstd::prelude::*;

verus! {

/// Mathematical model of a status record.
pub ghost struct StatusModel {
    pub id: Seq<char>,
    pub created_at: int,
    pub account_id: Seq<char>,
    pub account_acct: Seq<char>,
    pub replies_count: int,
    pub reblogs_count: int,
    pub favourites_count: int,
    pub tags: Seq<Seq<char>>,
    pub payload: Seq<char>,
}

impl StatusModel {
    /// The engagement proxy a status is ranked by in "popular" queries.
    pub open spec fn engagement(self) -> int {
        self.replies_count + self.reblogs_count + self.favourites_count
    }
}

/// One remote status as the engine stores it.
pub struct StatusRecord {
    /// Remote status ID; globally unique, ordered by `ids::id_lt_str`.
    pub id: String,
    /// Creation time, in seconds since the Unix epoch.
    pub created_at: i64,
    pub account_id: String,
    pub account_acct: String,
    pub replies_count: u32,
    pub reblogs_count: u32,
    pub favourites_count: u32,
    /// Hashtag names as stored: case preserved, matched case-insensitively.
    pub tags: Vec<String>,
    /// The full serialized remote record, stored and redisplayed unread.
    pub payload: String,
}

impl View for StatusRecord {
    type V = StatusModel;

    open spec fn view(&self) -> StatusModel {
        StatusModel {
            id: self.id@,
            created_at: self.created_at as int,
            account_id: self.account_id@,
            account_acct: self.account_acct@,
            replies_count: self.replies_count as int,
            reblogs_count: self.reblogs_count as int,
            favourites_count: self.favourites_count as int,
            tags: self.tags.deep_view(),
            payload: self.payload@,
        }
    }
}

impl DeepView for StatusRecord {
    type V = StatusModel;

    open spec fn deep_view(&self) -> StatusModel {
        self.view()
    }
}

/// Copies a list of strings, element for element.
pub fn clone_strings(v: &Vec<String>) -> (r: Vec<String>)
    ensures
        r.deep_view() == v.deep_view(),
        r@.len() == v@.len(),
{
    let mut r: Vec<String> = Vec::new();
    let mut i: usize = 0;
    while i < v.len()
        invariant
            0 <= i <= v@.len(),
            r@.len() == i,
            forall|k: int| 0 <= k < i ==> r@[k]@ == v@[k]@,
        decreases v@.len() - i,
    {
        r.push(v[i].clone());
        i += 1;
    }
    proof {
        assert(r.deep_view() =~= v.deep_view());
    }
    r
}

impl Clone for StatusRecord {
    /// The copy models the same status.
    fn clone(&self) -> (r: Self)
        ensures
            r@ == self@,
    {
        let r = StatusRecord {
            id: self.id.clone(),
            created_at: self.created_at,
            account_id: self.account_id.clone(),
            account_acct: self.account_acct.clone(),
            replies_count: self.replies_count,
            reblogs_count: self.reblogs_count,
            favourites_count: self.favourites_count,
            tags: clone_strings(&self.tags),
            payload: self.payload.clone(),
        };
        r
    }
}

impl StatusRecord {
    /// The engagement proxy, summed without overflow.
    pub fn engagement(&self) -> (r: u64)
        ensures
            r as int == self@.engagement(),
    {
        self.replies_count as u64 + self.reblogs_count as u64 + self.favourites_count as u64
    }
}

/// The models of a list of records.
pub open spec fn models_of(s: Seq<StatusRecord>) -> Seq<StatusModel> {
    s.map_values(|r: StatusRecord| r@)
}

} // verus!
