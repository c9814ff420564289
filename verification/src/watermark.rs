//! The watermark store: for each hashtag, the ID of the most recent status
//! already retrieved, read to resume pagination and advanced after every
//! page.

use vstd::prelude::*;

verus! {

use crate::kvstore::{kv_at, kv_has, kv_set, KvModel, StrMap};

/// The in-memory watermark store.
pub struct WatermarkStore {
    pub marks: StrMap,
}

impl WatermarkStore {
    pub open spec fn wf(&self) -> bool {
        self.marks.wf()
    }

    pub open spec fn bindings(&self) -> Seq<KvModel> {
        self.marks.bindings()
    }

    /// An empty store: no hashtag has been fetched yet.
    pub fn new() -> (r: Self)
        ensures
            r.wf(),
            r.bindings().len() == 0,
    {
        WatermarkStore { marks: StrMap::new() }
    }

    /// The most recent status ID recorded for this hashtag, if any.
    pub fn get_recent_status_id(&self, key: &String) -> (r: Option<String>)
        requires
            self.wf(),
        ensures
            match r {
                Some(v) => kv_has(self.bindings(), key@) && v@ == kv_at(self.bindings(), key@),
                None => !kv_has(self.bindings(), key@),
            },
    {
        self.marks.get(key)
    }

    /// Records the most recent status ID for this hashtag, returning the
    /// one it replaced, if any.
    pub fn set_recent_status_id(&mut self, key: &String, value: &String) -> (prev: Option<
        String,
    >)
        requires
            old(self).wf(),
        ensures
            final(self).wf(),
            final(self).bindings() == kv_set(old(self).bindings(), key@, value@),
            match prev {
                Some(v) => kv_has(old(self).bindings(), key@) && v@ == kv_at(
                    old(self).bindings(),
                    key@,
                ),
                None => !kv_has(old(self).bindings(), key@),
            },
    {
        self.marks.set(key, value)
    }
}

} // verus!
