//! The content store: full status payloads keyed by status ID, with the
//! sharding scheme that spreads blobs over a two-level directory tree, and
//! the read path that tolerates an indexed ID whose blob has gone missing.

use vstd::prelude::*;

verus! {

use crate::kvstore::{kv_at, kv_has, kv_set, lemma_kv_set, KvModel, StrMap};
use crate::record::{models_of, StatusModel, StatusRecord};
use crate::text::{chars_of, string_of_chars};
use vstd::string::StringExecFns;

/// The first shard directory: the ID without its trailing 18 characters,
/// or "0" for short IDs.
pub open spec fn shard_dir1(id: Seq<char>) -> Seq<char> {
    if id.len() <= 18 {
        "0"@
    } else {
        id.take(id.len() - 18)
    }
}

/// The second shard directory: the ID without its trailing 14 characters,
/// or "0" for short IDs.
pub open spec fn shard_dir2(id: Seq<char>) -> Seq<char> {
    if id.len() <= 14 {
        "0"@
    } else {
        id.take(id.len() - 14)
    }
}

/// Where a status's blob lives, relative to the data root.
pub open spec fn shard_path(id: Seq<char>) -> Seq<char> {
    "data/statuses/"@ + shard_dir1(id) + "/"@ + shard_dir2(id)
}

/// Copies the first `n` characters.
fn prefix_chars(cs: &Vec<char>, n: usize) -> (r: Vec<char>)
    requires
        n <= cs@.len(),
    ensures
        r@ == cs@.take(n as int),
{
    let mut r: Vec<char> = Vec::new();
    let mut i: usize = 0;
    while i < n
        invariant
            0 <= i <= n <= cs@.len(),
            r@.len() == i,
            forall|k: int| 0 <= k < i ==> r@[k] == cs@[k],
        decreases n - i,
    {
        r.push(cs[i]);
        i += 1;
    }
    proof {
        assert(r@ =~= cs@.take(n as int));
    }
    r
}

/// The directory a status's blob is stored under: two shard levels derived
/// from the ID by cutting its trailing character groups, so that directory
/// fan-out stays bounded.
pub fn directory_for_status(status_id: &str) -> (r: String)
    ensures
        r@ == shard_path(status_id@),
{
    let cs = chars_of(status_id);
    let dir1: String = if cs.len() <= 18 {
        String::from_str("0")
    } else {
        string_of_chars(&prefix_chars(&cs, cs.len() - 18))
    };
    let dir2: String = if cs.len() <= 14 {
        String::from_str("0")
    } else {
        string_of_chars(&prefix_chars(&cs, cs.len() - 14))
    };
    let mut path = String::from_str("data/statuses/");
    path.append(dir1.as_str());
    path.append("/");
    path.append(dir2.as_str());
    path
}

/// Blobs after a batch of statuses is stored, in order.
pub open spec fn blobs_after(s: Seq<KvModel>, batch: Seq<StatusModel>) -> Seq<KvModel>
    decreases batch.len(),
{
    if batch.len() == 0 {
        s
    } else {
        kv_set(blobs_after(s, batch.drop_last()), batch.last().id, batch.last().payload)
    }
}

/// The payloads of the given IDs that are present, in order; a missing blob
/// degrades that one ID out of the result, never the whole read.
pub open spec fn hydrated(s: Seq<KvModel>, ids: Seq<Seq<char>>) -> Seq<Seq<char>>
    decreases ids.len(),
{
    if ids.len() == 0 {
        Seq::empty()
    } else {
        hydrated(s, ids.drop_last()) + (if kv_has(s, ids.last()) {
            seq![kv_at(s, ids.last())]
        } else {
            Seq::empty()
        })
    }
}

/// The content store: serialized status payloads keyed by status ID.
pub struct ContentStore {
    pub blobs: StrMap,
}

impl ContentStore {
    pub open spec fn wf(&self) -> bool {
        self.blobs.wf()
    }

    pub open spec fn bindings(&self) -> Seq<KvModel> {
        self.blobs.bindings()
    }

    /// An empty store.
    pub fn new() -> (r: Self)
        ensures
            r.wf(),
            r.bindings().len() == 0,
    {
        ContentStore { blobs: StrMap::new() }
    }

    /// Stores every status of the batch, each payload replacing any prior
    /// blob under its ID.
    pub fn insert_statuses(&mut self, statuses: &Vec<StatusRecord>)
        requires
            old(self).wf(),
        ensures
            final(self).wf(),
            final(self).bindings() == blobs_after(
                old(self).bindings(),
                models_of(statuses@),
            ),
    {
        let ghost orig = self.bindings();
        let ghost batch = models_of(statuses@);
        let mut i: usize = 0;
        while i < statuses.len()
            invariant
                0 <= i <= statuses@.len(),
                batch == models_of(statuses@),
                batch.len() == statuses@.len(),
                self.blobs.wf(),
                self.bindings() == blobs_after(orig, batch.take(i as int)),
            decreases statuses@.len() - i,
        {
            let s = &statuses[i];
            self.blobs.set(&s.id, &s.payload);
            proof {
                assert(batch.take(i + 1).drop_last() =~= batch.take(i as int));
                assert(batch.take(i + 1).last() == batch[i as int]);
            }
            i += 1;
        }
        proof {
            assert(batch.take(batch.len() as int) =~= batch);
        }
    }

    /// The blob stored under `id`, if any.
    pub fn get(&self, id: &String) -> (r: Option<String>)
        requires
            self.wf(),
        ensures
            match r {
                Some(v) => kv_has(self.bindings(), id@) && v@ == kv_at(self.bindings(), id@),
                None => !kv_has(self.bindings(), id@),
            },
    {
        self.blobs.get(id)
    }

    /// The payloads of the given IDs, in order, skipping any ID whose blob
    /// is missing: index/content divergence degrades single items, not the
    /// whole query.
    pub fn hydrate(&self, ids: &Vec<String>) -> (r: Vec<String>)
        requires
            self.wf(),
        ensures
            r.deep_view() == hydrated(self.bindings(), ids.deep_view()),
    {
        let ghost s = self.bindings();
        let ghost idv = ids.deep_view();
        let mut r: Vec<String> = Vec::new();
        let mut i: usize = 0;
        while i < ids.len()
            invariant
                0 <= i <= ids@.len(),
                s == self.bindings(),
                self.wf(),
                idv == ids.deep_view(),
                idv.len() == ids@.len(),
                r.deep_view() == hydrated(s, idv.take(i as int)),
            decreases ids@.len() - i,
        {
            let ghost pre = r.deep_view();
            match self.get(&ids[i]) {
                Some(v) => {
                    r.push(v);
                    proof {
                        assert(r.deep_view() =~= pre + seq![kv_at(s, idv[i as int])]);
                    }
                },
                None => {
                    proof {
                        assert(pre + Seq::<Seq<char>>::empty() =~= pre);
                    }
                },
            }
            proof {
                assert(idv.take(i + 1).drop_last() =~= idv.take(i as int));
                assert(idv.take(i + 1).last() == idv[i as int]);
            }
            i += 1;
        }
        proof {
            assert(idv.take(idv.len() as int) =~= idv);
        }
        r
    }
}

} // verus!
