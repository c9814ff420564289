//! A small string-to-string map with upsert semantics, the shape shared by
//! the content store (status ID to serialized payload) and the watermark
//! store (hashtag to most recent status ID).

use vstd::prelude::*;

verus! {

use vstd::pervasive::VecAdditionalExecFns;

/// Mathematical model of one binding.
pub ghost struct KvModel {
    pub key: Seq<char>,
    pub value: Seq<char>,
}

/// One binding.
pub struct KvPair {
    pub key: String,
    pub value: String,
}

impl View for KvPair {
    type V = KvModel;

    open spec fn view(&self) -> KvModel {
        KvModel { key: self.key@, value: self.value@ }
    }
}

impl DeepView for KvPair {
    type V = KvModel;

    open spec fn deep_view(&self) -> KvModel {
        self.view()
    }
}

/// One binding per key.
pub open spec fn kv_wf(s: Seq<KvModel>) -> bool {
    forall|i: int, j: int|
        0 <= i < j < s.len() ==> (#[trigger] s[i]).key != (#[trigger] s[j]).key
}

/// Whether `key` is bound.
pub open spec fn kv_has(s: Seq<KvModel>, key: Seq<char>) -> bool {
    exists|k: int| 0 <= k < s.len() && (#[trigger] s[k]).key == key
}

/// The position of `key`'s binding; meaningful under `kv_wf` where `kv_has`
/// holds.
pub open spec fn kv_idx(s: Seq<KvModel>, key: Seq<char>) -> int {
    choose|k: int| 0 <= k < s.len() && (#[trigger] s[k]).key == key
}

/// The value bound to `key`.
pub open spec fn kv_at(s: Seq<KvModel>, key: Seq<char>) -> Seq<char> {
    s[kv_idx(s, key)].value
}

/// Binding `key` to `value`: replace its binding, or append one.
pub open spec fn kv_set(s: Seq<KvModel>, key: Seq<char>, value: Seq<char>) -> Seq<KvModel> {
    if kv_has(s, key) {
        s.update(kv_idx(s, key), KvModel { key, value })
    } else {
        s.push(KvModel { key, value })
    }
}

/// Setting a key keeps one binding per key, binds that key to that value,
/// and leaves every other key alone.
pub proof fn lemma_kv_set(s: Seq<KvModel>, key: Seq<char>, value: Seq<char>)
    requires
        kv_wf(s),
    ensures
        kv_wf(kv_set(s, key, value)),
        kv_has(kv_set(s, key, value), key),
        kv_at(kv_set(s, key, value), key) == value,
        forall|k2: Seq<char>| k2 != key ==> (kv_has(kv_set(s, key, value), k2) <==> kv_has(
            s,
            k2,
        )),
        forall|k2: Seq<char>| k2 != key && kv_has(s, k2) ==> kv_at(kv_set(s, key, value), k2)
            == kv_at(s, k2),
        kv_set(s, key, value).len() == s.len() + (if kv_has(s, key) {
            0int
        } else {
            1int
        }),
{
    let u = kv_set(s, key, value);
    if kv_has(s, key) {
        let k = kv_idx(s, key);
        assert(0 <= k < s.len() && s[k].key == key);
        assert forall|i: int, j: int| 0 <= i < j < u.len() implies (#[trigger] u[i]).key != (
        #[trigger] u[j]).key by {
            assert(s[i].key != s[j].key);
        }
        assert(u[k].key == key);
        assert(kv_idx(u, key) == k) by {
            let k2 = kv_idx(u, key);
            assert(0 <= k2 < u.len() && u[k2].key == key);
            if k2 != k {
                assert(u[k2].key == s[k2].key);
                assert(s[k2].key != s[k].key);
            }
        }
        assert forall|k2: Seq<char>| k2 != key && kv_has(s, k2) implies kv_at(u, k2) == kv_at(
            s,
            k2,
        ) by {
            let p = kv_idx(s, k2);
            assert(0 <= p < s.len() && s[p].key == k2);
            assert(p != k);
            assert(u[p] == s[p]);
            let p2 = kv_idx(u, k2);
            assert(0 <= p2 < u.len() && u[p2].key == k2);
            if p2 != p {
                if p2 == k {
                    assert(u[k].key == key);
                } else {
                    assert(u[p2] == s[p2]);
                    assert(s[p2].key != s[p].key);
                }
            }
        }
        assert forall|k2: Seq<char>| k2 != key implies (kv_has(u, k2) <==> kv_has(s, k2)) by {
            if kv_has(u, k2) {
                let p2 = kv_idx(u, k2);
                assert(0 <= p2 < u.len() && u[p2].key == k2);
                assert(p2 != k);
                assert(s[p2].key == k2);
            }
            if kv_has(s, k2) {
                let p = kv_idx(s, k2);
                assert(0 <= p < s.len() && s[p].key == k2);
                assert(p != k);
                assert(u[p].key == k2);
            }
        }
    } else {
        let n = s.len() as int;
        assert(u[n].key == key);
        assert forall|i: int, j: int| 0 <= i < j < u.len() implies (#[trigger] u[i]).key != (
        #[trigger] u[j]).key by {
            if j < n {
                assert(s[i].key != s[j].key);
            } else {
                assert(u[i] == s[i]);
                if u[i].key == key {
                    assert(s[i].key == key);
                }
            }
        }
        assert(kv_idx(u, key) == n) by {
            let k2 = kv_idx(u, key);
            assert(0 <= k2 < u.len() && u[k2].key == key);
            if k2 != n {
                assert(s[k2].key == key);
            }
        }
        assert forall|k2: Seq<char>| k2 != key && kv_has(s, k2) implies kv_at(u, k2) == kv_at(
            s,
            k2,
        ) by {
            let p = kv_idx(s, k2);
            assert(0 <= p < s.len() && s[p].key == k2);
            assert(u[p] == s[p]);
            let p2 = kv_idx(u, k2);
            assert(0 <= p2 < u.len() && u[p2].key == k2);
            if p2 != p {
                if p2 == n {
                    assert(u[n].key == key);
                } else {
                    assert(s[p2].key == s[p].key);
                }
            }
        }
        assert forall|k2: Seq<char>| k2 != key implies (kv_has(u, k2) <==> kv_has(s, k2)) by {
            if kv_has(u, k2) {
                let p2 = kv_idx(u, k2);
                assert(0 <= p2 < u.len() && u[p2].key == k2);
                if p2 == n {
                    assert(u[n].key == key);
                }
                assert(s[p2].key == k2);
            }
            if kv_has(s, k2) {
                let p = kv_idx(s, k2);
                assert(u[p].key == k2);
            }
        }
    }
}

/// Law (idempotent write): binding the same key twice leaves the map exactly
/// as the later binding alone would — one binding, the later value.
pub proof fn lemma_kv_set_idempotent(
    s: Seq<KvModel>,
    key: Seq<char>,
    v1: Seq<char>,
    v2: Seq<char>,
)
    requires
        kv_wf(s),
    ensures
        kv_set(kv_set(s, key, v1), key, v2) == kv_set(s, key, v2),
{
    let s1 = kv_set(s, key, v1);
    lemma_kv_set(s, key, v1);
    lemma_kv_set(s1, key, v2);
    if kv_has(s, key) {
        let k = kv_idx(s, key);
        assert(0 <= k < s.len() && s[k].key == key);
        assert(s1 == s.update(k, KvModel { key, value: v1 }));
        assert(s1[k].key == key);
        assert(kv_idx(s1, key) == k) by {
            let k2 = kv_idx(s1, key);
            assert(0 <= k2 < s1.len() && s1[k2].key == key);
            if k2 != k {
                assert(s1[k2] == s[k2]);
                assert(s[k2].key != s[k].key);
            }
        }
        assert(kv_set(s1, key, v2) =~= s.update(k, KvModel { key, value: v2 }));
    } else {
        let n = s.len() as int;
        assert(s1 == s.push(KvModel { key, value: v1 }));
        assert(kv_idx(s1, key) == n) by {
            let k2 = kv_idx(s1, key);
            assert(0 <= k2 < s1.len() && s1[k2].key == key);
            if k2 != n {
                assert(s[k2].key == key);
            }
        }
        assert(kv_has(s1, key));
        assert(kv_set(s1, key, v2) =~= s.push(KvModel { key, value: v2 }));
    }
}

/// The in-memory map.  `entries` is exposed so that callers and tests can
/// inspect it; every operation keeps `wf` — one binding per key.
pub struct StrMap {
    pub entries: Vec<KvPair>,
}

impl StrMap {
    pub open spec fn wf(&self) -> bool {
        kv_wf(self.entries.deep_view())
    }

    /// The models of the bindings.
    pub open spec fn bindings(&self) -> Seq<KvModel> {
        self.entries.deep_view()
    }

    /// An empty map.
    pub fn new() -> (r: Self)
        ensures
            r.wf(),
            r.bindings().len() == 0,
    {
        StrMap { entries: Vec::new() }
    }

    /// The value bound to `key`, if any.
    pub fn get(&self, key: &String) -> (r: Option<String>)
        requires
            self.wf(),
        ensures
            match r {
                Some(v) => kv_has(self.bindings(), key@) && v@ == kv_at(self.bindings(), key@),
                None => !kv_has(self.bindings(), key@),
            },
    {
        let ghost s = self.bindings();
        let mut k: usize = 0;
        while k < self.entries.len()
            invariant
                0 <= k <= self.entries@.len(),
                s == self.bindings(),
                s.len() == self.entries@.len(),
                kv_wf(s),
                forall|j: int| 0 <= j < k ==> (#[trigger] s[j]).key != key@,
            decreases self.entries@.len() - k,
        {
            if self.entries[k].key == *key {
                proof {
                    assert(s[k as int].key == key@);
                    assert(kv_idx(s, key@) == k as int) by {
                        let k2 = kv_idx(s, key@);
                        assert(0 <= k2 < s.len() && s[k2].key == key@);
                        if k2 != k as int {
                            assert(s[k2].key != s[k as int].key);
                        }
                    }
                }
                return Some(self.entries[k].value.clone());
            }
            k += 1;
        }
        None
    }

    /// Binds `key` to `value`, returning the value it replaced, if any.
    pub fn set(&mut self, key: &String, value: &String) -> (prev: Option<String>)
        requires
            old(self).wf(),
        ensures
            final(self).wf(),
            final(self).bindings() == kv_set(old(self).bindings(), key@, value@),
            match prev {
                Some(v) => kv_has(old(self).bindings(), key@) && v@ == kv_at(
                    old(self).bindings(),
                    key@,
                ),
                None => !kv_has(old(self).bindings(), key@),
            },
    {
        let ghost s = self.bindings();
        let mut k: usize = 0;
        while k < self.entries.len()
            invariant
                0 <= k <= self.entries@.len(),
                self.entries@ == old(self).entries@,
                s == self.bindings(),
                s.len() == self.entries@.len(),
                kv_wf(s),
                forall|j: int| 0 <= j < k ==> (#[trigger] s[j]).key != key@,
            decreases self.entries@.len() - k,
        {
            if self.entries[k].key == *key {
                let prev = self.entries[k].value.clone();
                self.entries.set(k, KvPair { key: key.clone(), value: value.clone() });
                proof {
                    lemma_kv_set(s, key@, value@);
                    assert(s[k as int].key == key@);
                    assert(kv_idx(s, key@) == k as int) by {
                        let k2 = kv_idx(s, key@);
                        assert(0 <= k2 < s.len() && s[k2].key == key@);
                        if k2 != k as int {
                            assert(s[k2].key != s[k as int].key);
                        }
                    }
                    assert(self.bindings() =~= kv_set(s, key@, value@));
                }
                return Some(prev);
            }
            k += 1;
        }
        self.entries.push(KvPair { key: key.clone(), value: value.clone() });
        proof {
            lemma_kv_set(s, key@, value@);
            assert(!kv_has(s, key@)) by {
                if kv_has(s, key@) {
                    let p = kv_idx(s, key@);
                    assert(0 <= p < s.len() && s[p].key == key@);
                }
            }
            assert(self.bindings() =~= kv_set(s, key@, value@));
        }
        None
    }
}

} // verus!
