//! Subscribed and suggested hashtags: every suggestion casts a vote, a new
//! name enters unapproved with one vote, and the subscription list is the
//! approved names in lexicographic order.

use vstd::prelude::*;

verus! {

use crate::ids::{id_bytes, lex_less, lex_lt};
use vstd::pervasive::VecAdditionalExecFns;
use vstd::string::StringSliceAdditionalSpecFns;

/// Mathematical model of a hashtag's attributes.
pub ghost struct HashtagModel {
    pub approved: bool,
    pub votes: int,
    pub created_at: int,
}

/// What is known of a hashtag: whether it is approved for the timeline,
/// how many votes it has gathered, and when it was first suggested.
#[derive(Clone, Copy, PartialEq, Eq, Structural, Debug)]
pub struct HashtagAttributes {
    pub approved: bool,
    pub votes: u16,
    pub created_at: i64,
}

impl HashtagAttributes {
    /// A fresh suggestion: unapproved, one vote, suggested now.
    pub fn new_suggestion(now: i64) -> (r: Self)
        ensures
            !r.approved,
            r.votes == 1,
            r.created_at == now,
    {
        HashtagAttributes { approved: false, votes: 1, created_at: now }
    }
}

/// Mathematical model of one table row.
pub ghost struct HashtagRowModel {
    pub name: Seq<char>,
    pub attrs: HashtagModel,
}

/// One table row.
pub struct HashtagRow {
    pub name: String,
    pub attrs: HashtagAttributes,
}

impl View for HashtagRow {
    type V = HashtagRowModel;

    open spec fn view(&self) -> HashtagRowModel {
        HashtagRowModel {
            name: self.name@,
            attrs: HashtagModel {
                approved: self.attrs.approved,
                votes: self.attrs.votes as int,
                created_at: self.attrs.created_at as int,
            },
        }
    }
}

impl DeepView for HashtagRow {
    type V = HashtagRowModel;

    open spec fn deep_view(&self) -> HashtagRowModel {
        self.view()
    }
}

/// One row per name.
pub open spec fn rows_wf(s: Seq<HashtagRowModel>) -> bool {
    forall|i: int, j: int|
        0 <= i < j < s.len() ==> (#[trigger] s[i]).name != (#[trigger] s[j]).name
}

pub open spec fn row_has(s: Seq<HashtagRowModel>, name: Seq<char>) -> bool {
    exists|k: int| 0 <= k < s.len() && (#[trigger] s[k]).name == name
}

pub open spec fn row_idx(s: Seq<HashtagRowModel>, name: Seq<char>) -> int {
    choose|k: int| 0 <= k < s.len() && (#[trigger] s[k]).name == name
}

pub open spec fn row_at(s: Seq<HashtagRowModel>, name: Seq<char>) -> HashtagModel {
    s[row_idx(s, name)].attrs
}

/// A vote for `name`: an existing row gains a vote (saturating at what a
/// `u16` carries), a new name enters unapproved with one vote, first
/// suggested `now`.
pub open spec fn vote_cast(
    s: Seq<HashtagRowModel>,
    name: Seq<char>,
    now: int,
) -> Seq<HashtagRowModel> {
    if row_has(s, name) {
        let k = row_idx(s, name);
        s.update(
            k,
            HashtagRowModel {
                name,
                attrs: HashtagModel {
                    approved: s[k].attrs.approved,
                    votes: if s[k].attrs.votes + 1 > u16::MAX as int {
                        u16::MAX as int
                    } else {
                        s[k].attrs.votes + 1
                    },
                    created_at: s[k].attrs.created_at,
                },
            },
        )
    } else {
        s.push(
            HashtagRowModel {
                name,
                attrs: HashtagModel { approved: false, votes: 1, created_at: now },
            },
        )
    }
}

/// Whether some approved row carries `name`.
pub open spec fn approved_has(s: Seq<HashtagRowModel>, name: Seq<char>) -> bool {
    exists|k: int|
        0 <= k < s.len() && (#[trigger] s[k]).name == name && s[k].attrs.approved
}

/// Whether some element of `names` is the string `name`.
pub open spec fn names_contain(names: Seq<String>, name: Seq<char>) -> bool {
    exists|m: int| 0 <= m < names.len() && (#[trigger] names[m])@ == name
}

/// What the subscription listing promises of table rows `rows`: exactly the
/// approved names, none repeated, in lexicographic (byte) order.
pub open spec fn listing_ok(rows: Seq<HashtagRowModel>, names: Seq<String>) -> bool {
    &&& forall|p: int, q: int| 0 <= p < q < names.len() ==> (#[trigger] names[p])@ != (
    #[trigger] names[q])@
    &&& forall|p: int, q: int|
        #![trigger names[p], names[q]]
        0 <= p < q < names.len() ==> lex_lt(id_bytes(names[p]@), id_bytes(names[q]@))
            || id_bytes(names[p]@) == id_bytes(names[q]@)
    &&& forall|m: int| 0 <= m < names.len() ==> approved_has(rows, (#[trigger] names[m])@)
    &&& forall|k: int| 0 <= k < rows.len() && (#[trigger] rows[k]).attrs.approved
        ==> names_contain(names, rows[k].name)
}

/// The rows' names, in order.
pub open spec fn row_names(s: Seq<HashtagRowModel>) -> Seq<Seq<char>> {
    s.map_values(|r: HashtagRowModel| r.name)
}

/// Every name is the name of one of the first `i` rows.
spec fn names_from(names: Seq<String>, s: Seq<HashtagRowModel>, i: int) -> bool {
    forall|m: int| 0 <= m < names.len() ==> row_names(s).take(i).contains(
        (#[trigger] names[m])@,
    )
}

/// The in-memory hashtag table.  `entries` is exposed so that callers and
/// tests can inspect it; every operation keeps `wf` — one row per name.
pub struct HashtagTable {
    pub entries: Vec<HashtagRow>,
}

impl HashtagTable {
    pub open spec fn wf(&self) -> bool {
        rows_wf(self.entries.deep_view())
    }

    pub open spec fn rows(&self) -> Seq<HashtagRowModel> {
        self.entries.deep_view()
    }

    /// An empty table.
    pub fn new() -> (r: Self)
        ensures
            r.wf(),
            r.rows().len() == 0,
    {
        HashtagTable { entries: Vec::new() }
    }

    /// Casts a vote for `name`.
    pub fn increment_vote(&mut self, name: &String, now: i64)
        requires
            old(self).wf(),
        ensures
            final(self).wf(),
            final(self).rows() == vote_cast(old(self).rows(), name@, now as int),
    {
        let ghost s = self.rows();
        let mut k: usize = 0;
        while k < self.entries.len()
            invariant
                0 <= k <= self.entries@.len(),
                self.entries@ == old(self).entries@,
                s == self.rows(),
                s.len() == self.entries@.len(),
                rows_wf(s),
                forall|j: int| 0 <= j < k ==> (#[trigger] s[j]).name != name@,
            decreases self.entries@.len() - k,
        {
            if self.entries[k].name == *name {
                let attrs = self.entries[k].attrs;
                let votes = if attrs.votes < u16::MAX {
                    attrs.votes + 1
                } else {
                    attrs.votes
                };
                let row = HashtagRow {
                    name: name.clone(),
                    attrs: HashtagAttributes {
                        approved: attrs.approved,
                        votes,
                        created_at: attrs.created_at,
                    },
                };
                self.entries.set(k, row);
                proof {
                    assert(s[k as int].name == name@);
                    assert(row_idx(s, name@) == k as int) by {
                        let k2 = row_idx(s, name@);
                        assert(0 <= k2 < s.len() && s[k2].name == name@);
                        if k2 != k as int {
                            assert(s[k2].name != s[k as int].name);
                        }
                    }
                    assert(self.rows() =~= vote_cast(s, name@, now as int));
                    assert forall|i: int, j: int|
                        0 <= i < j < self.rows().len() implies (#[trigger] self.rows()[i]).name
                        != (#[trigger] self.rows()[j]).name by {
                        assert(self.rows()[i].name == s[i].name);
                        assert(self.rows()[j].name == s[j].name);
                    }
                }
                return;
            }
            k += 1;
        }
        let row = HashtagRow { name: name.clone(), attrs: HashtagAttributes::new_suggestion(now) };
        self.entries.push(row);
        proof {
            assert(!row_has(s, name@)) by {
                if row_has(s, name@) {
                    let p = row_idx(s, name@);
                    assert(0 <= p < s.len() && s[p].name == name@);
                }
            }
            assert(self.rows() =~= vote_cast(s, name@, now as int));
            let u = self.rows();
            let n = s.len() as int;
            assert forall|i: int, j: int| 0 <= i < j < u.len() implies (#[trigger] u[i]).name
                != (#[trigger] u[j]).name by {
                if j < n {
                    assert(u[i].name == s[i].name && u[j].name == s[j].name);
                } else {
                    assert(u[i].name == s[i].name);
                    if u[i].name == name@ {
                        assert(s[i].name == name@);
                    }
                }
            }
        }
    }

    /// A suggestion from a reader: an empty name is ignored, any other
    /// casts a vote.
    pub fn suggest_hashtag(&mut self, name: &String, now: i64)
        requires
            old(self).wf(),
        ensures
            final(self).wf(),
            name@.len() == 0 ==> final(self).rows() == old(self).rows(),
            name@.len() > 0 ==> final(self).rows() == vote_cast(
                old(self).rows(),
                name@,
                now as int,
            ),
    {
        if !name.as_str().is_empty() {
            self.increment_vote(name, now);
        }
    }

    /// The approved hashtag names, in lexicographic order.
    pub fn list_hashtags(&self) -> (r: Vec<String>)
        requires
            self.wf(),
        ensures
            listing_ok(self.rows(), r@),
    {
        broadcast use vstd::seq_lib::group_to_multiset_ensures;

        let ghost s = self.rows();
        let mut names: Vec<String> = Vec::new();
        let mut i: usize = 0;
        while i < self.entries.len()
            invariant
                0 <= i <= self.entries@.len(),
                s == self.rows(),
                s.len() == self.entries@.len(),
                forall|m: int| 0 <= m < names@.len() ==> approved_has(
                    s,
                    (#[trigger] names@[m])@,
                ),
                forall|p: int, q: int| 0 <= p < q < names@.len() ==> (#[trigger] names@[p])@ != (
                #[trigger] names@[q])@,
                rows_wf(s),
                forall|k: int| 0 <= k < i && (#[trigger] s[k]).attrs.approved ==> names_contain(
                    names@,
                    s[k].name,
                ),
                names_from(names@, s, i as int),
            decreases self.entries@.len() - i,
        {
            let ghost pre = names@;
            if self.entries[i].attrs.approved {
                names.push(self.entries[i].name.clone());
                proof {
                    let last = names@.len() - 1;
                    assert(names@[last]@ == s[i as int].name);
                    assert(approved_has(s, names@[last]@)) by {
                        assert(s[i as int].name == names@[last]@ && s[i as int].attrs.approved);
                    }
                    assert forall|p: int, q: int|
                        0 <= p < q < names@.len() implies (#[trigger] names@[p])@ != (
                    #[trigger] names@[q])@ by {
                        if q == last {
                            assert(names@[p] == pre[p]);
                            assert(row_names(s).take(i as int).contains(pre[p]@));
                            let k0 = choose|k: int|
                                0 <= k < row_names(s).take(i as int).len() && row_names(s).take(
                                    i as int,
                                )[k] == pre[p]@;
                            assert(row_names(s)[k0] == s[k0].name);
                            assert(s[k0].name != s[i as int].name);
                        }
                    }
                    assert forall|k: int|
                        0 <= k < i + 1 && (#[trigger] s[k]).attrs.approved implies names_contain(
                        names@,
                        s[k].name,
                    ) by {
                        if k < i {
                            let m0 = choose|m: int|
                                0 <= m < pre.len() && (#[trigger] pre[m])@ == s[k].name;
                            assert(names@[m0]@ == s[k].name);
                        } else {
                            assert(names@[last]@ == s[k].name);
                        }
                    }
                    assert(row_names(s).take(i + 1) =~= row_names(s).take(i as int).push(
                        s[i as int].name,
                    ));
                    assert forall|m: int| 0 <= m < names@.len() implies row_names(s).take(
                        i + 1,
                    ).contains((#[trigger] names@[m])@) by {
                        if m < last {
                            assert(names@[m] == pre[m]);
                            assert(row_names(s).take(i as int).contains(pre[m]@));
                            let k0 = choose|k: int|
                                0 <= k < row_names(s).take(i as int).len() && row_names(s).take(
                                    i as int,
                                )[k] == pre[m]@;
                            assert(row_names(s).take(i + 1)[k0] == names@[m]@);
                        } else {
                            assert(row_names(s).take(i + 1)[i as int] == names@[m]@);
                        }
                    }
                }
            } else {
                proof {
                    assert forall|k: int|
                        0 <= k < i + 1 && (#[trigger] s[k]).attrs.approved implies names_contain(
                        names@,
                        s[k].name,
                    ) by {
                        if k < i {
                            let m0 = choose|m: int|
                                0 <= m < pre.len() && (#[trigger] pre[m])@ == s[k].name;
                            assert(names@[m0]@ == s[k].name);
                        }
                    }
                    assert(row_names(s).take(i + 1) =~= row_names(s).take(i as int).push(
                        s[i as int].name,
                    ));
                    assert forall|m: int| 0 <= m < names@.len() implies row_names(s).take(
                        i + 1,
                    ).contains((#[trigger] names@[m])@) by {
                        assert(row_names(s).take(i as int).contains(pre[m]@));
                        let k0 = choose|k: int|
                            0 <= k < row_names(s).take(i as int).len() && row_names(s).take(
                                i as int,
                            )[k] == pre[m]@;
                        assert(row_names(s).take(i + 1)[k0] == names@[m]@);
                    }
                }
            }
            i += 1;
        }
        let ghost collected = names@;
        let r = sort_names(names);
        proof {
            collected.to_multiset_ensures();
            r@.to_multiset_ensures();
            assert forall|m: int| 0 <= m < r@.len() implies approved_has(
                s,
                (#[trigger] r@[m])@,
            ) by {
                assert(r@.contains(r@[m]));
                assert(r@.to_multiset().count(r@[m]) > 0);
                assert(collected.to_multiset().count(r@[m]) > 0);
                assert(collected.contains(r@[m]));
                let m0 = choose|k: int| 0 <= k < collected.len() && collected[k] == r@[m];
                assert(approved_has(s, collected[m0]@));
            }
            assert forall|k: int|
                0 <= k < s.len() && (#[trigger] s[k]).attrs.approved implies names_contain(
                r@,
                s[k].name,
            ) by {
                assert(names_contain(collected, s[k].name));
                let m0 = choose|m: int|
                    0 <= m < collected.len() && (#[trigger] collected[m])@ == s[k].name;
                assert(collected.contains(collected[m0]));
                assert(collected.to_multiset().count(collected[m0]) > 0);
                assert(r@.to_multiset().count(collected[m0]) > 0);
                assert(r@.contains(collected[m0]));
                let m1 = choose|m: int| 0 <= m < r@.len() && r@[m] == collected[m0];
                assert(r@[m1]@ == s[k].name);
            }
            assert forall|p: int, q: int| 0 <= p < q < r@.len() implies (#[trigger] r@[p])@ != (
            #[trigger] r@[q])@ by {
                lemma_distinct_names_permutation(collected, r@, p, q);
            }
        }
        r
    }
}

/// Two positions of a permutation of a distinct-name list hold different
/// names.
proof fn lemma_distinct_names_permutation(a: Seq<String>, b: Seq<String>, p: int, q: int)
    requires
        a.to_multiset() == b.to_multiset(),
        forall|i: int, j: int| 0 <= i < j < a.len() ==> (#[trigger] a[i])@ != (#[trigger] a[j])@,
        0 <= p < q < b.len(),
    ensures
        b[p]@ != b[q]@,
{
    a.to_multiset_ensures();
    b.to_multiset_ensures();
    if b[p]@ == b[q]@ {
        if b[p] == b[q] {
            assert(a.no_duplicates()) by {
                assert forall|i: int, j: int| 0 <= i < j < a.len() implies a[i] != a[j] by {
                    assert(a[i]@ != a[j]@);
                }
            }
            a.lemma_multiset_has_no_duplicates();
            b.lemma_multiset_has_no_duplicates_conv();
            assert(!b.no_duplicates());
        } else {
            assert(b.contains(b[p]));
            assert(b.to_multiset().count(b[p]) > 0);
            assert(a.to_multiset().count(b[p]) > 0);
            assert(a.contains(b[p]));
            assert(b.contains(b[q]));
            assert(b.to_multiset().count(b[q]) > 0);
            assert(a.to_multiset().count(b[q]) > 0);
            assert(a.contains(b[q]));
            let i1 = choose|i: int| 0 <= i < a.len() && a[i] == b[p];
            let i2 = choose|i: int| 0 <= i < a.len() && a[i] == b[q];
            assert(a[i1]@ == a[i2]@);
        }
    }
}

/// Sorts names lexicographically, byte order ascending.
fn sort_names(names: Vec<String>) -> (r: Vec<String>)
    ensures
        r@.to_multiset() == names@.to_multiset(),
        r@.len() == names@.len(),
        forall|p: int, q: int|
            #![trigger r@[p], r@[q]]
            0 <= p < q < r@.len() ==> lex_lt(id_bytes(r@[p]@), id_bytes(r@[q]@)) || id_bytes(
                r@[p]@,
            ) == id_bytes(r@[q]@),
{
    broadcast use vstd::seq_lib::group_to_multiset_ensures;

    let mut v = names;
    if v.len() < 2 {
        return v;
    }
    let ghost orig = v@;
    let mut i: usize = 1;
    while i < v.len()
        invariant
            1 <= i <= v@.len(),
            v@.len() == orig.len(),
            v@.len() >= 2,
            v@.to_multiset() == orig.to_multiset(),
            forall|p: int, q: int|
                #![trigger v@[p], v@[q]]
                0 <= p < q < i ==> lex_lt(id_bytes(v@[p]@), id_bytes(v@[q]@)) || id_bytes(
                    v@[p]@,
                ) == id_bytes(v@[q]@),
        decreases v@.len() - i,
    {
        let ghost pre = v@;
        let x = v.remove(i);
        let ghost w = v@;
        let mut j: usize = i;
        while j > 0 && lex_less(x.as_str(), v[j - 1].as_str())
            invariant
                0 <= j <= i,
                i < pre.len(),
                v@ == w,
                w == pre.remove(i as int),
                forall|k: int| j <= k < i ==> lex_lt(id_bytes(x@), id_bytes(
                    (#[trigger] w[k])@,
                )),
            decreases j,
        {
            j -= 1;
        }
        v.insert(j, x);
        proof {
            let u = v@;
            w.insert_ensures(j as int, x);
            vstd::seq_lib::to_multiset_remove(pre, i as int);
            vstd::seq_lib::to_multiset_insert(w, j as int, x);
            pre.to_multiset_ensures();
            assert(pre.contains(x));
            assert(u.to_multiset() =~= pre.to_multiset());
            if j > 0 {
                crate::ids::lemma_lex_total(id_bytes(x@), id_bytes(w[j - 1]@));
            }
            assert forall|p: int, q: int|
                #![trigger u[p], u[q]]
                0 <= p < q < i + 1 implies lex_lt(id_bytes(u[p]@), id_bytes(u[q]@)) || id_bytes(
                u[p]@,
            ) == id_bytes(u[q]@) by {
                let ji = j as int;
                if q < ji {
                    assert(u[p] == pre[p] && u[q] == pre[q]);
                } else if p < ji && q == ji {
                    assert(u[p] == pre[p]);
                    assert(w[ji - 1] == pre[ji - 1]);
                    // w[j-1] at or below x, and u[p] at or below w[j-1]
                    if p < ji - 1 {
                        if lex_lt(id_bytes(pre[p]@), id_bytes(pre[ji - 1]@)) {
                            if lex_lt(id_bytes(w[ji - 1]@), id_bytes(x@)) {
                                crate::ids::lemma_lex_lt_trans(
                                    id_bytes(u[p]@),
                                    id_bytes(w[ji - 1]@),
                                    id_bytes(x@),
                                );
                            }
                        }
                    }
                } else if p < ji && q > ji {
                    assert(u[p] == pre[p] && u[q] == w[q - 1] && w[q - 1] == pre[q - 1]);
                } else if p == ji {
                    assert(u[q] == w[q - 1]);
                } else {
                    assert(u[p] == w[p - 1] && u[q] == w[q - 1]);
                    assert(w[p - 1] == pre[p - 1] && w[q - 1] == pre[q - 1]);
                }
            }
        }
        i += 1;
    }
    proof {
        assert forall|p: int, q: int|
            #![trigger v@[p], v@[q]]
            0 <= p < q < v@.len() implies lex_lt(id_bytes(v@[p]@), id_bytes(v@[q]@)) || id_bytes(
            v@[p]@,
        ) == id_bytes(v@[q]@) by {
        }
    }
    v
}

} // verus!
