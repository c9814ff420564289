//! Per-hashtag pagination against the remote timeline.
//!
//! Pages arrive newest-first.  On the first fetch for a hashtag (no watermark
//! yet) one page is taken and the watermark records the ID of its last — that
//! is, oldest — item.  With a watermark set, pages are fetched with the
//! watermark as the exclusive lower bound; after each page the watermark
//! advances to the greatest ID observed in that page (compared by the ID
//! order, not by position), and pagination stops at the first empty page.
//! The caller persists the watermark after every page, so a crash mid-way
//! loses minimal progress.

use vstd::prelude::*;

verus! {

use crate::ids::{id_bytes, id_le_str, id_lt_str, id_less, lemma_id_le_transitive,
    lemma_id_order_strict_total};
use crate::merge::{sort_by_id_desc, sorted_desc_by_id};
use crate::record::{models_of, StatusModel, StatusRecord};
use vstd::string::StringSliceAdditionalSpecFns;

/// The view of an optional ID.
pub open spec fn opt_id(o: Option<String>) -> Option<Seq<char>> {
    match o {
        Some(s) => Some(s@),
        None => None,
    }
}

/// `id` is carried by some status of `page` and ranks at or above all of them.
pub open spec fn is_max_id(id: Seq<char>, page: Seq<StatusModel>) -> bool {
    &&& exists|k: int| 0 <= k < page.len() && (#[trigger] page[k]).id == id
    &&& forall|k: int| 0 <= k < page.len() ==> id_le_str((#[trigger] page[k]).id, id)
}

/// Finds a status carrying the greatest ID of a non-empty page.
pub fn page_max_index(page: &Vec<StatusRecord>) -> (r: usize)
    requires
        page@.len() > 0,
    ensures
        r < page@.len(),
        is_max_id(page@[r as int]@.id, models_of(page@)),
{
    let mut best: usize = 0;
    let mut i: usize = 1;
    while i < page.len()
        invariant
            0 <= best < i <= page@.len(),
            forall|k: int| 0 <= k < i ==> id_le_str(
                (#[trigger] page@[k])@.id,
                page@[best as int]@.id,
            ),
        decreases page@.len() - i,
    {
        if id_less(page[best].id.as_str(), page[i].id.as_str()) {
            let ghost ob = best as int;
            best = i;
            proof {
                assert forall|k: int| 0 <= k < i + 1 implies id_le_str(
                    (#[trigger] page@[k])@.id,
                    page@[best as int]@.id,
                ) by {
                    if k < i {
                        lemma_id_le_transitive(
                            id_bytes(page@[k]@.id),
                            id_bytes(page@[ob]@.id),
                            id_bytes(page@[best as int]@.id),
                        );
                    }
                }
            }
        } else {
            proof {
                lemma_id_order_strict_total(
                    id_bytes(page@[best as int]@.id),
                    id_bytes(page@[i as int]@.id),
                );
            }
        }
        i += 1;
    }
    proof {
        assert forall|k: int| 0 <= k < models_of(page@).len() implies id_le_str(
            (#[trigger] models_of(page@)[k]).id,
            page@[best as int]@.id,
        ) by {
            assert(models_of(page@)[k] == page@[k]@);
        }
        assert(models_of(page@)[best as int].id == page@[best as int]@.id);
    }
    best
}

/// Copies a page, record for record.
pub fn clone_statuses(v: &Vec<StatusRecord>) -> (r: Vec<StatusRecord>)
    ensures
        models_of(r@) == models_of(v@),
        r@.len() == v@.len(),
{
    let mut r: Vec<StatusRecord> = Vec::new();
    let mut i: usize = 0;
    while i < v.len()
        invariant
            0 <= i <= v@.len(),
            r@.len() == i,
            forall|k: int| 0 <= k < i ==> (#[trigger] r@[k])@ == v@[k]@,
        decreases v@.len() - i,
    {
        r.push(v[i].clone());
        i += 1;
    }
    proof {
        assert(models_of(r@) =~= models_of(v@));
    }
    r
}

/// Copies an optional ID.
pub fn clone_opt_id(o: &Option<String>) -> (r: Option<String>)
    ensures
        opt_id(r) == opt_id(*o),
{
    match o {
        Some(s) => Some(s.clone()),
        None => None,
    }
}

/// One pagination session for one hashtag.
pub struct Paginator {
    /// No watermark existed when the session began: take one page only.
    pub first_fetch: bool,
    /// The most recent status ID seen, advanced page by page.
    pub watermark: Option<String>,
    /// Everything fetched so far, in arrival order.
    pub collected: Vec<StatusRecord>,
    /// No further page is wanted.
    pub done: bool,
}

impl Paginator {
    /// Opens a session from the hashtag's stored watermark, if any.
    pub fn begin(watermark: Option<String>) -> (p: Self)
        ensures
            !p.done,
            p.collected@.len() == 0,
            p.first_fetch == (watermark is None),
            opt_id(p.watermark) == opt_id(watermark),
    {
        let first_fetch = watermark.is_none();
        Paginator { first_fetch, watermark, collected: Vec::new(), done: false }
    }

    /// The lower bound to fetch the next page with: `None` once the session
    /// is done, otherwise the current watermark (itself `None` on a first
    /// fetch, meaning "one page, no lower bound").
    pub fn next_request(&self) -> (r: Option<Option<String>>)
        ensures
            self.done <==> r is None,
            !self.done ==> opt_id(r.unwrap()) == opt_id(self.watermark),
    {
        if self.done {
            None
        } else {
            match &self.watermark {
                Some(s) => Some(Some(s.clone())),
                None => Some(None),
            }
        }
    }

    /// Feeds the page fetched for the last request.  Returns the watermark
    /// to persist now, if this page advanced it.
    pub fn on_page(&mut self, page: Vec<StatusRecord>) -> (persist: Option<String>)
        requires
            !old(self).done,
        ensures
            final(self).first_fetch == old(self).first_fetch,
            // a first fetch takes this one page and records its oldest item
            old(self).first_fetch ==> {
                &&& final(self).done
                &&& final(self).collected@ == page@
                &&& opt_id(final(self).watermark) == (if page@.len() == 0 {
                    opt_id(old(self).watermark)
                } else {
                    Some(page@[page@.len() - 1]@.id)
                })
                &&& opt_id(persist) == (if page@.len() == 0 {
                    None::<Seq<char>>
                } else {
                    Some(page@[page@.len() - 1]@.id)
                })
            },
            // with a watermark set, an empty page means "caught up"
            !old(self).first_fetch && page@.len() == 0 ==> {
                &&& final(self).done
                &&& final(self).collected@ == old(self).collected@
                &&& opt_id(final(self).watermark) == opt_id(old(self).watermark)
                &&& persist is None
            },
            // otherwise the page is kept and the watermark advances to the
            // greatest ID observed in it
            !old(self).first_fetch && page@.len() > 0 ==> {
                &&& !final(self).done
                &&& final(self).collected@ == old(self).collected@ + page@
                &&& persist is Some
                &&& opt_id(final(self).watermark) == opt_id(persist)
                &&& is_max_id(persist.unwrap()@, models_of(page@))
            },
    {
        if self.first_fetch {
            self.done = true;
            let persist = if page.len() > 0 {
                Some(page[page.len() - 1].id.clone())
            } else {
                None
            };
            match &persist {
                Some(id) => {
                    self.watermark = Some(id.clone());
                },
                None => {},
            }
            self.collected = page;
            persist
        } else if page.len() == 0 {
            self.done = true;
            None
        } else {
            let mut page = page;
            let mi = page_max_index(&page);
            let max_id = page[mi].id.clone();
            self.watermark = Some(max_id.clone());
            self.collected.append(&mut page);
            Some(max_id)
        }
    }

    /// Closes the session: everything fetched, sorted by ID newest first
    /// when the session paged through several pages.
    pub fn into_statuses(self) -> (r: Vec<StatusRecord>)
        requires
            self.done,
        ensures
            self.first_fetch ==> r@ == self.collected@,
            !self.first_fetch ==> r@.to_multiset() == self.collected@.to_multiset()
                && sorted_desc_by_id(r@),
    {
        if self.first_fetch {
            self.collected
        } else {
            let mut c = self.collected;
            sort_by_id_desc(&mut c);
            c
        }
    }
}

/// The number of pages a session with a watermark consumes before (and
/// including) the first empty page.
pub open spec fn first_empty_page(pages: Seq<Vec<StatusRecord>>) -> int
    decreases pages.len(),
{
    if pages.len() == 0 {
        0
    } else if pages[0]@.len() == 0 {
        0
    } else {
        1 + first_empty_page(pages.drop_first())
    }
}

proof fn lemma_first_empty_page(pages: Seq<Vec<StatusRecord>>)
    requires
        exists|k: int| 0 <= k < pages.len() && (#[trigger] pages[k])@.len() == 0,
    ensures
        0 <= first_empty_page(pages) < pages.len(),
        pages[first_empty_page(pages)]@.len() == 0,
        forall|k: int| 0 <= k < first_empty_page(pages) ==> (#[trigger] pages[k])@.len() > 0,
    decreases pages.len(),
{
    if pages.len() > 0 && pages[0]@.len() != 0 {
        let k0 = choose|k: int| 0 <= k < pages.len() && (#[trigger] pages[k])@.len() == 0;
        assert(pages.drop_first()[k0 - 1]@.len() == 0);
        lemma_first_empty_page(pages.drop_first());
        let ne = first_empty_page(pages);
        assert(pages[ne] == pages.drop_first()[ne - 1]);
        assert forall|k: int| 0 <= k < ne implies (#[trigger] pages[k])@.len() > 0 by {
            if k > 0 {
                assert(pages[k] == pages.drop_first()[k - 1]);
            }
        }
    }
}

/// `pages_flat` over the first `n` pages.
pub open spec fn flat_upto(pages: Seq<Vec<StatusRecord>>, n: int) -> Seq<StatusRecord> {
    crate::merge::pages_flat(pages.take(n))
}

proof fn lemma_flat_upto_step(pages: Seq<Vec<StatusRecord>>, n: int)
    requires
        0 <= n < pages.len(),
    ensures
        flat_upto(pages, n + 1) == flat_upto(pages, n) + pages[n]@,
    decreases n,
{
    let a = pages.take(n).map_values(|p: Vec<StatusRecord>| p@);
    let b = pages.take(n + 1).map_values(|p: Vec<StatusRecord>| p@);
    assert(b =~= a.push(pages[n]@));
    lemma_flatten_push(a, pages[n]@);
    assert(flat_upto(pages, n + 1) == a.push(pages[n]@).flatten());
}

pub proof fn lemma_flatten_push<A>(s: Seq<Seq<A>>, e: Seq<A>)
    ensures
        s.push(e).flatten() == s.flatten() + e,
    decreases s.len(),
{
    if s.len() == 0 {
        assert(s.push(e) =~= seq![e]);
        assert(seq![e].drop_first() =~= Seq::<Seq<A>>::empty());
        assert(Seq::<Seq<A>>::empty().flatten() =~= Seq::<A>::empty());
        assert(seq![e].flatten() == seq![e][0] + seq![e].drop_first().flatten());
        assert(seq![e].flatten() =~= e);
        assert(s.flatten() + e =~= e);
    } else {
        assert(s.push(e).drop_first() =~= s.drop_first().push(e));
        lemma_flatten_push(s.drop_first(), e);
        assert(s.push(e).flatten() == s.push(e)[0] + s.push(e).drop_first().flatten());
        assert(s.push(e)[0] == s[0]);
        assert(s[0] + (s.drop_first().flatten() + e) =~= (s[0] + s.drop_first().flatten()) + e);
    }
}

/// Pages a whole session through a given list of pages, as a client that
/// answers the j-th request with `pages[j]` would drive it.  Stops after the
/// first empty page (with a watermark set), or after one page (without).
///
/// Returns the statuses, how many pages were consumed, and the watermark
/// left behind.
pub fn paginate_pages(watermark: Option<String>, pages: &Vec<Vec<StatusRecord>>) -> (out: (
    Vec<StatusRecord>,
    usize,
    Option<String>,
))
    requires
        watermark is None ==> pages@.len() >= 1,
        watermark is Some ==> exists|k: int|
            0 <= k < pages@.len() && (#[trigger] pages@[k])@.len() == 0,
    ensures
        // first fetch: one page, watermark at its oldest item
        watermark is None ==> {
            &&& out.1 == 1
            &&& models_of(out.0@) == models_of(pages@[0]@)
            &&& opt_id(out.2) == (if pages@[0]@.len() == 0 {
                None::<Seq<char>>
            } else {
                Some(pages@[0]@[pages@[0]@.len() - 1]@.id)
            })
        },
        // incremental: everything before the first empty page, sorted
        watermark is Some ==> {
            let ne = first_empty_page(pages@);
            &&& out.1 == ne + 1
            &&& sorted_desc_by_id(out.0@)
            &&& models_of(out.0@).to_multiset() == models_of(flat_upto(pages@, ne)).to_multiset()
            &&& (ne == 0 ==> opt_id(out.2) == opt_id(watermark))
            &&& (ne > 0 ==> out.2 is Some && is_max_id(
                out.2.unwrap()@,
                models_of(pages@[ne - 1]@),
            ))
        },
{
    let first = watermark.is_none();
    let total = pages.len();
    let mut pag = Paginator::begin(watermark);
    let mut j: usize = 0;
    if first {
        let page = clone_statuses(&pages[0]);
        let ghost pv = page@;
        pag.on_page(page);
        j = 1;
        let wm_out = clone_opt_id(&pag.watermark);
        let r = pag.into_statuses();
        proof {
            assert(models_of(r@) == models_of(pv));
            assert(models_of(pv) == models_of(pages@[0]@));
            if pv.len() > 0 {
                assert(pv[pv.len() - 1]@ == models_of(pv)[pv.len() - 1]);
                assert(pv[pv.len() - 1]@.id == pages@[0]@[pages@[0]@.len() - 1]@.id);
            }
        }
        return (r, j, wm_out);
    }
    proof {
        lemma_first_empty_page(pages@);
    }
    let ghost ne = first_empty_page(pages@);
    while !pag.done
        invariant
            !pag.first_fetch,
            pages@.len() <= usize::MAX,
            0 <= j <= pages@.len(),
            ne == first_empty_page(pages@),
            0 <= ne < pages@.len(),
            pages@[ne]@.len() == 0,
            forall|k: int| 0 <= k < ne ==> (#[trigger] pages@[k])@.len() > 0,
            !pag.done ==> j <= ne,
            pag.done ==> j == ne + 1,
            models_of(pag.collected@) == models_of(flat_upto(pages@, if j <= ne {
                j as int
            } else {
                ne
            })),
            j == 0 ==> opt_id(pag.watermark) == opt_id(watermark),
            1 <= j <= ne ==> pag.watermark is Some && is_max_id(
                pag.watermark.unwrap()@,
                models_of(pages@[j - 1]@),
            ),
            pag.done ==> (ne == 0 ==> opt_id(pag.watermark) == opt_id(watermark)),
            pag.done ==> (ne > 0 ==> pag.watermark is Some && is_max_id(
                pag.watermark.unwrap()@,
                models_of(pages@[ne - 1]@),
            )),
        decreases pages@.len() - j,
    {
        let ghost old_collected = pag.collected@;
        let page = clone_statuses(&pages[j]);
        let ghost page_view = page@;
        pag.on_page(page);
        proof {
            lemma_flat_upto_step(pages@, j as int);
            if page_view.len() > 0 {
                assert(models_of(pag.collected@) =~= models_of(old_collected) + models_of(
                    page_view,
                ));
                assert(models_of(flat_upto(pages@, j + 1)) =~= models_of(
                    flat_upto(pages@, j as int),
                ) + models_of(pages@[j as int]@));
            } else {
                assert(j == ne);
            }
        }
        j += 1;
    }
    let ghost final_collected = pag.collected@;
    let wm_out = clone_opt_id(&pag.watermark);
    let r = pag.into_statuses();
    proof {
        lemma_models_multiset_equal(r@, final_collected);
    }
    (r, j, wm_out)
}

/// Two lists holding the same statuses hold the same status models.
pub proof fn lemma_models_multiset_equal(a: Seq<StatusRecord>, b: Seq<StatusRecord>)
    requires
        a.to_multiset() == b.to_multiset(),
    ensures
        models_of(a).to_multiset() == models_of(b).to_multiset(),
    decreases a.len(),
{
    a.to_multiset_ensures();
    b.to_multiset_ensures();
    if a.len() == 0 {
        assert(b.len() == 0);
        assert(models_of(a) =~= models_of(b));
    } else {
        let x = a.last();
        assert(a.contains(x));
        assert(b.to_multiset().contains(x));
        assert(b.contains(x));
        let j = choose|k: int| 0 <= k < b.len() && b[k] == x;
        let a1 = a.drop_last();
        let b1 = b.remove(j);
        vstd::seq_lib::to_multiset_remove(b, j);
        assert(a.drop_last().push(x) =~= a);
        vstd::seq_lib::to_multiset_build(a1, x);
        assert(a1.to_multiset() =~= b1.to_multiset());
        lemma_models_multiset_equal(a1, b1);
        assert(models_of(b1) =~= models_of(b).remove(j));
        vstd::seq_lib::to_multiset_remove(models_of(b), j);
        assert(models_of(a1).push(x@) =~= models_of(a));
        vstd::seq_lib::to_multiset_build(models_of(a1), x@);
        models_of(b).to_multiset_ensures();
        assert(models_of(b).contains(models_of(b)[j]));
        assert(models_of(b)[j] == x@);
        assert(models_of(a).to_multiset() =~= models_of(b).to_multiset());
    }
}

/// Law (pagination termination): with a watermark set and the remote client
/// answering successive requests with `p1`, `p2` and an empty page — later
/// pages strictly newer, as the remote lower-bounded fetch guarantees — a
/// session consumes exactly the three pages, returns the statuses of `p1`
/// and `p2`, and leaves the watermark at the greatest ID across both pages.
pub proof fn lemma_pagination_two_pages(
    pages: Seq<Vec<StatusRecord>>,
    p1: Vec<StatusRecord>,
    p2: Vec<StatusRecord>,
    e: Vec<StatusRecord>,
    w: Seq<char>,
)
    requires
        pages == seq![p1, p2, e],
        p1@.len() > 0,
        p2@.len() > 0,
        e@.len() == 0,
        forall|i: int, j: int| 0 <= i < p1@.len() && 0 <= j < p2@.len() ==> id_lt_str(
            (#[trigger] p1@[i])@.id,
            (#[trigger] p2@[j])@.id,
        ),
        is_max_id(w, models_of(p2@)),
    ensures
        first_empty_page(pages) == 2,
        flat_upto(pages, 2) == p1@ + p2@,
        is_max_id(w, models_of(p1@ + p2@)),
{
    assert(pages[0] == p1 && pages[1] == p2 && pages[2] == e);
    assert(seq![e][0] == e);
    assert(first_empty_page(seq![e]) == 0);
    assert(seq![p2, e].drop_first() =~= seq![e]);
    assert(seq![p2, e][0] == p2);
    assert(first_empty_page(seq![p2, e]) == 1 + first_empty_page(seq![e]));
    assert(pages.drop_first() =~= seq![p2, e]);
    assert(first_empty_page(pages) == 1 + first_empty_page(seq![p2, e]));
    assert(first_empty_page(pages) == 2);
    lemma_flat_upto_step(pages, 0);
    lemma_flat_upto_step(pages, 1);
    assert(flat_upto(pages, 0) =~= Seq::<StatusRecord>::empty());
    assert(flat_upto(pages, 1) =~= p1@);
    assert(flat_upto(pages, 2) =~= p1@ + p2@);
    let both = models_of(p1@ + p2@);
    let k2 = choose|k: int| 0 <= k < models_of(p2@).len() && models_of(p2@)[k].id == w;
    assert(both[p1@.len() + k2].id == w);
    assert forall|k: int| 0 <= k < both.len() implies id_le_str((#[trigger] both[k]).id, w) by {
        if k < p1@.len() {
            assert(both[k] == p1@[k]@);
            assert(id_lt_str(p1@[k]@.id, p2@[0]@.id));
            assert(id_le_str(models_of(p2@)[0].id, w));
            lemma_id_le_transitive(
                id_bytes(p1@[k]@.id),
                id_bytes(p2@[0]@.id),
                id_bytes(w),
            );
        } else {
            assert(both[k] == p2@[k - p1@.len()]@);
            assert(id_le_str(models_of(p2@)[k - p1@.len()].id, w));
        }
    }
}

} // verus!
