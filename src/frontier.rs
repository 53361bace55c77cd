use vstd::prelude::*;

use crate::cache::{is_frontier, CacheSnapshot};
use crate::model::{RemotePullRequest, Timestamp};

verus! {

/// Paging stops after `page` when the remote is exhausted (an empty page), or
/// when the page's oldest item is no newer than the frontier `f`.
pub open spec fn stop_after(page: Seq<RemotePullRequest>, f: Option<Timestamp>) -> bool {
    page.len() == 0 || (f matches Some(t) && t >= page.last().updated_at)
}

/// All items of `pages`, page after page.
pub open spec fn flatten(pages: Seq<Seq<RemotePullRequest>>) -> Seq<RemotePullRequest>
    decreases pages.len(),
{
    if pages.len() == 0 {
        Seq::empty()
    } else {
        flatten(pages.drop_last()) + pages.last()
    }
}

/// Paging through `pages` with frontier `f` stops after page `k` and no earlier.
pub open spec fn first_stop(pages: Seq<Seq<RemotePullRequest>>, f: Option<Timestamp>, k: int) -> bool {
    &&& 0 <= k < pages.len()
    &&& stop_after(pages[k], f)
    &&& forall|j: int| 0 <= j < k ==> !stop_after(#[trigger] pages[j], f)
}

/// The items of each page of `listing`.
pub open spec fn pages_of(listing: Seq<Vec<RemotePullRequest>>) -> Seq<Seq<RemotePullRequest>> {
    listing.map_values(|p: Vec<RemotePullRequest>| p@)
}

/// A map has a single frontier.
pub proof fn lemma_frontier_unique(m: Map<u64, Timestamp>, f: Option<Timestamp>, g: Option<Timestamp>)
    requires
        is_frontier(m, f),
        is_frontier(m, g),
    ensures
        f == g,
{
    match (f, g) {
        (Some(a), Some(b)) => {
            let k = choose|k: u64| m.contains_key(k) && m[k] == a;
            let l = choose|l: u64| m.contains_key(l) && m[l] == b;
        },
        (Some(a), None) => {
            let k = choose|k: u64| m.contains_key(k) && m[k] == a;
            assert(m.dom().contains(k));
        },
        (None, Some(b)) => {
            let l = choose|l: u64| m.contains_key(l) && m[l] == b;
            assert(m.dom().contains(l));
        },
        (None, None) => {},
    }
}

/// Whether paging stops after `page`, given the frontier `f`.
pub fn should_stop(page: &Vec<RemotePullRequest>, f: Option<Timestamp>) -> (r: bool)
    ensures
        r == stop_after(page@, f),
{
    if page.len() == 0 {
        return true;
    }
    match f {
        Some(t) => t >= page[page.len() - 1].updated_at,
        None => false,
    }
}

/// Collects the pages of a descending-by-update listing until paging may stop.
pub struct PageCollector {
    pub frontier: Option<Timestamp>,
    pub collected: Vec<RemotePullRequest>,
    pub pages: Ghost<Seq<Seq<RemotePullRequest>>>,
    pub fetched: usize,
    pub done: bool,
}

impl PageCollector {
    /// The collected items are the fetched pages, and no fetched page but the last stops paging.
    pub open spec fn wf(&self) -> bool {
        &&& self.collected@ == flatten(self.pages@)
        &&& self.fetched == self.pages@.len()
        &&& forall|j: int| 0 <= j < self.pages@.len() - 1 ==> !stop_after(#[trigger] self.pages@[j], self.frontier)
        &&& self.done == (self.pages@.len() > 0 && stop_after(self.pages@.last(), self.frontier))
    }

    /// Starts paging for a repository whose cached state is `cache`.
    pub fn new(cache: &CacheSnapshot) -> (r: Self)
        requires
            cache.wf(),
        ensures
            r.wf(),
            is_frontier(cache@, r.frontier),
            r.pages@.len() == 0,
            !r.done,
    {
        PageCollector {
            frontier: cache.frontier(),
            collected: Vec::new(),
            pages: Ghost(Seq::empty()),
            fetched: 0,
            done: false,
        }
    }

    /// The index of the next page to fetch, counting from zero.
    pub fn next_page(&self) -> (r: usize)
        ensures
            r == self.fetched,
    {
        self.fetched
    }

    /// Takes in the next page and says whether paging stops after it.
    pub fn accept_page(&mut self, page: Vec<RemotePullRequest>) -> (stop: bool)
        requires
            old(self).wf(),
            !old(self).done,
            old(self).fetched < usize::MAX,
        ensures
            final(self).wf(),
            final(self).frontier == old(self).frontier,
            final(self).pages@ == old(self).pages@.push(page@),
            final(self).collected@ == old(self).collected@ + page@,
            stop == final(self).done,
            stop == stop_after(page@, old(self).frontier),
    {
        let stop = should_stop(&page, self.frontier);
        let ghost before = self.pages@;
        let ghost pv = page@;
        let mut page = page;
        self.collected.append(&mut page);
        self.pages = Ghost(before.push(pv));
        proof {
            assert(self.pages@.drop_last() == before);
        }
        self.fetched = self.fetched + 1;
        self.done = stop;
        stop
    }
}

/// Pages through a listing whose pages are already at hand, as a sync pass
/// does, and returns the collected items and how many pages were taken: up to
/// the first page after which paging stops, or all of them.
pub fn collect_listing(cache: &CacheSnapshot, listing: Vec<Vec<RemotePullRequest>>) -> (r: (
    Vec<RemotePullRequest>,
    usize,
))
    requires
        cache.wf(),
    ensures
        r.1 <= listing@.len(),
        r.0@ == flatten(pages_of(listing@).take(r.1 as int)),
        forall|f: Option<Timestamp>|
            is_frontier(cache@, f) ==> (first_stop(pages_of(listing@), f, r.1 - 1) || (r.1
                == listing@.len() && forall|j: int|
                0 <= j < listing@.len() ==> !stop_after(#[trigger] listing@[j]@, f))),
{
    let ghost lv = pages_of(listing@);
    let n = listing.len();
    let mut c = PageCollector::new(cache);
    let mut rest = listing;
    let mut k: usize = 0;
    assert(c.pages@ =~= lv.take(0));
    assert(pages_of(rest@) =~= lv.subrange(0, n as int));
    while k < n && !c.done
        invariant
            c.wf(),
            n == lv.len(),
            c.fetched == k,
            k <= n,
            pages_of(rest@) == lv.subrange(k as int, n as int),
            c.pages@ == lv.take(k as int),
            is_frontier(cache@, c.frontier),
        decreases n - k,
    {
        let ghost before = rest@;
        assert(pages_of(rest@).len() == rest@.len());
        let page = rest.remove(0);
        proof {
            assert(pages_of(before)[0] == lv[k as int]);
            assert(pages_of(rest@) =~= pages_of(before).drop_first());
            assert(pages_of(rest@) =~= lv.subrange(k + 1, n as int));
        }
        c.accept_page(page);
        k += 1;
        assert(c.pages@ =~= lv.take(k as int));
    }
    proof {
        assert forall|f: Option<Timestamp>| is_frontier(cache@, f) implies (first_stop(lv, f, k - 1) || (k == n
            && forall|j: int| 0 <= j < n ==> !stop_after(#[trigger] listing@[j]@, f))) by {
            lemma_frontier_unique(cache@, f, c.frontier);
            assert forall|j: int| 0 <= j < k implies lv[j] == #[trigger] c.pages@[j] by {}
            if c.done {
                assert(c.pages@.last() == lv[k - 1]);
                assert forall|j: int| 0 <= j < k - 1 implies !stop_after(#[trigger] lv[j], f) by {
                    assert(c.pages@[j] == lv[j]);
                }
            } else {
                assert forall|j: int| 0 <= j < n implies !stop_after(#[trigger] listing@[j]@, f) by {
                    assert(lv[j] == listing@[j]@);
                    assert(c.pages@[j] == lv[j]);
                }
            }
        }
    }
    (c.collected, k)
}

} // verus!
