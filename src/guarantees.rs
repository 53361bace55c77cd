use vstd::prelude::*;

use vstd::multiset::Multiset;

use crate::delta::{first_copy, has_number, is_work_list, needs_update, sorted_by_update};
use crate::cache::is_frontier;
use crate::frontier::{first_stop, flatten, stop_after};
use crate::model::{RemotePullRequest, ReviewRecord, PullRequestRecord, ReportFilter, Timestamp};
use crate::report::{approval_facts, approval_selected, has_row, is_report, items_under, key_is, lemma_items_under, Fact};

verus! {

broadcast use {vstd::seq_lib::group_to_multiset_ensures, vstd::multiset::group_multiset_axioms};

/// The cached update times after the pull requests of `w` were written, in order.
pub open spec fn commit_all(m: Map<u64, Timestamp>, w: Seq<RemotePullRequest>) -> Map<u64, Timestamp>
    decreases w.len(),
{
    if w.len() == 0 {
        m
    } else {
        commit_all(m, w.drop_last()).insert(w.last().number, w.last().updated_at)
    }
}

/// No two pull requests of a listing share a number.
pub open spec fn distinct_numbers(prs: Seq<RemotePullRequest>) -> bool {
    forall|i: int, j: int| 0 <= i < j < prs.len() ==> #[trigger] prs[i].number != #[trigger] prs[j].number
}

proof fn lemma_commit_covers(m: Map<u64, Timestamp>, w: Seq<RemotePullRequest>)
    requires
        sorted_by_update(w),
    ensures
        forall|i: int| 0 <= i < w.len() ==> commit_all(m, w).contains_key(#[trigger] w[i].number)
            && commit_all(m, w)[w[i].number] >= w[i].updated_at,
    decreases w.len(),
{
    if w.len() > 0 {
        let w0 = w.drop_last();
        lemma_commit_covers(m, w0);
        assert forall|i: int| 0 <= i < w.len() implies commit_all(m, w).contains_key(#[trigger] w[i].number)
            && commit_all(m, w)[w[i].number] >= w[i].updated_at by {
            if i < w.len() - 1 {
                assert(w0[i] == w[i]);
                assert(w[i].updated_at <= w[w.len() - 1].updated_at);
            }
        }
    }
}

proof fn lemma_commit_grows(m: Map<u64, Timestamp>, w: Seq<RemotePullRequest>)
    requires
        forall|i: int| 0 <= i < w.len() ==> needs_update(m, #[trigger] w[i]),
    ensures
        forall|k: u64| m.contains_key(k) ==> commit_all(m, w).contains_key(k) && commit_all(m, w)[k] >= m[k],
    decreases w.len(),
{
    if w.len() > 0 {
        let w0 = w.drop_last();
        assert forall|i: int| 0 <= i < w0.len() implies needs_update(m, #[trigger] w0[i]) by {
            assert(w0[i] == w[i]);
        }
        lemma_commit_grows(m, w0);
        assert(needs_update(m, w[w.len() - 1]));
    }
}

proof fn lemma_commit_untouched(m: Map<u64, Timestamp>, w: Seq<RemotePullRequest>, n: u64)
    requires
        forall|i: int| 0 <= i < w.len() ==> (#[trigger] w[i]).number != n,
    ensures
        commit_all(m, w).contains_key(n) == m.contains_key(n),
        m.contains_key(n) ==> commit_all(m, w)[n] == m[n],
    decreases w.len(),
{
    if w.len() > 0 {
        let w0 = w.drop_last();
        assert forall|i: int| 0 <= i < w0.len() implies (#[trigger] w0[i]).number != n by {
            assert(w0[i] == w[i]);
        }
        lemma_commit_untouched(m, w0, n);
        assert(w[w.len() - 1].number != n);
    }
}

proof fn lemma_work_item_needs_update(m: Map<u64, Timestamp>, prs: Seq<RemotePullRequest>, w: Seq<RemotePullRequest>)
    requires
        is_work_list(m, prs, w),
    ensures
        forall|i: int| 0 <= i < w.len() ==> needs_update(m, #[trigger] w[i]) && first_copy(prs, w[i]),
{
    assert forall|i: int| 0 <= i < w.len() implies needs_update(m, #[trigger] w[i]) && first_copy(prs, w[i]) by {
        assert(w.contains(w[i]));
        assert(w.to_multiset().count(w[i]) > 0);
    }
}

proof fn lemma_first_copy_of_prefix(prs: Seq<RemotePullRequest>, l: int, x: RemotePullRequest)
    requires
        0 <= l <= prs.len(),
        first_copy(prs.take(l), x),
    ensures
        first_copy(prs, x),
{
    let p = prs.take(l);
    let j = choose|j: int| 0 <= j < p.len() && p[j] == x && !has_number(p.take(j), x.number);
    assert(p.take(j) =~= prs.take(j));
    assert(prs[j] == x);
}

/// A pass that wrote its whole work list leaves nothing to do: a rerun whose
/// listing is a prefix of the first one (the remote did not change, and the
/// rerun stops paging no later, see `lemma_rerun_pages_no_further`) finds no
/// pull request that needs a refresh and selects no work at all.
pub proof fn lemma_rerun_after_full_pass_selects_nothing(
    m: Map<u64, Timestamp>,
    prs: Seq<RemotePullRequest>,
    w: Seq<RemotePullRequest>,
    prs2: Seq<RemotePullRequest>,
)
    requires
        is_work_list(m, prs, w),
        prs2.len() <= prs.len(),
        prs2 == prs.take(prs2.len() as int),
    ensures
        forall|x: RemotePullRequest| first_copy(prs2, x) ==> !needs_update(commit_all(m, w), x),
        forall|w2: Seq<RemotePullRequest>| is_work_list(commit_all(m, w), prs2, w2) ==> w2.len() == 0,
{
    let m2 = commit_all(m, w);
    lemma_work_item_needs_update(m, prs, w);
    lemma_commit_covers(m, w);
    lemma_commit_grows(m, w);
    assert forall|x: RemotePullRequest| first_copy(prs2, x) implies !needs_update(m2, x) by {
        lemma_first_copy_of_prefix(prs, prs2.len() as int, x);
        if needs_update(m, x) {
            assert(w.to_multiset().count(x) > 0);
            assert(w.contains(x));
            let i = choose|i: int| 0 <= i < w.len() && w[i] == x;
            assert(m2.contains_key(w[i].number));
        }
    }
    assert forall|w2: Seq<RemotePullRequest>| is_work_list(m2, prs2, w2) implies w2.len() == 0 by {
        assert forall|x: RemotePullRequest| w2.to_multiset().count(x) == 0 by {}
        assert(w2.to_multiset() =~= Multiset::empty());
        assert(w2.to_multiset().len() == 0);
    }
}

/// A rerun after writing a work list stops paging no later than the pass
/// before it: writing only raises the cached times, so the frontier does not
/// go down, and the page after which the first pass stopped stops the rerun
/// too.
pub proof fn lemma_rerun_pages_no_further(
    m: Map<u64, Timestamp>,
    prs: Seq<RemotePullRequest>,
    w: Seq<RemotePullRequest>,
    pages: Seq<Seq<RemotePullRequest>>,
    f1: Option<Timestamp>,
    f2: Option<Timestamp>,
    k1: int,
)
    requires
        is_work_list(m, prs, w),
        is_frontier(m, f1),
        is_frontier(commit_all(m, w), f2),
        first_stop(pages, f1, k1),
    ensures
        stop_after(pages[k1], f2),
        forall|k2: int| first_stop(pages, f2, k2) ==> k2 <= k1,
{
    let m2 = commit_all(m, w);
    lemma_work_item_needs_update(m, prs, w);
    lemma_commit_grows(m, w);
    if pages[k1].len() > 0 {
        let t1 = f1->0;
        let key = choose|key: u64| m.contains_key(key) && m[key] == t1;
        assert(m2.contains_key(key));
        if f2 is None {
            assert(m2.dom().contains(key));
        }
        assert(f2->0 >= m2[key]);
    }
    assert forall|k2: int| first_stop(pages, f2, k2) implies k2 <= k1 by {
        if k2 > k1 {
            assert(!stop_after(pages[k1], f2));
        }
    }
}

/// The items of the first `a` pages start the items of the first `b` pages.
pub proof fn lemma_flatten_prefix(pages: Seq<Seq<RemotePullRequest>>, a: int, b: int)
    requires
        0 <= a <= b <= pages.len(),
    ensures
        flatten(pages.take(a)).len() <= flatten(pages.take(b)).len(),
        flatten(pages.take(a)) == flatten(pages.take(b)).take(flatten(pages.take(a)).len() as int),
    decreases b - a,
{
    if a == b {
        assert(flatten(pages.take(b)).take(flatten(pages.take(b)).len() as int) =~= flatten(pages.take(b)));
    } else {
        lemma_flatten_prefix(pages, a, b - 1);
        assert(pages.take(b).drop_last() =~= pages.take(b - 1));
        let fa = flatten(pages.take(a));
        let fb1 = flatten(pages.take(b - 1));
        let fb = flatten(pages.take(b));
        assert(fb == fb1 + pages.take(b).last());
        assert(fa =~= fb.take(fa.len() as int));
    }
}

/// Resuming an interrupted pass: when the first `k` items of a work list were
/// written and the pass stopped, a rerun on the same listing selects exactly
/// the items from `k` on, each once, and nothing of the first `k`.
pub proof fn lemma_rerun_resumes_after_committed_prefix(
    m: Map<u64, Timestamp>,
    prs: Seq<RemotePullRequest>,
    w: Seq<RemotePullRequest>,
    k: int,
    w2: Seq<RemotePullRequest>,
)
    requires
        is_work_list(m, prs, w),
        0 <= k <= w.len(),
        is_work_list(commit_all(m, w.take(k)), prs, w2),
    ensures
        w2.to_multiset() == w.skip(k).to_multiset(),
{
    let done = w.take(k);
    let left = w.skip(k);
    let m2 = commit_all(m, done);
    assert(w == done + left);
    vstd::seq_lib::lemma_multiset_commutative(done, left);
    assert(w.to_multiset() == done.to_multiset().add(left.to_multiset()));
    lemma_work_item_needs_update(m, prs, w);
    assert(sorted_by_update(done));
    lemma_commit_covers(m, done);
    assert forall|i: int| 0 <= i < done.len() implies needs_update(m, #[trigger] done[i]) by {
        assert(done[i] == w[i]);
    }
    lemma_commit_grows(m, done);
    assert forall|x: RemotePullRequest| w2.to_multiset().count(x) == left.to_multiset().count(x) by {
        assert(w.to_multiset().count(x) == done.to_multiset().count(x) + left.to_multiset().count(x));
        if first_copy(prs, x) {
            if needs_update(m, x) {
                assert(w.to_multiset().count(x) == 1);
                if done.contains(x) {
                    assert(done.to_multiset().count(x) > 0);
                    let i = choose|i: int| 0 <= i < done.len() && done[i] == x;
                    assert(m2.contains_key(done[i].number));
                    assert(!needs_update(m2, x));
                } else {
                    assert(done.to_multiset().count(x) == 0);
                    assert(left.to_multiset().count(x) == 1);
                    assert(left.contains(x));
                    let p = choose|p: int| 0 <= p < left.len() && left[p] == x;
                    assert(w[k + p] == x);
                    assert forall|i: int| 0 <= i < done.len() implies (#[trigger] done[i]).number != x.number by {
                        assert(done[i] == w[i]);
                        assert(w[i].number != w[k + p].number);
                    }
                    lemma_commit_untouched(m, done, x.number);
                    assert(needs_update(m2, x));
                }
            } else {
                assert(m.contains_key(x.number));
                assert(!needs_update(m2, x));
                assert(w.to_multiset().count(x) == 0);
            }
        } else {
            assert(w.to_multiset().count(x) == 0);
        }
    }
    assert(w2.to_multiset() =~= left.to_multiset());
}

/// Strictly ascending by update time.
pub open spec fn strictly_sorted(s: Seq<RemotePullRequest>) -> bool {
    forall|i: int, j: int| 0 <= i < j < s.len() ==> #[trigger] s[i].updated_at < #[trigger] s[j].updated_at
}

proof fn lemma_strictly_sorted_unique(a: Seq<RemotePullRequest>, b: Seq<RemotePullRequest>)
    requires
        strictly_sorted(a),
        strictly_sorted(b),
        a.to_multiset() == b.to_multiset(),
    ensures
        a == b,
    decreases a.len(),
{
    if a.len() == 0 {
        assert(b.to_multiset().len() == 0);
        assert(b.len() == 0);
        assert(a =~= b);
    } else {
        assert(a.to_multiset().count(a[0]) > 0);
        assert(b.contains(a[0]));
        let j = choose|j: int| 0 <= j < b.len() && b[j] == a[0];
        assert(b.to_multiset().count(b[0]) > 0);
        assert(a.contains(b[0]));
        let i = choose|i: int| 0 <= i < a.len() && a[i] == b[0];
        if j > 0 {
            assert(b[0].updated_at < b[j].updated_at);
            if i > 0 {
                assert(a[0].updated_at < a[i].updated_at);
            }
        }
        assert(a[0] == b[0]);
        assert(a.remove(0) =~= a.drop_first());
        assert(b.remove(0) =~= b.drop_first());
        assert(a.drop_first().to_multiset() =~= b.drop_first().to_multiset());
        lemma_strictly_sorted_unique(a.drop_first(), b.drop_first());
        assert(a.len() == b.len()) by {
            assert(a.len() == a.to_multiset().len());
            assert(b.len() == b.to_multiset().len());
        }
        assert forall|x: int| 0 <= x < a.len() implies a[x] == b[x] by {
            if x > 0 {
                assert(a[x] == a.drop_first()[x - 1]);
                assert(b[x] == b.drop_first()[x - 1]);
            }
        }
        assert(a =~= b);
    }
}

proof fn lemma_work_list_strict(m: Map<u64, Timestamp>, prs: Seq<RemotePullRequest>, w: Seq<RemotePullRequest>)
    requires
        is_work_list(m, prs, w),
        forall|i: int, j: int| 0 <= i < j < prs.len() ==> #[trigger] prs[i].updated_at != #[trigger] prs[j].updated_at,
    ensures
        strictly_sorted(w),
{
    lemma_work_item_needs_update(m, prs, w);
    assert forall|a: int, b: int| 0 <= a < b < w.len() implies #[trigger] w[a].updated_at < #[trigger] w[b].updated_at by {
        assert(w[a].number != w[b].number);
        let p = choose|p: int| 0 <= p < prs.len() && prs[p] == w[a] && !has_number(prs.take(p), w[a].number);
        let q = choose|q: int| 0 <= q < prs.len() && prs[q] == w[b] && !has_number(prs.take(q), w[b].number);
        if p < q {
            assert(prs[p].updated_at != prs[q].updated_at);
        } else if q < p {
            assert(prs[q].updated_at != prs[p].updated_at);
        }
    }
}

/// Resuming, in order: when no two pull requests of the listing share an
/// update time, the rerun's work list is exactly the items from `k` on, in
/// the same order.
pub proof fn lemma_rerun_resumes_in_order(
    m: Map<u64, Timestamp>,
    prs: Seq<RemotePullRequest>,
    w: Seq<RemotePullRequest>,
    k: int,
    w2: Seq<RemotePullRequest>,
)
    requires
        forall|i: int, j: int| 0 <= i < j < prs.len() ==> #[trigger] prs[i].updated_at != #[trigger] prs[j].updated_at,
        is_work_list(m, prs, w),
        0 <= k <= w.len(),
        is_work_list(commit_all(m, w.take(k)), prs, w2),
    ensures
        w2 == w.skip(k),
{
    lemma_rerun_resumes_after_committed_prefix(m, prs, w, k, w2);
    lemma_work_list_strict(m, prs, w);
    lemma_work_list_strict(commit_all(m, w.take(k)), prs, w2);
    assert(strictly_sorted(w.skip(k))) by {
        assert forall|a: int, b: int| 0 <= a < b < w.skip(k).len() implies #[trigger] w.skip(k)[a].updated_at
            < #[trigger] w.skip(k)[b].updated_at by {
            assert(w.skip(k)[a] == w[k + a]);
            assert(w.skip(k)[b] == w[k + b]);
        }
    }
    lemma_strictly_sorted_unique(w2, w.skip(k));
}

/// Selection does not depend on the order of its input: two listings with
/// the same pull requests, no number twice in either, give work lists with
/// the same pull requests, both oldest first.
pub proof fn lemma_selection_order_independent(
    m: Map<u64, Timestamp>,
    prs1: Seq<RemotePullRequest>,
    prs2: Seq<RemotePullRequest>,
    w1: Seq<RemotePullRequest>,
    w2: Seq<RemotePullRequest>,
)
    requires
        distinct_numbers(prs1),
        distinct_numbers(prs2),
        prs1.to_multiset() == prs2.to_multiset(),
        is_work_list(m, prs1, w1),
        is_work_list(m, prs2, w2),
    ensures
        w1.to_multiset() == w2.to_multiset(),
        sorted_by_update(w1),
        sorted_by_update(w2),
{
    lemma_first_copy_when_distinct(prs1);
    lemma_first_copy_when_distinct(prs2);
    assert forall|x: RemotePullRequest| w1.to_multiset().count(x) == w2.to_multiset().count(x) by {
        assert(prs1.contains(x) <==> prs1.to_multiset().count(x) > 0);
        assert(prs2.contains(x) <==> prs2.to_multiset().count(x) > 0);
    }
    assert(w1.to_multiset() =~= w2.to_multiset());
}

proof fn lemma_first_copy_when_distinct(prs: Seq<RemotePullRequest>)
    requires
        distinct_numbers(prs),
    ensures
        forall|x: RemotePullRequest| first_copy(prs, x) <==> prs.contains(x),
{
    assert forall|x: RemotePullRequest| first_copy(prs, x) <==> prs.contains(x) by {
        if prs.contains(x) {
            let j = choose|j: int| 0 <= j < prs.len() && prs[j] == x;
            if has_number(prs.take(j), x.number) {
                let l = choose|l: int| 0 <= l < prs.take(j).len() && prs.take(j)[l].number == x.number;
                assert(prs[l].number != prs[j].number);
            }
        }
    }
}

proof fn lemma_selected_approval_counted(
    prs: Seq<PullRequestRecord>,
    reviews: Seq<ReviewRecord>,
    f: ReportFilter,
    i: int,
)
    requires
        0 <= i < reviews.len(),
        approval_selected(prs, reviews[i], f),
    ensures
        items_under(approval_facts(prs, reviews, f), reviews[i].repo@, reviews[i].author@).contains(
            reviews[i].pr_number,
        ),
    decreases reviews.len(),
{
    let facts = approval_facts(prs, reviews, f);
    let rv = reviews[i];
    if i == reviews.len() - 1 {
        let rest = approval_facts(prs, reviews.drop_last(), f);
        assert(facts == rest.push(Fact { repo: rv.repo, name: rv.author, item: rv.pr_number }));
        lemma_items_under(facts, rv.repo@, rv.author@);
        assert(key_is(facts[facts.len() - 1], rv.repo@, rv.author@));
    } else {
        let r0 = reviews.drop_last();
        assert(r0[i] == rv);
        lemma_selected_approval_counted(prs, r0, f, i);
        let rest = approval_facts(prs, r0, f);
        lemma_items_under(rest, rv.repo@, rv.author@);
        lemma_items_under(facts, rv.repo@, rv.author@);
        let s = choose|s: int| 0 <= s < rest.len() && key_is(rest[s], rv.repo@, rv.author@) && rest[s].item == rv.pr_number;
        if approval_selected(prs, reviews.last(), f) {
            assert(facts[s] == rest[s]);
        } else {
            assert(facts == rest);
        }
    }
}

/// An approver who approves a pull request again does not count it twice:
/// adding an approval that repeats a counted one (same repository, pull
/// request and approver) leaves every count of the approval report as it was.
pub proof fn lemma_repeated_approval_counts_once(
    prs: Seq<PullRequestRecord>,
    reviews: Seq<ReviewRecord>,
    f: ReportFilter,
    i: int,
    again: ReviewRecord,
)
    requires
        0 <= i < reviews.len(),
        approval_selected(prs, reviews[i], f),
        again.repo@ == reviews[i].repo@,
        again.pr_number == reviews[i].pr_number,
        again.author@ == reviews[i].author@,
        again.state == reviews[i].state,
    ensures
        forall|repo: Seq<char>, name: Seq<char>|
            #[trigger] items_under(approval_facts(prs, reviews.push(again), f), repo, name) == items_under(
                approval_facts(prs, reviews, f),
                repo,
                name,
            ),
{
    let all = reviews.push(again);
    assert(all.drop_last() == reviews);
    lemma_selected_approval_counted(prs, reviews, f, i);
    let rv = reviews[i];
    if f.base is Some {
        if crate::report::reviewed_pr_has_base(prs, rv, f.base->0@) {
            let j = choose|j: int| 0 <= j < prs.len() && (#[trigger] prs[j]).repo@ == rv.repo@ && prs[j].number == rv.pr_number
                && prs[j].base@ == f.base->0@;
            assert(prs[j].repo@ == again.repo@);
        }
    }
    assert(approval_selected(prs, again, f));
    assert forall|repo: Seq<char>, name: Seq<char>|
        #[trigger] items_under(approval_facts(prs, all, f), repo, name) == items_under(approval_facts(prs, reviews, f), repo, name) by {
        let facts = approval_facts(prs, reviews, f);
        let x = Fact { repo: again.repo, name: again.author, item: again.pr_number };
        assert(all.last() == again);
        assert(approval_facts(prs, all, f) == facts.push(x));
        assert(facts.push(x).drop_last() == facts);
        assert(facts.push(x).last() == x);
        if repo == rv.repo@ && name == rv.author@ {
            assert(items_under(facts.push(x), repo, name) == items_under(facts, repo, name).insert(rv.pr_number));
            assert(items_under(facts, repo, name).insert(rv.pr_number) =~= items_under(facts, repo, name));
        }
    }
}

proof fn lemma_approval_fact_source(prs: Seq<PullRequestRecord>, reviews: Seq<ReviewRecord>, f: ReportFilter, t: int)
    requires
        0 <= t < approval_facts(prs, reviews, f).len(),
    ensures
        exists|j: int|
            0 <= j < reviews.len() && approval_selected(prs, reviews[j], f) && (#[trigger] approval_facts(
                prs,
                reviews,
                f,
            )[t]) == (Fact { repo: reviews[j].repo, name: reviews[j].author, item: reviews[j].pr_number }),
    decreases reviews.len(),
{
    let r0 = reviews.drop_last();
    let rest = approval_facts(prs, r0, f);
    if t < rest.len() {
        lemma_approval_fact_source(prs, r0, f, t);
        let j = choose|j: int|
            0 <= j < r0.len() && approval_selected(prs, r0[j], f) && (#[trigger] approval_facts(prs, r0, f)[t])
                == (Fact { repo: r0[j].repo, name: r0[j].author, item: r0[j].pr_number });
        assert(reviews[j] == r0[j]);
        if approval_selected(prs, reviews.last(), f) {
            assert(approval_facts(prs, reviews, f)[t] == rest[t]);
        }
    } else {
        assert(approval_selected(prs, reviews.last(), f));
        assert(reviews[reviews.len() - 1] == reviews.last());
    }
}

/// An approver whose approvals in a repository are all of one pull request,
/// however many there are, has exactly one row for that repository in the
/// approval report, with count one.
pub proof fn lemma_approvals_of_one_pr_count_once(
    prs: Seq<PullRequestRecord>,
    reviews: Seq<ReviewRecord>,
    f: ReportFilter,
    rows: Seq<(Seq<char>, Seq<char>, int)>,
    i: int,
)
    requires
        is_report(approval_facts(prs, reviews, f), rows),
        0 <= i < reviews.len(),
        approval_selected(prs, reviews[i], f),
        forall|j: int|
            0 <= j < reviews.len() && approval_selected(prs, #[trigger] reviews[j], f) && reviews[j].repo@
                == reviews[i].repo@ && reviews[j].author@ == reviews[i].author@ ==> reviews[j].pr_number
                == reviews[i].pr_number,
    ensures
        exists|k: int|
            0 <= k < rows.len() && rows[k].0 == reviews[i].repo@ && rows[k].1 == reviews[i].author@
                && rows[k].2 == 1,
        forall|k1: int, k2: int|
            0 <= k1 < rows.len() && 0 <= k2 < rows.len() && rows[k1].0 == reviews[i].repo@ && rows[k1].1
                == reviews[i].author@ && rows[k2].0 == reviews[i].repo@ && rows[k2].1 == reviews[i].author@
                ==> k1 == k2,
{
    let facts = approval_facts(prs, reviews, f);
    let rv = reviews[i];
    let items = items_under(facts, rv.repo@, rv.author@);
    lemma_selected_approval_counted(prs, reviews, f, i);
    lemma_items_under(facts, rv.repo@, rv.author@);
    assert forall|n: u64| items.contains(n) implies n == rv.pr_number by {
        let t = choose|t: int| 0 <= t < facts.len() && key_is(facts[t], rv.repo@, rv.author@) && facts[t].item == n;
        lemma_approval_fact_source(prs, reviews, f, t);
        let j = choose|j: int|
            0 <= j < reviews.len() && approval_selected(prs, reviews[j], f) && (#[trigger] approval_facts(prs, reviews, f)[t])
                == (Fact { repo: reviews[j].repo, name: reviews[j].author, item: reviews[j].pr_number });
    }
    assert(items =~= set![rv.pr_number]);
    assert(items.len() == 1);
    let t = choose|t: int| 0 <= t < facts.len() && key_is(facts[t], rv.repo@, rv.author@) && facts[t].item == rv.pr_number;
    assert(has_row(rows, facts[t].repo@, facts[t].name@));
    let k = choose|k: int| 0 <= k < rows.len() && rows[k].0 == facts[t].repo@ && rows[k].1 == facts[t].name@;
    assert(rows[k].2 == items_under(facts, rows[k].0, rows[k].1).len());
    assert forall|k1: int, k2: int|
        0 <= k1 < rows.len() && 0 <= k2 < rows.len() && rows[k1].0 == rv.repo@ && rows[k1].1 == rv.author@
            && rows[k2].0 == rv.repo@ && rows[k2].1 == rv.author@ implies k1 == k2 by {
        if k1 < k2 {
            assert(!((rows[k1]).0 == (rows[k2]).0 && rows[k1].1 == rows[k2].1));
        } else if k2 < k1 {
            assert(!((rows[k2]).0 == (rows[k1]).0 && rows[k2].1 == rows[k1].1));
        }
    }
}

/// Pages of a listing sorted by update time, newest first, across page bounds.
pub open spec fn descending_listing(pages: Seq<Seq<RemotePullRequest>>) -> bool {
    forall|j1: int, a: int, j2: int, b: int|
        0 <= j1 < pages.len() && 0 <= j2 < pages.len() && 0 <= a < pages[j1].len() && 0 <= b
            < pages[j2].len() && (j1 < j2 || (j1 == j2 && a <= b)) ==> #[trigger] pages[j1][a].updated_at
            >= #[trigger] pages[j2][b].updated_at
}

/// Stopping early is safe and not premature: when paging a descending listing
/// with frontier `f` stops after a non-empty page `k`, no item of a later
/// page is newer than `f`; and every earlier page ended with an item newer
/// than `f`, so no earlier stop would have been safe.
pub proof fn lemma_early_stop(pages: Seq<Seq<RemotePullRequest>>, f: Option<Timestamp>, k: int)
    requires
        descending_listing(pages),
        first_stop(pages, f, k),
        pages[k].len() > 0,
    ensures
        f is Some,
        forall|j: int, b: int|
            k < j < pages.len() && 0 <= b < pages[j].len() ==> #[trigger] pages[j][b].updated_at <= f->0,
        forall|j: int|
            0 <= j < k ==> (#[trigger] pages[j]).len() > 0 && (f is None || pages[j].last().updated_at
                > f->0),
{
    assert forall|j: int, b: int| k < j < pages.len() && 0 <= b < pages[j].len() implies #[trigger] pages[j][b].updated_at
        <= f->0 by {
        assert(pages[k][pages[k].len() - 1].updated_at >= pages[j][b].updated_at);
    }
    assert forall|j: int| 0 <= j < k implies (#[trigger] pages[j]).len() > 0 && (f is None
        || pages[j].last().updated_at > f->0) by {
        assert(!stop_after(pages[j], f));
    }
}

} // verus!
