use vstd::prelude::*;

use crate::cache::CacheSnapshot;
use crate::model::{RemotePullRequest, Timestamp};

verus! {

broadcast use vstd::seq_lib::group_to_multiset_ensures;

/// A pull request needs a refresh when it is not cached, or when the remote
/// copy is strictly newer than the cached one.
pub open spec fn needs_update(m: Map<u64, Timestamp>, pr: RemotePullRequest) -> bool {
    !m.contains_key(pr.number) || m[pr.number] < pr.updated_at
}

/// Oldest first: ascending by update time.
pub open spec fn sorted_by_update(s: Seq<RemotePullRequest>) -> bool {
    forall|i: int, j: int| 0 <= i < j < s.len() ==> #[trigger] s[i].updated_at <= #[trigger] s[j].updated_at
}

/// Some pull request of `s` has number `n`.
pub open spec fn has_number(s: Seq<RemotePullRequest>, n: u64) -> bool {
    exists|j: int| 0 <= j < s.len() && s[j].number == n
}

/// `x` is the first copy in `s` of its pull request: it stands in `s` with no
/// pull request of the same number before it. In a listing sorted newest
/// first, that is the copy from the freshest page.
pub open spec fn first_copy(s: Seq<RemotePullRequest>, x: RemotePullRequest) -> bool {
    exists|j: int| 0 <= j < s.len() && s[j] == x && !has_number(s.take(j), x.number)
}

/// `w` is the work list of `prs` against the cache `m`: of each pull request
/// number in `prs` its first copy, once, when that copy needs a refresh;
/// nothing else; no number twice; oldest first.
pub open spec fn is_work_list(m: Map<u64, Timestamp>, prs: Seq<RemotePullRequest>, w: Seq<RemotePullRequest>) -> bool {
    &&& sorted_by_update(w)
    &&& forall|a: int, b: int| 0 <= a < b < w.len() ==> #[trigger] w[a].number != #[trigger] w[b].number
    &&& forall|x: RemotePullRequest| #[trigger] w.to_multiset().count(x) == if needs_update(m, x)
        && first_copy(prs, x) {
        1int
    } else {
        0int
    }
}

/// Appending `y` to `s` makes `y` a first copy when its number is new, and
/// changes nothing else.
pub proof fn lemma_first_copy_push(s: Seq<RemotePullRequest>, y: RemotePullRequest, x: RemotePullRequest)
    ensures
        first_copy(s.push(y), x) <==> first_copy(s, x) || (x == y && !has_number(s, y.number)),
{
    let t = s.push(y);
    if first_copy(t, x) {
        let j = choose|j: int| 0 <= j < t.len() && t[j] == x && !has_number(t.take(j), x.number);
        if j < s.len() {
            assert(t.take(j) =~= s.take(j));
        } else {
            assert(t.take(j) =~= s);
        }
    }
    if first_copy(s, x) {
        let j = choose|j: int| 0 <= j < s.len() && s[j] == x && !has_number(s.take(j), x.number);
        assert(t.take(j) =~= s.take(j));
        assert(t[j] == x);
    }
    if x == y && !has_number(s, y.number) {
        assert(t.take(s.len() as int) =~= s);
        assert(t[s.len() as int] == x);
    }
}

/// Whether pull request `pr` needs a refresh against `cache`.
pub fn needs_refresh(cache: &CacheSnapshot, pr: &RemotePullRequest) -> (r: bool)
    requires
        cache.wf(),
    ensures
        r == needs_update(cache@, *pr),
{
    match cache.get(pr.number) {
        Some(t) => t < pr.updated_at,
        None => true,
    }
}

/// Selects the pull requests that need a refresh and orders them oldest
/// first, so that an interrupted pass resumes where it stopped. Of several
/// copies of one pull request only the first, from the freshest page, is
/// considered.
pub fn select_updates(cache: &CacheSnapshot, prs: Vec<RemotePullRequest>) -> (w: Vec<RemotePullRequest>)
    requires
        cache.wf(),
    ensures
        is_work_list(cache@, prs@, w@),
{
    let ghost all = prs@;
    let n = prs.len();
    let mut rest = prs;
    let mut out: Vec<RemotePullRequest> = Vec::new();
    let mut seen: Vec<u64> = Vec::new();
    let mut i: usize = 0;
    assert(rest@ =~= all.subrange(0, n as int));
    while i < n
        invariant
            cache.wf(),
            n == all.len(),
            i <= n,
            rest@ == all.subrange(i as int, n as int),
            forall|k: u64| #[trigger] seen@.contains(k) <==> has_number(all.take(i as int), k),
            sorted_by_update(out@),
            forall|a: int, b: int| 0 <= a < b < out@.len() ==> #[trigger] out@[a].number != #[trigger] out@[b].number,
            forall|a: int| 0 <= a < out@.len() ==> seen@.contains(#[trigger] out@[a].number),
            forall|x: RemotePullRequest| #[trigger] out@.to_multiset().count(x) == if needs_update(cache@, x)
                && first_copy(all.take(i as int), x) {
                1int
            } else {
                0int
            },
        decreases n - i,
    {
        let ghost before_all = all.take(i as int);
        let ghost seen0 = seen@;
        let pr = rest.remove(0);
        assert(rest@ =~= all.subrange(i + 1, n as int));
        assert(all.take(i + 1) =~= before_all.push(pr));
        let number = pr.number;
        let fresh = !contains_number(&seen, number);
        let ghost out0 = out@;
        if fresh && needs_refresh(cache, &pr) {
            let mut j: usize = 0;
            while j < out.len() && out[j].updated_at <= pr.updated_at
                invariant
                    j <= out.len(),
                    forall|k: int| 0 <= k < j ==> #[trigger] out@[k].updated_at <= pr.updated_at,
                decreases out.len() - j,
            {
                j += 1;
            }
            let ghost before = out@;
            out.insert(j, pr);
            proof {
                assert forall|a: int, b: int| 0 <= a < b < out@.len() implies #[trigger] out@[a].updated_at
                    <= #[trigger] out@[b].updated_at by {
                    if j < before.len() {
                        assert(pr.updated_at < before[j as int].updated_at);
                    }
                    if a < j && b > j {
                        assert(out@[a] == before[a]);
                        assert(out@[b] == before[b - 1]);
                    }
                }
                assert forall|a: int, b: int| 0 <= a < b < out@.len() implies #[trigger] out@[a].number
                    != #[trigger] out@[b].number by {
                    if a == j {
                        assert(out@[b] == before[b - 1]);
                        assert(seen0.contains(before[b - 1].number));
                    } else if b == j {
                        assert(out@[a] == before[a]);
                        assert(seen0.contains(before[a].number));
                    } else {
                        let a0 = if a < j { a } else { a - 1 };
                        let b0 = if b < j { b } else { b - 1 };
                        assert(out@[a] == before[a0]);
                        assert(out@[b] == before[b0]);
                    }
                }
            }
        }
        seen.push(number);
        proof {
            assert forall|k: u64| #[trigger] seen@.contains(k) <==> has_number(all.take(i + 1), k) by {
                let t = all.take(i + 1);
                if has_number(t, k) {
                    let j = choose|j: int| 0 <= j < t.len() && t[j].number == k;
                    if j < i {
                        assert(t[j] == before_all[j]);
                        assert(has_number(before_all, k));
                        assert(seen0.contains(k));
                        let c = choose|c: int| 0 <= c < seen0.len() && seen0[c] == k;
                        assert(seen@[c] == k);
                    } else {
                        assert(seen@[seen0.len() as int] == k);
                    }
                }
                if seen@.contains(k) && k != pr.number {
                    let j = choose|j: int| 0 <= j < seen@.len() && seen@[j] == k;
                    assert(seen0[j] == k);
                    assert(seen0.contains(k));
                    let l = choose|l: int| 0 <= l < before_all.len() && before_all[l].number == k;
                    assert(t[l].number == k);
                }
                if k == pr.number {
                    assert(t[i as int].number == k);
                    assert(seen@[seen0.len() as int] == k);
                }
            }
            assert forall|a: int| 0 <= a < out@.len() implies seen@.contains(#[trigger] out@[a].number) by {
                if out@[a] == pr {
                    assert(seen@[seen0.len() as int] == pr.number);
                } else {
                    assert(out@.contains(out@[a]));
                    assert(out@.to_multiset().count(out@[a]) > 0);
                    assert(out0.to_multiset().count(out@[a]) > 0);
                    assert(out0.contains(out@[a]));
                    let b = choose|b: int| 0 <= b < out0.len() && out0[b] == out@[a];
                    assert(seen0.contains(out0[b].number));
                    let c = choose|c: int| 0 <= c < seen0.len() && seen0[c] == out0[b].number;
                    assert(seen@[c] == seen0[c]);
                }
            }
            assert forall|x: RemotePullRequest| #[trigger] out@.to_multiset().count(x) == if needs_update(cache@, x)
                && first_copy(all.take(i + 1), x) {
                1int
            } else {
                0int
            } by {
                lemma_first_copy_push(before_all, pr, x);
                if x == pr && first_copy(before_all, x) {
                    let j = choose|j: int| 0 <= j < before_all.len() && before_all[j] == x && !has_number(before_all.take(j), x.number);
                    assert(before_all[j].number == pr.number);
                }
            }
        }
        i += 1;
    }
    assert(all.take(n as int) =~= all);
    out
}

fn contains_number(v: &Vec<u64>, x: u64) -> (r: bool)
    ensures
        r == v@.contains(x),
{
    let mut i: usize = 0;
    while i < v.len()
        invariant
            i <= v.len(),
            forall|j: int| 0 <= j < i ==> v@[j] != x,
        decreases v.len() - i,
    {
        if v[i] == x {
            return true;
        }
        i += 1;
    }
    false
}

} // verus!
