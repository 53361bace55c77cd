use vstd::prelude::*;

use crate::text::{chars_of, lemma_text_order, text_before, text_lt};
use crate::model::{
    PrState, PullRequestRecord, ReportFilter, ReviewRecord, ReviewState, SummaryApprovePr, SummaryClosePr,
};

verus! {

/// One pull request counted under a (repository, name) key.
#[derive(Debug, Clone)]
pub struct Fact {
    pub repo: String,
    pub name: String,
    pub item: u64,
}

/// `f` is filed under the key (`repo`, `name`).
pub open spec fn key_is(f: Fact, repo: Seq<char>, name: Seq<char>) -> bool {
    f.repo@ == repo && f.name@ == name
}

/// The distinct items that `facts` file under the key (`repo`, `name`).
pub open spec fn items_under(facts: Seq<Fact>, repo: Seq<char>, name: Seq<char>) -> Set<u64>
    decreases facts.len(),
{
    if facts.len() == 0 {
        Set::empty()
    } else {
        let s = items_under(facts.drop_last(), repo, name);
        if key_is(facts.last(), repo, name) {
            s.insert(facts.last().item)
        } else {
            s
        }
    }
}

/// The items under a key are finite, no more than the facts, and are
/// exactly the items of the facts filed under it.
pub proof fn lemma_items_under(facts: Seq<Fact>, repo: Seq<char>, name: Seq<char>)
    ensures
        items_under(facts, repo, name).finite(),
        items_under(facts, repo, name).len() <= facts.len(),
        forall|n: u64| #[trigger] items_under(facts, repo, name).contains(n) <==> exists|i: int|
            0 <= i < facts.len() && key_is(facts[i], repo, name) && facts[i].item == n,
    decreases facts.len(),
{
    if facts.len() > 0 {
        let f0 = facts.drop_last();
        lemma_items_under(f0, repo, name);
        assert forall|n: u64| #[trigger] items_under(facts, repo, name).contains(n) <==> exists|i: int|
            0 <= i < facts.len() && key_is(facts[i], repo, name) && facts[i].item == n by {
            if items_under(f0, repo, name).contains(n) {
                let i = choose|i: int| 0 <= i < f0.len() && key_is(f0[i], repo, name) && f0[i].item == n;
                assert(facts[i] == f0[i]);
            }
            if exists|i: int| 0 <= i < facts.len() && key_is(facts[i], repo, name) && facts[i].item == n {
                let i = choose|i: int| 0 <= i < facts.len() && key_is(facts[i], repo, name) && facts[i].item == n;
                if i < f0.len() {
                    assert(f0[i] == facts[i]);
                }
            }
        }
    }
}

/// Per key: the repository, the name and the distinct items.
struct Tally {
    repos: Vec<String>,
    names: Vec<String>,
    items: Vec<Vec<u64>>,
}

impl Tally {
    /// Some key of the tally is the key of `f`.
    spec fn covers(&self, f: Fact) -> bool {
        exists|a: int| 0 <= a < self.repos@.len() && key_is(f, self.repos@[a]@, self.names@[a]@)
    }

    /// The tally holds the facts `facts`: one key per (repository, name), each
    /// with its distinct items, and every fact's key present.
    spec fn holds(&self, facts: Seq<Fact>) -> bool {
        let g = self.repos@.len();
        &&& self.names@.len() == g
        &&& self.items@.len() == g
        &&& forall|a: int, b: int|
            0 <= a < b < g ==> !(#[trigger] self.repos@[a]@ == #[trigger] self.repos@[b]@
                && self.names@[a]@ == self.names@[b]@)
        &&& forall|a: int|
            0 <= a < g ==> (#[trigger] self.items@[a])@.no_duplicates() && self.items@[a]@.to_set()
                == items_under(facts, self.repos@[a]@, self.names@[a]@) && self.items@[a]@.len() > 0
        &&& forall|t: int| 0 <= t < facts.len() ==> self.covers(#[trigger] facts[t])
    }
}

fn contains_item(v: &Vec<u64>, x: u64) -> (r: bool)
    ensures
        r == v@.contains(x),
{
    let mut i: usize = 0;
    while i < v.len()
        invariant
            i <= v.len(),
            forall|j: int| 0 <= j < i ==> v@[j] != x,
        decreases v.len() - i,
    {
        if v[i] == x {
            return true;
        }
        i += 1;
    }
    false
}

fn tally(facts: &Vec<Fact>) -> (t: Tally)
    ensures
        t.holds(facts@),
{
    let mut t = Tally { repos: Vec::new(), names: Vec::new(), items: Vec::new() };
    let mut i: usize = 0;
    while i < facts.len()
        invariant
            i <= facts.len(),
            t.holds(facts@.take(i as int)),
        decreases facts.len() - i,
    {
        let x = &facts[i];
        let ghost before = facts@.take(i as int);
        let ghost after = facts@.take(i + 1);
        assert(after.drop_last() == before);
        assert(after.last() == *x);
        let g = t.repos.len();
        let mut j: usize = 0;
        while j < g && !(t.repos[j] == x.repo && t.names[j] == x.name)
            invariant
                j <= g,
                g == t.repos.len(),
                t.holds(before),
                forall|a: int| 0 <= a < j ==> !key_is(*x, t.repos@[a]@, t.names@[a]@),
            decreases g - j,
        {
            j += 1;
        }
        if j < g {
            let ghost old_t = t;
            let mut v = t.items.remove(j);
            let ghost old_items = t.items@.insert(j as int, v);
            let ghost v0 = v@;
            let present = contains_item(&v, x.item);
            if !present {
                v.push(x.item);
            }
            proof {
                if present {
                    assert(v0.to_set().contains(x.item));
                    assert(v@.to_set() =~= v0.to_set().insert(x.item));
                } else {
                    assert(v@ == v0.push(x.item));
                    v0.lemma_push_to_set_commute(x.item);
                    assert forall|a: int, b: int| 0 <= a < v@.len() && 0 <= b < v@.len() && a != b implies v@[a] != v@[b] by {
                        if a == v0.len() {
                            assert(v0[b] == v@[b] && v0.contains(v0[b]));
                        } else if b == v0.len() {
                            assert(v0[a] == v@[a] && v0.contains(v0[a]));
                        } else {
                            assert(v0[a] == v@[a] && v0[b] == v@[b]);
                        }
                    }
                }
            }
            t.items.insert(j, v);
            proof {
                assert forall|a: int| 0 <= a < g implies (#[trigger] t.items@[a])@.no_duplicates()
                    && t.items@[a]@.to_set() == items_under(after, t.repos@[a]@, t.names@[a]@)
                    && t.items@[a]@.len() > 0 by {
                    if a == j {
                        assert(key_is(*x, t.repos@[a]@, t.names@[a]@));
                        assert(t.items@[a]@ == v@);
                        assert(old_items[a]@ == v0);
                    } else {
                        assert(t.items@[a] == old_items[a]);
                        if key_is(*x, t.repos@[a]@, t.names@[a]@) {
                            if a < j {
                                assert(t.repos@[a]@ == t.repos@[j as int]@);
                            } else {
                                assert(t.repos@[j as int]@ == t.repos@[a]@);
                            }
                        }
                    }
                }
                assert forall|s: int| 0 <= s < after.len() implies t.covers(#[trigger] after[s]) by {
                    if s < before.len() {
                        assert(after[s] == before[s]);
                        assert(old_t.covers(before[s]));
                        let a = choose|a: int| 0 <= a < g && key_is(before[s], old_t.repos@[a]@, old_t.names@[a]@);
                        assert(key_is(after[s], t.repos@[a]@, t.names@[a]@));
                    } else {
                        assert(key_is(after[s], t.repos@[j as int]@, t.names@[j as int]@));
                    }
                }
            }
        } else {
            let ghost old_t = t;
            t.repos.push(x.repo.clone());
            t.names.push(x.name.clone());
            let mut v: Vec<u64> = Vec::new();
            v.push(x.item);
            t.items.push(v);
            proof {
                assert(t.items@[g as int]@ == Seq::<u64>::empty().push(x.item));
                Seq::<u64>::empty().lemma_push_to_set_commute(x.item);
                assert(Seq::<u64>::empty().to_set() =~= Set::<u64>::empty());
                assert forall|a: int| 0 <= a < g + 1 implies (#[trigger] t.items@[a])@.no_duplicates()
                    && t.items@[a]@.to_set() == items_under(after, t.repos@[a]@, t.names@[a]@)
                    && t.items@[a]@.len() > 0 by {
                    if a < g {
                        assert(t.items@[a] == old_t.items@[a]);
                        assert(t.repos@[a] == old_t.repos@[a]);
                        assert(t.names@[a] == old_t.names@[a]);
                    } else {
                        assert(key_is(*x, t.repos@[a]@, t.names@[a]@));
                        lemma_items_under(before, x.repo@, x.name@);
                        if items_under(before, x.repo@, x.name@).len() > 0 {
                            let n = items_under(before, x.repo@, x.name@).choose();
                            assert(items_under(before, x.repo@, x.name@).contains(n));
                            let s = choose|s: int| 0 <= s < before.len() && key_is(before[s], x.repo@, x.name@) && before[s].item == n;
                            assert(old_t.covers(before[s]));
                            let a2 = choose|a2: int| 0 <= a2 < g && key_is(before[s], old_t.repos@[a2]@, old_t.names@[a2]@);
                        }
                        assert(items_under(before, x.repo@, x.name@) =~= Set::empty());
                    }
                }
                assert forall|s: int| 0 <= s < after.len() implies t.covers(#[trigger] after[s]) by {
                    if s < before.len() {
                        assert(after[s] == before[s]);
                        assert(old_t.covers(before[s]));
                        let a = choose|a: int| 0 <= a < g && key_is(before[s], old_t.repos@[a]@, old_t.names@[a]@);
                        assert(t.repos@[a] == old_t.repos@[a]);
                        assert(t.names@[a] == old_t.names@[a]);
                    } else {
                        assert(key_is(after[s], t.repos@[g as int]@, t.names@[g as int]@));
                    }
                }
            }
        }
        i += 1;
    }
    assert(facts@.take(facts.len() as int) =~= facts@);
    t
}

/// A report row in plain values: repository, name, count.
pub type RowView = (Seq<char>, Seq<char>, int);

/// Some row of `rows` is for the key (`repo`, `name`).
pub open spec fn has_row(rows: Seq<RowView>, repo: Seq<char>, name: Seq<char>) -> bool {
    exists|k: int| 0 <= k < rows.len() && rows[k].0 == repo && rows[k].1 == name
}

/// `rows` is the report of `facts`: one row per (repository, name) key that
/// some fact is filed under, counting the distinct items filed under it;
/// ordered by repository, ascending, and within a repository by count,
/// largest first.
pub open spec fn is_report(facts: Seq<Fact>, rows: Seq<RowView>) -> bool {
    &&& forall|k: int|
        0 <= k < rows.len() ==> (#[trigger] rows[k]).2 == items_under(facts, rows[k].0, rows[k].1).len()
            && rows[k].2 > 0
    &&& forall|k1: int, k2: int|
        0 <= k1 < k2 < rows.len() ==> !((#[trigger] rows[k1]).0 == (#[trigger] rows[k2]).0 && rows[k1].1
            == rows[k2].1)
    &&& forall|t: int| 0 <= t < facts.len() ==> has_row(rows, (#[trigger] facts[t]).repo@, facts[t].name@)
    &&& forall|k1: int, k2: int|
        0 <= k1 < k2 < rows.len() ==> !text_lt((#[trigger] rows[k2]).0, (#[trigger] rows[k1]).0)
    &&& forall|k1: int, k2: int|
        0 <= k1 < k2 < rows.len() && (#[trigger] rows[k1]).0 == (#[trigger] rows[k2]).0 ==> rows[k1].2
            >= rows[k2].2
}

/// One row of a report.
#[derive(Debug, Clone)]
pub struct GroupCount {
    pub repo: String,
    pub name: String,
    pub count: u32,
}

/// The plain values of report rows.
pub open spec fn group_rows(v: Seq<GroupCount>) -> Seq<RowView> {
    v.map_values(|r: GroupCount| (r.repo@, r.name@, r.count as int))
}

impl Tally {
    /// Key `a` goes before or with key `b`: by repository, ascending, then
    /// by count, largest first.
    spec fn le(&self, a: int, b: int) -> bool {
        text_lt(self.repos@[a]@, self.repos@[b]@) || (self.repos@[a]@ == self.repos@[b]@
            && self.items@[a]@.len() >= self.items@[b]@.len())
    }
}

/// Counts the distinct items under each (repository, name) key of `facts`.
pub fn count_distinct(facts: &Vec<Fact>) -> (rows: Vec<GroupCount>)
    requires
        facts.len() <= u32::MAX,
    ensures
        is_report(facts@, group_rows(rows@)),
{
    let t = tally(facts);
    let g = t.repos.len();
    let mut keys: Vec<Vec<char>> = Vec::new();
    let mut a: usize = 0;
    while a < g
        invariant
            g == t.repos.len(),
            a <= g,
            keys@.len() == a,
            forall|b: int| 0 <= b < a ==> (#[trigger] keys@[b])@ == t.repos@[b]@,
        decreases g - a,
    {
        keys.push(chars_of(&t.repos[a]));
        a += 1;
    }
    let mut order: Vec<usize> = Vec::new();
    let mut i: usize = 0;
    while i < g
        invariant
            t.holds(facts@),
            g == t.repos.len(),
            i <= g,
            order@.len() == i,
            keys@.len() == g,
            forall|b: int| 0 <= b < g ==> (#[trigger] keys@[b])@ == t.repos@[b]@,
            order@.no_duplicates(),
            forall|k: int| 0 <= k < i ==> #[trigger] order@[k] < i,
            forall|a: int| 0 <= a < i ==> #[trigger] order@.contains(a as usize),
            forall|k1: int, k2: int| 0 <= k1 < k2 < i ==> t.le(#[trigger] order@[k1] as int, #[trigger] order@[k2] as int),
        decreases g - i,
    {
        let mut j: usize = 0;
        while j < order.len() && (text_before(&keys[order[j]], &keys[i]) || (t.repos[order[j]] == t.repos[i]
            && t.items[order[j]].len() >= t.items[i].len()))
            invariant
                t.holds(facts@),
                keys@.len() == g,
                forall|b: int| 0 <= b < g ==> (#[trigger] keys@[b])@ == t.repos@[b]@,
                g == t.repos.len(),
                i < g,
                j <= order.len(),
                forall|k: int| 0 <= k < order@.len() ==> #[trigger] order@[k] < i,
                forall|k: int| 0 <= k < j ==> t.le(#[trigger] order@[k] as int, i as int),
            decreases order.len() - j,
        {
            j += 1;
        }
        let ghost before = order@;
        order.insert(j, i);
        proof {
            assert forall|k1: int, k2: int| 0 <= k1 < k2 < i + 1 implies t.le(#[trigger] order@[k1] as int, #[trigger] order@[k2] as int) by {
                if k1 < j && k2 > j {
                    assert(order@[k1] == before[k1]);
                    assert(order@[k2] == before[k2 - 1]);
                    assert(t.le(before[k1] as int, i as int));
                } else if k1 == j && k2 > j {
                    assert(order@[k2] == before[k2 - 1]);
                    assert(!t.le(before[j as int] as int, i as int));
                    lemma_text_order(
                        t.repos@[i as int]@,
                        t.repos@[before[j as int] as int]@,
                        t.repos@[before[k2 - 1] as int]@,
                    );
                    if k2 - 1 > j {
                        assert(t.le(before[j as int] as int, before[k2 - 1] as int));
                    }
                } else if k1 < j && k2 == j {
                    assert(order@[k1] == before[k1]);
                } else if k1 > j {
                    assert(order@[k1] == before[k1 - 1]);
                    assert(order@[k2] == before[k2 - 1]);
                } else {
                    assert(order@[k1] == before[k1]);
                    assert(order@[k2] == before[k2]);
                }
            }
            assert forall|a: int| 0 <= a < i + 1 implies #[trigger] order@.contains(a as usize) by {
                if a < i {
                    assert(before.contains(a as usize));
                    let k = choose|k: int| 0 <= k < before.len() && before[k] == a as usize;
                    if k < j {
                        assert(order@[k] == a as usize);
                    } else {
                        assert(order@[k + 1] == a as usize);
                    }
                } else {
                    assert(order@[j as int] == i);
                }
            }
            assert forall|k1: int, k2: int| 0 <= k1 < order@.len() && 0 <= k2 < order@.len() && k1 != k2 implies order@[k1] != order@[k2] by {
                let e1 = if k1 < j { k1 } else { k1 - 1 };
                let e2 = if k2 < j { k2 } else { k2 - 1 };
                if k1 != j && k2 != j {
                    assert(order@[k1] == before[e1]);
                    assert(order@[k2] == before[e2]);
                } else if k1 == j {
                    assert(order@[k2] == before[e2]);
                } else {
                    assert(order@[k1] == before[e1]);
                }
            }
        }
        i += 1;
    }
    let mut rows: Vec<GroupCount> = Vec::new();
    let mut k: usize = 0;
    while k < g
        invariant
            t.holds(facts@),
            facts.len() <= u32::MAX,
            g == t.repos.len(),
            order@.len() == g,
            k <= g,
            forall|k1: int| 0 <= k1 < g ==> #[trigger] order@[k1] < g,
            order@.no_duplicates(),
            forall|a: int| 0 <= a < g ==> #[trigger] order@.contains(a as usize),
            forall|k1: int, k2: int| 0 <= k1 < k2 < g ==> t.le(#[trigger] order@[k1] as int, #[trigger] order@[k2] as int),
            rows@.len() == k,
            forall|k1: int|
                0 <= k1 < k ==> (#[trigger] rows@[k1]).repo@ == t.repos@[order@[k1] as int]@ && rows@[k1].name@
                    == t.names@[order@[k1] as int]@ && rows@[k1].count == t.items@[order@[k1] as int]@.len(),
        decreases g - k,
    {
        let a = order[k];
        let ghost ag = a as int;
        proof {
            t.items@[ag]@.unique_seq_to_set();
            lemma_items_under(facts@, t.repos@[ag]@, t.names@[ag]@);
        }
        rows.push(GroupCount { repo: t.repos[a].clone(), name: t.names[a].clone(), count: t.items[a].len() as u32 });
        k += 1;
    }
    proof {
        let rv = group_rows(rows@);
        assert forall|k1: int| 0 <= k1 < rv.len() implies (#[trigger] rv[k1]).2 == items_under(facts@, rv[k1].0, rv[k1].1).len()
            && rv[k1].2 > 0 by {
            let a = order@[k1] as int;
            t.items@[a]@.unique_seq_to_set();
        }
        assert forall|k1: int, k2: int| 0 <= k1 < k2 < rv.len() implies !((#[trigger] rv[k1]).0 == (#[trigger] rv[k2]).0 && rv[k1].1
            == rv[k2].1) by {
            let a = order@[k1] as int;
            let b = order@[k2] as int;
            assert(order@[k1] != order@[k2]);
            if a < b {
                assert(!(t.repos@[a]@ == t.repos@[b]@ && t.names@[a]@ == t.names@[b]@));
            } else {
                assert(!(t.repos@[b]@ == t.repos@[a]@ && t.names@[b]@ == t.names@[a]@));
            }
        }
        assert forall|s: int| 0 <= s < facts@.len() implies has_row(rv, (#[trigger] facts@[s]).repo@, facts@[s].name@) by {
            assert(t.covers(facts@[s]));
            let a = choose|a: int| 0 <= a < t.repos@.len() && key_is(facts@[s], t.repos@[a]@, t.names@[a]@);
            assert(order@.contains(a as usize));
            let k1 = choose|k1: int| 0 <= k1 < order@.len() && order@[k1] == a as usize;
            assert(rv[k1].0 == t.repos@[a]@);
            assert(rv[k1].1 == t.names@[a]@);
        }
        assert forall|k1: int, k2: int| 0 <= k1 < k2 < rv.len() implies !text_lt((#[trigger] rv[k2]).0, (#[trigger] rv[k1]).0) by {
            let a = order@[k1] as int;
            let b = order@[k2] as int;
            assert(t.le(a, b));
            lemma_text_order(t.repos@[a]@, t.repos@[b]@, t.repos@[a]@);
        }
        assert forall|k1: int, k2: int| 0 <= k1 < k2 < rv.len() && (#[trigger] rv[k1]).0 == (#[trigger] rv[k2]).0
            implies rv[k1].2 >= rv[k2].2 by {
            let a = order@[k1] as int;
            let b = order@[k2] as int;
            assert(t.le(a, b));
            lemma_text_order(t.repos@[a]@, t.repos@[b]@, t.repos@[a]@);
        }
    }
    rows
}

/// An absent filter matches everything, a present one exactly its value.
pub open spec fn filter_matches(f: Option<String>, v: Seq<char>) -> bool {
    match f {
        Some(s) => s@ == v,
        None => true,
    }
}

/// A closed pull request that the filter lets through.
pub open spec fn closed_selected(r: PullRequestRecord, f: ReportFilter) -> bool {
    &&& r.state == PrState::Closed
    &&& filter_matches(f.author, r.author@)
    &&& filter_matches(f.repo, r.repo@)
    &&& filter_matches(f.base, r.base@)
}

/// What the closed pull request report counts: each selected pull request
/// under (its repository, its author).
pub open spec fn closed_facts(prs: Seq<PullRequestRecord>, f: ReportFilter) -> Seq<Fact>
    decreases prs.len(),
{
    if prs.len() == 0 {
        Seq::empty()
    } else {
        let r = prs.last();
        let rest = closed_facts(prs.drop_last(), f);
        if closed_selected(r, f) {
            rest.push(Fact { repo: r.repo, name: r.author, item: r.number })
        } else {
            rest
        }
    }
}

/// Some stored pull request is the one `rv` reviews and has base branch `base`.
pub open spec fn reviewed_pr_has_base(prs: Seq<PullRequestRecord>, rv: ReviewRecord, base: Seq<char>) -> bool {
    exists|i: int|
        0 <= i < prs.len() && (#[trigger] prs[i]).repo@ == rv.repo@ && prs[i].number == rv.pr_number
            && prs[i].base@ == base
}

/// An approval that the filter lets through; the base branch is that of the
/// reviewed pull request.
pub open spec fn approval_selected(prs: Seq<PullRequestRecord>, rv: ReviewRecord, f: ReportFilter) -> bool {
    &&& rv.state == ReviewState::Approved
    &&& filter_matches(f.author, rv.author@)
    &&& filter_matches(f.repo, rv.repo@)
    &&& match f.base {
        Some(b) => reviewed_pr_has_base(prs, rv, b@),
        None => true,
    }
}

/// What the approval report counts: each selected approval's pull request
/// under (its repository, the approver).
pub open spec fn approval_facts(prs: Seq<PullRequestRecord>, reviews: Seq<ReviewRecord>, f: ReportFilter) -> Seq<Fact>
    decreases reviews.len(),
{
    if reviews.len() == 0 {
        Seq::empty()
    } else {
        let rv = reviews.last();
        let rest = approval_facts(prs, reviews.drop_last(), f);
        if approval_selected(prs, rv, f) {
            rest.push(Fact { repo: rv.repo, name: rv.author, item: rv.pr_number })
        } else {
            rest
        }
    }
}

/// The plain values of closed pull request report rows.
pub open spec fn close_rows(v: Seq<SummaryClosePr>) -> Seq<RowView> {
    v.map_values(|r: SummaryClosePr| (r.repo@, r.author@, r.count as int))
}

/// The plain values of approval report rows.
pub open spec fn approve_rows(v: Seq<SummaryApprovePr>) -> Seq<RowView> {
    v.map_values(|r: SummaryApprovePr| (r.repo@, r.approver@, r.count as int))
}

fn filter_ok(f: &Option<String>, v: &String) -> (r: bool)
    ensures
        r == filter_matches(*f, v@),
{
    match f {
        Some(s) => *s == *v,
        None => true,
    }
}

fn has_base(prs: &Vec<PullRequestRecord>, rv: &ReviewRecord, base: &String) -> (r: bool)
    ensures
        r == reviewed_pr_has_base(prs@, *rv, base@),
{
    let mut i: usize = 0;
    while i < prs.len()
        invariant
            i <= prs.len(),
            forall|j: int|
                0 <= j < i ==> !((#[trigger] prs@[j]).repo@ == rv.repo@ && prs@[j].number == rv.pr_number
                    && prs@[j].base@ == base@),
        decreases prs.len() - i,
    {
        if prs[i].repo == rv.repo && prs[i].number == rv.pr_number && prs[i].base == *base {
            return true;
        }
        i += 1;
    }
    false
}

/// The closed pull request report: per repository and author, how many
/// distinct closed pull requests pass the filter; rows of a repository
/// together, largest count first.
pub fn summary_closed_pr(prs: &Vec<PullRequestRecord>, filter: &ReportFilter) -> (rows: Vec<SummaryClosePr>)
    requires
        prs.len() <= u32::MAX,
    ensures
        is_report(closed_facts(prs@, *filter), close_rows(rows@)),
{
    let mut facts: Vec<Fact> = Vec::new();
    let mut i: usize = 0;
    while i < prs.len()
        invariant
            i <= prs.len(),
            facts@ == closed_facts(prs@.take(i as int), *filter),
            facts.len() <= i,
        decreases prs.len() - i,
    {
        let r = &prs[i];
        assert(prs@.take(i + 1).drop_last() == prs@.take(i as int));
        let selected = r.state == PrState::Closed && filter_ok(&filter.author, &r.author) && filter_ok(
            &filter.repo,
            &r.repo,
        ) && filter_ok(&filter.base, &r.base);
        if selected {
            facts.push(Fact { repo: r.repo.clone(), name: r.author.clone(), item: r.number });
        }
        i += 1;
    }
    assert(prs@.take(prs.len() as int) =~= prs@);
    let groups = count_distinct(&facts);
    let mut rows: Vec<SummaryClosePr> = Vec::new();
    let mut k: usize = 0;
    while k < groups.len()
        invariant
            k <= groups.len(),
            rows@.len() == k,
            close_rows(rows@) == group_rows(groups@).take(k as int),
        decreases groups.len() - k,
    {
        let gr = &groups[k];
        let ghost old_rows = rows@;
        rows.push(SummaryClosePr { repo: gr.repo.clone(), author: gr.name.clone(), count: gr.count });
        proof {
            assert forall|j: int| 0 <= j < k + 1 implies #[trigger] close_rows(rows@)[j] == group_rows(groups@)[j] by {
                if j < k {
                    assert(rows@[j] == old_rows[j]);
                    assert(close_rows(old_rows)[j] == group_rows(groups@).take(k as int)[j]);
                }
            }
        }
        assert(close_rows(rows@) =~= group_rows(groups@).take(k + 1));
        k += 1;
    }
    assert(close_rows(rows@) =~= group_rows(groups@));
    rows
}

/// The approval report: per repository and approver, how many distinct pull
/// requests the approver approved that pass the filter; several approvals of
/// one pull request by one approver count once.
pub fn summary_approved_pr(prs: &Vec<PullRequestRecord>, reviews: &Vec<ReviewRecord>, filter: &ReportFilter) -> (rows:
    Vec<SummaryApprovePr>)
    requires
        reviews.len() <= u32::MAX,
    ensures
        is_report(approval_facts(prs@, reviews@, *filter), approve_rows(rows@)),
{
    let mut facts: Vec<Fact> = Vec::new();
    let mut i: usize = 0;
    while i < reviews.len()
        invariant
            i <= reviews.len(),
            facts@ == approval_facts(prs@, reviews@.take(i as int), *filter),
            facts.len() <= i,
        decreases reviews.len() - i,
    {
        let rv = &reviews[i];
        assert(reviews@.take(i + 1).drop_last() == reviews@.take(i as int));
        let base_ok = match &filter.base {
            Some(b) => has_base(prs, rv, b),
            None => true,
        };
        let selected = rv.state == ReviewState::Approved && filter_ok(&filter.author, &rv.author)
            && filter_ok(&filter.repo, &rv.repo) && base_ok;
        if selected {
            facts.push(Fact { repo: rv.repo.clone(), name: rv.author.clone(), item: rv.pr_number });
        }
        i += 1;
    }
    assert(reviews@.take(reviews.len() as int) =~= reviews@);
    let groups = count_distinct(&facts);
    let mut rows: Vec<SummaryApprovePr> = Vec::new();
    let mut k: usize = 0;
    while k < groups.len()
        invariant
            k <= groups.len(),
            rows@.len() == k,
            approve_rows(rows@) == group_rows(groups@).take(k as int),
        decreases groups.len() - k,
    {
        let gr = &groups[k];
        let ghost old_rows = rows@;
        rows.push(SummaryApprovePr { repo: gr.repo.clone(), approver: gr.name.clone(), count: gr.count });
        proof {
            assert forall|j: int| 0 <= j < k + 1 implies #[trigger] approve_rows(rows@)[j] == group_rows(groups@)[j] by {
                if j < k {
                    assert(rows@[j] == old_rows[j]);
                    assert(approve_rows(old_rows)[j] == group_rows(groups@).take(k as int)[j]);
                }
            }
        }
        assert(approve_rows(rows@) =~= group_rows(groups@).take(k + 1));
        k += 1;
    }
    assert(approve_rows(rows@) =~= group_rows(groups@));
    rows
}

} // verus!
