use vstd::prelude::*;

use crate::model::Timestamp;

verus! {

/// What a sequence of `(number, updated_at)` rows says when read in order,
/// a later row for a number replacing an earlier one.
pub open spec fn rows_map(rows: Seq<(u64, Timestamp)>) -> Map<u64, Timestamp>
    decreases rows.len(),
{
    if rows.len() == 0 {
        Map::empty()
    } else {
        rows_map(rows.drop_last()).insert(rows.last().0, rows.last().1)
    }
}

/// `f` is the frontier of `m`: the largest cached timestamp, absent when
/// nothing is cached.
pub open spec fn is_frontier(m: Map<u64, Timestamp>, f: Option<Timestamp>) -> bool {
    match f {
        None => m.dom().is_empty(),
        Some(t) => {
            &&& exists|k: u64| m.contains_key(k) && m[k] == t
            &&& forall|k: u64| m.contains_key(k) ==> m[k] <= t
        },
    }
}

/// The last known update time of each cached pull request of one repository.
pub struct CacheSnapshot {
    entries: Vec<(u64, Timestamp)>,
    contents: Ghost<Map<u64, Timestamp>>,
}

impl View for CacheSnapshot {
    type V = Map<u64, Timestamp>;

    closed spec fn view(&self) -> Map<u64, Timestamp> {
        self.contents@
    }
}

impl CacheSnapshot {
    /// Each number is held once, and the entries hold exactly the view.
    pub closed spec fn wf(&self) -> bool {
        let e = self.entries@;
        let m = self.contents@;
        &&& forall|i: int| 0 <= i < e.len() ==> m.contains_key(#[trigger] e[i].0) && m[e[i].0] == e[i].1
        &&& forall|k: u64| m.contains_key(k) ==> exists|i: int| 0 <= i < e.len() && #[trigger] e[i].0 == k
        &&& forall|i: int, j: int| 0 <= i < j < e.len() ==> #[trigger] e[i].0 != #[trigger] e[j].0
    }

    /// An empty snapshot.
    pub fn new() -> (r: Self)
        ensures
            r.wf(),
            r@ == Map::<u64, Timestamp>::empty(),
    {
        CacheSnapshot { entries: Vec::new(), contents: Ghost(Map::empty()) }
    }

    /// Reads stored rows in order; a later row for a number replaces an earlier one.
    pub fn from_rows(rows: &Vec<(u64, Timestamp)>) -> (r: Self)
        ensures
            r.wf(),
            r@ == rows_map(rows@),
    {
        let mut snap = CacheSnapshot::new();
        let mut i: usize = 0;
        while i < rows.len()
            invariant
                i <= rows.len(),
                snap.wf(),
                snap@ == rows_map(rows@.take(i as int)),
            decreases rows.len() - i,
        {
            let (n, t) = rows[i];
            snap.upsert(n, t);
            assert(rows@.take(i + 1).drop_last() == rows@.take(i as int));
            i += 1;
        }
        assert(rows@.take(rows.len() as int) == rows@);
        snap
    }

    /// The cached update time of pull request `number`, if it is cached.
    pub fn get(&self, number: u64) -> (r: Option<Timestamp>)
        requires
            self.wf(),
        ensures
            r == (if self@.contains_key(number) {
                Some(self@[number])
            } else {
                None
            }),
    {
        let mut i: usize = 0;
        while i < self.entries.len()
            invariant
                self.wf(),
                i <= self.entries.len(),
                forall|j: int| 0 <= j < i ==> self.entries@[j].0 != number,
            decreases self.entries.len() - i,
        {
            if self.entries[i].0 == number {
                return Some(self.entries[i].1);
            }
            i += 1;
        }
        None
    }

    /// Records that pull request `number` is now stored with update time `t`.
    pub fn upsert(&mut self, number: u64, t: Timestamp)
        requires
            old(self).wf(),
        ensures
            final(self).wf(),
            final(self)@ == old(self)@.insert(number, t),
    {
        let mut i: usize = 0;
        while i < self.entries.len()
            invariant
                self.wf(),
                self.contents@ == old(self).contents@,
                self.entries@ == old(self).entries@,
                i <= self.entries.len(),
                forall|j: int| 0 <= j < i ==> self.entries@[j].0 != number,
            decreases self.entries.len() - i,
        {
            if self.entries[i].0 == number {
                let ghost e0 = self.entries@;
                let ghost m = self.contents@.insert(number, t);
                self.entries.set(i, (number, t));
                self.contents = Ghost(m);
                assert forall|k: u64| m.contains_key(k) implies exists|j: int|
                    0 <= j < self.entries@.len() && #[trigger] self.entries@[j].0 == k by {
                    if k != number {
                        let j = choose|j: int| 0 <= j < e0.len() && #[trigger] e0[j].0 == k;
                        assert(self.entries@[j].0 == k);
                    } else {
                        assert(self.entries@[i as int].0 == k);
                    }
                }
                return;
            }
            i += 1;
        }
        let ghost e0 = self.entries@;
        let ghost m = self.contents@.insert(number, t);
        self.entries.push((number, t));
        self.contents = Ghost(m);
        assert forall|k: u64| m.contains_key(k) implies exists|j: int|
            0 <= j < self.entries@.len() && #[trigger] self.entries@[j].0 == k by {
            if k != number {
                let j = choose|j: int| 0 <= j < e0.len() && #[trigger] e0[j].0 == k;
                assert(self.entries@[j].0 == k);
            } else {
                assert(self.entries@[e0.len() as int].0 == k);
            }
        }
    }

    /// The frontier: the largest cached update time, `None` when nothing is cached.
    pub fn frontier(&self) -> (r: Option<Timestamp>)
        requires
            self.wf(),
        ensures
            is_frontier(self@, r),
    {
        let mut best: Option<Timestamp> = None;
        let mut i: usize = 0;
        while i < self.entries.len()
            invariant
                self.wf(),
                i <= self.entries.len(),
                best is None <==> i == 0,
                best matches Some(b) ==> (exists|j: int| 0 <= j < i && self.entries@[j].1 == b)
                    && (forall|j: int| 0 <= j < i ==> self.entries@[j].1 <= b),
            decreases self.entries.len() - i,
        {
            let t = self.entries[i].1;
            best = match best {
                Some(b) => if b >= t { Some(b) } else { Some(t) },
                None => Some(t),
            };
            i += 1;
        }
        proof {
            let m = self@;
            let e = self.entries@;
            match best {
                None => {
                    assert forall|k: u64| !m.contains_key(k) by {
                        if m.contains_key(k) {
                            let j = choose|j: int| 0 <= j < e.len() && #[trigger] e[j].0 == k;
                        }
                    }
                    assert(m.dom() =~= Set::empty());
                },
                Some(b) => {
                    let j = choose|j: int| 0 <= j < e.len() && e[j].1 == b;
                    assert(m.contains_key(e[j].0) && m[e[j].0] == b);
                    assert forall|k: u64| m.contains_key(k) implies m[k] <= b by {
                        let j2 = choose|j2: int| 0 <= j2 < e.len() && #[trigger] e[j2].0 == k;
                    }
                },
            }
        }
        best
    }
}

} // verus!
