//! In-memory accounting: turns timestamped category-change notifications
//! into per-category elapsed durations.
use vstd::prelude::*;
use crate::categories::{unique_views, UniqueCategories};

verus! {

// ---------- the pure accounting model ----------

/// The accounting state: per-category totals, the selected category, and
/// the instant accounted up to.
pub ghost struct AccState {
    pub durations: Seq<u64>,
    pub current: Option<int>,
    pub last_update: int,
}

pub open spec fn acc_wf(s: AccState, ncats: nat) -> bool {
    &&& s.durations.len() == ncats
    &&& (s.current matches Some(i) ==> 0 <= i < ncats)
}

/// Charge the time since the last update to the selected category, if any.
pub open spec fn charge(s: AccState, at: int) -> AccState {
    match s.current {
        None => AccState { durations: s.durations, current: s.current, last_update: at },
        Some(i) => AccState {
            durations: s.durations.update(i, (s.durations[i] + (at - s.last_update)) as u64),
            current: s.current,
            last_update: at,
        },
    }
}

/// One category-change event: charge, then switch the selection.
pub open spec fn acc_step(s: AccState, cat: Option<int>, at: int) -> AccState {
    let c = charge(s, at);
    AccState { durations: c.durations, current: cat, last_update: c.last_update }
}

/// Fold a sequence of events over the state.
pub open spec fn acc_run(s: AccState, evs: Seq<(Option<int>, int)>) -> AccState
    decreases evs.len(),
{
    if evs.len() == 0 {
        s
    } else {
        acc_run(acc_step(s, evs[0].0, evs[0].1), evs.drop_first())
    }
}

/// The total of all per-category durations.
pub open spec fn sum_u64(s: Seq<u64>) -> int
    decreases s.len(),
{
    if s.len() == 0 {
        0
    } else {
        sum_u64(s.drop_last()) + s.last()
    }
}

pub proof fn lemma_sum_bounds(s: Seq<u64>, i: int)
    requires
        0 <= i < s.len(),
    ensures
        sum_u64(s) >= 0,
        s[i] <= sum_u64(s),
    decreases s.len(),
{
    if s.len() == 1 {
        assert(s.drop_last() =~= Seq::<u64>::empty());
        assert(sum_u64(Seq::<u64>::empty()) == 0);
    } else {
        if i < s.len() - 1 {
            lemma_sum_bounds(s.drop_last(), i);
            assert(s.drop_last()[i] == s[i]);
        } else {
            lemma_sum_nonneg(s.drop_last());
        }
    }
}

pub proof fn lemma_sum_nonneg(s: Seq<u64>)
    ensures
        sum_u64(s) >= 0,
    decreases s.len(),
{
    if s.len() > 0 {
        lemma_sum_nonneg(s.drop_last());
    }
}

pub proof fn lemma_sum_update(s: Seq<u64>, i: int, v: u64)
    requires
        0 <= i < s.len(),
    ensures
        sum_u64(s.update(i, v)) == sum_u64(s) - s[i] + v,
    decreases s.len(),
{
    if i == s.len() - 1 {
        assert(s.update(i, v).drop_last() =~= s.drop_last());
        assert(s.update(i, v).last() == v);
    } else {
        assert(s.update(i, v).drop_last() =~= s.drop_last().update(i, v));
        assert(s.update(i, v).last() == s.last());
        lemma_sum_update(s.drop_last(), i, v);
        assert(s.drop_last()[i] == s[i]);
    }
}

pub proof fn lemma_sum_all_zero(s: Seq<u64>)
    requires
        forall|i: int| 0 <= i < s.len() ==> s[i] == 0,
    ensures
        sum_u64(s) == 0,
    decreases s.len(),
{
    if s.len() > 0 {
        assert(forall|i: int| 0 <= i < s.drop_last().len() ==> s.drop_last()[i] == s[i] && s[i]
            == 0);
        lemma_sum_all_zero(s.drop_last());
    }
}

/// Charging moves the total by exactly the elapsed time when a category is
/// selected, and not at all otherwise.
pub proof fn lemma_charge_sum(s: AccState, at: int, ncats: nat)
    requires
        acc_wf(s, ncats),
        s.last_update <= at,
        sum_u64(s.durations) + (at - s.last_update) <= u64::MAX,
    ensures
        acc_wf(charge(s, at), ncats),
        sum_u64(charge(s, at).durations) == sum_u64(s.durations) + (match s.current {
            Some(i) => at - s.last_update,
            None => 0,
        }),
{
    match s.current {
        None => {},
        Some(i) => {
            lemma_sum_bounds(s.durations, i);
            let v = (s.durations[i] + (at - s.last_update)) as u64;
            assert(v == s.durations[i] + (at - s.last_update));
            lemma_sum_update(s.durations, i, v);
        },
    }
}

// ---------- finding a category by name ----------

/// Index of the first category with the given name, or -1.
pub open spec fn find_name(cats: Seq<Seq<char>>, name: Seq<char>) -> int
    decreases cats.len(),
{
    if cats.len() == 0 {
        -1
    } else if cats[0] == name {
        0
    } else if find_name(cats.drop_first(), name) == -1 {
        -1
    } else {
        find_name(cats.drop_first(), name) + 1
    }
}

pub proof fn lemma_find_name_at(cats: Seq<Seq<char>>, name: Seq<char>, k: int)
    requires
        0 <= k < cats.len(),
        cats[k] == name,
        forall|i: int| 0 <= i < k ==> cats[i] != name,
    ensures
        find_name(cats, name) == k,
    decreases cats.len(),
{
    if k == 0 {
    } else {
        assert(cats[0] != name);
        assert(cats.drop_first()[k - 1] == name);
        assert forall|i: int| 0 <= i < k - 1 implies cats.drop_first()[i] != name by {
            assert(cats.drop_first()[i] == cats[i + 1]);
        }
        lemma_find_name_at(cats.drop_first(), name, k - 1);
    }
}

// ---------- the executable counter ----------

/// Per-category elapsed durations since the window start, the selected
/// category, and the instant accounted up to.
pub struct CategoryDurationCounter {
    pub categories: UniqueCategories,
    pub durations: Vec<u64>,
    pub current_category: Option<usize>,
    pub last_update: u64,
}

impl CategoryDurationCounter {
    pub open spec fn cats_dv(self) -> Seq<Seq<char>> {
        self.categories.dv()
    }

    /// The pure accounting state this counter realizes.
    pub open spec fn model(self) -> AccState {
        AccState {
            durations: self.durations@,
            current: match self.current_category {
                None => None,
                Some(i) => Some(i as int),
            },
            last_update: self.last_update as int,
        }
    }

    pub open spec fn wf(self) -> bool {
        &&& unique_views(self.cats_dv())
        &&& acc_wf(self.model(), self.cats_dv().len())
    }

    /// A fresh counter: zero per category, nothing selected.
    pub fn new(categories: UniqueCategories, now: u64) -> (r: Self)
        requires
            unique_views(categories.dv()),
        ensures
            r.wf(),
            r.categories == categories,
            r.durations@.len() == categories.dv().len(),
            forall|i: int| 0 <= i < r.durations@.len() ==> r.durations@[i] == 0,
            sum_u64(r.durations@) == 0,
            r.current_category is None,
            r.last_update == now,
    {
        let n = categories.len();
        let durations: Vec<u64> = vec![0u64; n];
        proof {
            lemma_sum_all_zero(durations@);
        }
        CategoryDurationCounter {
            categories,
            durations,
            current_category: None,
            last_update: now,
        }
    }

    /// The index of the named category. The name must be a member of the
    /// fixed set: anything else is a programming error, not a runtime case.
    fn index_of(&self, name: &String) -> (r: usize)
        requires
            self.wf(),
            self.cats_dv().contains(name@),
        ensures
            r == find_name(self.cats_dv(), name@),
            r < self.cats_dv().len(),
    {
        let ghost cats = self.cats_dv();
        let n = self.categories.len();
        let mut i: usize = 0;
        while i < n
            invariant
                i <= n,
                n == cats.len(),
                cats == self.cats_dv(),
                self.wf(),
                forall|j: int| 0 <= j < i ==> cats[j] != name@,
            decreases n - i,
        {
            if *self.categories.name_at(i) == *name {
                proof {
                    lemma_find_name_at(cats, name@, i as int);
                }
                return i;
            }
            i += 1;
        }
        proof {
            let k = choose|k: int| 0 <= k < cats.len() && cats[k] == name@;
            assert(false);
        }
        0
    }

    /// Charge the elapsed time, then select the new category.
    pub fn category_changed(&mut self, category: Option<String>, timestamp: u64)
        requires
            old(self).wf(),
            old(self).last_update <= timestamp,
            category matches Some(name) ==> old(self).cats_dv().contains(name@),
            sum_u64(old(self).durations@) + (timestamp - old(self).last_update) <= u64::MAX,
        ensures
            final(self).wf(),
            final(self).categories == old(self).categories,
            final(self).model() == acc_step(
                old(self).model(),
                match category {
                    None => None,
                    Some(name) => Some(find_name(old(self).cats_dv(), name@)),
                },
                timestamp as int,
            ),
    {
        proof {
            lemma_charge_sum(self.model(), timestamp as int, self.cats_dv().len());
        }
        self.record_current_duration(timestamp);
        match category {
            None => {
                self.current_category = None;
            },
            Some(name) => {
                let i = self.index_of(&name);
                self.current_category = Some(i);
            },
        }
    }

    /// Charge the elapsed time without changing the selection: used before
    /// a write to materialize up-to-the-moment totals.
    pub fn record_current_duration(&mut self, timestamp: u64)
        requires
            old(self).wf(),
            old(self).last_update <= timestamp,
            sum_u64(old(self).durations@) + (timestamp - old(self).last_update) <= u64::MAX,
        ensures
            final(self).wf(),
            final(self).categories == old(self).categories,
            final(self).current_category == old(self).current_category,
            final(self).model() == charge(old(self).model(), timestamp as int),
    {
        proof {
            lemma_charge_sum(self.model(), timestamp as int, self.cats_dv().len());
        }
        match self.current_category {
            None => {},
            Some(i) => {
                proof {
                    lemma_sum_bounds(self.durations@, i as int);
                }
                let d = self.durations[i];
                let delta = timestamp - self.last_update;
                self.durations[i] = d + delta;
            },
        }
        self.last_update = timestamp;
        assert(self.model() == charge(old(self).model(), timestamp as int)) by {
            assert(self.model().durations =~= charge(old(self).model(), timestamp as int).durations);
        }
    }

    /// Zero all totals, preserving the selection and the accounted instant,
    /// so time already in flight keeps accruing into the new window.
    pub fn reset_durations(&mut self)
        requires
            old(self).wf(),
        ensures
            final(self).wf(),
            final(self).categories == old(self).categories,
            final(self).current_category == old(self).current_category,
            final(self).last_update == old(self).last_update,
            final(self).durations@.len() == old(self).durations@.len(),
            forall|i: int| 0 <= i < final(self).durations@.len() ==> final(self).durations@[i]
                == 0,
            sum_u64(final(self).durations@) == 0,
    {
        let n = self.durations.len();
        let zeros: Vec<u64> = vec![0u64; n];
        self.durations = zeros;
        proof {
            lemma_sum_all_zero(self.durations@);
        }
    }

    /// Seed the totals, used when resuming a persisted window.
    pub fn set_durations(&mut self, durations: Vec<u64>)
        requires
            old(self).wf(),
            durations@.len() == old(self).cats_dv().len(),
        ensures
            final(self).wf(),
            final(self).categories == old(self).categories,
            final(self).current_category == old(self).current_category,
            final(self).last_update == old(self).last_update,
            final(self).durations@ == durations@,
    {
        self.durations = durations;
    }

    /// The totals, one per category in the fixed order.
    pub fn durations(&self) -> (r: &Vec<u64>)
        ensures
            r@ == self.durations@,
    {
        &self.durations
    }
}

// ---------- conservation ----------

proof fn lemma_ts_mono(evs: Seq<(Option<int>, int)>, i: int, j: int)
    requires
        forall|k: int| 0 <= k < evs.len() - 1 ==> (#[trigger] evs[k].1) <= evs[k + 1].1,
        0 <= i <= j < evs.len(),
    ensures
        evs[i].1 <= evs[j].1,
    decreases j - i,
{
    if i < j {
        lemma_ts_mono(evs, i, j - 1);
        assert(evs[j - 1].1 <= evs[j].1);
    }
}

proof fn lemma_run_sum(s: AccState, evs: Seq<(Option<int>, int)>, ncats: nat)
    requires
        acc_wf(s, ncats),
        evs.len() > 0,
        s.last_update <= evs[0].1,
        forall|k: int| 0 <= k < evs.len() - 1 ==> (#[trigger] evs[k].1) <= evs[k + 1].1,
        forall|k: int|
            0 <= k < evs.len() ==> ((#[trigger] evs[k].0) matches Some(c) && 0 <= c < ncats),
        sum_u64(s.durations) + (evs[evs.len() - 1].1 - s.last_update) <= u64::MAX,
        sum_u64(s.durations) >= 0,
    ensures
        acc_wf(acc_run(s, evs), ncats),
        acc_run(s, evs).last_update == evs[evs.len() - 1].1,
        sum_u64(acc_run(s, evs).durations) == sum_u64(s.durations) + (match s.current {
            Some(i) => evs[0].1 - s.last_update,
            None => 0,
        }) + (evs[evs.len() - 1].1 - evs[0].1),
    decreases evs.len(),
{
    lemma_ts_mono(evs, 0, evs.len() - 1);
    lemma_charge_sum(s, evs[0].1, ncats);
    let s1 = acc_step(s, evs[0].0, evs[0].1);
    assert(acc_wf(s1, ncats));
    if evs.len() == 1 {
        assert(acc_run(s, evs) == acc_run(s1, evs.drop_first()));
        assert(evs.drop_first().len() == 0);
    } else {
        let rest = evs.drop_first();
        assert(rest.len() == evs.len() - 1);
        assert forall|k: int| 0 <= k < rest.len() - 1 implies (#[trigger] rest[k].1) <= rest[k
            + 1].1 by {
            assert(rest[k] == evs[k + 1] && rest[k + 1] == evs[k + 2]);
        }
        assert forall|k: int| 0 <= k < rest.len() implies (#[trigger] rest[k].0) matches Some(c)
            && 0 <= c < ncats by {
            assert(rest[k] == evs[k + 1]);
            assert(evs[k + 1].0 matches Some(c) && 0 <= c < ncats);
        }
        assert(rest[0] == evs[1]);
        assert(rest[rest.len() - 1] == evs[evs.len() - 1]);
        assert(s1.last_update == evs[0].1 <= evs[1].1);
        lemma_ts_mono(evs, 1, evs.len() - 1);
        lemma_run_sum(s1, rest, ncats);
        assert(acc_run(s, evs) == acc_run(s1, rest));
        assert(s1.current == evs[0].0);
        assert(evs[0].0 matches Some(c) && 0 <= c < ncats);
    }
}

/// Conservation of time: starting from a fresh counter (no selection, all
/// totals zero) whose clock stands at or before the first event, a run of
/// category-change events with non-decreasing timestamps, each selecting a
/// category, leaves the total of all per-category durations equal to the
/// elapsed time between the first and the last event.
pub proof fn lemma_time_conservation(s0: AccState, evs: Seq<(Option<int>, int)>, ncats: nat)
    requires
        acc_wf(s0, ncats),
        s0.current is None,
        sum_u64(s0.durations) == 0,
        evs.len() > 0,
        s0.last_update <= evs[0].1,
        forall|k: int| 0 <= k < evs.len() - 1 ==> (#[trigger] evs[k].1) <= evs[k + 1].1,
        forall|k: int|
            0 <= k < evs.len() ==> ((#[trigger] evs[k].0) matches Some(c) && 0 <= c < ncats),
        evs[evs.len() - 1].1 - evs[0].1 <= u64::MAX,
    ensures
        sum_u64(acc_run(s0, evs).durations) == evs[evs.len() - 1].1 - evs[0].1,
        acc_run(s0, evs).last_update == evs[evs.len() - 1].1,
    {
    lemma_ts_mono(evs, 0, evs.len() - 1);
    let s1 = acc_step(s0, evs[0].0, evs[0].1);
    assert(s1.durations == s0.durations);
    assert(s1.last_update == evs[0].1);
    if evs.len() == 1 {
        assert(acc_run(s0, evs) == acc_run(s1, evs.drop_first()));
        assert(evs.drop_first().len() == 0);
    } else {
        let rest = evs.drop_first();
        assert forall|k: int| 0 <= k < rest.len() - 1 implies (#[trigger] rest[k].1) <= rest[k
            + 1].1 by {
            assert(rest[k] == evs[k + 1] && rest[k + 1] == evs[k + 2]);
        }
        assert forall|k: int| 0 <= k < rest.len() implies (#[trigger] rest[k].0) matches Some(c)
            && 0 <= c < ncats by {
            assert(rest[k] == evs[k + 1]);
            assert(evs[k + 1].0 matches Some(c) && 0 <= c < ncats);
        }
        assert(rest[0] == evs[1]);
        assert(rest[rest.len() - 1] == evs[evs.len() - 1]);
        lemma_run_sum(s1, rest, ncats);
        assert(acc_run(s0, evs) == acc_run(s1, rest));
        assert(evs[0].0 matches Some(c) && 0 <= c < ncats);
        assert(s1.current == evs[0].0);
    }
}

} // verus!
