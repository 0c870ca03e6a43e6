//! Pacing the probes of a batch.
//!
//! A `Dispatcher` decides when the probe of each credential may start: in
//! the order of the batch, never two starts closer together than the rate
//! allows, never more probes in flight than the limit. It does not probe
//! and does not wait. Its caller asks it what to do next, telling it the
//! time; starts the probe or waits as it is told; and hands in each
//! outcome when it arrives. Time is counted in nanoseconds from a moment of
//! the caller's choice.

use vstd::prelude::*;
use vstd::set_lib::{lemma_int_range, lemma_len_subset, lemma_subset_equality, set_int_range};
use crate::classify::{credentials, texts};
use crate::probe::ProbeOutcome;

verus! {

/// The nanoseconds in one second.
pub const NANOS_PER_SECOND: u64 = 1_000_000_000;

/// The least time between two starts at `rate` starts per second: the
/// shortest whole number of nanoseconds that is no less than the `rate`-th
/// part of a second.
pub open spec fn interval_for(rate: u64) -> nat
    recommends
        rate > 0,
{
    ((NANOS_PER_SECOND + rate - 1) / (rate as int)) as nat
}

/// The least time between two starts at `rate` starts per second; `None`
/// for a rate of 0, at which nothing could ever start.
pub fn interval_nanos(rate: u64) -> (r: Option<u64>)
    ensures
        rate == 0 ==> r is None,
        rate > 0 ==> r == Some(interval_for(rate) as u64) && r->0 == interval_for(rate),
{
    if rate == 0 {
        return None;
    }
    let whole = NANOS_PER_SECOND / rate;
    let interval = if NANOS_PER_SECOND % rate == 0 {
        whole
    } else {
        whole + 1
    };
    proof {
        law_interval_fits_the_rate(rate);
        let n = NANOS_PER_SECOND as int;
        let r = rate as int;
        assert(n == r * (n / r) + n % r) by (nonlinear_arith)
            requires
                r > 0,
        ;
        if n % r == 0 {
            assert((n + r - 1) / r == n / r) by (nonlinear_arith)
                requires
                    r > 0,
                    n % r == 0,
                    n >= 0,
            ;
        } else {
            assert((n + r - 1) / r == n / r + 1) by (nonlinear_arith)
                requires
                    r > 0,
                    n % r != 0,
                    n >= 0,
            ;
        }
    }
    Some(interval)
}

/// At `rate` starts per second, as many intervals as the rate says span at
/// least one second, and one nanosecond less in each would not.
pub proof fn law_interval_fits_the_rate(rate: u64)
    requires
        rate > 0,
    ensures
        interval_for(rate) * rate >= NANOS_PER_SECOND,
        (interval_for(rate) - 1) * rate < NANOS_PER_SECOND,
        1 <= interval_for(rate) <= NANOS_PER_SECOND,
{
    let n = NANOS_PER_SECOND as int;
    let r = rate as int;
    let q = (n + r - 1) / r;
    assert(q * r >= n && (q - 1) * r < n && 1 <= q <= n) by (nonlinear_arith)
        requires
            r > 0,
            n >= 1,
            q == (n + r - 1) / r,
    ;
}

/// What the caller of a dispatcher is to do next.
#[derive(Debug, Clone, Copy, PartialEq, Eq, Structural)]
pub enum Step {
    /// Start the probe of the credential with this index, now.
    Launch { index: usize },
    /// Nothing may start before this time. Ask again then, or when a probe
    /// has completed.
    Wait { until: u64 },
    /// Nothing may start until a probe in flight has completed.
    Await,
    /// Every probe has completed.
    Done,
}

/// The course of a dispatch so far.
pub struct Schedule {
    /// The credentials of the batch.
    pub credentials: Seq<Seq<char>>,
    /// The least time between two starts.
    pub interval: nat,
    /// The most probes that may be in flight at once.
    pub limit: nat,
    /// When each probe started: `launches[k]` for the credential with index
    /// `k`.
    pub launches: Seq<nat>,
    /// The indices of the credentials whose probes have completed, in the
    /// order in which they did.
    pub finished: Seq<int>,
}

impl Schedule {
    /// The number of probes that have started and not completed.
    pub open spec fn in_flight(self) -> int {
        self.launches.len() - self.finished.len()
    }

    /// The probe of the credential with this index has started and not
    /// completed.
    pub open spec fn is_in_flight(self, index: int) -> bool {
        0 <= index < self.launches.len() && !self.finished.contains(index)
    }

    /// What holds of every course: probes start in batch order, no two of
    /// them closer together than the interval; a probe completes once at
    /// most, and only after it has started; and no more are in flight than
    /// the limit allows.
    pub open spec fn valid(self) -> bool {
        &&& self.limit > 0
        &&& self.launches.len() <= self.credentials.len()
        &&& forall|k: int|
            0 < k < self.launches.len() ==> #[trigger] self.launches[k] >= self.launches[k - 1]
                + self.interval
        &&& self.finished.no_duplicates()
        &&& forall|k: int|
            0 <= k < self.finished.len() ==> 0 <= #[trigger] self.finished[k]
                < self.launches.len()
        &&& self.finished.len() <= self.launches.len()
        &&& self.in_flight() <= self.limit
    }

    /// What is to be done at time `now`.
    pub open spec fn decide(self, now: nat) -> Step {
        if self.launches.len() == self.credentials.len() {
            if self.finished.len() == self.credentials.len() {
                Step::Done
            } else {
                Step::Await
            }
        } else if self.in_flight() >= self.limit {
            Step::Await
        } else if self.launches.len() > 0 && now < self.launches.last() + self.interval {
            Step::Wait {
                until: if self.launches.last() + self.interval <= u64::MAX {
                    (self.launches.last() + self.interval) as u64
                } else {
                    u64::MAX
                },
            }
        } else {
            Step::Launch { index: self.launches.len() as usize }
        }
    }

    /// The course after a start at time `now`.
    pub open spec fn launch(self, now: nat) -> Schedule {
        Schedule { launches: self.launches.push(now), ..self }
    }

    /// The course after the probe of the credential with this index has
    /// completed.
    pub open spec fn complete(self, index: int) -> Schedule {
        Schedule { finished: self.finished.push(index), ..self }
    }

    /// The course after the step decided at time `now`.
    pub open spec fn after(self, now: nat) -> Schedule {
        if self.decide(now) is Launch {
            self.launch(now)
        } else {
            self
        }
    }

    /// Every probe has started and completed.
    pub open spec fn done(self) -> bool {
        self.finished.len() == self.credentials.len()
    }
}

/// Decides when the probes of a batch start, and collects their outcomes.
pub struct Dispatcher {
    credentials: Vec<String>,
    interval: u64,
    limit: usize,
    launched: usize,
    completed: usize,
    last_launch: u64,
    finished: Vec<bool>,
    results: Vec<(String, ProbeOutcome)>,
    course: Ghost<Schedule>,
}

impl View for Dispatcher {
    type V = Schedule;

    closed spec fn view(&self) -> Schedule {
        self.course@
    }
}

impl Dispatcher {
    /// The pairs collected so far, in the order in which the probes
    /// completed.
    pub closed spec fn collected(&self) -> Seq<(String, ProbeOutcome)> {
        self.results@
    }

    /// The dispatcher is in order: its course is valid, and it has
    /// collected one pair for each probe that completed, with the
    /// credential of that probe.
    pub closed spec fn wf(&self) -> bool {
        &&& self@.valid()
        &&& self@.credentials == texts(self.credentials@)
        &&& self@.interval == self.interval
        &&& self@.limit == self.limit
        &&& self@.launches.len() == self.launched
        &&& self.launched > 0 ==> self@.launches.last() == self.last_launch
        &&& self@.finished.len() == self.completed
        &&& self.finished@.len() == self.credentials@.len()
        &&& forall|i: int|
            0 <= i < self.finished@.len() ==> #[trigger] self.finished@[i]
                == self@.finished.contains(i)
        &&& self.results@.len() == self.completed
        &&& forall|k: int|
            0 <= k < self.results@.len() ==> (#[trigger] self.results@[k]).0@
                == self@.credentials[self@.finished[k]]
    }

    /// What `wf` says of the pairs collected: there is one for each probe
    /// that completed, in the order of completion, and it holds the
    /// credential of that probe.
    pub proof fn lemma_collected(&self)
        requires
            self.wf(),
        ensures
            self@.valid(),
            self.collected().len() == self@.finished.len(),
            forall|k: int|
                0 <= k < self.collected().len() ==> (#[trigger] self.collected()[k]).0@
                    == self@.credentials[self@.finished[k]],
    {
    }

    /// A dispatcher for a batch, at `rate` starts per second and with at
    /// most `concurrency` probes in flight. `None` where either is 0.
    pub fn new(credentials: Vec<String>, rate: u64, concurrency: usize) -> (r: Option<Dispatcher>)
        ensures
            r is Some <==> rate > 0 && concurrency > 0,
            r matches Some(d) ==> {
                &&& d.wf()
                &&& d@.credentials == texts(credentials@)
                &&& d@.interval == interval_for(rate)
                &&& d@.limit == concurrency
                &&& d@.launches.len() == 0
                &&& d@.finished.len() == 0
                &&& d.collected().len() == 0
            },
    {
        if concurrency == 0 {
            return None;
        }
        let interval = match interval_nanos(rate) {
            Some(interval) => interval,
            None => {
                return None;
            },
        };
        let mut finished: Vec<bool> = Vec::new();
        let mut i: usize = 0;
        while i < credentials.len()
            invariant
                i <= credentials.len(),
                finished@.len() == i,
                forall|j: int| 0 <= j < i ==> !(#[trigger] finished@[j]),
            decreases credentials.len() - i,
        {
            finished.push(false);
            i += 1;
        }
        let ghost course = Schedule {
            credentials: texts(credentials@),
            interval: interval as nat,
            limit: concurrency as nat,
            launches: Seq::empty(),
            finished: Seq::empty(),
        };
        Some(
            Dispatcher {
                credentials,
                interval,
                limit: concurrency,
                launched: 0,
                completed: 0,
                last_launch: 0,
                finished,
                results: Vec::new(),
                course: Ghost(course),
            },
        )
    }

    /// The number of credentials in the batch.
    pub fn total(&self) -> (n: usize)
        requires
            self.wf(),
        ensures
            n == self@.credentials.len(),
    {
        self.credentials.len()
    }

    /// The number of probes that have completed.
    pub fn completed(&self) -> (n: usize)
        requires
            self.wf(),
        ensures
            n == self@.finished.len(),
    {
        self.completed
    }

    /// The credential with this index; `None` past the end of the batch.
    pub fn credential(&self, index: usize) -> (r: Option<&String>)
        requires
            self.wf(),
        ensures
            index < self@.credentials.len() ==> r is Some && r->0@ == self@.credentials[index as int],
            index >= self@.credentials.len() ==> r is None,
    {
        if index < self.credentials.len() {
            Some(&self.credentials[index])
        } else {
            None
        }
    }

    /// Decides what is to be done at time `now`. Where that is a start, the
    /// start is on record afterwards, at that time.
    pub fn poll(&mut self, now: u64) -> (step: Step)
        requires
            old(self).wf(),
        ensures
            final(self).wf(),
            step == old(self)@.decide(now as nat),
            step matches Step::Launch { index } ==> index == old(self)@.launches.len(),
            final(self)@ == old(self)@.after(now as nat),
            final(self).collected() == old(self).collected(),
    {
        let total = self.credentials.len();
        if self.launched == total {
            if self.completed == total {
                return Step::Done;
            }
            return Step::Await;
        }
        if self.launched - self.completed >= self.limit {
            return Step::Await;
        }
        if self.launched > 0 && (now < self.last_launch || now - self.last_launch < self.interval) {
            let until = match self.last_launch.checked_add(self.interval) {
                Some(until) => until,
                None => u64::MAX,
            };
            return Step::Wait { until };
        }
        let index = self.launched;
        proof {
            law_a_start_keeps_a_course_valid(self@, now as nat);
            self.course = Ghost(self@.launch(now as nat));
        }
        self.launched = self.launched + 1;
        self.last_launch = now;
        Step::Launch { index }
    }

    /// Hands in the outcome of the probe of the credential with this index.
    /// Returns how many probes have completed with it. An outcome for a
    /// probe that is not in flight is dropped, and `None` returned.
    pub fn complete(&mut self, index: usize, outcome: ProbeOutcome) -> (r: Option<usize>)
        requires
            old(self).wf(),
        ensures
            final(self).wf(),
            old(self)@.is_in_flight(index as int) ==> {
                &&& r == Some((old(self)@.finished.len() + 1) as usize)
                &&& final(self)@ == old(self)@.complete(index as int)
                &&& final(self).collected().len() == old(self).collected().len() + 1
                &&& final(self).collected().drop_last() == old(self).collected()
                &&& final(self).collected().last().0@ == old(self)@.credentials[index as int]
                &&& final(self).collected().last().1 == outcome
            },
            !old(self)@.is_in_flight(index as int) ==> {
                &&& r is None
                &&& final(self)@ == old(self)@
                &&& final(self).collected() == old(self).collected()
            },
    {
        if index >= self.launched || self.finished[index] {
            return None;
        }
        let credential = self.credentials[index].clone();
        proof {
            let before = self@;
            let after = before.complete(index as int);
            law_a_completion_keeps_a_course_valid(before, index as int);
            assert(after.finished.drop_last() =~= before.finished);
            assert forall|i: int| 0 <= i < self.finished@.len() implies #[trigger] self.finished@.update(
                index as int,
                true,
            )[i] == after.finished.contains(i) by {
                if i == index {
                    assert(after.finished[before.finished.len() as int] == index);
                } else if before.finished.contains(i) {
                    let k = choose|k: int| 0 <= k < before.finished.len() && before.finished[k] == i;
                    assert(after.finished[k] == i);
                } else if after.finished.contains(i) {
                    let k = choose|k: int| 0 <= k < after.finished.len() && after.finished[k] == i;
                    assert(before.finished[k] == i);
                }
            }
            self.course = Ghost(after);
        }
        self.finished.set(index, true);
        self.results.push((credential, outcome));
        self.completed = self.completed + 1;
        assert(self.collected().drop_last() =~= old(self).collected());
        Some(self.completed)
    }

    /// The pairs collected, once every probe has completed; `None` before
    /// that, with nothing of what was collected so far.
    pub fn finish(self) -> (r: Option<Vec<(String, ProbeOutcome)>>)
        requires
            self.wf(),
        ensures
            r is Some <==> self@.done(),
            r matches Some(pairs) ==> pairs@ == self.collected(),
    {
        if self.completed == self.credentials.len() {
            Some(self.results)
        } else {
            None
        }
    }
}

/// A sequence of different indices below `bound`, none of them `index`,
/// is shorter than `bound`.
proof fn lemma_room_for_one(taken: Seq<int>, bound: int, index: int)
    requires
        taken.no_duplicates(),
        forall|k: int| 0 <= k < taken.len() ==> 0 <= #[trigger] taken[k] < bound,
        0 <= index < bound,
        !taken.contains(index),
    ensures
        taken.len() < bound,
        taken.push(index).no_duplicates(),
{
    let range = set_int_range(0, bound);
    lemma_int_range(0, bound);
    assert(taken.to_set().subset_of(range.remove(index))) by {
        assert forall|x: int| taken.to_set().contains(x) implies range.remove(index).contains(
            x,
        ) by {
            let k = choose|k: int| 0 <= k < taken.len() && taken[k] == x;
            assert(taken[k] == x);
        }
    }
    lemma_len_subset(taken.to_set(), range.remove(index));
    taken.unique_seq_to_set();
}

/// A course stays valid through the step that is decided at any time.
pub proof fn law_a_start_keeps_a_course_valid(course: Schedule, now: nat)
    requires
        course.valid(),
    ensures
        course.after(now).valid(),
{
    if course.decide(now) is Launch {
        let after = course.launch(now);
        assert forall|k: int| 0 < k < after.launches.len() implies #[trigger] after.launches[k]
            >= after.launches[k - 1] + after.interval by {
            if k < course.launches.len() {
                assert(course.launches[k] >= course.launches[k - 1] + course.interval);
            }
        }
        assert forall|k: int| 0 <= k < after.finished.len() implies 0 <= #[trigger] after.finished[k]
            < after.launches.len() by {
            assert(course.finished[k] < course.launches.len());
        }
    }
}

/// A course stays valid when a probe in flight completes.
pub proof fn law_a_completion_keeps_a_course_valid(course: Schedule, index: int)
    requires
        course.valid(),
        course.is_in_flight(index),
    ensures
        course.complete(index).valid(),
{
    let after = course.complete(index);
    lemma_room_for_one(course.finished, course.launches.len() as int, index);
    assert forall|k: int| 0 <= k < after.finished.len() implies 0 <= #[trigger] after.finished[k]
        < after.launches.len() by {
        if k < course.finished.len() {
            assert(after.finished[k] == course.finished[k]);
        }
    }
}

/// Any two starts lie at least as many intervals apart as there are
/// starts from the one to the other.
pub proof fn law_starts_are_paced(course: Schedule, i: int, j: int)
    requires
        course.valid(),
        0 <= i <= j < course.launches.len(),
    ensures
        course.launches[j] >= course.launches[i] + (j - i) * course.interval,
    decreases j - i,
{
    if i < j {
        law_starts_are_paced(course, i, j - 1);
        assert(course.launches[j] >= course.launches[j - 1] + course.interval);
        assert((j - i) * course.interval == (j - 1 - i) * course.interval + course.interval)
            by (nonlinear_arith);
    } else {
        assert((j - i) * course.interval == 0) by (nonlinear_arith)
            requires
                i == j,
        ;
    }
}

/// At `rate` starts per second, the starts of a whole batch of `n`
/// credentials take at least `(n - 1) / rate` seconds from the first to
/// the last, whatever the limit on probes in flight.
pub proof fn law_batch_takes_its_time(course: Schedule, rate: u64)
    requires
        course.valid(),
        rate > 0,
        course.interval == interval_for(rate),
        course.launches.len() == course.credentials.len(),
        course.credentials.len() > 0,
    ensures
        (course.launches.last() - course.launches[0]) * rate >= (course.credentials.len() - 1)
            * NANOS_PER_SECOND,
{
    let n = course.credentials.len() as int;
    law_starts_are_paced(course, 0, n - 1);
    law_interval_fits_the_rate(rate);
    let span = course.launches.last() - course.launches[0];
    let interval = course.interval as int;
    let r = rate as int;
    assert(span * r >= (n - 1) * (NANOS_PER_SECOND as int)) by (nonlinear_arith)
        requires
            span >= (n - 1) * interval,
            interval * r >= NANOS_PER_SECOND as int,
            n >= 1,
            r > 0,
    ;
}

/// A dispatch that has to wait for a probe has one in flight: it cannot
/// wait in vain.
pub proof fn law_await_has_a_probe(course: Schedule, now: nat)
    requires
        course.valid(),
        course.decide(now) is Await,
    ensures
        course.in_flight() > 0,
{
}

/// When a dispatch is done, every credential of the batch has completed
/// exactly once.
pub proof fn law_done_covers_the_batch(course: Schedule, index: int)
    requires
        course.valid(),
        course.done(),
        0 <= index < course.credentials.len(),
    ensures
        course.finished.contains(index),
        course.finished.no_duplicates(),
        course.launches.len() == course.credentials.len(),
{
    let n = course.credentials.len() as int;
    let range = set_int_range(0, n);
    lemma_int_range(0, n);
    assert(course.finished.to_set().subset_of(range)) by {
        assert forall|x: int| course.finished.to_set().contains(x) implies range.contains(x) by {
            let k = choose|k: int| 0 <= k < course.finished.len() && course.finished[k] == x;
            assert(course.finished[k] == x);
        }
    }
    course.finished.unique_seq_to_set();
    lemma_len_subset(course.finished.to_set(), range);
    lemma_subset_equality(course.finished.to_set(), range);
    assert(range.contains(index));
}

/// The items of `items` taken in the order that `order` names them.
pub open spec fn taken_in(items: Seq<Seq<char>>, order: Seq<int>) -> Seq<Seq<char>> {
    Seq::new(order.len(), |k: int| items[order[k]])
}

/// Items taken in an order that names each of them once are the same
/// items, each as often as before.
proof fn lemma_reordered(items: Seq<Seq<char>>, order: Seq<int>)
    requires
        order.len() == items.len(),
        order.no_duplicates(),
        forall|k: int| 0 <= k < order.len() ==> 0 <= #[trigger] order[k] < items.len(),
    ensures
        taken_in(items, order).to_multiset() == items.to_multiset(),
    decreases items.len(),
{
    broadcast use vstd::multiset::group_multiset_axioms;

    let n = items.len() as int;
    let taken = taken_in(items, order);
    if n == 0 {
        assert(taken =~= items);
    } else {
        let range = set_int_range(0, n);
        lemma_int_range(0, n);
        assert(order.to_set().subset_of(range)) by {
            assert forall|x: int| order.to_set().contains(x) implies range.contains(x) by {
                let k = choose|k: int| 0 <= k < order.len() && order[k] == x;
                assert(order[k] == x);
            }
        }
        order.unique_seq_to_set();
        lemma_len_subset(order.to_set(), range);
        lemma_subset_equality(order.to_set(), range);
        assert(range.contains(n - 1));
        assert(order.contains(n - 1));
        let p = choose|p: int| 0 <= p < order.len() && order[p] == n - 1;
        let fewer = items.drop_last();
        let rest = order.remove(p);
        assert(rest.no_duplicates()) by {
            assert forall|i: int, j: int| 0 <= i < rest.len() && 0 <= j < rest.len() && i != j
                implies rest[i] != rest[j] by {
                let a = if i < p { i } else { i + 1 };
                let b = if j < p { j } else { j + 1 };
                assert(rest[i] == order[a] && rest[j] == order[b]);
            }
        }
        assert forall|k: int| 0 <= k < rest.len() implies 0 <= #[trigger] rest[k] < fewer.len() by {
            let a = if k < p { k } else { k + 1 };
            assert(rest[k] == order[a]);
            assert(order[a] != order[p]);
        }
        lemma_reordered(fewer, rest);
        assert(taken.remove(p) =~= taken_in(fewer, rest)) by {
            assert forall|k: int| 0 <= k < rest.len() implies taken.remove(p)[k] == taken_in(
                fewer,
                rest,
            )[k] by {
                let a = if k < p { k } else { k + 1 };
                assert(rest[k] == order[a]);
                assert(order[a] != order[p]);
            }
        }
        vstd::seq_lib::to_multiset_remove(taken, p);
        assert(taken[p] == items[n - 1]);
        assert(items =~= fewer.push(items[n - 1]));
        vstd::seq_lib::to_multiset_build(fewer, items[n - 1]);
        taken.to_multiset_ensures();
        assert(taken.to_multiset().count(taken[p]) > 0);
        assert(taken.to_multiset() =~= taken.to_multiset().remove(taken[p]).insert(taken[p]));
    }
}

/// When a dispatch is done, the pairs collected hold the credentials of
/// the batch and no others, each as often as the batch has it.
pub proof fn law_collected_is_the_batch(dispatcher: Dispatcher)
    requires
        dispatcher.wf(),
        dispatcher@.done(),
    ensures
        dispatcher.collected().len() == dispatcher@.credentials.len(),
        credentials(dispatcher.collected()) == taken_in(
            dispatcher@.credentials,
            dispatcher@.finished,
        ),
        credentials(dispatcher.collected()).to_multiset()
            == dispatcher@.credentials.to_multiset(),
{
    let course = dispatcher@;
    assert(credentials(dispatcher.collected()) =~= taken_in(course.credentials, course.finished));
    assert forall|k: int| 0 <= k < course.finished.len() implies 0 <= #[trigger] course.finished[k]
        < course.credentials.len() by {}
    lemma_reordered(course.credentials, course.finished);
}

} // verus!
