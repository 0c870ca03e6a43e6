//! Probing a batch one credential after the other.

use vstd::prelude::*;
use crate::classify::texts;
use crate::dispatch::{
    interval_for, law_a_completion_keeps_a_course_valid, law_a_start_keeps_a_course_valid,
    law_interval_fits_the_rate, law_starts_are_paced, Dispatcher, Schedule, Step,
    NANOS_PER_SECOND,
};
use crate::probe::ProbeOutcome;

verus! {

/// Why a dispatch could not run.
#[derive(Debug, Clone, Copy, PartialEq, Eq, Structural)]
pub enum DispatchError {
    /// The rate is 0: nothing could ever start.
    NoRate,
    /// After the start at this time, the next could only come at a time
    /// that 64 bits cannot count.
    OutOfTime { last_start: u64 },
}

/// What a dispatch that ran to its end brings back.
#[derive(Debug, Clone, PartialEq, Eq)]
pub struct Dispatched {
    /// Each credential of the batch with the outcome of its probe.
    pub pairs: Vec<(String, ProbeOutcome)>,
    /// When the probe of each credential started.
    pub started: Vec<u64>,
}

/// A copy of a batch.
fn copy_of(credentials: &Vec<String>) -> (copy: Vec<String>)
    ensures
        texts(copy@) == texts(credentials@),
{
    let mut copy: Vec<String> = Vec::new();
    let mut i: usize = 0;
    while i < credentials.len()
        invariant
            i <= credentials.len(),
            texts(copy@) == texts(credentials@.take(i as int)),
        decreases credentials.len() - i,
    {
        let ghost before = copy@;
        copy.push(credentials[i].clone());
        assert(credentials@.take(i + 1) =~= credentials@.take(i as int).push(credentials@[i as int]));
        assert(texts(copy@) =~= texts(before).push(credentials@[i as int]@));
        assert(texts(credentials@.take(i + 1)) =~= texts(credentials@.take(i as int)).push(
            credentials@[i as int]@,
        ));
        i += 1;
    }
    assert(credentials@.take(credentials.len() as int) =~= credentials@);
    copy
}

/// The pairs are those of the first credentials of the batch, in batch
/// order, each with an outcome that `probe` gave for it.
pub open spec fn served<P: Fn(&String) -> ProbeOutcome>(
    credentials: Seq<String>,
    probe: P,
    pairs: Seq<(String, ProbeOutcome)>,
) -> bool {
    &&& pairs.len() <= credentials.len()
    &&& forall|i: int|
        0 <= i < pairs.len() ==> (#[trigger] pairs[i]).0@ == credentials[i]@ && call_ensures(
            probe,
            (&credentials[i],),
            pairs[i].1,
        )
}

/// The times as the numbers that a course is told in.
pub open spec fn moments(times: Seq<u64>) -> Seq<nat> {
    times.map_values(|t: u64| t as nat)
}

/// The starts are those that the clock gave: the first is what
/// `sleep_until` answered when asked for the time with 0, and each next
/// one is what it answered when asked to sleep until one interval after
/// the start before, which lay within the 64 bits that count the time.
pub open spec fn clocked<S: Fn(u64) -> u64>(sleep_until: S, interval: nat, started: Seq<u64>) -> bool {
    &&& started.len() > 0 ==> call_ensures(sleep_until, (0u64,), started[0])
    &&& forall|k: int|
        0 < k < started.len() ==> {
            &&& started[k - 1] + interval < u64::MAX
            &&& call_ensures(
                sleep_until,
                ((started[k - 1] + interval) as u64,),
                #[trigger] started[k],
            )
        }
}

/// The course of a dispatch that probes one credential after the other,
/// when `launched` probes have started and `finished` of them have
/// completed, in batch order.
pub open spec fn serial_course(
    credentials: Seq<Seq<char>>,
    interval: nat,
    started: Seq<u64>,
    launched: int,
    finished: int,
) -> Schedule {
    Schedule {
        credentials,
        interval,
        limit: 1,
        launches: moments(started).take(launched),
        finished: Seq::new(finished as nat, |i: int| i),
    }
}

/// The starts are those of a dispatch with at most one probe in flight:
/// before each start the course was valid with no probe in flight, and the
/// start was what the course decided at that time; and the course is valid
/// after the last probe has completed.
pub open spec fn one_at_a_time(credentials: Seq<Seq<char>>, interval: nat, started: Seq<u64>) -> bool {
    &&& serial_course(
        credentials,
        interval,
        started,
        started.len() as int,
        started.len() as int,
    ).valid()
    &&& forall|k: int|
        0 <= k < started.len() ==> {
            &&& (#[trigger] serial_course(credentials, interval, started, k, k)).valid()
            &&& serial_course(credentials, interval, started, k, k).decide(started[k] as nat)
                == Step::Launch { index: k as usize }
        }
}

/// Any two of the starts lie at least as many intervals apart as there are
/// starts from the one to the other.
pub open spec fn paced(started: Seq<u64>, interval: nat) -> bool {
    forall|i: int, j: int|
        0 <= i <= j < started.len() ==> started[j] >= started[i] + (j - i) * interval
}

/// A dispatch of the batch ran to its end: every credential was probed, in
/// batch order, at the starts given, which the clock told, one probe at a
/// time and no two starts closer together than the rate allows.
pub open spec fn ran<P: Fn(&String) -> ProbeOutcome, S: Fn(u64) -> u64>(
    credentials: Seq<String>,
    rate: u64,
    probe: P,
    sleep_until: S,
    pairs: Seq<(String, ProbeOutcome)>,
    started: Seq<u64>,
) -> bool {
    &&& pairs.len() == credentials.len()
    &&& served(credentials, probe, pairs)
    &&& started.len() == credentials.len()
    &&& clocked(sleep_until, interval_for(rate), started)
    &&& one_at_a_time(texts(credentials), interval_for(rate), started)
    &&& paced(started, interval_for(rate))
}

/// A dispatch of a batch of `total` credentials ran out of time: it made
/// some starts but not all, at times that the clock told, and one interval
/// after the last of them, `last_start`, the 64 bits that count the time
/// are used up.
pub open spec fn ran_out<S: Fn(u64) -> u64>(
    total: nat,
    rate: u64,
    sleep_until: S,
    last_start: u64,
) -> bool {
    exists|started: Seq<u64>|
        {
            &&& 0 < started.len() < total
            &&& #[trigger] clocked(sleep_until, interval_for(rate), started)
            &&& started.last() == last_start
            &&& last_start + interval_for(rate) >= u64::MAX
        }
}

/// A start later does not change the course before an earlier one.
proof fn lemma_course_before(
    credentials: Seq<Seq<char>>,
    interval: nat,
    started: Seq<u64>,
    next: u64,
    k: int,
)
    requires
        0 <= k <= started.len(),
    ensures
        serial_course(credentials, interval, started.push(next), k, k) == serial_course(
            credentials,
            interval,
            started,
            k,
            k,
        ),
{
    assert(moments(started.push(next)).take(k) =~= moments(started).take(k));
}

/// A start from a course with no probe in flight, followed by the
/// completion of its probe, leads to the course with no probe in flight
/// one credential on.
proof fn lemma_course_step(
    credentials: Seq<Seq<char>>,
    interval: nat,
    started: Seq<u64>,
    next: u64,
)
    ensures
        serial_course(
            credentials,
            interval,
            started.push(next),
            started.len() as int + 1,
            started.len() as int + 1,
        ) == serial_course(
            credentials,
            interval,
            started,
            started.len() as int,
            started.len() as int,
        ).launch(next as nat).complete(started.len() as int),
{
    let n = started.len() as int;
    let idle = serial_course(credentials, interval, started, n, n);
    let after = serial_course(credentials, interval, started.push(next), n + 1, n + 1);
    let stepped = idle.launch(next as nat).complete(n);
    assert(after.launches =~= stepped.launches);
    assert(after.finished =~= stepped.finished);
}

/// A valid course with no probe in flight that decides on a start is
/// valid again when the probe started has completed.
proof fn lemma_step_keeps_valid(idle: Schedule, now: nat)
    requires
        idle.valid(),
        idle.decide(now) is Launch,
    ensures
        idle.launch(now).complete(idle.launches.len() as int).valid(),
{
    law_a_start_keeps_a_course_valid(idle, now);
    lemma_in_flight_after_launch(idle, now);
    law_a_completion_keeps_a_course_valid(idle.launch(now), idle.launches.len() as int);
}

/// One more start, decided by a valid course with no probe in flight and
/// followed by the completion of its probe, is one more step of a dispatch
/// that probes one at a time.
proof fn lemma_one_more_at_a_time(
    credentials: Seq<Seq<char>>,
    interval: nat,
    started: Seq<u64>,
    next: u64,
)
    requires
        one_at_a_time(credentials, interval, started),
        serial_course(
            credentials,
            interval,
            started,
            started.len() as int,
            started.len() as int,
        ).decide(next as nat) == (Step::Launch { index: started.len() as usize }),
    ensures
        one_at_a_time(credentials, interval, started.push(next)),
{
    let n = started.len() as int;
    let more = started.push(next);
    let idle = serial_course(credentials, interval, started, n, n);
    assert(idle.launches.len() == n) by {
        assert(idle.launches =~= moments(started));
    }
    lemma_step_keeps_valid(idle, next as nat);
    lemma_course_step(credentials, interval, started, next);
    assert forall|k: int| 0 <= k < more.len() implies (#[trigger] serial_course(
        credentials,
        interval,
        more,
        k,
        k,
    )).valid() && serial_course(credentials, interval, more, k, k).decide(more[k] as nat)
        == (Step::Launch { index: k as usize }) by {
        lemma_course_before(credentials, interval, started, next, k);
        if k < n {
            assert(serial_course(credentials, interval, started, k, k).valid());
            assert(more[k] == started[k]);
        }
    }
}

/// One more start that the clock gave, asked as it is to be asked, is one
/// more link in the chain of starts.
proof fn lemma_clocked_one_more<S: Fn(u64) -> u64>(
    sleep_until: S,
    interval: nat,
    started: Seq<u64>,
    next: u64,
)
    requires
        clocked(sleep_until, interval, started),
        started.len() == 0 ==> call_ensures(sleep_until, (0u64,), next),
        started.len() > 0 ==> started.last() + interval < u64::MAX && call_ensures(
            sleep_until,
            ((started.last() + interval) as u64,),
            next,
        ),
    ensures
        clocked(sleep_until, interval, started.push(next)),
{
    let more = started.push(next);
    assert forall|k: int| 0 < k < more.len() implies more[k - 1] + interval < u64::MAX
        && call_ensures(sleep_until, ((more[k - 1] + interval) as u64,), #[trigger] more[k]) by {
        if k < started.len() {
            assert(more[k] == started[k]);
            assert(more[k - 1] == started[k - 1]);
        } else {
            assert(more[k - 1] == started.last());
        }
    }
}

proof fn lemma_served_one_more<P: Fn(&String) -> ProbeOutcome>(
    credentials: Seq<String>,
    probe: P,
    before: Seq<(String, ProbeOutcome)>,
    after: Seq<(String, ProbeOutcome)>,
)
    requires
        served(credentials, probe, before),
        before.len() < credentials.len(),
        after.len() == before.len() + 1,
        after.drop_last() == before,
        after.last().0@ == credentials[before.len() as int]@,
        call_ensures(probe, (&credentials[before.len() as int],), after.last().1),
    ensures
        served(credentials, probe, after),
{
    assert forall|i: int| 0 <= i < after.len() implies (#[trigger] after[i]).0@ == credentials[i]@
        && call_ensures(probe, (&credentials[i],), after[i].1) by {
        if i < before.len() {
            assert(after.drop_last()[i] == after[i]);
        }
    }
}

proof fn lemma_in_flight_after_launch(before: Schedule, now: nat)
    requires
        before.valid(),
        before.decide(now) is Launch,
    ensures
        before.launch(now).is_in_flight(before.launches.len() as int),
        before.launch(now).launches.last() == now,
{
    let index = before.launches.len() as int;
    if before.finished.contains(index) {
        let k = choose|k: int| 0 <= k < before.finished.len() && before.finished[k] == index;
        assert(before.finished[k] < before.launches.len());
    }
}

/// A start from the course before it, followed by the completion of its
/// probe, leads to the course before the next start.
proof fn lemma_course_next(credentials: Seq<Seq<char>>, interval: nat, started: Seq<u64>, k: int)
    requires
        0 <= k < started.len(),
    ensures
        serial_course(credentials, interval, started, k, k).launch(started[k] as nat).complete(k)
            == serial_course(credentials, interval, started, k + 1, k + 1),
        serial_course(credentials, interval, started, k, k).launches.len() == k,
        serial_course(credentials, interval, started, k, k).finished.len() == k,
{
    let idle = serial_course(credentials, interval, started, k, k);
    let next = serial_course(credentials, interval, started, k + 1, k + 1);
    let stepped = idle.launch(started[k] as nat).complete(k);
    assert(next.launches =~= stepped.launches);
    assert(next.finished =~= stepped.finished);
}

/// In a dispatch that probes one at a time, no probe is in flight before a
/// start and one is in flight after it, which is as many as the limit
/// allows; and when that probe has completed, the course is the one before
/// the next start.
pub proof fn law_one_probe_in_flight(
    credentials: Seq<Seq<char>>,
    interval: nat,
    started: Seq<u64>,
    k: int,
)
    requires
        one_at_a_time(credentials, interval, started),
        0 <= k < started.len(),
    ensures
        serial_course(credentials, interval, started, k, k).in_flight() == 0,
        serial_course(credentials, interval, started, k, k).launch(started[k] as nat).valid(),
        serial_course(credentials, interval, started, k, k).launch(
            started[k] as nat,
        ).in_flight() == 1,
        serial_course(credentials, interval, started, k, k).launch(started[k] as nat).complete(k)
            == serial_course(credentials, interval, started, k + 1, k + 1),
{
    let idle = serial_course(credentials, interval, started, k, k);
    lemma_course_next(credentials, interval, started, k);
    assert(idle.valid() && idle.decide(started[k] as nat) is Launch);
    assert(idle.launch(started[k] as nat).valid()) by {
        law_a_start_keeps_a_course_valid(idle, started[k] as nat);
    }
}

/// Starts that are paced for `rate` starts per second take at least
/// `(n - 1) / rate` seconds from the first to the last of `n`.
pub proof fn law_paced_starts_take_their_time(started: Seq<u64>, rate: u64)
    requires
        rate > 0,
        started.len() > 0,
        paced(started, interval_for(rate)),
    ensures
        (started.last() - started[0]) * rate >= (started.len() - 1) * NANOS_PER_SECOND,
{
    let n = started.len() as int;
    law_interval_fits_the_rate(rate);
    let span = started[n - 1] - started[0];
    let interval = interval_for(rate) as int;
    let r = rate as int;
    assert(started[n - 1] >= started[0] + (n - 1 - 0) * interval);
    assert(span * r >= (n - 1) * (NANOS_PER_SECOND as int)) by (nonlinear_arith)
        requires
            span >= (n - 1) * interval,
            interval * r >= NANOS_PER_SECOND as int,
            n >= 1,
            r > 0,
    ;
}

/// Probes the credentials of a batch one after the other, at `rate` starts
/// per second at most.
///
/// `probe` is called once for each credential, in batch order. `sleep_until`
/// is to return no earlier than the time it is given, and to say what time
/// it is then. It is first asked for the time with 0, and the first probe
/// starts at the time it tells; before each next probe it is asked to
/// sleep until one interval after the start before, and that probe starts
/// at the time it tells then. `observe` is called after each probe with
/// the number of probes that have completed.
///
/// The dispatch fails for a rate of 0, and when a probe that is not the
/// last has started so late that one interval later the 64 bits that count
/// the time are used up. So a batch of one credential at most always runs
/// to its end, and which result a longer batch has follows from what the
/// clock tells.
pub fn dispatch<P, S, O>(
    credentials: &Vec<String>,
    rate: u64,
    probe: P,
    sleep_until: S,
    observe: O,
) -> (r: Result<Dispatched, DispatchError>) where
    P: Fn(&String) -> ProbeOutcome,
    S: Fn(u64) -> u64,
    O: Fn(usize),

    requires
        forall|credential: &String| call_requires(probe, (credential,)),
        forall|until: u64| call_requires(sleep_until, (until,)),
        forall|count: usize| call_requires(observe, (count,)),
        forall|until: u64, now: u64| call_ensures(sleep_until, (until,), now) ==> now >= until,
    ensures
        rate == 0 <==> r == Err::<Dispatched, DispatchError>(DispatchError::NoRate),
        rate > 0 && credentials@.len() <= 1 ==> r is Ok,
        r matches Err(DispatchError::OutOfTime { last_start }) ==> ran_out(
            credentials@.len(),
            rate,
            sleep_until,
            last_start,
        ),
        r matches Ok(done) ==> ran(
            credentials@,
            rate,
            probe,
            sleep_until,
            done.pairs@,
            done.started@,
        ),
{
    let mut dispatcher = match Dispatcher::new(copy_of(credentials), rate, 1) {
        Some(dispatcher) => dispatcher,
        None => {
            return Err(DispatchError::NoRate);
        },
    };
    let mut started: Vec<u64> = Vec::new();
    let mut now = sleep_until(0);
    let mut waited = false;
    let ghost batch = texts(credentials@);
    let ghost interval = interval_for(rate);
    proof {
        assert(batch.len() == credentials@.len());
        dispatcher.lemma_collected();
        assert(dispatcher@.launches =~= moments(started@).take(0));
        assert(dispatcher@.finished =~= Seq::new(0, |i: int| i));
        assert(dispatcher@ == serial_course(batch, interval, started@, 0, 0));
    }
    loop
        invariant
            forall|credential: &String| call_requires(probe, (credential,)),
            forall|until: u64| call_requires(sleep_until, (until,)),
            forall|count: usize| call_requires(observe, (count,)),
            forall|until: u64, now: u64| call_ensures(sleep_until, (until,), now) ==> now >= until,
            rate > 0,
            batch == texts(credentials@),
            batch.len() == credentials@.len(),
            interval == interval_for(rate),
            dispatcher.wf(),
            started@.len() <= credentials@.len(),
            dispatcher@ == serial_course(
                batch,
                interval,
                started@,
                started@.len() as int,
                started@.len() as int,
            ),
            one_at_a_time(batch, interval, started@),
            clocked(sleep_until, interval, started@),
            dispatcher.collected().len() == started@.len(),
            served(credentials@, probe, dispatcher.collected()),
            !waited && started@.len() == 0 ==> call_ensures(sleep_until, (0u64,), now),
            !waited && started@.len() > 0 ==> now == started@[started@.len() - 1],
            waited ==> {
                &&& started@.len() > 0
                &&& started@[started@.len() - 1] + interval < u64::MAX
                &&& call_ensures(
                    sleep_until,
                    ((started@[started@.len() - 1] + interval) as u64,),
                    now,
                )
            },
        decreases credentials@.len() - started@.len(), if waited { 0int } else { 1int },
    {
        let ghost before = dispatcher@;
        let ghost earlier = started@;
        proof {
            dispatcher.lemma_collected();
            assert(before.launches =~= moments(earlier));
            if earlier.len() > 0 {
                assert(before.launches.last() == earlier[earlier.len() - 1]);
            }
        }
        match dispatcher.poll(now) {
            Step::Done => {
                let pairs = match dispatcher.finish() {
                    Some(pairs) => pairs,
                    None => {
                        assert(false);
                        return Err(DispatchError::NoRate);
                    },
                };
                proof {
                    assert forall|i: int, j: int| 0 <= i <= j < earlier.len() implies earlier[j]
                        >= earlier[i] + (j - i) * interval by {
                        law_starts_are_paced(before, i, j);
                        assert(moments(earlier)[i] == earlier[i]);
                        assert(moments(earlier)[j] == earlier[j]);
                    }
                }
                return Ok(Dispatched { pairs, started });
            },
            Step::Launch { index } => {
                proof {
                    law_interval_fits_the_rate(rate);
                    lemma_in_flight_after_launch(before, now as nat);
                    lemma_one_more_at_a_time(batch, interval, earlier, now);
                    lemma_course_step(batch, interval, earlier, now);
                    lemma_clocked_one_more(sleep_until, interval, earlier, now);
                }
                let outcome = probe(&credentials[index]);
                let ghost launched = dispatcher;
                match dispatcher.complete(index, outcome) {
                    Some(count) => observe(count),
                    None => {},
                }
                started.push(now);
                waited = false;
                proof {
                    assert(started@ == earlier.push(now));
                    assert(batch[index as int] == credentials@[index as int]@);
                    lemma_served_one_more(
                        credentials@,
                        probe,
                        launched.collected(),
                        dispatcher.collected(),
                    );
                }
            },
            Step::Wait { until } => {
                if until == u64::MAX {
                    proof {
                        assert(clocked(sleep_until, interval, started@));
                    }
                    return Err(DispatchError::OutOfTime { last_start: started[started.len() - 1] });
                }
                now = sleep_until(until);
                waited = true;
            },
            Step::Await => {
                assert(false);
                return Err(DispatchError::NoRate);
            },
        }
    }
}

} // verus!
