//! The harness as a whole: its size, its target, its workers.
use crate::decimal;
use crate::variant::Variant;
use crate::worker::{self, Action, Event, Phase, Worker};
use vstd::prelude::*;

verus! {

/// Number of concurrent workers. Change it to change the load.
pub const WORKERS: usize = 16;

/// The target that every worker requests in a loop.
pub const URL: &'static str =
    "https://dd6g9dllgm9fw.cloudfront.net/Parkour-loop-mp4/out_1/00000/out_1_00001.ts";

/// How many seconds pass between two reports.
pub const REPORT_INTERVAL_SECS: u64 = 5;

/// What a variant prints when its workers have started.
pub open spec fn banner_text(variant: Variant) -> Seq<char> {
    "["@ + variant.name_text() + "] Started "@ + decimal::decimal(WORKERS as nat)
        + " workers against "@ + URL@ + "\nReporting memory every "@ + decimal::decimal(
        REPORT_INTERVAL_SECS as nat,
    ) + "s. Press Ctrl-C to stop."@
}

/// The start line names the variant, the number of workers, the target and the
/// interval of the reports.
pub proof fn law_the_banner_says_what_runs(variant: Variant)
    ensures
        banner_text(variant) == "["@ + variant.name_text()
            + "] Started 16 workers against https://dd6g9dllgm9fw.cloudfront.net/Parkour-loop-mp4/out_1/00000/out_1_00001.ts\nReporting memory every 5s. Press Ctrl-C to stop."@,
{
    reveal_strlit("] Started ");
    reveal_strlit(" workers against ");
    reveal_strlit(
        "https://dd6g9dllgm9fw.cloudfront.net/Parkour-loop-mp4/out_1/00000/out_1_00001.ts",
    );
    reveal_strlit("\nReporting memory every ");
    reveal_strlit("s. Press Ctrl-C to stop.");
    reveal_strlit(
        "] Started 16 workers against https://dd6g9dllgm9fw.cloudfront.net/Parkour-loop-mp4/out_1/00000/out_1_00001.ts\nReporting memory every 5s. Press Ctrl-C to stop.",
    );
    reveal_with_fuel(decimal::decimal, 2);
    let tail = "] Started "@ + decimal::decimal(16) + " workers against "@ + URL@
        + "\nReporting memory every "@ + decimal::decimal(5) + "s. Press Ctrl-C to stop."@;
    assert(tail
        =~= "] Started 16 workers against https://dd6g9dllgm9fw.cloudfront.net/Parkour-loop-mp4/out_1/00000/out_1_00001.ts\nReporting memory every 5s. Press Ctrl-C to stop."@);
    assert(banner_text(variant) =~= "["@ + variant.name_text() + tail);
}

/// Writes what a variant prints when its workers have started.
pub fn banner(variant: Variant) -> (text: String)
    ensures
        text@ == banner_text(variant),
        text@ == "["@ + variant.name_text()
            + "] Started 16 workers against https://dd6g9dllgm9fw.cloudfront.net/Parkour-loop-mp4/out_1/00000/out_1_00001.ts\nReporting memory every 5s. Press Ctrl-C to stop."@,
{
    let mut text = String::new();
    text.append("[");
    text.append(variant.name());
    text.append("] Started ");
    decimal::push_decimal(&mut text, WORKERS as u128);
    text.append(" workers against ");
    text.append(URL);
    text.append("\nReporting memory every ");
    decimal::push_decimal(&mut text, REPORT_INTERVAL_SECS as u128);
    text.append("s. Press Ctrl-C to stop.");
    assert(text@ =~= banner_text(variant));
    proof {
        law_the_banner_says_what_runs(variant);
    }
    text
}

/// The workers of a variant before they begin, numbered from zero.
pub open spec fn fresh_workers(variant: Variant) -> Seq<Worker> {
    Seq::new(WORKERS as nat, |i: int| Worker::fresh(i as usize, variant))
}

/// The workers of a variant, each about to make its first request.
pub fn workers(variant: Variant) -> (workers: Vec<Worker>)
    ensures
        workers@ == fresh_workers(variant),
        workers@.len() == 16,
        forall|i: int|
            0 <= i < workers@.len() ==> {
                let w = #[trigger] workers@[i];
                &&& w.well_formed()
                &&& w.id == i
                &&& w.variant == variant
                &&& w.phase == Phase::Requesting
            },
{
    let mut workers = Vec::new();
    let mut id: usize = 0;
    while id < WORKERS
        invariant
            id <= WORKERS,
            workers@ == fresh_workers(variant).take(id as int),
        decreases WORKERS - id,
    {
        workers.push(Worker::new(id, variant));
        id = id + 1;
        assert(workers@ =~= fresh_workers(variant).take(id as int));
    }
    assert(workers@ =~= fresh_workers(variant));
    workers
}

/// What the workers go through together: which of them took which event, in order.
pub type Trace = Seq<(int, Event)>;

/// The workers after a trace.
pub open spec fn run_all(workers: Seq<Worker>, trace: Trace) -> Seq<Worker>
    decreases trace.len(),
{
    if trace.len() == 0 {
        workers
    } else {
        let before = run_all(workers, trace.drop_last());
        let (i, event) = trace.last();
        before.update(i, before[i].after(event))
    }
}

/// Whether each event of a trace can come of what its worker is to do at that point.
pub open spec fn can_run_all(workers: Seq<Worker>, trace: Trace) -> bool
    decreases trace.len(),
{
    trace.len() > 0 ==> {
        let before = run_all(workers, trace.drop_last());
        let (i, event) = trace.last();
        &&& can_run_all(workers, trace.drop_last())
        &&& 0 <= i < workers.len()
        &&& before[i].can_take(event)
    }
}

/// The events of a trace.
pub open spec fn events_of(trace: Trace) -> Seq<Event> {
    Seq::new(trace.len(), |k: int| trace[k].1)
}

/// How many successful requests the shared counter shows after a trace.
pub open spec fn counter(trace: Trace) -> nat {
    worker::completions(events_of(trace))
}

/// How many requests the workers have in flight together.
pub open spec fn all_in_flight(workers: Seq<Worker>) -> nat
    decreases workers.len(),
{
    if workers.len() == 0 {
        0
    } else {
        all_in_flight(workers.drop_last()) + worker::in_flight(workers.last())
    }
}

/// How many requests the workers have started together: one each, and one after
/// each completed request and after each rest.
pub open spec fn all_started(trace: Trace) -> nat {
    (WORKERS + worker::started(events_of(trace)) - 1) as nat
}

proof fn lemma_in_flight_at_most(workers: Seq<Worker>)
    ensures
        all_in_flight(workers) <= workers.len(),
    decreases workers.len(),
{
    if workers.len() > 0 {
        lemma_in_flight_at_most(workers.drop_last());
    }
}

proof fn lemma_in_flight_of_fresh(workers: Seq<Worker>)
    requires
        forall|i: int| 0 <= i < workers.len() ==> worker::in_flight(#[trigger] workers[i]) == 1,
    ensures
        all_in_flight(workers) == workers.len(),
    decreases workers.len(),
{
    if workers.len() > 0 {
        lemma_in_flight_of_fresh(workers.drop_last());
    }
}

proof fn lemma_in_flight_after_update(workers: Seq<Worker>, i: int, w: Worker)
    requires
        0 <= i < workers.len(),
    ensures
        all_in_flight(workers.update(i, w)) == all_in_flight(workers) - worker::in_flight(workers[i])
            + worker::in_flight(w),
    decreases workers.len(),
{
    let updated = workers.update(i, w);
    if i == workers.len() - 1 {
        assert(updated.drop_last() =~= workers.drop_last());
    } else {
        lemma_in_flight_after_update(workers.drop_last(), i, w);
        assert(updated.drop_last() =~= workers.drop_last().update(i, w));
    }
}

/// Whatever happens, the load stays fixed: there are always `WORKERS` workers with
/// their numbers, at most `WORKERS` requests are in flight, and every request that
/// was started has been counted, has failed, or is in flight.
pub proof fn law_the_load_is_fixed(variant: Variant, trace: Trace)
    requires
        can_run_all(fresh_workers(variant), trace),
    ensures
        run_all(fresh_workers(variant), trace).len() == WORKERS,
        forall|i: int|
            0 <= i < WORKERS ==> {
                let w = #[trigger] run_all(fresh_workers(variant), trace)[i];
                w.id == i && w.variant == variant && w.well_formed()
            },
        all_in_flight(run_all(fresh_workers(variant), trace)) <= WORKERS,
        all_started(trace) == counter(trace) + worker::failures(events_of(trace)) + all_in_flight(
            run_all(fresh_workers(variant), trace),
        ),
    decreases trace.len(),
{
    let now = run_all(fresh_workers(variant), trace);
    if trace.len() == 0 {
        lemma_in_flight_of_fresh(now);
        assert(events_of(trace).len() == 0);
    } else {
        let (i, event) = trace.last();
        law_the_load_is_fixed(variant, trace.drop_last());
        let before = run_all(fresh_workers(variant), trace.drop_last());
        assert(events_of(trace).drop_last() =~= events_of(trace.drop_last()));
        assert(before[i].well_formed());
        lemma_in_flight_after_update(before, i, before[i].after(event));
        lemma_in_flight_at_most(now);
        lemma_started_positive(events_of(trace.drop_last()));
    }
}

proof fn lemma_started_positive(events: Seq<Event>)
    ensures
        worker::started(events) >= 1,
    decreases events.len(),
{
    if events.len() > 0 {
        lemma_started_positive(events.drop_last());
    }
}

/// The shared counter never goes down: a later reading is at least an earlier one.
pub proof fn law_the_counter_never_goes_down(trace: Trace, earlier: int, later: int)
    requires
        0 <= earlier <= later <= trace.len(),
    ensures
        counter(trace.take(earlier)) <= counter(trace.take(later)),
    decreases later - earlier,
{
    if earlier < later {
        law_the_counter_never_goes_down(trace, earlier, later - 1);
        assert(events_of(trace.take(later)).drop_last() =~= events_of(trace.take(later - 1)));
    }
}

/// Every worker that the harness starts is about to make its first request: by sending
/// it with the asynchronous client, or by running it on a blocking thread.
pub proof fn law_every_worker_begins_with_a_request(variant: Variant, i: int)
    requires
        0 <= i < WORKERS,
    ensures
        fresh_workers(variant).len() == WORKERS,
        ({
            let w = fresh_workers(variant)[i];
            &&& w.id == i
            &&& w.variant == variant
            &&& w.phase == Phase::Requesting
            &&& variant.shared_client() is Reqwest ==> w.next_action() == Action::Send
            &&& variant.shared_client() is Ureq ==> w.next_action() == Action::RunBlocking
        }),
{
}

/// In any run of the workers, a body is read only after a response has arrived for that
/// very worker, and since then the worker has had only chunks of that body.
pub proof fn law_each_worker_reads_only_its_own_response(variant: Variant, trace: Trace, i: int)
    requires
        can_run_all(fresh_workers(variant), trace),
        0 <= i < WORKERS,
        run_all(fresh_workers(variant), trace)[i].phase == Phase::ReadingBody,
    ensures
        exists|k: int|
            0 <= k < trace.len() && (#[trigger] trace[k]).0 == i && worker::is_response(trace[k].1)
                && forall|j: int|
                k < j < trace.len() && (#[trigger] trace[j]).0 == i ==> worker::is_chunk(trace[j].1),
    decreases trace.len(),
{
    if trace.len() == 0 {
        law_every_worker_begins_with_a_request(variant, i);
    } else {
        let front = trace.drop_last();
        let (who, event) = trace.last();
        let before = run_all(fresh_workers(variant), front);
        law_the_load_is_fixed(variant, front);
        assert(before[who].well_formed());
        let last = trace.len() - 1;
        assert(trace[last] == (who, event));
        if who == i && worker::is_response(event) {
            assert(trace[last].0 == i);
        } else {
            assert(before[i].phase == Phase::ReadingBody);
            assert(who == i ==> worker::is_chunk(event));
            law_each_worker_reads_only_its_own_response(variant, front, i);
            let k = choose|k: int|
                0 <= k < front.len() && (#[trigger] front[k]).0 == i && worker::is_response(
                    front[k].1,
                ) && forall|j: int|
                    k < j < front.len() && (#[trigger] front[j]).0 == i ==> worker::is_chunk(
                        front[j].1,
                    );
            assert(trace[k] == front[k]);
            assert forall|j: int| k < j < trace.len() && (#[trigger] trace[j]).0 == i implies
                worker::is_chunk(trace[j].1) by {
                if j < front.len() {
                    assert(trace[j] == front[j]);
                }
            }
        }
    }
}

/// The counter goes up by one with each body read to its end, and with nothing else.
pub proof fn law_the_counter_counts_bodies_read_to_their_end(trace: Trace, i: int, event: Event)
    ensures
        counter(Seq::empty()) == 0,
        counter(trace.push((i, event))) == counter(trace) + if event matches Event::ChunkRead(None)
            || event matches Event::BodyCollected(Ok(_)) || event matches Event::BlockingFinished(
            Ok(Ok(_)),
        ) {
            1int
        } else {
            0
        },
{
    assert(events_of(Seq::empty()).len() == 0);
    assert(events_of(trace.push((i, event))).drop_last() =~= events_of(trace));
}

} // verus!
