//! A worker: requests the URL forever, one request at a time.
use crate::decimal;
use crate::variant::{BodyHandling, Client, Variant};
use vstd::prelude::*;

verus! {

/// For how many milliseconds a worker rests after a failure.
pub const BACKOFF_MILLIS: u64 = 100;

/// Where a worker stands.
#[derive(Clone, Copy, Debug, PartialEq, Eq, Structural)]
pub enum Phase {
    /// A request is to be made.
    Requesting,
    /// The response has arrived; its body is to be consumed.
    ReadingBody,
    /// The last request failed; the worker is to rest.
    BackingOff,
}

/// What a worker is to do next.
#[derive(Clone, Copy, Debug, PartialEq, Eq, Structural)]
pub enum Action {
    /// Send the request and wait for the response.
    Send,
    /// Wait for the next chunk of the body, and drop it.
    ReadChunk,
    /// Wait for the whole body.
    CollectBody,
    /// Run one blocking request on a blocking thread, and wait for it.
    RunBlocking,
    /// Sleep.
    Sleep {
        /// For how long.
        millis: u64,
    },
}

/// What came of an action.
pub enum Event {
    /// Of sending: the response has arrived, or the error.
    Sent(Result<(), String>),
    /// Of waiting for a chunk: a chunk, the error, or the end of the body.
    ChunkRead(Option<Result<(), String>>),
    /// Of waiting for the whole body: the body has arrived, or the error.
    BodyCollected(Result<(), String>),
    /// Of a blocking request: its own result, or why the thread did not return one.
    BlockingFinished(Result<Result<(), String>, String>),
    /// Of sleeping: the time is over.
    Rested,
}

/// What a worker wants done beside its next action.
pub struct Effect {
    /// Whether one more request has succeeded.
    pub counted: bool,
    /// The line to print about a failure.
    pub log: Option<String>,
}

impl Effect {
    /// The text of the line to print about a failure.
    pub open spec fn log_text(self) -> Option<Seq<char>> {
        match self.log {
            Some(line) => Some(line@),
            None => None,
        }
    }
}

/// What failed.
#[derive(Clone, Copy, Debug, PartialEq, Eq, Structural)]
pub enum FailureKind {
    /// The request.
    Request,
    /// The response body.
    Body,
    /// The thread of a blocking request.
    Join,
}

impl FailureKind {
    /// The word for it.
    pub open spec fn word(self) -> Seq<char> {
        match self {
            FailureKind::Request => "request"@,
            FailureKind::Body => "body"@,
            FailureKind::Join => "join"@,
        }
    }
}

/// The line that worker `id` prints about a failure.
pub open spec fn failure_line(id: usize, kind: FailureKind, message: Seq<char>) -> Seq<char> {
    "[worker "@ + decimal::decimal(id as nat) + "] "@ + kind.word() + " error: "@ + message
}

impl Event {
    /// Whether a response body has been consumed to its end.
    pub open spec fn completes(self) -> bool {
        match self {
            Event::ChunkRead(None) => true,
            Event::BodyCollected(Ok(_)) => true,
            Event::BlockingFinished(Ok(Ok(_))) => true,
            _ => false,
        }
    }

    /// What failed, and the message of the error.
    pub open spec fn failure(self) -> Option<(FailureKind, Seq<char>)> {
        match self {
            Event::Sent(Err(e)) => Some((FailureKind::Request, e@)),
            Event::ChunkRead(Some(Err(e))) => Some((FailureKind::Body, e@)),
            Event::BodyCollected(Err(e)) => Some((FailureKind::Body, e@)),
            Event::BlockingFinished(Ok(Err(e))) => Some((FailureKind::Request, e@)),
            Event::BlockingFinished(Err(e)) => Some((FailureKind::Join, e@)),
            _ => None,
        }
    }

    /// The phase that the event leads to.
    pub open spec fn next_phase(self) -> Phase {
        if self.failure() is Some {
            Phase::BackingOff
        } else if self.completes() || self is Rested {
            Phase::Requesting
        } else {
            Phase::ReadingBody
        }
    }
}

/// A worker of a variant.
#[derive(Clone, Copy, Debug, PartialEq, Eq, Structural)]
pub struct Worker {
    /// The number of the worker.
    pub id: usize,
    /// The variant that it works for.
    pub variant: Variant,
    /// Where it stands.
    pub phase: Phase,
}

impl Worker {
    /// A blocking request consumes the body itself, so only a worker with an
    /// asynchronous client ever stands before a body.
    pub open spec fn well_formed(self) -> bool {
        self.phase == Phase::ReadingBody ==> self.variant.shared_client() is Reqwest
    }

    /// A worker that has not begun.
    pub open spec fn fresh(id: usize, variant: Variant) -> Worker {
        Worker { id, variant, phase: Phase::Requesting }
    }

    /// What the worker is to do next.
    pub open spec fn next_action(self) -> Action {
        match self.phase {
            Phase::Requesting => if self.variant.shared_client() is Reqwest {
                Action::Send
            } else {
                Action::RunBlocking
            },
            Phase::ReadingBody => match self.variant.body_handling() {
                BodyHandling::Streaming => Action::ReadChunk,
                BodyHandling::Collecting => Action::CollectBody,
            },
            Phase::BackingOff => Action::Sleep { millis: BACKOFF_MILLIS },
        }
    }

    /// Whether `event` can come of what the worker is to do next.
    pub open spec fn can_take(self, event: Event) -> bool {
        match self.next_action() {
            Action::Send => event is Sent,
            Action::ReadChunk => event is ChunkRead,
            Action::CollectBody => event is BodyCollected,
            Action::RunBlocking => event is BlockingFinished,
            Action::Sleep { .. } => event is Rested,
        }
    }

    /// The worker after `event`.
    pub open spec fn after(self, event: Event) -> Worker {
        Worker { phase: event.next_phase(), ..self }
    }

    /// The line that the worker prints about `event`, if it is a failure.
    pub open spec fn report_of(self, event: Event) -> Option<Seq<char>> {
        match event.failure() {
            Some((kind, message)) => Some(failure_line(self.id, kind, message)),
            None => None,
        }
    }

    /// A worker that is about to make its first request.
    pub fn new(id: usize, variant: Variant) -> (worker: Self)
        ensures
            worker == Self::fresh(id, variant),
            worker.well_formed(),
            worker.id == id,
            worker.variant == variant,
            worker.phase == Phase::Requesting,
    {
        Worker { id, variant, phase: Phase::Requesting }
    }

    /// What the worker is to do next.
    pub fn action(&self) -> (action: Action)
        ensures
            action == self.next_action(),
            self.phase == Phase::Requesting ==> match self.variant.shared_client() {
                Client::Reqwest(_) => action == Action::Send,
                Client::Ureq => action == Action::RunBlocking,
            },
            self.phase == Phase::ReadingBody ==> match self.variant.body_handling() {
                BodyHandling::Streaming => action == Action::ReadChunk,
                BodyHandling::Collecting => action == Action::CollectBody,
            },
            self.phase == Phase::BackingOff ==> action == (Action::Sleep { millis: 100 }),
    {
        match self.phase {
            Phase::Requesting => match self.variant.client() {
                Client::Reqwest(_) => Action::Send,
                Client::Ureq => Action::RunBlocking,
            },
            Phase::ReadingBody => match self.variant.body() {
                BodyHandling::Streaming => Action::ReadChunk,
                BodyHandling::Collecting => Action::CollectBody,
            },
            Phase::BackingOff => Action::Sleep { millis: BACKOFF_MILLIS },
        }
    }

    /// Whether `event` can come of what the worker is to do next.
    pub fn accepts(&self, event: &Event) -> (accepted: bool)
        ensures
            accepted == self.can_take(*event),
            accepted == match (self.phase, *event) {
                (Phase::Requesting, Event::Sent(_)) => self.variant.shared_client() is Reqwest,
                (Phase::Requesting, Event::BlockingFinished(_)) => self.variant.shared_client()
                    is Ureq,
                (Phase::ReadingBody, Event::ChunkRead(_)) => self.variant.body_handling()
                    == BodyHandling::Streaming,
                (Phase::ReadingBody, Event::BodyCollected(_)) => self.variant.body_handling()
                    == BodyHandling::Collecting,
                (Phase::BackingOff, Event::Rested) => true,
                _ => false,
            },
    {
        match (self.action(), event) {
            (Action::Send, Event::Sent(_)) => true,
            (Action::ReadChunk, Event::ChunkRead(_)) => true,
            (Action::CollectBody, Event::BodyCollected(_)) => true,
            (Action::RunBlocking, Event::BlockingFinished(_)) => true,
            (Action::Sleep { .. }, Event::Rested) => true,
            _ => false,
        }
    }

    /// Takes in what came of the action: a body consumed to its end is counted and
    /// the next request follows at once; a failure is logged and the worker rests
    /// before the next request.
    pub fn step(&mut self, event: Event) -> (effect: Effect)
        requires
            old(self).well_formed(),
            old(self).can_take(event),
        ensures
            *final(self) == old(self).after(event),
            final(self).well_formed(),
            effect.counted == event.completes(),
            effect.log_text() == old(self).report_of(event),
            final(self).id == old(self).id,
            final(self).variant == old(self).variant,
            match event {
                Event::Sent(Ok(_)) | Event::ChunkRead(Some(Ok(_))) => {
                    &&& final(self).phase == Phase::ReadingBody
                    &&& !effect.counted
                    &&& effect.log is None
                },
                Event::ChunkRead(None) | Event::BodyCollected(Ok(_)) | Event::BlockingFinished(
                    Ok(Ok(_)),
                ) => {
                    &&& final(self).phase == Phase::Requesting
                    &&& effect.counted
                    &&& effect.log is None
                },
                Event::Rested => {
                    &&& final(self).phase == Phase::Requesting
                    &&& !effect.counted
                    &&& effect.log is None
                },
                Event::Sent(Err(e)) | Event::BlockingFinished(Ok(Err(e))) => {
                    &&& final(self).phase == Phase::BackingOff
                    &&& !effect.counted
                    &&& effect.log matches Some(line) && line@ == "[worker "@ + decimal::decimal(
                        old(self).id as nat,
                    ) + "] request error: "@ + e@
                },
                Event::ChunkRead(Some(Err(e))) | Event::BodyCollected(Err(e)) => {
                    &&& final(self).phase == Phase::BackingOff
                    &&& !effect.counted
                    &&& effect.log matches Some(line) && line@ == "[worker "@ + decimal::decimal(
                        old(self).id as nat,
                    ) + "] body error: "@ + e@
                },
                Event::BlockingFinished(Err(e)) => {
                    &&& final(self).phase == Phase::BackingOff
                    &&& !effect.counted
                    &&& effect.log matches Some(line) && line@ == "[worker "@ + decimal::decimal(
                        old(self).id as nat,
                    ) + "] join error: "@ + e@
                },
            },
    {
        let failed = match event {
            Event::Sent(Ok(())) => {
                self.phase = Phase::ReadingBody;
                return Effect { counted: false, log: None };
            },
            Event::ChunkRead(Some(Ok(()))) => {
                self.phase = Phase::ReadingBody;
                return Effect { counted: false, log: None };
            },
            Event::ChunkRead(None) | Event::BodyCollected(Ok(()))
            | Event::BlockingFinished(Ok(Ok(()))) => {
                self.phase = Phase::Requesting;
                return Effect { counted: true, log: None };
            },
            Event::Rested => {
                self.phase = Phase::Requesting;
                return Effect { counted: false, log: None };
            },
            Event::Sent(Err(e)) => (FailureKind::Request, e),
            Event::ChunkRead(Some(Err(e))) => (FailureKind::Body, e),
            Event::BodyCollected(Err(e)) => (FailureKind::Body, e),
            Event::BlockingFinished(Ok(Err(e))) => (FailureKind::Request, e),
            Event::BlockingFinished(Err(e)) => (FailureKind::Join, e),
        };
        self.phase = Phase::BackingOff;
        proof {
            law_a_failure_line_names_worker_kind_and_error(self.id, failed.1@);
        }
        Effect { counted: false, log: Some(format_failure(self.id, failed.0, failed.1.as_str())) }
    }
}

/// Writes the line that worker `id` prints about a failure.
fn format_failure(id: usize, kind: FailureKind, message: &str) -> (line: String)
    ensures
        line@ == failure_line(id, kind, message@),
{
    let mut line = String::new();
    line.append("[worker ");
    decimal::push_decimal(&mut line, id as u128);
    line.append("] ");
    line.append(
        match kind {
            FailureKind::Request => "request",
            FailureKind::Body => "body",
            FailureKind::Join => "join",
        },
    );
    line.append(" error: ");
    line.append(message);
    assert(line@ =~= failure_line(id, kind, message@));
    line
}

/// The line about a failure names the worker, says what failed, and ends with the
/// message of the error, whatever the message is.
pub proof fn law_a_failure_line_names_worker_kind_and_error(id: usize, message: Seq<char>)
    ensures
        failure_line(id, FailureKind::Request, message) == "[worker "@ + decimal::decimal(
            id as nat,
        ) + "] request error: "@ + message,
        failure_line(id, FailureKind::Body, message) == "[worker "@ + decimal::decimal(id as nat)
            + "] body error: "@ + message,
        failure_line(id, FailureKind::Join, message) == "[worker "@ + decimal::decimal(id as nat)
            + "] join error: "@ + message,
{
    reveal_strlit("] ");
    reveal_strlit("request");
    reveal_strlit("body");
    reveal_strlit("join");
    reveal_strlit(" error: ");
    reveal_strlit("] request error: ");
    reveal_strlit("] body error: ");
    reveal_strlit("] join error: ");
    assert("] "@ + "request"@ + " error: "@ =~= "] request error: "@);
    assert("] "@ + "body"@ + " error: "@ =~= "] body error: "@);
    assert("] "@ + "join"@ + " error: "@ =~= "] join error: "@);
    let front = "[worker "@ + decimal::decimal(id as nat);
    assert(failure_line(id, FailureKind::Request, message) =~= front + ("] "@ + "request"@
        + " error: "@) + message);
    assert(failure_line(id, FailureKind::Body, message) =~= front + ("] "@ + "body"@ + " error: "@)
        + message);
    assert(failure_line(id, FailureKind::Join, message) =~= front + ("] "@ + "join"@ + " error: "@)
        + message);
}

/// The worker after a sequence of events.
pub open spec fn run(worker: Worker, events: Seq<Event>) -> Worker
    decreases events.len(),
{
    if events.len() == 0 {
        worker
    } else {
        run(worker, events.drop_last()).after(events.last())
    }
}

/// Whether each event can come of what the worker is to do at that point.
pub open spec fn can_run(worker: Worker, events: Seq<Event>) -> bool
    decreases events.len(),
{
    events.len() > 0 ==> {
        &&& can_run(worker, events.drop_last())
        &&& run(worker, events.drop_last()).can_take(events.last())
    }
}

/// How many of the events complete a request.
pub open spec fn completions(events: Seq<Event>) -> nat
    decreases events.len(),
{
    if events.len() == 0 {
        0
    } else {
        completions(events.drop_last()) + if events.last().completes() {
            1nat
        } else {
            0
        }
    }
}

/// How many of the events are failures.
pub open spec fn failures(events: Seq<Event>) -> nat
    decreases events.len(),
{
    if events.len() == 0 {
        0
    } else {
        failures(events.drop_last()) + if events.last().failure() is Some {
            1nat
        } else {
            0
        }
    }
}

/// How many requests a worker has started: the first, and one after each completed
/// request and after each rest.
pub open spec fn started(events: Seq<Event>) -> nat
    decreases events.len(),
{
    if events.len() == 0 {
        1
    } else {
        started(events.drop_last()) + if events.last().next_phase() == Phase::Requesting {
            1nat
        } else {
            0
        }
    }
}

/// How many requests the worker has in flight.
pub open spec fn in_flight(worker: Worker) -> nat {
    if worker.phase == Phase::BackingOff {
        0
    } else {
        1
    }
}

/// A worker stays well-formed, keeps its number and its variant, and always has
/// something to do next of which something comes: it works forever.
pub proof fn law_a_worker_never_stops(worker: Worker, events: Seq<Event>)
    requires
        worker.well_formed(),
        can_run(worker, events),
    ensures
        run(worker, events).well_formed(),
        run(worker, events).id == worker.id,
        run(worker, events).variant == worker.variant,
        exists|event: Event| run(worker, events).can_take(event),
    decreases events.len(),
{
    if events.len() > 0 {
        law_a_worker_never_stops(worker, events.drop_last());
    }
    let now = run(worker, events);
    let event = match now.next_action() {
        Action::Send => Event::Sent(Ok(())),
        Action::ReadChunk => Event::ChunkRead(None),
        Action::CollectBody => Event::BodyCollected(Ok(())),
        Action::RunBlocking => Event::BlockingFinished(Ok(Ok(()))),
        Action::Sleep { .. } => Event::Rested,
    };
    assert(now.can_take(event));
}

/// A worker has at most one request in flight, and every request that it started
/// has completed, has failed, or is that one.
pub proof fn law_one_request_at_a_time(id: usize, variant: Variant, events: Seq<Event>)
    requires
        can_run(Worker::fresh(id, variant), events),
    ensures
        in_flight(run(Worker::fresh(id, variant), events)) <= 1,
        started(events) == completions(events) + failures(events) + in_flight(
            run(Worker::fresh(id, variant), events),
        ),
    decreases events.len(),
{
    if events.len() > 0 {
        law_one_request_at_a_time(id, variant, events.drop_last());
        law_a_worker_never_stops(Worker::fresh(id, variant), events.drop_last());
    }
}

/// After a completed request the next one follows at once; after a failure the
/// worker rests for `BACKOFF_MILLIS`, once, and then makes the next request.
pub proof fn law_only_a_failure_makes_a_worker_rest(worker: Worker, event: Event)
    requires
        worker.well_formed(),
        worker.can_take(event),
    ensures
        worker.after(event).next_action() is Sleep <==> event.failure() is Some,
        event.failure() is Some ==> {
            &&& worker.after(event).next_action() == Action::Sleep { millis: BACKOFF_MILLIS }
            &&& worker.after(event).after(Event::Rested).phase == Phase::Requesting
        },
        event.completes() ==> worker.after(event).phase == Phase::Requesting,
        !(event.completes() && event.failure() is Some),
{
}

/// A body that comes in `chunks` chunks: the events up to its end.
pub open spec fn body_in_chunks(chunks: nat) -> Seq<Event>
    decreases chunks,
{
    if chunks == 0 {
        seq![]
    } else {
        body_in_chunks((chunks - 1) as nat).push(Event::ChunkRead(Some(Ok(()))))
    }
}

proof fn lemma_chunks_change_nothing(worker: Worker, chunks: nat)
    requires
        worker.phase == Phase::ReadingBody,
        worker.variant.body_handling() == BodyHandling::Streaming,
    ensures
        can_run(worker, body_in_chunks(chunks)),
        run(worker, body_in_chunks(chunks)) == worker,
        completions(body_in_chunks(chunks)) == 0,
        failures(body_in_chunks(chunks)) == 0,
    decreases chunks,
{
    if chunks > 0 {
        lemma_chunks_change_nothing(worker, (chunks - 1) as nat);
        assert(body_in_chunks(chunks).drop_last() =~= body_in_chunks((chunks - 1) as nat));
    }
}

/// A streamed body counts once, however many chunks it comes in, and no chunk of it
/// leaves anything behind in the worker.
pub proof fn law_a_streamed_body_counts_once(worker: Worker, chunks: nat)
    requires
        worker.phase == Phase::ReadingBody,
        worker.variant.body_handling() == BodyHandling::Streaming,
    ensures
        run(worker, body_in_chunks(chunks)) == worker,
        ({
            let events = body_in_chunks(chunks).push(Event::ChunkRead(None));
            &&& can_run(worker, events)
            &&& completions(events) == 1
            &&& failures(events) == 0
            &&& run(worker, events).phase == Phase::Requesting
        }),
{
    lemma_chunks_change_nothing(worker, chunks);
    let events = body_in_chunks(chunks).push(Event::ChunkRead(None));
    assert(events.drop_last() =~= body_in_chunks(chunks));
}

/// A body error after any number of chunks: the request is not counted, and the
/// worker rests.
pub proof fn law_a_broken_body_is_not_counted(worker: Worker, chunks: nat, error: String)
    requires
        worker.phase == Phase::ReadingBody,
        worker.variant.body_handling() == BodyHandling::Streaming,
    ensures
        ({
            let events = body_in_chunks(chunks).push(Event::ChunkRead(Some(Err(error))));
            &&& can_run(worker, events)
            &&& completions(events) == 0
            &&& failures(events) == 1
            &&& run(worker, events).phase == Phase::BackingOff
        }),
{
    lemma_chunks_change_nothing(worker, chunks);
    let events = body_in_chunks(chunks).push(Event::ChunkRead(Some(Err(error))));
    assert(events.drop_last() =~= body_in_chunks(chunks));
}

/// Whether the workers of two variants go through the same motions: both have the
/// blocking client, or both have the asynchronous one and the same body handling.
pub open spec fn same_motions(v: Variant, w: Variant) -> bool {
    ||| v.shared_client() is Ureq && w.shared_client() is Ureq
    ||| v.shared_client() is Reqwest && w.shared_client() is Reqwest && v.body_handling()
        == w.body_handling()
}

/// The settings of a client change nothing in what its workers do: they take the
/// same events, stand at the same point after them, and print the same lines.
pub proof fn law_settings_do_not_change_the_work(
    v: Variant,
    w: Variant,
    id: usize,
    events: Seq<Event>,
    next: Event,
)
    requires
        same_motions(v, w),
        can_run(Worker::fresh(id, v), events),
    ensures
        can_run(Worker::fresh(id, w), events),
        run(Worker::fresh(id, v), events).phase == run(Worker::fresh(id, w), events).phase,
        run(Worker::fresh(id, v), events).next_action() == run(
            Worker::fresh(id, w),
            events,
        ).next_action(),
        run(Worker::fresh(id, v), events).report_of(next) == run(
            Worker::fresh(id, w),
            events,
        ).report_of(next),
    decreases events.len(),
{
    law_a_worker_never_stops(Worker::fresh(id, v), events);
    if events.len() > 0 {
        law_settings_do_not_change_the_work(v, w, id, events.drop_last(), next);
    }
    law_a_worker_never_stops(Worker::fresh(id, w), events);
}

/// A request counts at the end of a streamed body, with a whole body, or with a good
/// blocking request, and at no other event.
pub proof fn law_only_a_body_read_to_its_end_counts(event: Event)
    ensures
        event.completes() <==> {
            ||| event matches Event::ChunkRead(None)
            ||| event matches Event::BodyCollected(Ok(_))
            ||| event matches Event::BlockingFinished(Ok(Ok(_)))
        },
{
}

/// Every error is a failure, whatever its message says: it is not counted, it is
/// logged with its message, and the worker rests for 100 milliseconds.
pub proof fn law_every_error_is_a_failure(worker: Worker, message: String)
    ensures
        forall|event: Event|
            {
                ||| event == Event::Sent(Err(message))
                ||| event == Event::ChunkRead(Some(Err(message)))
                ||| event == Event::BodyCollected(Err(message))
                ||| event == Event::BlockingFinished(Ok(Err(message)))
                ||| event == Event::BlockingFinished(Err(message))
            } ==> {
                &&& !(#[trigger] event.completes())
                &&& event.failure() matches Some((kind, text)) && text == message@
                &&& worker.report_of(event) matches Some(line) && message@.len() <= line.len()
                    && line.skip(line.len() - message@.len()) == message@
                &&& worker.after(event).phase == Phase::BackingOff
                &&& worker.after(event).next_action() == (Action::Sleep { millis: 100 })
            },
{
    assert forall|event: Event|
        {
            ||| event == Event::Sent(Err(message))
            ||| event == Event::ChunkRead(Some(Err(message)))
            ||| event == Event::BodyCollected(Err(message))
            ||| event == Event::BlockingFinished(Ok(Err(message)))
            ||| event == Event::BlockingFinished(Err(message))
        } implies {
        &&& !(#[trigger] event.completes())
        &&& event.failure() matches Some((kind, text)) && text == message@
        &&& worker.report_of(event) matches Some(line) && message@.len() <= line.len()
            && line.skip(line.len() - message@.len()) == message@
        &&& worker.after(event).phase == Phase::BackingOff
        &&& worker.after(event).next_action() == (Action::Sleep { millis: 100 })
    } by {
        let line = worker.report_of(event)->0;
        assert(line.skip(line.len() - message@.len()) =~= message@);
    }
}

/// Nothing but an error is a failure: without one nothing is logged, and the worker
/// does not rest.
pub proof fn law_only_an_error_is_a_failure(worker: Worker, event: Event)
    requires
        match event {
            Event::Sent(result) => result is Ok,
            Event::ChunkRead(chunk) => chunk is None || chunk->0 is Ok,
            Event::BodyCollected(result) => result is Ok,
            Event::BlockingFinished(joined) => joined is Ok && joined->Ok_0 is Ok,
            Event::Rested => true,
        },
    ensures
        event.failure() is None,
        worker.report_of(event) is None,
        worker.after(event).phase != Phase::BackingOff,
{
}

/// Workers differ in nothing but their numbers: two that stand at the same point of the
/// same variant do the same next, take the same events, and stand at the same point
/// after each.
pub proof fn law_the_number_of_a_worker_changes_nothing(a: Worker, b: Worker, event: Event)
    requires
        a.variant == b.variant,
        a.phase == b.phase,
    ensures
        a.next_action() == b.next_action(),
        a.can_take(event) == b.can_take(event),
        a.after(event).phase == b.after(event).phase,
        a.after(event).id == a.id,
        a.after(event).variant == a.variant,
{
}

/// The next request is made only after a request that was completed, or after a rest.
pub proof fn law_a_request_follows_a_completion_or_a_rest(worker: Worker, event: Event)
    requires
        worker.well_formed(),
        worker.can_take(event),
        worker.after(event).phase == Phase::Requesting,
    ensures
        ({
            ||| event is Rested
            ||| event matches Event::ChunkRead(None)
            ||| event matches Event::BodyCollected(Ok(_))
            ||| event matches Event::BlockingFinished(Ok(Ok(_)))
        }),
{
}

/// Whatever can come of an action can be taken: any result of sending, any chunk, any
/// error or the end of a body, any result of collecting it or of a blocking request.
pub proof fn law_every_outcome_of_an_action_is_taken(
    worker: Worker,
    result: Result<(), String>,
    chunk: Option<Result<(), String>>,
    joined: Result<Result<(), String>, String>,
)
    ensures
        worker.next_action() == Action::Send ==> worker.can_take(Event::Sent(result)),
        worker.next_action() == Action::ReadChunk ==> worker.can_take(Event::ChunkRead(chunk)),
        worker.next_action() == Action::CollectBody ==> worker.can_take(
            Event::BodyCollected(result),
        ),
        worker.next_action() == Action::RunBlocking ==> worker.can_take(
            Event::BlockingFinished(joined),
        ),
        worker.phase == Phase::BackingOff ==> worker.can_take(Event::Rested),
{
}

/// For every worker number and every variant with the asynchronous client, an arrived
/// response leads to reading its body, in the way of the variant.
pub proof fn law_an_arrived_response_is_read(id: usize, variant: Variant)
    requires
        variant.shared_client() is Reqwest,
    ensures
        ({
            let worker = Worker { id, variant, phase: Phase::Requesting };
            let reading = worker.after(Event::Sent(Ok(())));
            &&& worker.next_action() == Action::Send
            &&& worker.can_take(Event::Sent(Ok(())))
            &&& reading == (Worker { id, variant, phase: Phase::ReadingBody })
            &&& variant.body_handling() == BodyHandling::Streaming ==> reading.next_action()
                == Action::ReadChunk
            &&& variant.body_handling() == BodyHandling::Collecting ==> reading.next_action()
                == Action::CollectBody
        }),
{
}

/// A response and chunks of its body: the worker reads on, and nothing is counted yet.
proof fn lemma_reading_on(id: usize, variant: Variant, events: Seq<Event>)
    requires
        variant.shared_client() is Reqwest,
        variant.body_handling() == BodyHandling::Streaming,
        events.len() > 0,
        events[0] == Event::Sent(Ok(())),
        forall|i: int| 0 < i < events.len() ==> #[trigger] events[i] == Event::ChunkRead(
            Some(Ok(())),
        ),
    ensures
        can_run(Worker::fresh(id, variant), events),
        run(Worker::fresh(id, variant), events) == (Worker {
            id,
            variant,
            phase: Phase::ReadingBody,
        }),
        completions(events) == 0,
        failures(events) == 0,
    decreases events.len(),
{
    let front = events.drop_last();
    if events.len() == 1 {
        assert(front.len() == 0);
        assert(completions(front) == 0);
        assert(failures(front) == 0);
        assert(can_run(Worker::fresh(id, variant), front));
    } else {
        assert(front[0] == events[0]);
        lemma_reading_on(id, variant, front);
        assert(events.last() == events[events.len() - 1]);
    }
}

/// A request of a streaming variant, from the start of any worker: the response
/// arrives, any number of chunks follow, the body ends. This is a run of the worker, it
/// counts exactly once, and the worker is then back at its start.
pub proof fn law_a_streamed_request_counts_once(id: usize, variant: Variant, events: Seq<Event>)
    requires
        variant.shared_client() is Reqwest,
        variant.body_handling() == BodyHandling::Streaming,
        events.len() >= 2,
        events[0] == Event::Sent(Ok(())),
        forall|i: int| 0 < i < events.len() - 1 ==> #[trigger] events[i] == Event::ChunkRead(
            Some(Ok(())),
        ),
        events.last() == Event::ChunkRead(None),
    ensures
        ({
            let start = Worker { id, variant, phase: Phase::Requesting };
            &&& can_run(start, events)
            &&& completions(events) == 1
            &&& failures(events) == 0
            &&& run(start, events) == start
        }),
{
    assert(events.drop_last()[0] == events[0]);
    lemma_reading_on(id, variant, events.drop_last());
}

/// A streamed body that breaks off with an error after any number of chunks: a run of
/// the worker that is not counted, fails once, and leads back to the start after one
/// rest.
pub proof fn law_a_broken_stream_fails_once(
    id: usize,
    variant: Variant,
    events: Seq<Event>,
    message: String,
)
    requires
        variant.shared_client() is Reqwest,
        variant.body_handling() == BodyHandling::Streaming,
        events.len() >= 2,
        events[0] == Event::Sent(Ok(())),
        forall|i: int| 0 < i < events.len() - 1 ==> #[trigger] events[i] == Event::ChunkRead(
            Some(Ok(())),
        ),
        events.last() == Event::ChunkRead(Some(Err(message))),
    ensures
        ({
            let start = Worker { id, variant, phase: Phase::Requesting };
            let rested = events.push(Event::Rested);
            &&& can_run(start, rested)
            &&& completions(rested) == 0
            &&& failures(rested) == 1
            &&& run(start, events).next_action() == (Action::Sleep { millis: 100 })
            &&& run(start, rested) == start
        }),
{
    assert(events.drop_last()[0] == events[0]);
    lemma_reading_on(id, variant, events.drop_last());
    assert(events.push(Event::Rested).drop_last() =~= events);
    let start = Worker { id, variant, phase: Phase::Requesting };
    assert(can_run(start, events) && run(start, events).phase == Phase::BackingOff);
    assert(completions(events) == 0 && failures(events) == 1);
}

/// A request of the collecting variant, from the start of any worker: it counts once if
/// the whole body arrives, and fails once if it does not.
pub proof fn law_a_collected_request_counts_once(id: usize, variant: Variant, message: String)
    requires
        variant.shared_client() is Reqwest,
        variant.body_handling() == BodyHandling::Collecting,
    ensures
        ({
            let start = Worker { id, variant, phase: Phase::Requesting };
            let good = seq![Event::Sent(Ok(())), Event::BodyCollected(Ok(()))];
            let bad = seq![
                Event::Sent(Ok(())),
                Event::BodyCollected(Err(message)),
                Event::Rested,
            ];
            &&& can_run(start, good) && run(start, good) == start
            &&& completions(good) == 1 && failures(good) == 0
            &&& can_run(start, bad) && run(start, bad) == start
            &&& completions(bad) == 0 && failures(bad) == 1
        }),
{
    let good = seq![Event::Sent(Ok(())), Event::BodyCollected(Ok(()))];
    let bad = seq![Event::Sent(Ok(())), Event::BodyCollected(Err(message)), Event::Rested];
    reveal_with_fuel(run, 4);
    reveal_with_fuel(can_run, 4);
    reveal_with_fuel(completions, 4);
    reveal_with_fuel(failures, 4);
    assert(good.drop_last() =~= seq![Event::Sent(Ok(()))]);
    assert(good.drop_last().drop_last() =~= seq![]);
    assert(bad.drop_last() =~= seq![Event::Sent(Ok(())), Event::BodyCollected(Err(message))]);
    assert(bad.drop_last().drop_last() =~= seq![Event::Sent(Ok(()))]);
    assert(bad.drop_last().drop_last().drop_last() =~= seq![]);
}

/// A request through the blocking client, from the start of any worker: it counts once
/// if it comes back good, and fails once if it comes back bad or not at all.
pub proof fn law_a_blocking_request_counts_once(id: usize, variant: Variant, message: String)
    requires
        variant.shared_client() is Ureq,
    ensures
        ({
            let start = Worker { id, variant, phase: Phase::Requesting };
            let good = seq![Event::BlockingFinished(Ok(Ok(())))];
            let bad = seq![Event::BlockingFinished(Ok(Err(message))), Event::Rested];
            let lost = seq![Event::BlockingFinished(Err(message)), Event::Rested];
            &&& start.next_action() == Action::RunBlocking
            &&& can_run(start, good) && run(start, good) == start
            &&& completions(good) == 1 && failures(good) == 0
            &&& can_run(start, bad) && run(start, bad) == start
            &&& completions(bad) == 0 && failures(bad) == 1
            &&& can_run(start, lost) && run(start, lost) == start
            &&& completions(lost) == 0 && failures(lost) == 1
        }),
{
    let good = seq![Event::BlockingFinished(Ok(Ok(())))];
    let bad = seq![Event::BlockingFinished(Ok(Err(message))), Event::Rested];
    let lost = seq![Event::BlockingFinished(Err(message)), Event::Rested];
    reveal_with_fuel(run, 3);
    reveal_with_fuel(can_run, 3);
    reveal_with_fuel(completions, 3);
    reveal_with_fuel(failures, 3);
    assert(good.drop_last() =~= seq![]);
    assert(bad.drop_last() =~= seq![Event::BlockingFinished(Ok(Err(message)))]);
    assert(bad.drop_last().drop_last() =~= seq![]);
    assert(lost.drop_last() =~= seq![Event::BlockingFinished(Err(message))]);
    assert(lost.drop_last().drop_last() =~= seq![]);
}

/// A request that cannot be sent: not counted, failed once, and tried again after one
/// rest.
pub proof fn law_a_request_that_cannot_be_sent_is_tried_again(
    id: usize,
    variant: Variant,
    message: String,
)
    requires
        variant.shared_client() is Reqwest,
    ensures
        ({
            let start = Worker { id, variant, phase: Phase::Requesting };
            let events = seq![Event::Sent(Err(message)), Event::Rested];
            &&& can_run(start, events) && run(start, events) == start
            &&& completions(events) == 0 && failures(events) == 1
        }),
{
    let events = seq![Event::Sent(Err(message)), Event::Rested];
    reveal_with_fuel(run, 3);
    reveal_with_fuel(can_run, 3);
    reveal_with_fuel(completions, 3);
    reveal_with_fuel(failures, 3);
    assert(events.drop_last() =~= seq![Event::Sent(Err(message))]);
    assert(events.drop_last().drop_last() =~= seq![]);
}

/// Whether the event is the arrival of a response.
pub open spec fn is_response(event: Event) -> bool {
    event matches Event::Sent(Ok(_))
}

/// Whether the event is a chunk of a body.
pub open spec fn is_chunk(event: Event) -> bool {
    event matches Event::ChunkRead(Some(Ok(_)))
}

/// A body is read only after a response: where a worker stands before a body, a response
/// has arrived, and since then there were only chunks of that body.
pub proof fn law_a_body_is_read_only_after_a_response(
    id: usize,
    variant: Variant,
    events: Seq<Event>,
)
    requires
        can_run(Worker { id, variant, phase: Phase::Requesting }, events),
        run(Worker { id, variant, phase: Phase::Requesting }, events).phase == Phase::ReadingBody,
    ensures
        exists|k: int|
            0 <= k < events.len() && is_response(#[trigger] events[k]) && forall|j: int|
                k < j < events.len() ==> is_chunk(#[trigger] events[j]),
    decreases events.len(),
{
    let start = Worker { id, variant, phase: Phase::Requesting };
    let front = events.drop_last();
    let last = events.last();
    if is_response(last) {
        assert(is_response(events[events.len() - 1]));
    } else {
        assert(is_chunk(last));
        law_a_worker_never_stops(start, front);
        law_a_body_is_read_only_after_a_response(id, variant, front);
        let k = choose|k: int|
            0 <= k < front.len() && is_response(#[trigger] front[k]) && forall|j: int|
                k < j < front.len() ==> is_chunk(#[trigger] front[j]);
        assert(events[k] == front[k]);
        assert forall|j: int| k < j < events.len() implies is_chunk(#[trigger] events[j]) by {
            if j < front.len() {
                assert(events[j] == front[j]);
            }
        }
    }
}

} // verus!
