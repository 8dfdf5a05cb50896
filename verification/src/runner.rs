//! Many calls of one door at a time, never more than a limit.
use vstd::prelude::*;

use crate::text::{decimal, usize_text};

verus! {

/// The bookkeeping of a batch of calls.
#[derive(Clone, Debug)]
pub struct Runner {
    /// How many calls there are in all.
    pub total: usize,
    /// How many may run at a time.
    pub max_jobs: usize,
    /// How many were started; the next one has this number.
    pub next: usize,
    /// The numbers of those that are running, each once.
    pub active: Vec<usize>,
    /// How many have finished.
    pub done: usize,
    /// How many of those have failed.
    pub failures: usize,
}

/// The model of a `Runner`.
pub struct Batch {
    /// How many calls there are in all.
    pub total: usize,
    /// How many may run at a time.
    pub max_jobs: usize,
    /// How many were started; the next one has this number.
    pub next: usize,
    /// The numbers of those that are running.
    pub active: Set<usize>,
    /// How many have finished.
    pub done: usize,
    /// How many of those have failed.
    pub failures: usize,
}

/// What is told of a batch while it runs.
#[derive(Clone, Debug)]
pub enum Event {
    /// A call was started.
    Started {
        /// Its number.
        id: usize,
    },
    /// A call has finished.
    Finished {
        /// Its number.
        id: usize,
        /// What the door returned: nothing, if the call has failed.
        output: String,
        /// What went wrong, if anything did.
        error: Option<String>,
    },
    /// How the batch stands.
    Status {
        /// How many calls are running.
        running: usize,
        /// How many have finished.
        done: usize,
        /// How many are still to be started.
        queued: usize,
    },
}

/// The model of an `Event`.
pub enum EventView {
    /// The call with this number was started.
    Started(nat),
    /// The call with this number has finished, with this output and this error.
    Finished(nat, Seq<char>, Option<Seq<char>>),
    /// So many calls are running, have finished and are still to be started.
    Status(nat, nat, nat),
}

/// A line to be printed.
#[derive(Clone, Debug)]
pub struct Line {
    /// Whether it belongs to the error stream.
    pub to_stderr: bool,
    /// The line, without its end.
    pub text: String,
}

impl View for Runner {
    type V = Batch;

    open spec fn view(&self) -> Batch {
        Batch {
            total: self.total,
            max_jobs: self.max_jobs,
            next: self.next,
            active: self.active@.to_set(),
            done: self.done,
            failures: self.failures,
        }
    }
}

impl View for Event {
    type V = EventView;

    open spec fn view(&self) -> EventView {
        match self {
            Event::Started { id } => EventView::Started(*id as nat),
            Event::Finished { id, output, error } => EventView::Finished(
                *id as nat,
                output@,
                match error {
                    Some(error) => Some(error@),
                    None => None,
                },
            ),
            Event::Status { running, done, queued } => EventView::Status(
                *running as nat,
                *done as nat,
                *queued as nat,
            ),
        }
    }
}

/// The models of the events in a log.
pub open spec fn events(log: Seq<Event>) -> Seq<EventView> {
    log.map_values(|e: Event| e@)
}

/// The texts of how a call ended.
pub open spec fn ending(result: Result<String, String>) -> Result<Seq<char>, Seq<char>> {
    match result {
        Ok(output) => Ok(output@),
        Err(error) => Err(error@),
    }
}

/// What is told of a call that has ended: its output, or an error and no output.
pub open spec fn end_event(id: usize, result: Result<Seq<char>, Seq<char>>) -> EventView {
    match result {
        Ok(output) => EventView::Finished(id as nat, output, None),
        Err(error) => EventView::Finished(id as nat, Seq::empty(), Some(error)),
    }
}

/// The line that tells an event.
pub open spec fn line_text(event: EventView) -> Seq<char> {
    match event {
        EventView::Started(id) => "["@ + decimal(id) + "] started"@,
        EventView::Finished(id, output, None) => "["@ + decimal(id) + "] "@ + output,
        EventView::Finished(id, _, Some(error)) => "["@ + decimal(id) + "] ERROR: "@ + error,
        EventView::Status(running, done, queued) => "status: running="@ + decimal(running)
            + " done="@ + decimal(done) + " queued="@ + decimal(queued),
    }
}

/// Whether the line that tells an event belongs to the error stream.
pub open spec fn goes_to_stderr(event: EventView) -> bool {
    event is Status
}

/// The exit code of a batch.
pub open spec fn exit_code_of(b: Batch) -> i32 {
    if b.failures == 0 {
        0
    } else {
        1
    }
}

/// A batch of which nothing was started.
pub open spec fn fresh(total: usize, max_jobs: usize) -> Batch {
    Batch { total, max_jobs, next: 0, active: Set::empty(), done: 0, failures: 0 }
}

impl Batch {
    /// Whether the counts fit together and keep within the limits.
    pub open spec fn wf(self) -> bool {
        &&& self.next <= self.total
        &&& self.active.finite()
        &&& forall|id: usize| #[trigger] self.active.contains(id) ==> id < self.next
        &&& self.active.len() + self.done == self.next
        &&& self.active.len() <= self.max_jobs
        &&& self.failures <= self.done
    }

    /// Whether a call is left and may be started.
    pub open spec fn may_start(self) -> bool {
        self.next < self.total && self.active.len() < self.max_jobs
    }

    /// The batch once the next call was started.
    pub open spec fn started(self) -> Batch {
        Batch { next: (self.next + 1) as usize, active: self.active.insert(self.next), ..self }
    }

    /// The batch once a running call has finished, well or not.
    pub open spec fn finished(self, id: usize, ok: bool) -> Batch {
        Batch {
            active: self.active.remove(id),
            done: (self.done + 1) as usize,
            failures: if ok {
                self.failures
            } else {
                (self.failures + 1) as usize
            },
            ..self
        }
    }

    /// How the batch stands.
    pub open spec fn status(self) -> EventView {
        EventView::Status(
            self.active.len(),
            self.done as nat,
            (self.total - self.active.len() - self.done) as nat,
        )
    }
}

impl Runner {
    /// Whether no number is held twice, the counts fit together and the limits
    /// are kept.
    pub open spec fn wf(&self) -> bool {
        &&& self.active@.no_duplicates()
        &&& self@.wf()
    }

    /// A batch of `total` calls, of which `max_jobs` may run at a time.
    pub fn new(total: usize, max_jobs: usize) -> (r: Runner)
        ensures
            r@ == fresh(total, max_jobs),
            r.wf(),
    {
        let r = Runner { total, max_jobs, next: 0, active: Vec::new(), done: 0, failures: 0 };
        assert(r@.active =~= Set::<usize>::empty());
        r
    }

    /// How many calls are running.
    pub fn running(&self) -> (r: usize)
        requires
            self.wf(),
        ensures
            r == self@.active.len(),
    {
        proof {
            self.active@.unique_seq_to_set();
        }
        self.active.len()
    }

    /// Where the list of running calls holds this number.
    fn position(&self, id: usize) -> (r: Option<usize>)
        ensures
            match r {
                Some(i) => i < self.active@.len() && self.active@[i as int] == id,
                None => !self@.active.contains(id),
            },
    {
        for i in 0..self.active.len()
            invariant
                forall|j: int| 0 <= j < i ==> self.active@[j] != id,
        {
            if self.active[i] == id {
                return Some(i);
            }
        }
        None
    }

    /// Whether the call with this number is running.
    pub fn is_running(&self, id: usize) -> (r: bool)
        ensures
            r == self@.active.contains(id),
    {
        match self.position(id) {
            Some(i) => {
                assert(self.active@.contains(id));
                true
            },
            None => false,
        }
    }

    fn status_event(&self) -> (r: Event)
        requires
            self.wf(),
        ensures
            r@ == self@.status(),
    {
        let running: usize = self.running();
        Event::Status {
            running,
            done: self.done,
            queued: self.total.saturating_sub(running).saturating_sub(self.done),
        }
    }

    /// Starts the next call if one is left and the limit allows it. Tells in the
    /// log that it did, and how the batch stands then.
    pub fn start(&mut self, log: &mut Vec<Event>) -> (r: Option<usize>)
        requires
            old(self).wf(),
        ensures
            final(self).wf(),
            match r {
                Some(id) => {
                    &&& old(self)@.may_start()
                    &&& id == old(self)@.next
                    &&& final(self)@ == old(self)@.started()
                    &&& events(final(log)@) == events(old(log)@) + seq![
                        EventView::Started(id as nat),
                        old(self)@.started().status(),
                    ]
                    &&& final(log)@.len() == old(log)@.len() + 2
                    &&& final(log)@[old(log)@.len() as int]@ == EventView::Started(id as nat)
                    &&& final(log)@.last()@ == final(self)@.status()
                    &&& final(log)@.take(old(log)@.len() as int) == old(log)@
                    &&& after_move(old(self)@, Move::Start(id)) matches Some((batch, told))
                    &&& final(self)@ == batch
                    &&& events(final(log)@) == events(old(log)@) + told
                },
                None => {
                    &&& !old(self)@.may_start()
                    &&& final(self)@ == old(self)@
                    &&& final(log)@ == old(log)@
                },
            },
    {
        let ghost before = self.active@;
        if self.next >= self.total || self.running() >= self.max_jobs {
            return None;
        }
        let id: usize = self.next;
        self.next = self.next + 1;
        self.active.push(id);
        proof {
            assert(!before.to_set().contains(id));
            assert(self.active@ =~= before.push(id));
            lemma_push_to_set(before, id);
        }
        let status = self.status_event();
        log.push(Event::Started { id });
        log.push(status);
        assert(events(log@) =~= events(old(log)@) + seq![
            EventView::Started(id as nat),
            old(self)@.started().status(),
        ]);
        Some(id)
    }

    /// Takes note that a running call has finished. Tells in the log how it
    /// ended, and how the batch stands then.
    pub fn finish(&mut self, id: usize, result: Result<String, String>, log: &mut Vec<Event>)
        requires
            old(self).wf(),
            old(self)@.active.contains(id),
        ensures
            final(self).wf(),
            final(self)@ == old(self)@.finished(id, result is Ok),
            events(final(log)@) == events(old(log)@) + seq![
                end_event(id, ending(result)),
                old(self)@.finished(id, result is Ok).status(),
            ],
            final(log)@.len() == old(log)@.len() + 2,
            final(log)@[old(log)@.len() as int]@ == end_event(id, ending(result)),
            final(log)@.last()@ == final(self)@.status(),
            final(log)@.take(old(log)@.len() as int) == old(log)@,
            after_move(old(self)@, Move::Finish(id, ending(result))) matches Some((batch, told))
                && final(self)@ == batch && events(final(log)@) == events(old(log)@) + told,
    {
        let ghost before = self.active@;
        let ghost told = log@;
        if let Some(i) = self.position(id) {
            self.active.remove(i);
            proof {
                assert(self.active@ =~= before.remove(i as int));
                lemma_remove_to_set(before, i as int);
            }
        }
        self.done = self.done + 1;
        let event = match result {
            Ok(output) => Event::Finished { id, output, error: None },
            Err(error) => {
                self.failures = self.failures + 1;
                Event::Finished { id, output: String::new(), error: Some(error) }
            },
        };
        assert(event@ == end_event(id, ending(result)));
        let status = self.status_event();
        log.push(event);
        log.push(status);
        assert(events(log@) =~= events(told) + seq![
            end_event(id, ending(result)),
            old(self)@.finished(id, result is Ok).status(),
        ]);
    }

    /// The exit code of the batch: 0 if no call has failed, 1 otherwise.
    pub fn exit_code(&self) -> (r: i32)
        ensures
            r == if self@.failures == 0 {
                0i32
            } else {
                1i32
            },
            r == exit_code_of(self@),
    {
        if self.failures == 0 {
            0
        } else {
            1
        }
    }
}

proof fn lemma_push_to_set(s: Seq<usize>, id: usize)
    requires
        s.no_duplicates(),
        !s.to_set().contains(id),
    ensures
        s.push(id).no_duplicates(),
        s.push(id).to_set() == s.to_set().insert(id),
{
    let t = s.push(id);
    assert forall|x: usize| t.to_set().contains(x) <==> s.to_set().insert(id).contains(x) by {
        if s.contains(x) {
            let i = choose|i: int| 0 <= i < s.len() && s[i] == x;
            assert(t[i] == x);
        }
        if x == id {
            assert(t[s.len() as int] == x);
        }
    }
    assert(t.to_set() =~= s.to_set().insert(id));
    assert forall|i: int, j: int| 0 <= i < t.len() && 0 <= j < t.len() && i != j implies t[i]
        != t[j] by {
        if i == s.len() {
            assert(s.contains(s[j]));
        } else if j == s.len() {
            assert(s.contains(s[i]));
        }
    }
}

proof fn lemma_remove_to_set(s: Seq<usize>, k: int)
    requires
        s.no_duplicates(),
        0 <= k < s.len(),
    ensures
        s.remove(k).no_duplicates(),
        s.remove(k).to_set() == s.to_set().remove(s[k]),
{
    let t = s.remove(k);
    assert forall|x: usize| t.to_set().contains(x) <==> s.to_set().remove(s[k]).contains(x) by {
        if t.contains(x) {
            let i = choose|i: int| 0 <= i < t.len() && t[i] == x;
            let j = if i < k {
                i
            } else {
                i + 1
            };
            assert(s[j] == x && j != k);
        }
        if s.contains(x) && x != s[k] {
            let i = choose|i: int| 0 <= i < s.len() && s[i] == x;
            let j = if i < k {
                i
            } else {
                i - 1
            };
            assert(t[j] == x);
        }
    }
    assert(t.to_set() =~= s.to_set().remove(s[k]));
}

impl Event {
    /// The line that tells the event. How the batch stands goes to the error
    /// stream.
    pub fn line(&self) -> (r: Line)
        ensures
            r.text@ == line_text(self@),
            r.to_stderr == (self is Status),
            r.to_stderr == goes_to_stderr(self@),
    {
        let mut text = String::new();
        match self {
            Event::Started { id } => {
                text.append("[");
                text.append(usize_text(*id).as_str());
                text.append("] started");
            },
            Event::Finished { id, output, error } => {
                text.append("[");
                text.append(usize_text(*id).as_str());
                match error {
                    Some(error) => {
                        text.append("] ERROR: ");
                        text.append(error.as_str());
                    },
                    None => {
                        text.append("] ");
                        text.append(output.as_str());
                    },
                }
            },
            Event::Status { running, done, queued } => {
                text.append("status: running=");
                text.append(usize_text(*running).as_str());
                text.append(" done=");
                text.append(usize_text(*done).as_str());
                text.append(" queued=");
                text.append(usize_text(*queued).as_str());
            },
        }
        assert(text@ =~= line_text(self@));
        let to_stderr = match self {
            Event::Status { .. } => true,
            _ => false,
        };
        Line { to_stderr, text }
    }
}

/// One thing that happens to a batch.
pub enum Move {
    /// The call with this number is started.
    Start(usize),
    /// The call with this number has ended like this.
    Finish(usize, Result<Seq<char>, Seq<char>>),
}

/// The batch after a move, and what is told of it, if the move is possible: only the
/// next call can be started, and only a running one can end.
pub open spec fn after_move(b: Batch, m: Move) -> Option<(Batch, Seq<EventView>)> {
    match m {
        Move::Start(id) => if b.may_start() && id == b.next {
            Some((b.started(), seq![EventView::Started(id as nat), b.started().status()]))
        } else {
            None
        },
        Move::Finish(id, result) => if b.active.contains(id) {
            let c = b.finished(id, result is Ok);
            Some((c, seq![end_event(id, result), c.status()]))
        } else {
            None
        },
    }
}

/// The batch after some moves, and what was told of them, if each of them was
/// possible.
pub open spec fn after_moves(start: Batch, moves: Seq<Move>) -> Option<(Batch, Seq<EventView>)>
    decreases moves.len(),
{
    if moves.len() == 0 {
        Some((start, Seq::empty()))
    } else {
        match after_moves(start, moves.drop_last()) {
            Some((b, log)) => match after_move(b, moves.last()) {
                Some((c, told)) => Some((c, log + told)),
                None => None,
            },
            None => None,
        }
    }
}

/// Whether a move is the end of a call that has failed.
pub open spec fn is_failure(m: Move) -> bool {
    m matches Move::Finish(_, result) && result is Err
}

/// Whether event `i` of a log tells that the call with this number was started.
pub open spec fn tells_start(log: Seq<EventView>, i: int, id: usize) -> bool {
    0 <= i < log.len() && log[i] == EventView::Started(id as nat)
}

/// Whether event `i` of a log tells that the call with this number has ended.
pub open spec fn tells_end(log: Seq<EventView>, i: int, id: usize) -> bool {
    0 <= i < log.len() && (log[i] matches EventView::Finished(k, _, _) && k == id)
}

/// Whether a log tells somewhere that the call with this number was started.
pub open spec fn start_told(log: Seq<EventView>, id: usize) -> bool {
    exists|i: int| tells_start(log, i, id)
}

/// Whether a log tells somewhere that the call with this number has ended.
pub open spec fn end_told(log: Seq<EventView>, id: usize) -> bool {
    exists|i: int| tells_end(log, i, id)
}

/// Whatever happens to a batch, no more than `max_jobs` calls run at a time and no
/// more than `total` are ever started. Every move is the start or the end of one
/// call, so a batch has at most two moves for each. Some call has failed exactly
/// where one of the moves says so: the exit code is 0 if and only if none does.
pub proof fn law_batch_keeps_its_limits(total: usize, max_jobs: usize, moves: Seq<Move>)
    ensures
        after_moves(fresh(total, max_jobs), moves) matches Some((b, log)) ==> {
            &&& b.wf()
            &&& b.total == total
            &&& b.max_jobs == max_jobs
            &&& b.active.len() <= max_jobs
            &&& b.active.len() + b.done <= total
            &&& moves.len() == b.next + b.done
            &&& b.failures == 0 <==> forall|i: int|
                0 <= i < moves.len() ==> !is_failure(#[trigger] moves[i])
        },
    decreases moves.len(),
{
    if moves.len() > 0 {
        let rest = moves.drop_last();
        let last = moves.last();
        law_batch_keeps_its_limits(total, max_jobs, rest);
        if after_moves(fresh(total, max_jobs), rest) is Some {
            assert(forall|i: int| 0 <= i < rest.len() ==> rest[i] == moves[i]);
            assert((forall|i: int| 0 <= i < moves.len() ==> !is_failure(#[trigger] moves[i])) <==> (
            forall|i: int| 0 <= i < rest.len() ==> !is_failure(#[trigger] rest[i])) && !is_failure(
                last,
            )) by {
                if forall|i: int| 0 <= i < moves.len() ==> !is_failure(#[trigger] moves[i]) {
                    assert forall|i: int| 0 <= i < rest.len() implies !is_failure(
                        #[trigger] rest[i],
                    ) by {
                        assert(!is_failure(moves[i]));
                    }
                    assert(!is_failure(moves[moves.len() - 1]));
                }
            }
        }
    }
}

/// Whatever happens to a batch, no number is told twice as started or twice as
/// ended, and none as ended before it was told as started. Those told as started
/// are the ones below the next number, and those of them not told as ended are
/// running. Once all calls have finished, each of the numbers was told as both.
pub proof fn law_numbers_are_told_once(total: usize, max_jobs: usize, moves: Seq<Move>)
    ensures
        after_moves(fresh(total, max_jobs), moves) matches Some((b, log)) ==> {
            &&& forall|i: int, j: int, id: usize|
                tells_start(log, i, id) && tells_start(log, j, id) ==> i == j
            &&& forall|i: int, j: int, id: usize|
                tells_end(log, i, id) && tells_end(log, j, id) ==> i == j
            &&& forall|j: int, id: usize| #[trigger]
                tells_end(log, j, id) ==> exists|i: int| i < j && tells_start(log, i, id)
            &&& forall|id: usize| #[trigger] start_told(log, id) <==> id < b.next
            &&& forall|id: usize| #[trigger]
                b.active.contains(id) <==> start_told(log, id) && !end_told(log, id)
            &&& b.done == total ==> forall|id: usize|
                id < total ==> start_told(log, id) && #[trigger] end_told(log, id)
        },
    decreases moves.len(),
{
    if moves.len() == 0 {
        let log = Seq::<EventView>::empty();
        assert forall|id: usize| !start_told(log, id) && !end_told(log, id) by {}
    } else {
        let rest = moves.drop_last();
        law_numbers_are_told_once(total, max_jobs, rest);
        law_batch_keeps_its_limits(total, max_jobs, rest);
        law_batch_keeps_its_limits(total, max_jobs, moves);
        if let Some((b, log)) = after_moves(fresh(total, max_jobs), moves) {
            let (a, old_log) = after_moves(fresh(total, max_jobs), rest)->0;
            let end = old_log.len() as int;
            match moves.last() {
                Move::Start(id) => {
                    lemma_log_grows(old_log, EventView::Started(id as nat), b.status(), log);
                    assert(tells_start(log, end, id));
                    assert(!start_told(old_log, id));
                },
                Move::Finish(id, result) => {
                    lemma_log_grows(old_log, end_event(id, result), b.status(), log);
                    assert(tells_end(log, end, id));
                    assert(start_told(old_log, id) && !end_told(old_log, id));
                    let i = choose|i: int| tells_start(old_log, i, id);
                    assert(tells_start(log, i, id) && i < end);
                },
            }
            assert forall|k: usize| #[trigger] start_told(log, k) <==> start_told(old_log, k) || (
            moves.last() == Move::Start(k)) by {
                if start_told(old_log, k) {
                    let i = choose|i: int| tells_start(old_log, i, k);
                    assert(tells_start(log, i, k));
                }
            }
            assert forall|k: usize| #[trigger] end_told(log, k) <==> end_told(old_log, k) || (
            moves.last() matches Move::Finish(id, _) && id == k) by {
                if end_told(old_log, k) {
                    let i = choose|i: int| tells_end(old_log, i, k);
                    assert(tells_end(log, i, k));
                }
            }
            assert forall|j: int, k: usize| #[trigger] tells_end(log, j, k) implies exists|i: int|
                i < j && tells_start(log, i, k) by {
                if tells_end(old_log, j, k) {
                    let i = choose|i: int| i < j && tells_start(old_log, i, k);
                    assert(tells_start(log, i, k));
                }
            }
            if b.done == total {
                assert(b.active.len() == 0);
                assert forall|k: usize| k < total implies start_told(log, k)
                    && #[trigger] end_told(log, k) by {
                    assert(!b.active.contains(k)) by {
                        if b.active.contains(k) {
                            assert(b.active =~= Set::empty());
                        }
                    }
                }
            }
        }
    }
}

/// What a log tells once an event and a status were added to it.
proof fn lemma_log_grows(
    log: Seq<EventView>,
    event: EventView,
    status: EventView,
    longer: Seq<EventView>,
)
    requires
        status is Status,
        longer == log + seq![event, status],
    ensures
        forall|i: int, id: usize| #[trigger]
            tells_start(longer, i, id) <==> tells_start(log, i, id) || (i == log.len() && event
                == EventView::Started(id as nat)),
        forall|i: int, id: usize| #[trigger]
            tells_end(longer, i, id) <==> tells_end(log, i, id) || (i == log.len() && (
            event matches EventView::Finished(k, _, _) && k == id)),
{
    assert(longer[log.len() as int] == event);
    assert(longer[log.len() as int + 1] == status);
    assert(forall|i: int| 0 <= i < log.len() ==> longer[i] == log[i]);
}

/// A batch does not get stuck: where no call is running and none may be started,
/// all have finished, unless none may ever run. Its status is then that nothing
/// runs and nothing is queued.
pub proof fn law_batch_goes_on(b: Batch)
    requires
        b.wf(),
        b.max_jobs > 0,
        b.active.len() == 0,
        !b.may_start(),
    ensures
        b.done == b.total,
        b.status() == EventView::Status(0, b.total as nat, 0),
{
}

/// How many of the moves are starts.
pub open spec fn starts_in(moves: Seq<Move>) -> nat
    decreases moves.len(),
{
    if moves.len() == 0 {
        0
    } else {
        starts_in(moves.drop_last()) + if moves.last() is Start {
            1nat
        } else {
            0
        }
    }
}

/// How many of the moves are ends.
pub open spec fn ends_in(moves: Seq<Move>) -> nat
    decreases moves.len(),
{
    if moves.len() == 0 {
        0
    } else {
        ends_in(moves.drop_last()) + if moves.last() is Finish {
            1nat
        } else {
            0
        }
    }
}

/// Whether an event is what there is to tell of a move: that the call was started, or
/// all of its output, or all of its error and no output.
pub open spec fn tells_move(event: EventView, m: Move) -> bool {
    match (event, m) {
        (EventView::Started(id), Move::Start(k)) => id == k,
        (EventView::Finished(id, output, error), Move::Finish(k, result)) => {
            &&& id == k
            &&& match result {
                Ok(text) => output == text && error is None,
                Err(text) => output.len() == 0 && error == Some(text),
            }
        },
        _ => false,
    }
}

/// Each move is told by two events: what has happened, and how the batch then stands.
/// As many calls are running as were started and have not ended, and as many are queued
/// as were not started.
pub proof fn law_log_tells_every_move(total: usize, max_jobs: usize, moves: Seq<Move>)
    ensures
        after_moves(fresh(total, max_jobs), moves) matches Some((b, log)) ==> {
            &&& b.next == starts_in(moves)
            &&& b.done == ends_in(moves)
            &&& b.active.len() == starts_in(moves) - ends_in(moves)
            &&& log.len() == 2 * moves.len()
            &&& forall|i: int| 0 <= i < moves.len() ==> tells_move(log[2 * i], #[trigger] moves[i])
            &&& forall|i: int|
                0 <= i < moves.len() ==> {
                    let so_far = #[trigger] moves.take(i + 1);
                    log[2 * i + 1] == EventView::Status(
                        (starts_in(so_far) - ends_in(so_far)) as nat,
                        ends_in(so_far),
                        (total - starts_in(so_far)) as nat,
                    )
                }
        },
    decreases moves.len(),
{
    if moves.len() > 0 {
        let rest = moves.drop_last();
        law_log_tells_every_move(total, max_jobs, rest);
        law_batch_keeps_its_limits(total, max_jobs, rest);
        law_batch_keeps_its_limits(total, max_jobs, moves);
        if let Some((b, log)) = after_moves(fresh(total, max_jobs), moves) {
            let (a, old_log) = after_moves(fresh(total, max_jobs), rest)->0;
            let (_, told) = after_move(a, moves.last())->0;
            assert(log == old_log + told);
            assert forall|i: int| 0 <= i < moves.len() implies tells_move(
                log[2 * i],
                #[trigger] moves[i],
            ) by {
                if i < rest.len() {
                    assert(rest[i] == moves[i]);
                    assert(log[2 * i] == old_log[2 * i]);
                } else {
                    assert(log[2 * i] == told[0]);
                }
            }
            assert forall|i: int| 0 <= i < moves.len() implies ({
                let so_far = #[trigger] moves.take(i + 1);
                log[2 * i + 1] == EventView::Status(
                    (starts_in(so_far) - ends_in(so_far)) as nat,
                    ends_in(so_far),
                    (total - starts_in(so_far)) as nat,
                )
            }) by {
                if i < rest.len() {
                    assert(rest.take(i + 1) =~= moves.take(i + 1));
                    assert(log[2 * i + 1] == old_log[2 * i + 1]);
                } else {
                    assert(moves.take(i + 1) =~= moves);
                    assert(log[2 * i + 1] == told[1]);
                }
            }
        }
    }
}

/// A call may be started as long as one is left and fewer than `max_jobs` are running:
/// none has to wait for anything else. Calls are started in the order of their numbers,
/// and any call that is running may end.
pub proof fn law_calls_wait_for_nothing_else(
    total: usize,
    max_jobs: usize,
    moves: Seq<Move>,
    id: usize,
    result: Result<Seq<char>, Seq<char>>,
)
    ensures
        after_moves(fresh(total, max_jobs), moves) matches Some((b, log)) ==> {
            let free = starts_in(moves) < total && starts_in(moves) - ends_in(moves) < max_jobs;
            &&& b.may_start() == free
            &&& after_moves(fresh(total, max_jobs), moves.push(Move::Start(id))) is Some <==> free
                && id == starts_in(moves)
            &&& after_moves(fresh(total, max_jobs), moves.push(Move::Finish(id, result))) is Some
                <==> start_told(log, id) && !end_told(log, id)
        },
{
    law_log_tells_every_move(total, max_jobs, moves);
    law_numbers_are_told_once(total, max_jobs, moves);
    law_batch_keeps_its_limits(total, max_jobs, moves);
    assert(moves.push(Move::Start(id)).drop_last() =~= moves);
    assert(moves.push(Move::Finish(id, result)).drop_last() =~= moves);
}

/// The exit code is 0 where all the calls that have ended did so well, and else 1.
pub proof fn law_exit_code_tells_of_failures(total: usize, max_jobs: usize, moves: Seq<Move>)
    ensures
        after_moves(fresh(total, max_jobs), moves) matches Some((b, log)) ==> {
            let failed = exists|i: int|
                0 <= i < moves.len() && (#[trigger] moves[i] matches Move::Finish(_, result)
                    && result is Err);
            exit_code_of(b) == if failed {
                1i32
            } else {
                0i32
            }
        },
{
    law_batch_keeps_its_limits(total, max_jobs, moves);
    if after_moves(fresh(total, max_jobs), moves) is Some {
        let (b, log) = after_moves(fresh(total, max_jobs), moves)->0;
        if b.failures != 0 {
            let i = choose|i: int| 0 <= i < moves.len() && is_failure(#[trigger] moves[i]);
            assert(moves[i] matches Move::Finish(_, result) && result is Err);
        } else {
            assert forall|i: int| 0 <= i < moves.len() implies !(
            #[trigger] moves[i] matches Move::Finish(_, result) && result is Err) by {
                assert(!is_failure(moves[i]));
            }
        }
    }
}

/// The line of an event names the call and then gives all of its output or all of its
/// error, or gives the three counts in decimal. Only the counts go to the error stream.
pub proof fn law_line_tells_the_whole_event(event: Event)
    ensures
        goes_to_stderr(event@) == (event is Status),
        ({
            let line = line_text(event@);
            match event {
                Event::Started { id } => {
                    let end = 1 + decimal(id as nat).len() as int;
                    &&& line[0] == '['
                    &&& line.subrange(1, end) == decimal(id as nat)
                    &&& line.skip(end) == "] started"@
                },
                Event::Finished { id, output, error: None } => {
                    let end = 1 + decimal(id as nat).len() as int;
                    &&& line.len() == end + 2 + output@.len()
                    &&& line[0] == '['
                    &&& line.subrange(1, end) == decimal(id as nat)
                    &&& line.subrange(end, end + 2) == "] "@
                    &&& line.skip(end + 2) == output@
                },
                Event::Finished { id, output: _, error: Some(error) } => {
                    let end = 1 + decimal(id as nat).len() as int;
                    &&& line.len() == end + 9 + error@.len()
                    &&& line[0] == '['
                    &&& line.subrange(1, end) == decimal(id as nat)
                    &&& line.subrange(end, end + 9) == "] ERROR: "@
                    &&& line.skip(end + 9) == error@
                },
                Event::Status { running, done, queued } => {
                    let first = 16 + decimal(running as nat).len() as int;
                    let second = first + 6 + decimal(done as nat).len() as int;
                    &&& line.take(16) == "status: running="@
                    &&& line.subrange(16, first) == decimal(running as nat)
                    &&& line.subrange(first, first + 6) == " done="@
                    &&& line.subrange(first + 6, second) == decimal(done as nat)
                    &&& line.subrange(second, second + 8) == " queued="@
                    &&& line.skip(second + 8) == decimal(queued as nat)
                },
            }
        }),
{
    let line = line_text(event@);
    reveal_strlit("[");
    reveal_strlit("] started");
    reveal_strlit("] ");
    reveal_strlit("] ERROR: ");
    reveal_strlit("status: running=");
    reveal_strlit(" done=");
    reveal_strlit(" queued=");
    match event {
        Event::Started { id } => {
            let end = 1 + decimal(id as nat).len() as int;
            assert(line.subrange(1, end) =~= decimal(id as nat));
            assert(line.skip(end) =~= "] started"@);
        },
        Event::Finished { id, output, error: None } => {
            let end = 1 + decimal(id as nat).len() as int;
            assert(line.subrange(1, end) =~= decimal(id as nat));
            assert(line.subrange(end, end + 2) =~= "] "@);
            assert(line.skip(end + 2) =~= output@);
        },
        Event::Finished { id, output: _, error: Some(error) } => {
            let end = 1 + decimal(id as nat).len() as int;
            assert(line.subrange(1, end) =~= decimal(id as nat));
            assert(line.subrange(end, end + 9) =~= "] ERROR: "@);
            assert(line.skip(end + 9) =~= error@);
        },
        Event::Status { running, done, queued } => {
            let first = 16 + decimal(running as nat).len() as int;
            let second = first + 6 + decimal(done as nat).len() as int;
            assert(line.take(16) =~= "status: running="@);
            assert(line.subrange(16, first) =~= decimal(running as nat));
            assert(line.subrange(first, first + 6) =~= " done="@);
            assert(line.subrange(first + 6, second) =~= decimal(done as nat));
            assert(line.subrange(second, second + 8) =~= " queued="@);
            assert(line.skip(second + 8) =~= decimal(queued as nat));
        },
    }
}

/// What a call returned is printed whole, and so is what went wrong with it: calls with
/// the same number and different results have different lines.
pub proof fn law_result_is_printed_whole(id: usize, result: Result<String, String>)
    ensures
        ({
            let line = line_text(end_event(id, ending(result)));
            let end = 1 + decimal(id as nat).len() as int;
            match result {
                Ok(output) => line.len() == end + 2 + output@.len() && line.skip(end + 2)
                    == output@,
                Err(error) => line.len() == end + 9 + error@.len() && line.skip(end + 9) == error@,
            }
        }),
        !goes_to_stderr(end_event(id, ending(result))),
{
    let line = line_text(end_event(id, ending(result)));
    let end = 1 + decimal(id as nat).len() as int;
    reveal_strlit("[");
    reveal_strlit("] ");
    reveal_strlit("] ERROR: ");
    match result {
        Ok(output) => {
            assert(line.skip(end + 2) =~= output@);
        },
        Err(error) => {
            assert(line.skip(end + 9) =~= error@);
        },
    }
}

/// The models of the events in a log are as many as the events, and in their order.
pub proof fn law_log_keeps_its_order(log: Seq<Event>)
    ensures
        events(log).len() == log.len(),
        forall|i: int| 0 <= i < log.len() ==> events(log)[i] == (#[trigger] log[i])@,
{
}

/// The model of a runner has its counts, and runs the calls whose numbers it holds.
pub proof fn law_batch_is_what_the_runner_holds(runner: Runner, id: usize)
    ensures
        runner@.total == runner.total,
        runner@.max_jobs == runner.max_jobs,
        runner@.next == runner.next,
        runner@.done == runner.done,
        runner@.failures == runner.failures,
        runner@.active.contains(id) <==> exists|i: int|
            0 <= i < runner.active@.len() && runner.active@[i] == id,
{
}

} // verus!
