use std::collections::VecDeque;
use vstd::prelude::*;

use crate::model::{Effect, Operation, Operations, Word};

verus! {

/// How long a submitted transfer may go without a receipt, in milliseconds,
/// before the whole batch in flight is given up.
pub const RECEIPT_TIMEOUT_MS: u64 = 90000;

/// Pause of the tracker when nothing is pending, in milliseconds.
pub const IDLE_BACKOFF_MS: u64 = 5000;

/// Pause of the tracker after a check that found no receipt, in milliseconds.
pub const RETRY_BACKOFF_MS: u64 = 1000;

/// Milliseconds since an effect was submitted; zero for a clock reading
/// earlier than its start.
pub open spec fn elapsed_spec(e: Effect, now: u64) -> nat {
    if now >= e.start_of() {
        (now - e.start_of()) as nat
    } else {
        0
    }
}

pub open spec fn timed_out(e: Effect, now: u64) -> bool {
    elapsed_spec(e, now) > RECEIPT_TIMEOUT_MS
}

/// The script positions of a sequence of effects.
pub open spec fn indexes(s: Seq<Effect>) -> Set<usize> {
    Set::new(|k: usize| exists|i: int| 0 <= i < s.len() && #[trigger] s[i].index_of() == k)
}

/// The abstract state of a run: the script, how far submission has got, the
/// queue of awaited receipts, the effect being checked, whether submission
/// is over, how many times the client was rebuilt, and the script positions
/// of the transfers whose receipt was seen or that were cleared.
pub struct RunView {
    pub ops: Seq<Operation>,
    pub next: nat,
    pub pending: Seq<Effect>,
    pub checking: Option<Effect>,
    pub done: bool,
    pub epoch: nat,
    pub settled: Set<usize>,
}

impl RunView {
    /// `e` stands for a transfer of the script that was submitted and that is
    /// neither confirmed nor cleared.
    pub open spec fn outstanding(self, e: Effect) -> bool {
        &&& e.index_of() < self.next
        &&& self.ops[e.index_of() as int] == Operation::Transfer(e.transfer_of())
        &&& !self.settled.contains(e.index_of())
    }

    pub open spec fn in_flight(self) -> nat {
        self.pending.len() + if self.checking is Some { 1nat } else { 0nat }
    }

    /// The invariant of a run: the queue holds only outstanding transfers,
    /// at most one effect for each, and the client was rebuilt at most once
    /// per submitted transfer that is not in flight.
    pub open spec fn wf(self) -> bool {
        &&& self.next <= self.ops.len()
        &&& self.done ==> self.next == self.ops.len()
        &&& forall|k: usize| #[trigger] self.settled.contains(k) ==> k < self.next
        &&& forall|i: int| 0 <= i < self.pending.len() ==> self.outstanding(#[trigger] self.pending[i])
        &&& forall|i: int, j: int|
            0 <= i < j < self.pending.len() ==> #[trigger] self.pending[i].index_of()
                != #[trigger] self.pending[j].index_of()
        &&& self.checking matches Some(c) ==> {
            &&& self.outstanding(c)
            &&& !indexes(self.pending).contains(c.index_of())
        }
        &&& self.epoch + self.in_flight() <= self.next
    }

    /// Both activities are over: everything was submitted and nothing is awaited.
    pub open spec fn finished(self) -> bool {
        self.done && self.pending.len() == 0 && self.checking is None
    }

    /// The current operation, a transfer, was submitted with `hash` at `now`.
    pub open spec fn after_transfer(self, hash: Word, now: u64) -> RunView {
        let e = Effect::PendingReceipt {
            transfer: self.ops[self.next as int]->Transfer_0,
            hash,
            start: now,
            index: self.next as usize,
        };
        RunView { pending: self.pending.push(e), next: self.next + 1, ..self }
    }

    /// The current operation, a wait, was carried out.
    pub open spec fn after_wait(self) -> RunView {
        RunView { next: self.next + 1, ..self }
    }

    /// The head of the queue is taken out to be checked.
    pub open spec fn after_begin(self) -> RunView {
        if self.pending.len() > 0 {
            RunView {
                checking: Some(self.pending[0]),
                pending: self.pending.drop_first(),
                ..self
            }
        } else {
            self
        }
    }

    /// The effect being checked had its receipt `found`, or not, at `now`.
    /// Found: it is settled. Not found in time: it goes back to the tail.
    /// Not found past the timeout: it and every queued effect are cleared,
    /// and the client is rebuilt.
    pub open spec fn after_finish(self, found: bool, now: u64) -> RunView {
        let c = self.checking->0;
        if found {
            RunView { checking: None, settled: self.settled.insert(c.index_of()), ..self }
        } else if timed_out(c, now) {
            RunView {
                checking: None,
                pending: Seq::empty(),
                epoch: self.epoch + 1,
                settled: self.settled.insert(c.index_of()).union(indexes(self.pending)),
                ..self
            }
        } else {
            RunView { checking: None, pending: self.pending.push(c), ..self }
        }
    }
}

/// One move of a run: an operation carried out, the end of submission, the
/// start of a check, or its end.
pub open spec fn step(v: RunView, w: RunView) -> bool {
    ||| v.next < v.ops.len() && v.ops[v.next as int] is Transfer && exists|h: Word, now: u64|
        w == v.after_transfer(h, now)
    ||| v.next < v.ops.len() && v.ops[v.next as int] is Wait && w == v.after_wait()
    ||| v.next == v.ops.len() && w == (RunView { done: true, ..v })
    ||| v.checking is None && w == v.after_begin()
    ||| v.checking is Some && exists|found: bool, now: u64| w == v.after_finish(found, now)
}

/// A whole tracker cycle once submission is over: the head of the queue is
/// checked and settled, requeued or timed out; an empty queue is left alone.
pub open spec fn cycle(v: RunView, found: bool, now: u64) -> RunView {
    if v.pending.len() > 0 {
        v.after_begin().after_finish(found, now)
    } else {
        v
    }
}

/// The cycle settles its effect: the receipt is found, or the time is up.
pub open spec fn settles(v: RunView, found: bool, now: u64) -> bool {
    v.pending.len() > 0 ==> found || timed_out(v.pending[0], now)
}

/// The state after a sequence of cycles, each given by whether a receipt was
/// found and the clock.
pub open spec fn run_cycles(v: RunView, events: Seq<(bool, u64)>) -> RunView
    decreases events.len(),
{
    if events.len() == 0 {
        v
    } else {
        run_cycles(cycle(v, events[0].0, events[0].1), events.drop_first())
    }
}

/// Every cycle of the sequence settles its effect.
pub open spec fn all_settle(v: RunView, events: Seq<(bool, u64)>) -> bool
    decreases events.len(),
{
    events.len() == 0 || (settles(v, events[0].0, events[0].1) && all_settle(
        cycle(v, events[0].0, events[0].1),
        events.drop_first(),
    ))
}

/// A check that times out clears the whole batch: the queue is emptied, the
/// client is rebuilt, and the checked effect and every queued one are
/// settled, so that none of them is outstanding any more.
pub proof fn lemma_timeout_clears_batch(v: RunView, now: u64)
    requires
        v.wf(),
        v.checking is Some,
        timed_out(v.checking->0, now),
    ensures
        ({
            let w = v.after_finish(false, now);
            &&& w.pending.len() == 0
            &&& w.checking is None
            &&& w.epoch == v.epoch + 1
            &&& w.settled.contains(v.checking->0.index_of())
            &&& forall|i: int|
                0 <= i < v.pending.len() ==> w.settled.contains(#[trigger] v.pending[i].index_of())
            &&& forall|i: int| 0 <= i < v.pending.len() ==> !w.outstanding(#[trigger] v.pending[i])
        }),
{
    let w = v.after_finish(false, now);
    assert forall|i: int| 0 <= i < v.pending.len() implies w.settled.contains(
        #[trigger] v.pending[i].index_of(),
    ) by {
        assert(indexes(v.pending).contains(v.pending[i].index_of()));
    }
}

/// A settled transfer stays settled, and no later move takes it up for a
/// check again: a cleared effect is never confirmed afterwards.
pub proof fn lemma_settled_is_final(v: RunView, w: RunView, k: usize)
    requires
        v.wf(),
        w.wf(),
        step(v, w),
        v.settled.contains(k),
    ensures
        w.settled.contains(k),
        !(w.checking matches Some(c) && c.index_of() == k),
        forall|i: int| 0 <= i < w.pending.len() ==> (#[trigger] w.pending[i]).index_of() != k,
{
    if let Some(c) = w.checking {
        assert(w.outstanding(c));
    }
    assert forall|i: int| 0 <= i < w.pending.len() implies (#[trigger] w.pending[i]).index_of()
        != k by {
        assert(w.outstanding(w.pending[i]));
    }
}

/// Once submission is over, a tracker whose every check settles its effect
/// finishes within as many cycles as there are queued effects.
pub proof fn lemma_tracker_finishes(v: RunView, events: Seq<(bool, u64)>)
    requires
        v.done,
        v.checking is None,
        all_settle(v, events),
        events.len() >= v.pending.len(),
    ensures
        run_cycles(v, events).finished(),
    decreases events.len(),
{
    if events.len() == 0 {
    } else {
        let u = cycle(v, events[0].0, events[0].1);
        if v.pending.len() > 0 {
            assert(u.pending.len() < v.pending.len());
        }
        lemma_tracker_finishes(u, events.drop_first());
    }
}

/// What is left to do in a run: operations to submit, effects to check,
/// the check in progress and the end of submission. Queued effects weigh
/// twice, since each is first taken up and then settled.
pub open spec fn work_left(v: RunView) -> nat {
    3 * (v.ops.len() - v.next) as nat + 2 * v.pending.len() + (if v.checking is Some {
        1nat
    } else {
        0nat
    }) + (if v.done {
        0nat
    } else {
        1nat
    })
}

/// The move ends a check by putting its effect back in the queue.
pub open spec fn requeues(v: RunView, w: RunView) -> bool {
    v.checking is Some && w.checking is None && w.pending.len() == v.pending.len() + 1
}

/// Every move of either activity that changes the run and does not put an
/// effect back in the queue leaves strictly less work: so if submission
/// goes on and every effect is requeued only finitely often (it is confirmed
/// or times out at last), the run finishes after finitely many moves.
pub proof fn lemma_moves_shrink_work(v: RunView, w: RunView)
    requires
        v.wf(),
        step(v, w),
        w != v,
        !requeues(v, w),
    ensures
        work_left(w) < work_left(v),
{
    if v.checking is Some && (exists|found: bool, now: u64| w == v.after_finish(found, now)) {
        let (found, now) = choose|found: bool, now: u64| w == v.after_finish(found, now);
        if found {
        } else if timed_out(v.checking->0, now) {
        } else {
            assert(requeues(v, w));
        }
    }
}

/// A run with no work left has finished.
pub proof fn lemma_no_work_left_is_finished(v: RunView)
    requires
        v.wf(),
        work_left(v) == 0,
    ensures
        v.finished(),
{
}

/// What became of a checked effect.
#[derive(Debug)]
pub enum CheckOutcome {
    /// Its receipt was found.
    Confirmed { effect: Effect, elapsed: u64 },
    /// No receipt yet; it was queued again, and the tracker pauses.
    StillPending { effect: Effect, elapsed: u64 },
    /// No receipt past the timeout: these effects were queued and are now
    /// dropped, and the client is to be rebuilt.
    TimedOut { effect: Effect, elapsed: u64, cleared: Vec<Effect> },
}

/// A run of a script: submission in order, and tracking of the receipts.
pub struct Run {
    operations: Operations,
    next: usize,
    pending: VecDeque<Effect>,
    checking: Option<Effect>,
    submission_done: bool,
    epoch: usize,
    settled: Ghost<Set<usize>>,
}

impl View for Run {
    type V = RunView;

    closed spec fn view(&self) -> RunView {
        RunView {
            ops: self.operations@,
            next: self.next as nat,
            pending: self.pending@,
            checking: self.checking,
            done: self.submission_done,
            epoch: self.epoch as nat,
            settled: self.settled@,
        }
    }
}

/// Milliseconds since `e` was submitted.
pub fn elapsed(e: &Effect, now: u64) -> (r: u64)
    ensures
        r as nat == elapsed_spec(*e, now),
{
    match e {
        Effect::PendingReceipt { start, .. } => {
            if now >= *start {
                now - *start
            } else {
                0
            }
        },
    }
}

impl Run {
    /// A run of `operations` with nothing submitted yet, an empty queue and
    /// the first client.
    pub fn new(operations: Operations) -> (r: Run)
        ensures
            r@.wf(),
            r@.ops == operations@,
            r@.next == 0,
            r@.pending == Seq::<Effect>::empty(),
            r@.checking is None,
            !r@.done,
            r@.epoch == 0,
            r@.settled == Set::<usize>::empty(),
    {
        Run {
            operations,
            next: 0,
            pending: VecDeque::new(),
            checking: None,
            submission_done: false,
            epoch: 0,
            settled: Ghost(Set::empty()),
        }
    }

    /// The operation to submit next, if any is left.
    pub fn current_operation(&self) -> (r: Option<Operation>)
        requires
            self@.wf(),
        ensures
            r == (if self@.next < self@.ops.len() {
                Some(self@.ops[self@.next as int])
            } else {
                None
            }),
    {
        if self.next < self.operations.0.len() {
            Some(self.operations.0[self.next])
        } else {
            None
        }
    }

    /// Records that the current operation, a transfer, was submitted with
    /// `hash` at `now`: its effect joins the tail of the queue.
    pub fn complete_transfer(&mut self, hash: Word, now: u64)
        requires
            old(self)@.wf(),
            old(self)@.next < old(self)@.ops.len(),
            old(self)@.ops[old(self)@.next as int] is Transfer,
        ensures
            final(self)@.wf(),
            final(self)@ == old(self)@.after_transfer(hash, now),
    {
        let ghost v = self@;
        let _len = self.operations.0.len();
        let op = self.operations.0[self.next];
        match op {
            Operation::Transfer(transfer) => {
                let e = Effect::PendingReceipt { transfer, hash, start: now, index: self.next };
                proof {
                    assert(!self.settled@.contains(self.next));
                    assert(!indexes(v.pending).contains(self.next));
                }
                self.pending.push_back(e);
                self.next = self.next + 1;
                proof {
                    let w = self@;
                    assert(w == v.after_transfer(hash, now));
                    assert forall|i: int| 0 <= i < w.pending.len() implies w.outstanding(
                        #[trigger] w.pending[i],
                    ) by {
                        if i < v.pending.len() {
                            assert(v.outstanding(v.pending[i]));
                        }
                    }
                    assert forall|i: int, j: int|
                        0 <= i < j < w.pending.len() implies #[trigger] w.pending[i].index_of()
                        != #[trigger] w.pending[j].index_of() by {
                        if j == v.pending.len() {
                            assert(v.outstanding(v.pending[i]));
                        }
                    }
                    if let Some(c) = w.checking {
                        assert(!indexes(w.pending).contains(c.index_of())) by {
                            if indexes(w.pending).contains(c.index_of()) {
                                let i = choose|i: int|
                                    0 <= i < w.pending.len() && #[trigger] w.pending[i].index_of()
                                        == c.index_of();
                                if i < v.pending.len() {
                                    assert(indexes(v.pending).contains(c.index_of()));
                                }
                            }
                        }
                    }
                }
            },
            Operation::Wait(_) => {},
        }
    }

    /// Records that the current operation, a wait, was carried out.
    pub fn complete_wait(&mut self)
        requires
            old(self)@.wf(),
            old(self)@.next < old(self)@.ops.len(),
            old(self)@.ops[old(self)@.next as int] is Wait,
        ensures
            final(self)@.wf(),
            final(self)@ == old(self)@.after_wait(),
    {
        let ghost v = self@;
        let _len = self.operations.0.len();
        self.next = self.next + 1;
        proof {
            let w = self@;
            assert(w == v.after_wait());
            assert forall|i: int| 0 <= i < w.pending.len() implies w.outstanding(
                #[trigger] w.pending[i],
            ) by {
                assert(v.outstanding(v.pending[i]));
            }
        }
    }

    /// Marks submission as over, once every operation was carried out.
    pub fn finish_submission(&mut self)
        requires
            old(self)@.wf(),
            old(self)@.next == old(self)@.ops.len(),
        ensures
            final(self)@.wf(),
            final(self)@ == (RunView { done: true, ..old(self)@ }),
    {
        self.submission_done = true;
    }

    /// Takes the head of the queue out to be checked and returns the hash
    /// whose receipt is to be fetched; `None` when the queue is empty, in
    /// which case the tracker pauses for `IDLE_BACKOFF_MS`.
    pub fn begin_check(&mut self) -> (r: Option<Word>)
        requires
            old(self)@.wf(),
            old(self)@.checking is None,
        ensures
            final(self)@.wf(),
            final(self)@ == old(self)@.after_begin(),
            r == (if old(self)@.pending.len() > 0 {
                Some(old(self)@.pending[0].hash_of())
            } else {
                None
            }),
    {
        let ghost v = self@;
        match self.pending.pop_front() {
            Some(e) => {
                let hash = e.hash();
                self.checking = Some(e);
                proof {
                    let w = self@;
                    assert(w.pending =~= v.pending.drop_first());
                    assert(w == v.after_begin());
                    assert(v.outstanding(v.pending[0]));
                    assert forall|i: int| 0 <= i < w.pending.len() implies w.outstanding(
                        #[trigger] w.pending[i],
                    ) by {
                        assert(v.outstanding(v.pending[i + 1]));
                    }
                    assert forall|i: int, j: int|
                        0 <= i < j < w.pending.len() implies #[trigger] w.pending[i].index_of()
                        != #[trigger] w.pending[j].index_of() by {
                        assert(v.pending[i + 1].index_of() != v.pending[j + 1].index_of());
                    }
                    assert(!indexes(w.pending).contains(e.index_of())) by {
                        if indexes(w.pending).contains(e.index_of()) {
                            let i = choose|i: int|
                                0 <= i < w.pending.len() && #[trigger] w.pending[i].index_of()
                                    == e.index_of();
                            assert(v.pending[0].index_of() != v.pending[i + 1].index_of());
                        }
                    }
                }
                Some(hash)
            },
            None => None,
        }
    }

    /// Settles the check begun last: `found` says whether a receipt was
    /// fetched for its hash, `now` is the clock in milliseconds.
    pub fn finish_check(&mut self, found: bool, now: u64) -> (r: CheckOutcome)
        requires
            old(self)@.wf(),
            old(self)@.checking is Some,
        ensures
            final(self)@.wf(),
            final(self)@ == old(self)@.after_finish(found, now),
            ({
                let c = old(self)@.checking->0;
                match r {
                    CheckOutcome::Confirmed { effect, elapsed } => found && effect == c
                        && elapsed as nat == elapsed_spec(c, now),
                    CheckOutcome::StillPending { effect, elapsed } => !found && !timed_out(c, now)
                        && effect == c && elapsed as nat == elapsed_spec(c, now),
                    CheckOutcome::TimedOut { effect, elapsed, cleared } => !found && timed_out(
                        c,
                        now,
                    ) && effect == c && elapsed as nat == elapsed_spec(c, now) && cleared@
                        == old(self)@.pending,
                }
            }),
    {
        let ghost v = self@;
        let _len = self.operations.0.len();
        let c = self.checking.unwrap();
        self.checking = None;
        let waited = elapsed(&c, now);
        if found {
            self.settled = Ghost(self.settled@.insert(c.index_of()));
            proof {
                let w = self@;
                assert(w == v.after_finish(found, now));
                assert forall|i: int| 0 <= i < w.pending.len() implies w.outstanding(
                    #[trigger] w.pending[i],
                ) by {
                    assert(v.outstanding(v.pending[i]));
                    assert(indexes(v.pending).contains(v.pending[i].index_of()));
                }
            }
            CheckOutcome::Confirmed { effect: c, elapsed: waited }
        } else if waited > RECEIPT_TIMEOUT_MS {
            let mut cleared: Vec<Effect> = Vec::new();
            while self.pending.len() > 0
                invariant
                    cleared@ + self.pending@ == v.pending,
                    self.operations@ == v.ops,
                    self.next == v.next,
                    self.checking is None,
                    self.submission_done == v.done,
                    self.epoch == v.epoch,
                    self.settled@ == v.settled,
                decreases self.pending@.len(),
            {
                let ghost before = self.pending@;
                match self.pending.pop_front() {
                    Some(e) => {
                        cleared.push(e);
                        proof {
                            assert(cleared@ + self.pending@ =~= v.pending) by {
                                assert(before =~= seq![e] + self.pending@);
                            }
                        }
                    },
                    None => {},
                }
            }
            assert(cleared@ =~= v.pending);
            self.settled = Ghost(self.settled@.insert(c.index_of()).union(indexes(v.pending)));
            self.epoch = self.epoch + 1;
            proof {
                let w = self@;
                assert(self.pending@ =~= Seq::<Effect>::empty());
                assert(w == v.after_finish(found, now));
                assert forall|k: usize| #[trigger] w.settled.contains(k) implies k < w.next by {
                    if indexes(v.pending).contains(k) {
                        let i = choose|i: int|
                            0 <= i < v.pending.len() && #[trigger] v.pending[i].index_of() == k;
                        assert(v.outstanding(v.pending[i]));
                    }
                }
            }
            CheckOutcome::TimedOut { effect: c, elapsed: waited, cleared }
        } else {
            self.pending.push_back(c);
            proof {
                let w = self@;
                assert(w == v.after_finish(found, now));
                assert forall|i: int| 0 <= i < w.pending.len() implies w.outstanding(
                    #[trigger] w.pending[i],
                ) by {
                    if i < v.pending.len() {
                        assert(v.outstanding(v.pending[i]));
                    }
                }
                assert forall|i: int, j: int|
                    0 <= i < j < w.pending.len() implies #[trigger] w.pending[i].index_of()
                    != #[trigger] w.pending[j].index_of() by {
                    if j == v.pending.len() {
                        assert(indexes(v.pending).contains(v.pending[i].index_of()));
                    }
                }
            }
            CheckOutcome::StillPending { effect: c, elapsed: waited }
        }
    }

    /// Which client is current: it counts the rebuilds so far.
    pub fn client_epoch(&self) -> (r: usize)
        ensures
            r as nat == self@.epoch,
    {
        self.epoch
    }

    /// Number of effects in the queue.
    pub fn pending_count(&self) -> (r: usize)
        ensures
            r as nat == self@.pending.len(),
    {
        self.pending.len()
    }

    /// Whether submission is over and no receipt is awaited.
    pub fn is_finished(&self) -> (r: bool)
        ensures
            r == self@.finished(),
    {
        self.submission_done && self.pending.len() == 0 && self.checking.is_none()
    }
}

} // verus!
