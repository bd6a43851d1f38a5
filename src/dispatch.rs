use vstd::prelude::*;

verus! {

/// Why a call on the pool was refused.
#[derive(Debug, Clone, Copy, PartialEq, Eq, Structural)]
pub enum DispatchError {
    /// The pool was asked for zero workers.
    InvalidConfig,
    /// An item was submitted after submission was closed.
    QueueClosed,
}

/// One unit of work.
#[derive(Debug)]
pub struct Request {
    pub id: usize,
    pub payload: String,
}

/// What a worker that asks for work is told to do next.
#[derive(Debug)]
pub enum WorkerStep {
    /// Process this item, then report it complete.
    Process(Request),
    /// Nothing is pending but more may come: wait for a change.
    Wait,
    /// Submission is closed and nothing is pending: stop.
    Exit,
}

/// Where a pool stands in its life.
#[derive(Debug, Clone, Copy, PartialEq, Eq, Structural)]
pub enum PoolPhase {
    /// Accepting items.
    Running,
    /// Submission is closed; workers are draining what is left.
    Draining,
    /// Every worker has exited.
    Terminated,
}

/// The abstract state of a pool.
///
/// `items` are all items ever submitted, in order; the first `next` of them
/// have been handed to a worker, the rest are pending. `done[i]` says that
/// item `i` has been completed, `busy[w]` which item worker `w` holds, and
/// `exited[w]` that worker `w` has stopped.
pub struct PoolState {
    pub closed: bool,
    pub items: Seq<Request>,
    pub next: int,
    pub done: Seq<bool>,
    pub busy: Seq<Option<usize>>,
    pub exited: Seq<bool>,
}

/// Some worker holds item `i`.
pub open spec fn held(s: PoolState, i: int) -> bool {
    exists|w: int| 0 <= w < s.busy.len() && s.busy[w] == Some(i as usize)
}

/// The pool's invariant: every handed-out item is either completed or held
/// by exactly one worker, no pending item is completed, and a worker exits
/// only once submission is closed and nothing is pending.
pub open spec fn pool_wf(s: PoolState) -> bool {
    &&& s.busy.len() >= 1
    &&& s.exited.len() == s.busy.len()
    &&& s.done.len() == s.items.len()
    &&& s.items.len() <= usize::MAX
    &&& 0 <= s.next <= s.items.len()
    &&& forall|i: int| s.next <= i < s.items.len() ==> !#[trigger] s.done[i]
    &&& forall|w: int| 0 <= w < s.busy.len() && (#[trigger] s.busy[w]) is Some ==> {
        let i = s.busy[w]->Some_0 as int;
        0 <= i < s.next && !s.done[i] && !s.exited[w]
    }
    &&& forall|w1: int, w2: int|
        0 <= w1 < s.busy.len() && 0 <= w2 < s.busy.len() && w1 != w2 && (#[trigger] s.busy[w1]) is Some
            ==> #[trigger] s.busy[w2] != s.busy[w1]
    &&& forall|i: int| 0 <= i < s.next ==> #[trigger] s.done[i] || held(s, i)
    &&& forall|w: int| 0 <= w < s.exited.len() && #[trigger] s.exited[w] ==> s.closed && s.next == s.items.len()
}

/// No item is pending.
pub open spec fn drained(s: PoolState) -> bool {
    s.next == s.items.len()
}

/// Every worker has exited.
pub open spec fn terminated(s: PoolState) -> bool {
    forall|w: int| 0 <= w < s.exited.len() ==> #[trigger] s.exited[w]
}

/// Every item ever submitted has been completed.
pub open spec fn all_done(s: PoolState) -> bool {
    forall|i: int| 0 <= i < s.done.len() ==> #[trigger] s.done[i]
}

/// No worker holds an item.
pub open spec fn idle(s: PoolState) -> bool {
    forall|w: int| 0 <= w < s.busy.len() ==> #[trigger] s.busy[w] is None
}

/// A fresh pool of `n` workers.
pub open spec fn start_spec(n: nat) -> PoolState {
    PoolState {
        closed: false,
        items: Seq::empty(),
        next: 0,
        done: Seq::empty(),
        busy: Seq::new(n, |w: int| None),
        exited: Seq::new(n, |w: int| false),
    }
}

/// Closing submission.
pub open spec fn close_spec(s: PoolState) -> PoolState {
    PoolState { closed: true, ..s }
}

/// Submitting `r`: appended as pending while open, refused once closed.
pub open spec fn submit_spec(s: PoolState, r: Request) -> PoolState {
    if s.closed {
        s
    } else {
        PoolState { items: s.items.push(r), done: s.done.push(false), ..s }
    }
}

/// Worker `w` asks for work: it takes the oldest pending item if there is
/// one, exits if submission is closed, and otherwise waits.
pub open spec fn claim_spec(s: PoolState, w: int) -> PoolState {
    if s.next < s.items.len() {
        PoolState { busy: s.busy.update(w, Some(s.next as usize)), next: s.next + 1, ..s }
    } else if s.closed {
        PoolState { exited: s.exited.update(w, true), ..s }
    } else {
        s
    }
}

/// Worker `w` reports the item it holds as completed.
pub open spec fn complete_spec(s: PoolState, w: int) -> PoolState {
    let i = s.busy[w]->Some_0 as int;
    PoolState { done: s.done.update(i, true), busy: s.busy.update(w, None), ..s }
}

/// The workers `0 .. k` each ask for work once, in order.
pub open spec fn claim_each(s: PoolState, k: nat) -> PoolState
    decreases k,
{
    if k == 0 {
        s
    } else {
        claim_spec(claim_each(s, (k - 1) as nat), k - 1)
    }
}

/// A pool of workers fed from one shared queue, as a state machine: workers
/// ask it for the next step and report completions; it never runs anything
/// itself.
pub struct WorkerPool {
    closed: bool,
    items: Vec<Request>,
    next: usize,
    done: Vec<bool>,
    busy: Vec<Option<usize>>,
    exited: Vec<bool>,
}

impl WorkerPool {
    pub closed spec fn view(&self) -> PoolState {
        PoolState {
            closed: self.closed,
            items: self.items@,
            next: self.next as int,
            done: self.done@,
            busy: self.busy@,
            exited: self.exited@,
        }
    }

    pub open spec fn wf(&self) -> bool {
        pool_wf(self@)
    }

    /// Makes a pool of `worker_count` workers, open for submission.
    pub fn start(worker_count: usize) -> (r: Result<WorkerPool, DispatchError>)
        ensures
            worker_count == 0 <==> r == Err::<WorkerPool, DispatchError>(DispatchError::InvalidConfig),
            worker_count > 0 <==> r is Ok,
            r matches Ok(p) ==> p.wf() && p@ == start_spec(worker_count as nat),
    {
        if worker_count == 0 {
            return Err(DispatchError::InvalidConfig);
        }
        let mut busy: Vec<Option<usize>> = Vec::new();
        let mut exited: Vec<bool> = Vec::new();
        let mut w: usize = 0;
        while w < worker_count
            invariant
                w <= worker_count,
                busy@ == Seq::new(w as nat, |k: int| None::<usize>),
                exited@ == Seq::new(w as nat, |k: int| false),
            decreases worker_count - w,
        {
            busy.push(None);
            exited.push(false);
            w = w + 1;
            assert(busy@ =~= Seq::new(w as nat, |k: int| None::<usize>));
            assert(exited@ =~= Seq::new(w as nat, |k: int| false));
        }
        let p = WorkerPool { closed: false, items: Vec::new(), next: 0, done: Vec::new(), busy, exited };
        assert(p@ == start_spec(worker_count as nat));
        Ok(p)
    }

    /// The number of workers.
    pub fn worker_count(&self) -> (r: usize)
        requires
            self.wf(),
        ensures
            r == self@.busy.len(),
    {
        self.busy.len()
    }

    /// The number of items submitted so far.
    pub fn submitted_count(&self) -> (r: usize)
        requires
            self.wf(),
        ensures
            r == self@.items.len(),
    {
        self.items.len()
    }

    /// Closes submission. Closing an already closed pool changes nothing.
    pub fn close_submission(&mut self)
        requires
            old(self).wf(),
        ensures
            final(self).wf(),
            final(self)@ == close_spec(old(self)@),
    {
        self.closed = true;
    }

    /// Queues `item` for any worker. Refused with `QueueClosed` once
    /// submission is closed.
    pub fn submit(&mut self, item: Request) -> (r: Result<(), DispatchError>)
        requires
            old(self).wf(),
            old(self)@.items.len() < usize::MAX,
        ensures
            final(self).wf(),
            old(self)@.closed <==> r == Err::<(), DispatchError>(DispatchError::QueueClosed),
            !old(self)@.closed <==> r is Ok,
            final(self)@ == submit_spec(old(self)@, item),
    {
        if self.closed {
            return Err(DispatchError::QueueClosed);
        }
        self.items.push(item);
        self.done.push(false);
        proof {
            let o = old(self)@;
            let n = self@;
            assert forall|i: int| 0 <= i < n.next implies #[trigger] n.done[i] || held(n, i) by {
                assert(o.done[i] || held(o, i));
                if held(o, i) {
                    let w = choose|w: int| 0 <= w < o.busy.len() && o.busy[w] == Some(i as usize);
                    assert(n.busy[w] == Some(i as usize));
                }
            }
        }
        Ok(())
    }

    /// Worker `w`, holding no item, asks for work: it is handed the oldest
    /// pending item if there is one, told to exit if submission is closed,
    /// and told to wait otherwise.
    pub fn claim(&mut self, w: usize) -> (r: WorkerStep)
        requires
            old(self).wf(),
            w < old(self)@.busy.len(),
            old(self)@.busy[w as int] is None,
            !old(self)@.exited[w as int],
        ensures
            final(self).wf(),
            final(self)@ == claim_spec(old(self)@, w as int),
            old(self)@.next < old(self)@.items.len() <==> r is Process,
            r matches WorkerStep::Process(item) ==> item == old(self)@.items[old(self)@.next],
            r is Exit <==> old(self)@.closed && drained(old(self)@),
            r is Wait <==> !old(self)@.closed && drained(old(self)@),
    {
        if self.next < self.items.len() {
            let i = self.next;
            let item = Request { id: self.items[i].id, payload: self.items[i].payload.clone() };
            self.busy.set(w, Some(i));
            self.next = i + 1;
            proof {
                let o = old(self)@;
                let n = self@;
                assert forall|k: int| 0 <= k < n.next implies #[trigger] n.done[k] || held(n, k) by {
                    if k == i {
                        assert(n.busy[w as int] == Some(k as usize));
                    } else {
                        assert(o.done[k] || held(o, k));
                        if !o.done[k] {
                            let v = choose|v: int| 0 <= v < o.busy.len() && o.busy[v] == Some(k as usize);
                            assert(v != w);
                            assert(n.busy[v] == Some(k as usize));
                        }
                    }
                }
                assert forall|w1: int, w2: int|
                    0 <= w1 < n.busy.len() && 0 <= w2 < n.busy.len() && w1 != w2 && (#[trigger] n.busy[w1]) is Some
                        implies #[trigger] n.busy[w2] != n.busy[w1] by {
                    if w1 != w && w2 != w {
                        assert(o.busy[w1] != o.busy[w2]);
                    }
                }
                assert(n == claim_spec(o, w as int));
            }
            WorkerStep::Process(item)
        } else if self.closed {
            self.exited.set(w, true);
            proof {
                let o = old(self)@;
                let n = self@;
                assert forall|k: int| 0 <= k < n.next implies #[trigger] n.done[k] || held(n, k) by {
                    assert(o.done[k] || held(o, k));
                    if !o.done[k] {
                        let v = choose|v: int| 0 <= v < o.busy.len() && o.busy[v] == Some(k as usize);
                        assert(n.busy[v] == Some(k as usize));
                    }
                }
                assert(n == claim_spec(o, w as int));
            }
            WorkerStep::Exit
        } else {
            WorkerStep::Wait
        }
    }

    /// Worker `w` reports the item it holds as completed. The item was not
    /// completed before: no item is completed twice.
    pub fn complete(&mut self, w: usize)
        requires
            old(self).wf(),
            w < old(self)@.busy.len(),
            old(self)@.busy[w as int] is Some,
        ensures
            final(self).wf(),
            final(self)@ == complete_spec(old(self)@, w as int),
            !old(self)@.done[old(self)@.busy[w as int]->Some_0 as int],
    {
        let i = match self.busy[w] {
            Some(i) => i,
            None => 0,
        };
        self.done.set(i, true);
        self.busy.set(w, None);
        proof {
            let o = old(self)@;
            let n = self@;
            assert forall|k: int| 0 <= k < n.next implies #[trigger] n.done[k] || held(n, k) by {
                if k != i {
                    assert(o.done[k] || held(o, k));
                    if !o.done[k] {
                        let v = choose|v: int| 0 <= v < o.busy.len() && o.busy[v] == Some(k as usize);
                        assert(v != w);
                        assert(n.busy[v] == Some(k as usize));
                    }
                }
            }
            assert forall|v: int| 0 <= v < n.busy.len() && (#[trigger] n.busy[v]) is Some implies {
                let j = n.busy[v]->Some_0 as int;
                0 <= j < n.next && !n.done[j] && !n.exited[v]
            } by {
                assert(v != w);
                assert(o.busy[v] != o.busy[w as int]);
            }
            assert(n == complete_spec(o, w as int));
        }
    }

    /// Whether every worker has exited.
    pub fn is_terminated(&self) -> (r: bool)
        requires
            self.wf(),
        ensures
            r == terminated(self@),
    {
        let mut w: usize = 0;
        while w < self.exited.len()
            invariant
                w <= self@.exited.len(),
                forall|k: int| 0 <= k < w ==> #[trigger] self@.exited[k],
            decreases self@.exited.len() - w,
        {
            if !self.exited[w] {
                return false;
            }
            w = w + 1;
        }
        true
    }

    /// Where the pool stands: running while open, draining once closed until
    /// every worker has exited, terminated after that.
    pub fn phase(&self) -> (r: PoolPhase)
        requires
            self.wf(),
        ensures
            r == PoolPhase::Running <==> !self@.closed,
            r == PoolPhase::Draining <==> self@.closed && !terminated(self@),
            r == PoolPhase::Terminated <==> self@.closed && terminated(self@),
    {
        if !self.closed {
            PoolPhase::Running
        } else if self.is_terminated() {
            PoolPhase::Terminated
        } else {
            PoolPhase::Draining
        }
    }
}

/// Closing submission twice has the same effect as closing it once.
pub proof fn lemma_close_idempotent(s: PoolState)
    ensures
        close_spec(close_spec(s)) == close_spec(s),
        pool_wf(s) ==> pool_wf(close_spec(s)),
{
}

/// An item handed out by a claim is neither completed nor held by any
/// worker: no item goes to two workers.
pub proof fn lemma_claim_hands_out_fresh(s: PoolState, w: int)
    requires
        pool_wf(s),
        0 <= w < s.busy.len(),
        s.next < s.items.len(),
    ensures
        !s.done[s.next],
        !held(s, s.next),
        claim_spec(s, w).busy[w] == Some(s.next as usize),
{
    if held(s, s.next) {
        let v = choose|v: int| 0 <= v < s.busy.len() && s.busy[v] == Some(s.next as usize);
        assert(s.busy[v] is Some);
    }
}

/// Once every worker has exited, every submitted item has been handed out
/// and completed, and no worker holds an item: nothing was dropped.
pub proof fn lemma_terminated_all_done(s: PoolState)
    requires
        pool_wf(s),
        terminated(s),
    ensures
        s.closed,
        drained(s),
        all_done(s),
        idle(s),
{
    assert(s.exited[0]);
    assert forall|i: int| 0 <= i < s.done.len() implies #[trigger] s.done[i] by {
        assert(s.done[i] || held(s, i));
        if held(s, i) {
            let w = choose|w: int| 0 <= w < s.busy.len() && s.busy[w] == Some(i as usize);
            assert(s.exited[w]);
        }
    }
    assert forall|w: int| 0 <= w < s.busy.len() implies #[trigger] s.busy[w] is None by {
        assert(s.exited[w]);
    }
}

/// With submission closed, nothing pending and no item in flight, each
/// worker asking once is enough for all of them to exit.
pub proof fn lemma_closed_and_empty_terminates(s: PoolState)
    requires
        pool_wf(s),
        s.closed,
        drained(s),
        idle(s),
    ensures
        pool_wf(claim_each(s, s.busy.len())),
        terminated(claim_each(s, s.busy.len())),
{
    lemma_claim_each_exits(s, s.busy.len());
}

proof fn lemma_claim_each_exits(s: PoolState, k: nat)
    requires
        pool_wf(s),
        s.closed,
        drained(s),
        idle(s),
        k <= s.busy.len(),
    ensures
        pool_wf(claim_each(s, k)),
        claim_each(s, k).closed,
        drained(claim_each(s, k)),
        idle(claim_each(s, k)),
        claim_each(s, k).busy == s.busy,
        claim_each(s, k).items == s.items,
        claim_each(s, k).exited.len() == s.exited.len(),
        forall|w: int| 0 <= w < k ==> #[trigger] claim_each(s, k).exited[w],
    decreases k,
{
    if k > 0 {
        lemma_claim_each_exits(s, (k - 1) as nat);
        let p = claim_each(s, (k - 1) as nat);
        let n = claim_each(s, k);
        assert(n == claim_spec(p, k - 1));
        assert forall|i: int| 0 <= i < n.next implies #[trigger] n.done[i] || held(n, i) by {
            assert(p.done[i] || held(p, i));
            if held(p, i) {
                let w = choose|w: int| 0 <= w < p.busy.len() && p.busy[w] == Some(i as usize);
                assert(p.busy[w] is None);
            }
        }
        assert forall|w: int| 0 <= w < k implies #[trigger] n.exited[w] by {
            if w < k - 1 {
                assert(p.exited[w]);
            }
        }
    }
}

} // verus!
