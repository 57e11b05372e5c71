//! Request strategies and quorum semantics for block and table RPCs, and
//! the per-stream ordering marker that keeps concurrent responses in
//! request order.

use vstd::prelude::*;

use crate::error::Error;

verus! {

/// Queue-scheduling priority of a request: smaller is served sooner.
pub const PRIO_HIGH: u8 = 0x20;

pub const PRIO_NORMAL: u8 = 0x40;

pub const PRIO_BACKGROUND: u8 = 0x80;

/// How a set of RPCs is driven: priority, timeout, required quorum, and
/// whether the remaining requests are cancelled once quorum is reached.
#[derive(Clone, Copy, Debug)]
pub struct RequestStrategy {
    /// Scheduling priority of the request
    pub priority: u8,
    /// Timeout in milliseconds, if any
    pub timeout_ms: Option<u64>,
    /// Number of successful answers required
    pub quorum: usize,
    /// Cancel the requests still in flight as soon as quorum is reached
    pub interrupt_after_quorum: bool,
}

impl RequestStrategy {
    pub fn with_priority(priority: u8) -> (r: RequestStrategy)
        ensures
            r.priority == priority,
            r.timeout_ms is None,
            r.quorum == 1,
            !r.interrupt_after_quorum,
    {
        RequestStrategy { priority, timeout_ms: None, quorum: 1, interrupt_after_quorum: false }
    }

    pub fn with_quorum(self, quorum: usize) -> (r: RequestStrategy)
        ensures
            r == (RequestStrategy { quorum, ..self }),
    {
        RequestStrategy { quorum, ..self }
    }

    pub fn with_timeout(self, timeout_ms: u64) -> (r: RequestStrategy)
        ensures
            r == (RequestStrategy { timeout_ms: Some(timeout_ms), ..self }),
    {
        RequestStrategy { timeout_ms: Some(timeout_ms), ..self }
    }

    pub fn interrupt_after_quorum(self, interrupt: bool) -> (r: RequestStrategy)
        ensures
            r == (RequestStrategy { interrupt_after_quorum: interrupt, ..self }),
    {
        RequestStrategy { interrupt_after_quorum: interrupt, ..self }
    }
}

/// Number of successful answers in a list of per-node outcomes.
pub open spec fn count_successes<T>(s: Seq<Option<T>>) -> int
    decreases s.len(),
{
    if s.len() == 0 {
        0
    } else {
        count_successes(s.drop_last()) + if s.last() is Some {
            1int
        } else {
            0int
        }
    }
}

/// The successful answers, in node order.
pub open spec fn successes<T>(s: Seq<Option<T>>) -> Seq<T>
    decreases s.len(),
{
    if s.len() == 0 {
        Seq::empty()
    } else {
        successes(s.drop_last()) + match s.last() {
            Some(x) => seq![x],
            None => Seq::empty(),
        }
    }
}

/// Quorum resolution: a call to many nodes succeeds exactly when at least
/// `quorum` of them answered, and then hands back those answers in node
/// order; otherwise the whole call fails with `QuorumFailed`.
pub fn try_call_many_resolve<T>(outcomes: Vec<Option<T>>, quorum: usize) -> (r: Result<
    Vec<T>,
    Error,
>)
    ensures
        r is Ok <==> count_successes(outcomes@) >= quorum,
        r matches Ok(v) ==> v@ =~= successes(outcomes@),
        r matches Err(e) ==> e is QuorumFailed,
{
    let ghost full = outcomes@;
    let mut oks: Vec<T> = Vec::new();
    let mut rest = outcomes;
    let ghost done = Seq::<Option<T>>::empty();
    proof {
        assert(full =~= done + rest@);
        assert(oks@ =~= successes(done));
    }
    // Walk the outcomes front to back, collecting the answers.
    while rest.len() > 0
        invariant
            full =~= done + rest@,
            oks@ =~= successes(done),
            oks@.len() == count_successes(done),
        decreases rest@.len(),
    {
        proof {
            lemma_successes_len(done);
        }
        let ghost prev = done;
        let x = rest.remove(0);
        proof {
            done = prev.push(x);
            assert(full =~= done + rest@);
            assert(done.drop_last() =~= prev);
        }
        match x {
            Some(v) => {
                oks.push(v);
            }
            None => {}
        }
        proof {
            assert(oks@ =~= successes(done));
        }
    }
    proof {
        assert(rest@.len() == 0);
        assert(done =~= full);
        lemma_successes_len(done);
    }
    if oks.len() >= quorum {
        Ok(oks)
    } else {
        Err(Error::QuorumFailed)
    }
}

pub proof fn lemma_successes_len<T>(s: Seq<Option<T>>)
    ensures
        successes(s).len() == count_successes(s),
        0 <= count_successes(s) <= s.len(),
    decreases s.len(),
{
    if s.len() > 0 {
        lemma_successes_len(s.drop_last());
    }
}

/// A per-stream monotone marker: responses carrying `(stream, order)` tags
/// are released to the consumer in increasing `order`, whatever order the
/// network delivered them in.
#[derive(Clone, Copy, Debug)]
pub struct OrderTag {
    pub stream: u64,
    pub order: u64,
}

/// Reorder buffer for one stream: out-of-order arrivals wait in their slot
/// until everything before them has been released.
pub struct StreamOrder<T> {
    slots: Vec<Option<T>>,
    next: usize,
}

impl<T> StreamOrder<T> {
    pub closed spec fn wf(&self) -> bool {
        self.next <= self.slots@.len() && forall|j: int|
            0 <= j < self.next ==> (#[trigger] self.slots@[j]) is None
    }

    /// How many in-order items have been released so far.
    pub closed spec fn released(&self) -> int {
        self.next as int
    }

    pub closed spec fn slot(&self, order: int) -> Option<T> {
        self.slots@[order]
    }

    pub closed spec fn capacity(&self) -> int {
        self.slots@.len() as int
    }

    /// A buffer for a stream of `n` expected responses.
    pub fn new(n: usize) -> (r: StreamOrder<T>)
        ensures
            r.wf(),
            r.capacity() == n,
            r.released() == 0,
            forall|j: int| 0 <= j < n ==> r.slot(j) is None,
    {
        let mut slots: Vec<Option<T>> = Vec::new();
        let mut i: usize = 0;
        while i < n
            invariant
                slots@.len() == i <= n,
                forall|j: int| 0 <= j < i ==> (#[trigger] slots@[j]) is None,
            decreases n - i,
        {
            slots.push(None);
            i = i + 1;
        }
        StreamOrder { slots, next: 0 }
    }

    /// A response with order tag `order` arrived.
    pub fn arrived(&mut self, order: usize, item: T)
        requires
            old(self).wf(),
            old(self).released() <= order < old(self).capacity(),
            old(self).slot(order as int) is None,
        ensures
            final(self).wf(),
            final(self).capacity() == old(self).capacity(),
            final(self).released() == old(self).released(),
            final(self).slot(order as int) == Some(item),
            forall|j: int|
                0 <= j < old(self).capacity() && j != order ==> final(self).slot(j) == old(
                    self,
                ).slot(j),
    {
        self.slots[order] = Some(item);
    }

    /// Release the next response in tag order, if it has arrived.
    pub fn release_next(&mut self) -> (r: Option<T>)
        requires
            old(self).wf(),
        ensures
            final(self).wf(),
            final(self).capacity() == old(self).capacity(),
            r is Some <==> old(self).released() < old(self).capacity() && old(self).slot(
                old(self).released(),
            ) is Some,
            r is Some ==> final(self).released() == old(self).released() + 1 && r == old(
                self,
            ).slot(old(self).released()),
            r is None ==> final(self).released() == old(self).released(),
            forall|j: int|
                0 <= j < old(self).capacity() && j != old(self).released() ==> final(self).slot(j)
                    == old(self).slot(j),
    {
        if self.next >= self.slots.len() {
            return None;
        }
        let have = match &self.slots[self.next] {
            Some(_) => true,
            None => false,
        };
        if !have {
            return None;
        }
        let mut taken: Option<T> = None;
        core::mem::swap(&mut self.slots[self.next], &mut taken);
        self.next = self.next + 1;
        taken
    }
}

} // verus!
