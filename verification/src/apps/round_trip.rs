//! The round-trip benchmark: messages from a fixed pool travel through two
//! pipelines of three stages each, every stage adding the message's
//! increment to its value, and come back to be checked and released.

use vstd::prelude::*;

verus! {

/// How many messages the pool holds.
pub const POOL_SIZE: usize = 10000;

/// How many messages may travel at once.
pub const RING_SIZE: usize = 128;

/// A message: a value, the increment each stage adds to it, and its number.
#[derive(Clone, Copy, Debug, PartialEq, Eq, Structural)]
pub struct Numbers {
    pub value: u8,
    pub add: u8,
    pub id: u16,
}

impl Numbers {
    /// The zero message.
    pub fn default() -> (n: Numbers)
        ensures
            n == (Numbers { value: 0, add: 0, id: 0 }),
    {
        Numbers { value: 0, add: 0, id: 0 }
    }

    /// Sets every field back to zero.
    pub fn reset(&mut self)
        ensures
            *final(self) == (Numbers { value: 0, add: 0, id: 0 }),
    {
        self.value = 0;
        self.add = 0;
        self.id = 0;
    }
}

/// What one stage does to a message: its value grows by its increment,
/// wrapping around at 256.
pub open spec fn stage_spec(n: Numbers) -> Numbers {
    Numbers { value: ((n.value + n.add) % 256) as u8, ..n }
}

/// One stage: adds the message's increment to its value, wrapping.
pub fn add_fn(n: &mut Numbers)
    ensures
        *final(n) == stage_spec(*old(n)),
{
    n.value = n.value.wrapping_add(n.add);
}

/// A message after `k` stages.
pub open spec fn after_stages(n: Numbers, k: nat) -> Numbers
    decreases k,
{
    if k == 0 { n } else { stage_spec(after_stages(n, (k - 1) as nat)) }
}

/// Law: a message sent out with value 1 and increment 1 comes back from the
/// two pipelines of three stages with value 7, which is what the
/// benchmark checks.
pub proof fn lemma_round_trip_value(id: u16)
    ensures
        after_stages(Numbers { value: 1, add: 1, id }, 6).value == 7,
{
    reveal_with_fuel(after_stages, 7);
}

/// The message pool: every message, and which ones are out.
pub struct MessagePool {
    messages: Vec<Numbers>,
    in_use: Vec<bool>,
}

impl MessagePool {
    /// The messages.
    pub closed spec fn messages(&self) -> Seq<Numbers> {
        self.messages@
    }

    /// Which messages are out.
    pub closed spec fn in_use(&self) -> Seq<bool> {
        self.in_use@
    }

    /// The pool's invariant: a message and a flag for each slot.
    pub closed spec fn wf(&self) -> bool {
        self.messages@.len() == POOL_SIZE && self.in_use@.len() == POOL_SIZE
    }

    /// A pool of zero messages, none out.
    pub fn new() -> (p: MessagePool)
        ensures
            p.wf(),
            forall|i: int| 0 <= i < POOL_SIZE ==> #[trigger] p.messages()[i] == (Numbers { value: 0, add: 0, id: 0 }),
            forall|i: int| 0 <= i < POOL_SIZE ==> !#[trigger] p.in_use()[i],
    {
        let mut messages: Vec<Numbers> = Vec::with_capacity(POOL_SIZE);
        let mut in_use: Vec<bool> = Vec::with_capacity(POOL_SIZE);
        let mut i: usize = 0;
        while i < POOL_SIZE
            invariant
                i <= POOL_SIZE,
                messages@.len() == i,
                in_use@.len() == i,
                forall|k: int| 0 <= k < i ==> #[trigger] messages@[k] == (Numbers { value: 0, add: 0, id: 0 }),
                forall|k: int| 0 <= k < i ==> !#[trigger] in_use@[k],
            decreases POOL_SIZE - i,
        {
            messages.push(Numbers::default());
            in_use.push(false);
            i = i + 1;
        }
        MessagePool { messages, in_use }
    }

    /// Takes the first message that is not out, marking it out, and
    /// returns its number; `None` when every message is out.
    pub fn get_free_message_index(&mut self) -> (r: Option<usize>)
        requires
            old(self).wf(),
        ensures
            final(self).wf(),
            final(self).messages() == old(self).messages(),
            match r {
                Some(i) => {
                    &&& i < POOL_SIZE
                    &&& !old(self).in_use()[i as int]
                    &&& forall|j: int| 0 <= j < i ==> #[trigger] old(self).in_use()[j]
                    &&& final(self).in_use() == old(self).in_use().update(i as int, true)
                },
                None => {
                    &&& forall|j: int| 0 <= j < POOL_SIZE ==> #[trigger] old(self).in_use()[j]
                    &&& final(self).in_use() == old(self).in_use()
                },
            },
    {
        let mut i: usize = 0;
        while i < POOL_SIZE
            invariant
                self.wf(),
                self.messages@ == old(self).messages@,
                self.in_use@ == old(self).in_use@,
                i <= POOL_SIZE,
                forall|j: int| 0 <= j < i ==> #[trigger] self.in_use@[j],
            decreases POOL_SIZE - i,
        {
            if !self.in_use[i] {
                self.in_use.set(i, true);
                return Some(i);
            }
            i = i + 1;
        }
        None
    }

    /// Puts message `index` back: it is no longer out, and is zeroed. A
    /// number outside the pool changes nothing.
    pub fn release_message(&mut self, index: usize)
        requires
            old(self).wf(),
        ensures
            final(self).wf(),
            index < POOL_SIZE ==> {
                &&& final(self).in_use() == old(self).in_use().update(index as int, false)
                &&& final(self).messages() == old(self).messages().update(index as int, Numbers { value: 0, add: 0, id: 0 })
            },
            index >= POOL_SIZE ==> final(self).in_use() == old(self).in_use() && final(self).messages() == old(self).messages(),
    {
        if index < POOL_SIZE {
            self.in_use.set(index, false);
            self.messages[index].reset();
        }
    }

    /// Message `index`.
    pub fn message(&self, index: usize) -> (n: Numbers)
        requires
            self.wf(),
            index < POOL_SIZE,
        ensures
            n == self.messages()[index as int],
    {
        self.messages[index]
    }

    /// Replaces message `index` by `n`.
    pub fn set_message(&mut self, index: usize, n: Numbers)
        requires
            old(self).wf(),
            index < POOL_SIZE,
        ensures
            final(self).wf(),
            final(self).messages() == old(self).messages().update(index as int, n),
            final(self).in_use() == old(self).in_use(),
    {
        self.messages.set(index, n);
    }
}

/// The benchmark's state: the pool, how many messages are travelling, how
/// many came back, how many were sent, and the count at the last tick.
pub struct RoundTrip {
    pool: MessagePool,
    amount: u32,
    count: u32,
    submitted: u32,
    last_count: u32,
}

impl RoundTrip {
    /// The messages of the pool.
    pub closed spec fn messages(&self) -> Seq<Numbers> {
        self.pool.messages()
    }

    /// Which messages of the pool are out.
    pub closed spec fn in_use(&self) -> Seq<bool> {
        self.pool.in_use()
    }

    /// How many messages are travelling.
    pub closed spec fn amount(&self) -> u32 {
        self.amount
    }

    /// How many messages came back.
    pub closed spec fn count(&self) -> u32 {
        self.count
    }

    /// How many messages were sent.
    pub closed spec fn submitted(&self) -> u32 {
        self.submitted
    }

    /// The count at the last timer tick.
    pub closed spec fn last_count(&self) -> u32 {
        self.last_count
    }

    /// The state's invariant: the pool is well formed, and the count never
    /// falls behind the one seen at the last tick.
    pub closed spec fn wf(&self) -> bool {
        self.pool.wf() && self.last_count <= self.count
    }

    /// How many messages are travelling, came back, were sent, and the
    /// count at the last tick, in that order.
    pub fn counters(&self) -> (r: (u32, u32, u32, u32))
        ensures
            r == (self.amount(), self.count(), self.submitted(), self.last_count()),
    {
        (self.amount, self.count, self.submitted, self.last_count)
    }

    /// A fresh benchmark: nothing sent.
    pub fn new() -> (s: RoundTrip)
        ensures
            s.wf(),
            s.amount() == 0,
            s.count() == 0,
            s.submitted() == 0,
            s.last_count() == 0,
    {
        RoundTrip { pool: MessagePool::new(), amount: 0, count: 0, submitted: 0, last_count: 0 }
    }

    /// Sends a message when fewer than `RING_SIZE` travel and the pool has
    /// one: it starts with value 1 and increment 1, numbered by the count
    /// of messages sent (its low 16 bits). Returns its number in the pool.
    pub fn submit(&mut self) -> (r: Option<usize>)
        requires
            old(self).wf(),
            old(self).submitted() < u32::MAX,
        ensures
            final(self).wf(),
            final(self).count() == old(self).count(),
            final(self).last_count() == old(self).last_count(),
            match r {
                Some(i) => {
                    &&& old(self).amount() < RING_SIZE
                    &&& i < POOL_SIZE
                    &&& !old(self).in_use()[i as int]
                    &&& final(self).in_use() == old(self).in_use().update(i as int, true)
                    &&& final(self).messages() == old(self).messages().update(
                        i as int,
                        Numbers { value: 1, add: 1, id: old(self).submitted() as u16 },
                    )
                    &&& final(self).submitted() == old(self).submitted() + 1
                    &&& final(self).amount() == old(self).amount() + 1
                },
                None => {
                    &&& (old(self).amount() >= RING_SIZE || forall|j: int| 0 <= j < POOL_SIZE ==> #[trigger] old(self).in_use()[j])
                    &&& final(self).in_use() == old(self).in_use()
                    &&& final(self).messages() == old(self).messages()
                    &&& final(self).submitted() == old(self).submitted()
                    &&& final(self).amount() == old(self).amount()
                },
            },
    {
        if self.amount < RING_SIZE as u32 {
            if let Some(idx) = self.pool.get_free_message_index() {
                self.pool.set_message(idx, Numbers { value: 1, add: 1, id: self.submitted as u16 });
                self.submitted = self.submitted + 1;
                self.amount = self.amount + 1;
                return Some(idx);
            }
        }
        None
    }

    /// One stage of a pipeline on message `index`.
    pub fn stage(&mut self, index: usize)
        requires
            old(self).wf(),
            index < POOL_SIZE,
        ensures
            final(self).wf(),
            final(self).messages() == old(self).messages().update(
                index as int,
                stage_spec(old(self).messages()[index as int]),
            ),
            final(self).in_use() == old(self).in_use(),
            final(self).amount() == old(self).amount(),
            final(self).count() == old(self).count(),
            final(self).submitted() == old(self).submitted(),
            final(self).last_count() == old(self).last_count(),
    {
        let mut n = self.pool.message(index);
        add_fn(&mut n);
        self.pool.set_message(index, n);
    }

    /// Takes back message `index` at the end of its trip: counts it,
    /// releases it, and says whether its value is the expected 7.
    pub fn complete(&mut self, index: usize) -> (ok: bool)
        requires
            old(self).wf(),
            old(self).amount() > 0,
            old(self).count() < u32::MAX,
            index < POOL_SIZE,
        ensures
            final(self).wf(),
            ok == (old(self).messages()[index as int].value == 7),
            final(self).count() == old(self).count() + 1,
            final(self).amount() == old(self).amount() - 1,
            final(self).submitted() == old(self).submitted(),
            final(self).last_count() == old(self).last_count(),
            final(self).in_use() == old(self).in_use().update(index as int, false),
            final(self).messages() == old(self).messages().update(index as int, Numbers { value: 0, add: 0, id: 0 }),
    {
        self.count = self.count + 1;
        self.amount = self.amount - 1;
        let ok = self.pool.message(index).value == 7;
        self.pool.release_message(index);
        ok
    }

    /// The timer tick: the number of stages run since the last tick (six
    /// per message that came back), and the count remembered for the next.
    pub fn timer_tick(&mut self) -> (stages: u32)
        requires
            old(self).wf(),
            6 * (old(self).count() - old(self).last_count()) <= u32::MAX,
        ensures
            final(self).wf(),
            stages == 6 * (old(self).count() - old(self).last_count()),
            final(self).last_count() == old(self).count(),
            final(self).count() == old(self).count(),
            final(self).amount() == old(self).amount(),
            final(self).submitted() == old(self).submitted(),
            final(self).messages() == old(self).messages(),
            final(self).in_use() == old(self).in_use(),
    {
        let cur = self.count;
        let diff = cur - self.last_count;
        self.last_count = cur;
        6 * diff
    }
}

} // verus!
