//! Which of the L2P tables holds each logical address; new addresses are
//! given to the tables in turn.

use vstd::prelude::*;
use std::collections::BTreeMap;
use vstd::arithmetic::div_mod::{lemma_small_mod, lemma_add_mod_noop_right};
use crate::l2p::l2p::LogicalAddr;

verus! {

/// The table picked `k` picks after the one numbered `start`.
pub open spec fn pick_after(start: int, k: nat, capacity: int) -> int
    decreases k,
{
    if k == 0 {
        start
    } else {
        (pick_after(start, (k - 1) as nat, capacity) + 1) % capacity
    }
}

/// Law: the tables are picked in turn: `k` picks after table `start`,
/// the table picked is `(start + k) % capacity`.
pub proof fn lemma_picks_go_round(start: int, k: nat, capacity: int)
    requires
        0 <= start < capacity,
    ensures
        pick_after(start, k, capacity) == (start + k) % capacity,
    decreases k,
{
    if k == 0 {
        lemma_small_mod(start as nat, capacity as nat);
    } else {
        lemma_picks_go_round(start, (k - 1) as nat, capacity);
        lemma_add_mod_noop_right(1, start + k - 1, capacity);
        assert(1 + (start + k - 1) % capacity == (start + k - 1) % capacity + 1);
    }
}

/// The L2P table of each logical address, the names of the tables' pipes,
/// and the table picked last.
pub struct L2PDistributionTable<const CAPACITY: usize> {
    last_picked: u8,
    table: BTreeMap<LogicalAddr, u8>,
    pipe_names: [&'static str; CAPACITY],
}

impl<const CAPACITY: usize> L2PDistributionTable<CAPACITY> {
    /// The table of each logical address.
    pub closed spec fn tables(&self) -> Map<LogicalAddr, u8> {
        self.table@
    }

    /// The table picked last.
    pub closed spec fn last_picked(&self) -> u8 {
        self.last_picked
    }

    /// The names of the tables' pipes.
    pub closed spec fn pipe_names(&self) -> Seq<&'static str> {
        self.pipe_names@
    }

    /// No address is given to a table yet; the first pick is table 0.
    pub fn new(pipe_names: [&'static str; CAPACITY]) -> (t: Self)
        ensures
            t.tables() == Map::<LogicalAddr, u8>::empty(),
            t.last_picked() == 0,
            t.pipe_names() == pipe_names@,
    {
        L2PDistributionTable { last_picked: 0, table: BTreeMap::new(), pipe_names }
    }

    /// The table that holds `logical_addr`, if one does.
    pub fn get_table_idx(&self, logical_addr: &LogicalAddr) -> (r: Option<u8>)
        ensures
            r == self.tables().get(*logical_addr),
    {
        match self.table.get(logical_addr) {
            Some(id) => Some(*id),
            None => None,
        }
    }

    /// Gives `logical_addr` to table `table_id`, returning the table that
    /// held it before, if any.
    pub fn set_table_idx(&mut self, logical_addr: LogicalAddr, table_id: u8) -> (r: Option<u8>)
        ensures
            r == old(self).tables().get(logical_addr),
            final(self).tables() == old(self).tables().insert(logical_addr, table_id),
            final(self).last_picked() == old(self).last_picked(),
            final(self).pipe_names() == old(self).pipe_names(),
    {
        self.table.insert(logical_addr, table_id)
    }

    /// Picks the table to give the next address to: the one after the
    /// table picked last, going round the tables in turn; the result is the
    /// table picked last before this call.
    pub fn pick_table_idx(&mut self) -> (r: u8)
        requires
            0 < CAPACITY < 256,
            old(self).last_picked() < CAPACITY,
        ensures
            r == old(self).last_picked(),
            final(self).last_picked() == (old(self).last_picked() + 1) % (CAPACITY as int),
            final(self).tables() == old(self).tables(),
            final(self).pipe_names() == old(self).pipe_names(),
    {
        let res = self.last_picked;
        self.last_picked = (self.last_picked + 1) % (CAPACITY as u8);
        res
    }

    /// The name of the pipe of table `table_idx`.
    pub fn get_table_pipe_name(&self, table_idx: u8) -> (r: &'static str)
        requires
            (table_idx as int) < CAPACITY,
        ensures
            r == self.pipe_names()[table_idx as int],
    {
        self.pipe_names[table_idx as usize]
    }

    /// Gives each of the first `n_reqs` logical addresses to the tables in
    /// turn: address `i` to table `i % CAPACITY`.
    pub fn prepare_for_benchmark(&mut self, n_reqs: usize)
        requires
            0 < CAPACITY,
            n_reqs <= u32::MAX as usize + 1,
        ensures
            forall|k: LogicalAddr| (k as int) < n_reqs ==> #[trigger] final(self).tables().get(k) == Some(((k as int) % (CAPACITY as int)) as u8),
            forall|k: LogicalAddr| (k as int) >= n_reqs ==> #[trigger] final(self).tables().get(k) == old(self).tables().get(k),
            final(self).last_picked() == old(self).last_picked(),
            final(self).pipe_names() == old(self).pipe_names(),
    {
        let mut i: usize = 0;
        while i < n_reqs
            invariant
                0 < CAPACITY,
                n_reqs <= u32::MAX as usize + 1,
                i <= n_reqs,
                self.last_picked == old(self).last_picked,
                self.pipe_names@ == old(self).pipe_names@,
                forall|k: LogicalAddr| (k as int) < i ==> #[trigger] self.table@.get(k) == Some(((k as int) % (CAPACITY as int)) as u8),
                forall|k: LogicalAddr| (k as int) >= i ==> #[trigger] self.table@.get(k) == old(self).table@.get(k),
            decreases n_reqs - i,
        {
            let ghost before = self.table@;
            let key = i as u32;
            let value = (i % CAPACITY) as u8;
            assert(key as int == i);
            assert(value == ((key as int) % (CAPACITY as int)) as u8);
            self.table.insert(key, value);
            assert(self.table@ == before.insert(key, value));
            i = i + 1;
            assert forall|k: LogicalAddr| (k as int) < i implies #[trigger] self.table@.get(k) == Some(((k as int) % (CAPACITY as int)) as u8) by {
                if k != key {
                    assert(self.table@.get(k) == before.get(k));
                }
            }
            assert forall|k: LogicalAddr| (k as int) >= i implies #[trigger] self.table@.get(k) == old(self).table@.get(k) by {
                assert(k != key);
                assert(self.table@.get(k) == before.get(k));
            }
        }
    }
}

} // verus!
