use vstd::prelude::*;

verus! {

/// A logical page address, as seen by the host.
pub type LogicalAddr = u32;

/// A physical page address on the flash media.
pub type PhysicalAddr = u32;

/// The logical-to-physical mapping table: one optional physical address
/// per logical address, for `CAPACITY` logical addresses.
pub struct L2pMapper<const CAPACITY: usize> {
    entries: Vec<Option<PhysicalAddr>>,
}

/// Law: a lookup after mapping a logical address gives the physical address
/// it was mapped to; every other logical address maps as before.
pub proof fn lemma_lookup_after_map(table: Seq<Option<PhysicalAddr>>, la: LogicalAddr, pa: PhysicalAddr, other: LogicalAddr)
    requires
        (la as int) < table.len(),
        (other as int) < table.len(),
    ensures
        table.update(la as int, Some(pa))[la as int] == Some(pa),
        other != la ==> table.update(la as int, Some(pa))[other as int] == table[other as int],
        table.update(la as int, Some(pa)).len() == table.len(),
{
}

/// Law: unmapping gives back what the address was mapped to, after which a
/// lookup finds nothing; every other address maps as before.
pub proof fn lemma_lookup_after_unmap(table: Seq<Option<PhysicalAddr>>, la: LogicalAddr, other: LogicalAddr)
    requires
        (la as int) < table.len(),
        (other as int) < table.len(),
    ensures
        table.update(la as int, None)[la as int] is None,
        other != la ==> table.update(la as int, None)[other as int] == table[other as int],
        table.update(la as int, None).len() == table.len(),
{
}

/// Law: mapping an address twice keeps only the second mapping.
pub proof fn lemma_map_overwrites(table: Seq<Option<PhysicalAddr>>, la: LogicalAddr, pa1: PhysicalAddr, pa2: PhysicalAddr)
    requires
        (la as int) < table.len(),
    ensures
        table.update(la as int, Some(pa1)).update(la as int, Some(pa2)) == table.update(la as int, Some(pa2)),
{
    assert(table.update(la as int, Some(pa1)).update(la as int, Some(pa2)) =~= table.update(la as int, Some(pa2)));
}

/// A change to the table, as `map`, `unmap` and `prepare_for_benchmark`
/// make it (`lookup` takes the table by shared reference and changes nothing).
pub enum L2pOp {
    MapTo(LogicalAddr, PhysicalAddr),
    Unmap(LogicalAddr),
    Prepare(usize),
}

/// The change is one its function accepts on `table`.
pub open spec fn l2p_op_ok(table: Seq<Option<PhysicalAddr>>, op: L2pOp) -> bool {
    match op {
        L2pOp::MapTo(la, _) => (la as int) < table.len(),
        L2pOp::Unmap(la) => (la as int) < table.len(),
        L2pOp::Prepare(n) => n <= table.len(),
    }
}

/// The table after the change.
pub open spec fn l2p_apply(table: Seq<Option<PhysicalAddr>>, op: L2pOp) -> Seq<Option<PhysicalAddr>> {
    match op {
        L2pOp::MapTo(la, pa) => table.update(la as int, Some(pa)),
        L2pOp::Unmap(la) => table.update(la as int, None),
        L2pOp::Prepare(n) => Seq::new(
            table.len(),
            |i: int| if i < n && i <= u32::MAX { Some(i as PhysicalAddr) } else { table[i] },
        ),
    }
}

/// The table after the changes `ops`, in order.
pub open spec fn l2p_run(table: Seq<Option<PhysicalAddr>>, ops: Seq<L2pOp>) -> Seq<Option<PhysicalAddr>>
    decreases ops.len(),
{
    if ops.len() == 0 {
        table
    } else {
        l2p_apply(l2p_run(table, ops.drop_last()), ops.last())
    }
}

/// Every change of `ops` is accepted on the table that the earlier ones left.
pub open spec fn l2p_run_ok(table: Seq<Option<PhysicalAddr>>, ops: Seq<L2pOp>) -> bool
    decreases ops.len(),
{
    ops.len() == 0 || (l2p_run_ok(table, ops.drop_last()) && l2p_op_ok(l2p_run(table, ops.drop_last()), ops.last()))
}

/// Law: no run of accepted changes alters the number of entries.
pub proof fn lemma_run_keeps_len(table: Seq<Option<PhysicalAddr>>, ops: Seq<L2pOp>)
    requires
        l2p_run_ok(table, ops),
    ensures
        l2p_run(table, ops).len() == table.len(),
    decreases ops.len(),
{
    if ops.len() > 0 {
        lemma_run_keeps_len(table, ops.drop_last());
    }
}

impl<const CAPACITY: usize> View for L2pMapper<CAPACITY> {
    type V = Seq<Option<PhysicalAddr>>;

    closed spec fn view(&self) -> Seq<Option<PhysicalAddr>> {
        self.entries@
    }
}

impl<const CAPACITY: usize> L2pMapper<CAPACITY> {
    /// A fresh table with `CAPACITY` unmapped entries.
    pub fn new() -> (m: Self)
        ensures
            m@ == Seq::new(CAPACITY as nat, |i: int| None::<PhysicalAddr>),
    {
        let mut entries: Vec<Option<PhysicalAddr>> = Vec::with_capacity(CAPACITY);
        let mut i: usize = 0;
        while i < CAPACITY
            invariant
                i <= CAPACITY,
                entries@ == Seq::new(i as nat, |k: int| None::<PhysicalAddr>),
            decreases CAPACITY - i,
        {
            entries.push(None);
            i = i + 1;
        }
        L2pMapper { entries }
    }

    /// Records that `logical_addr` now lives at `physical_addr`.
    pub fn map(&mut self, logical_addr: LogicalAddr, physical_addr: PhysicalAddr)
        requires
            (logical_addr as int) < old(self)@.len(),
        ensures
            final(self)@ == old(self)@.update(logical_addr as int, Some(physical_addr)),
            final(self)@ == l2p_apply(old(self)@, L2pOp::MapTo(logical_addr, physical_addr)),
    {
        self.entries[logical_addr as usize] = Some(physical_addr);
    }

    /// The physical address that `logical_addr` is mapped to, if any.
    pub fn lookup(&self, logical_addr: LogicalAddr) -> (r: Option<PhysicalAddr>)
        requires
            (logical_addr as int) < self@.len(),
        ensures
            r == self@[logical_addr as int],
    {
        self.entries[logical_addr as usize]
    }

    /// Removes the mapping of `logical_addr`, returning what it was.
    pub fn unmap(&mut self, logical_addr: LogicalAddr) -> (r: Option<PhysicalAddr>)
        requires
            (logical_addr as int) < old(self)@.len(),
        ensures
            r == old(self)@[logical_addr as int],
            final(self)@ == old(self)@.update(logical_addr as int, None),
            final(self)@ == l2p_apply(old(self)@, L2pOp::Unmap(logical_addr)),
    {
        let res = self.lookup(logical_addr);
        self.entries[logical_addr as usize] = None;
        res
    }

    /// Number of logical addresses covered by the table.
    pub fn len(&self) -> (r: usize)
        ensures
            r == self@.len(),
    {
        self.entries.len()
    }

    /// Whether the table covers no logical address at all.
    pub fn is_empty(&self) -> (r: bool)
        ensures
            r == (self@.len() == 0),
    {
        self.entries.len() == 0
    }

    /// Drops every entry: afterwards the table covers no address.
    pub fn clear(&mut self)
        ensures
            final(self)@ == Seq::<Option<PhysicalAddr>>::empty(),
    {
        self.entries.clear();
    }

    /// Maps each of the first `n_requests` logical addresses to the
    /// physical address with the same number. Addresses are 32-bit: a count
    /// past 2^32 wraps round onto addresses already mapped.
    pub fn prepare_for_benchmark(&mut self, n_requests: usize)
        requires
            n_requests <= old(self)@.len(),
        ensures
            final(self)@.len() == old(self)@.len(),
            forall|i: int|
                0 <= i < old(self)@.len() ==> final(self)@[i] == if i < n_requests && i <= u32::MAX {
                    Some(i as PhysicalAddr)
                } else {
                    old(self)@[i]
                },
            final(self)@ == l2p_apply(old(self)@, L2pOp::Prepare(n_requests)),
    {
        let mut i: usize = 0;
        while i < n_requests
            invariant
                i <= n_requests,
                n_requests <= old(self)@.len(),
                self@.len() == old(self)@.len(),
                forall|k: int|
                    0 <= k < old(self)@.len() ==> self@[k] == if k < i && k <= u32::MAX {
                        Some(k as PhysicalAddr)
                    } else {
                        old(self)@[k]
                    },
            decreases n_requests - i,
        {
            let a = i as u32;
            proof {
                if i > u32::MAX {
                    assert(self@[a as int] == Some(a));
                }
            }
            self.map(a, a);
            i = i + 1;
        }
    }
}

} // verus!
