//! The decisions of the translation layer that spreads its L2P table over
//! several connectors: where each connector sends a request next, and what
//! it does to its own state on the way.

pub mod l2p_dist_table;

use vstd::prelude::*;
use crate::bbt::bbt::{BadBlockTable, addr_in_table, with_status, BadBlockStatus};
use crate::l2p::l2p::{L2pMapper, PhysicalAddr};
use crate::media_manager::media_manager::{MediaManager, serve, servable};
use crate::requester::requester::{CommandType, Request, Status};
use crate::shared::addresses::PhysicalBlockAddress;

verus! {

/// How many L2P tables the logical addresses are spread over.
pub const N_TABLES: usize = 4;

/// Where the distributing connector sends a request.
#[derive(Clone, Copy, Debug, PartialEq, Eq, Structural)]
pub enum DistRoute {
    /// To the L2P table with this number.
    Table(usize),
    /// To the provisioner, for a physical address.
    Provisioner,
    /// Nowhere: the request is dropped.
    Drop,
}

/// Where a request goes from the distributing connector: reads go to the
/// table of their logical address; writes go to the provisioner while they
/// have no physical address, then to their table; erases are dropped.
pub open spec fn dist_route_spec(req: Request) -> DistRoute {
    match req.cmd {
        CommandType::READ => DistRoute::Table((req.logical_addr as int % N_TABLES as int) as usize),
        CommandType::WRITE => if req.physical_addr is None {
            DistRoute::Provisioner
        } else {
            DistRoute::Table((req.logical_addr as int % N_TABLES as int) as usize)
        },
        CommandType::ERASE => DistRoute::Drop,
    }
}

/// A write that has its physical address comes back to the distributing
/// connector only while pending or in process.
pub open spec fn dist_routable(req: Request) -> bool {
    req.cmd == CommandType::WRITE && req.physical_addr is Some ==> (req.status == Status::PENDING || req.status == Status::IN_PROCESS)
}

/// Decides where the distributing connector sends `req`.
pub fn route_from_dist(req: &Request) -> (r: DistRoute)
    requires
        dist_routable(*req),
    ensures
        r == dist_route_spec(*req),
{
    match req.cmd {
        CommandType::READ => DistRoute::Table(req.logical_addr as usize % N_TABLES),
        CommandType::WRITE => {
            if req.physical_addr.is_none() {
                DistRoute::Provisioner
            } else {
                DistRoute::Table(req.logical_addr as usize % N_TABLES)
            }
        },
        CommandType::ERASE => DistRoute::Drop,
    }
}

/// Law: reads and writes of one logical address are sent to the same table,
/// so the table that records its mapping is the one that is asked for it.
pub proof fn lemma_same_table(read: Request, write: Request)
    requires
        read.cmd == CommandType::READ,
        write.cmd == CommandType::WRITE,
        write.physical_addr is Some,
        read.logical_addr == write.logical_addr,
    ensures
        dist_route_spec(read) == dist_route_spec(write),
        dist_route_spec(read) matches DistRoute::Table(t) && t < N_TABLES,
{
}

/// The requests that an L2P table connector handles: reads, writes on the
/// way in (pending or in process, with a physical address), and writes on
/// the way back (failed, or done at the media manager).
pub open spec fn table_handles(req: Request) -> bool {
    match req.cmd {
        CommandType::READ => true,
        CommandType::WRITE => match req.status {
            Status::PENDING | Status::IN_PROCESS => req.physical_addr is Some,
            Status::BAD | Status::MM_DONE => true,
            Status::DONE => false,
        },
        CommandType::ERASE => false,
    }
}

/// What an L2P table connector does with `req` in `table`: a read learns
/// its physical address; a write on the way in records its mapping; a
/// write on the way back drops the mapping and is done. The request then
/// goes on to the media manager.
pub open spec fn table_step_spec(table: Seq<Option<PhysicalAddr>>, req: Request) -> (Seq<Option<PhysicalAddr>>, Request) {
    let la = req.logical_addr as int;
    match req.cmd {
        CommandType::READ => (table, Request { physical_addr: table[la], ..req }),
        _ => if req.status == Status::PENDING || req.status == Status::IN_PROCESS {
            (table.update(la, req.physical_addr), req)
        } else {
            (table.update(la, None), Request { status: Status::DONE, ..req })
        },
    }
}

/// Performs what an L2P table connector does with `req` (see
/// `table_step_spec`); the table must hold its logical address.
pub fn table_step<const CAPACITY: usize>(mapper: &mut L2pMapper<CAPACITY>, req: &mut Request)
    requires
        table_handles(*old(req)),
        (old(req).logical_addr as int) < old(mapper)@.len(),
    ensures
        (final(mapper)@, *final(req)) == table_step_spec(old(mapper)@, *old(req)),
{
    match req.cmd {
        CommandType::READ => {
            req.physical_addr = mapper.lookup(req.logical_addr);
        },
        _ => {
            if req.status == Status::PENDING || req.status == Status::IN_PROCESS {
                let ppa = req.physical_addr.unwrap();
                mapper.map(req.logical_addr, ppa);
            } else {
                mapper.unmap(req.logical_addr);
                req.status = Status::DONE;
            }
        },
    }
}

/// Where the media manager connector sends a request.
#[derive(Clone, Copy, Debug, PartialEq, Eq, Structural)]
pub enum MmRoute {
    /// Back to the requester.
    Requester,
    /// To the bad block table: the media could not serve it.
    BadBlockTable,
}

/// What the media manager connector does with `req`: a request not yet
/// done is served; a failure marks it bad and sends it to the bad block
/// table; a success stores the answer in it and marks it done (a write only
/// done at the media manager, as its table still has to hear of it).
pub open spec fn mm_step_spec(pages: Map<PhysicalAddr, [u8; 2]>, req: Request) -> (Map<PhysicalAddr, [u8; 2]>, Request, MmRoute) {
    if req.status == Status::DONE {
        (pages, req, MmRoute::Requester)
    } else {
        let (after, r) = serve(pages, req);
        match r {
            Err(_) => (after, Request { status: Status::BAD, ..req }, MmRoute::BadBlockTable),
            Ok(data) => (
                after,
                Request {
                    data,
                    status: if req.cmd == CommandType::WRITE { Status::MM_DONE } else { Status::DONE },
                    ..req
                },
                MmRoute::Requester,
            ),
        }
    }
}

/// Law: a request that the media cannot serve (it has no physical address,
/// or it reads a page never written) is marked bad and sent to the bad block
/// table, the pages untouched; one it can serve is done (a write only at the
/// media manager), carries the page read, and goes back to the requester; a
/// request already done passes through unchanged.
pub proof fn lemma_mm_step_outcome(pages: Map<PhysicalAddr, [u8; 2]>, req: Request)
    ensures
        ({
            let (p2, r2, route) = mm_step_spec(pages, req);
            let fails = req.physical_addr is None || (req.cmd == CommandType::READ && !pages.contains_key(req.physical_addr->0));
            &&& req.status == Status::DONE ==> p2 == pages && r2 == req && route == MmRoute::Requester
            &&& req.status != Status::DONE && fails ==> {
                &&& route == MmRoute::BadBlockTable
                &&& r2 == Request { status: Status::BAD, ..req }
                &&& p2 == pages
            }
            &&& req.status != Status::DONE && !fails ==> {
                &&& route == MmRoute::Requester
                &&& r2.status == (if req.cmd == CommandType::WRITE { Status::MM_DONE } else { Status::DONE })
                &&& r2.data == (if req.cmd == CommandType::READ { Some(pages[req.physical_addr->0]) } else { None })
                &&& r2 == Request { status: r2.status, data: r2.data, ..req }
            }
        }),
{
}

/// Performs what the media manager connector does with `req` (see
/// `mm_step_spec`), and says where the request goes next.
pub fn mm_step(mm: &mut MediaManager, req: &mut Request) -> (r: MmRoute)
    requires
        servable(*old(req)),
    ensures
        (final(mm).pages(), *final(req), r) == mm_step_spec(old(mm).pages(), *old(req)),
        old(req).status != Status::DONE && (old(req).physical_addr is None || (old(req).cmd == CommandType::READ
            && !old(mm).pages().contains_key(old(req).physical_addr->0))) ==> {
            &&& r == MmRoute::BadBlockTable
            &&& *final(req) == Request { status: Status::BAD, ..*old(req) }
            &&& final(mm).pages() == old(mm).pages()
        },
{
    if req.status != Status::DONE {
        match mm.execute_request(req) {
            Err(_) => {
                req.status = Status::BAD;
                return MmRoute::BadBlockTable;
            },
            Ok(data) => {
                req.data = data;
                if req.cmd == CommandType::WRITE {
                    req.status = Status::MM_DONE;
                } else {
                    req.status = Status::DONE;
                }
            },
        }
    }
    MmRoute::Requester
}

/// What the requester does with a request that comes back.
#[derive(Clone, Copy, Debug, PartialEq, Eq, Structural)]
pub enum RingAction {
    /// It is done: reset it and queue it again.
    Reset,
    /// It failed: send it through the pipeline again.
    Resubmit,
}

/// Decides what the requester does with `req` when it comes back: only
/// done and failed requests come back.
pub fn ring_action(req: &Request) -> (r: RingAction)
    requires
        req.status == Status::DONE || req.status == Status::BAD,
    ensures
        r == if req.status == Status::DONE { RingAction::Reset } else { RingAction::Resubmit },
{
    match req.status {
        Status::DONE => RingAction::Reset,
        _ => RingAction::Resubmit,
    }
}

/// The block that a failed request is charged to: the media addresses in
/// requests are too narrow to name a block, so the first block stands for it.
pub open spec fn charged_block() -> PhysicalBlockAddress {
    PhysicalBlockAddress { channel: 0, lun: 0, plane: 0, block: 0 }
}

/// Records a failed request in the bad block table: a request with a
/// physical address marks its block bad and goes on (`true`); one without
/// is dropped (`false`), changing nothing.
pub fn mark_failed_block(bbt: &mut BadBlockTable, req: &Request) -> (r: bool)
    requires
        old(bbt).is_initialized(),
        addr_in_table(old(bbt).table(), charged_block()),
    ensures
        r == req.physical_addr is Some,
        final(bbt).is_initialized(),
        final(bbt).table() == if r {
            with_status(old(bbt).table(), charged_block(), BadBlockStatus::Bad)
        } else {
            old(bbt).table()
        },
{
    if req.physical_addr.is_none() {
        return false;
    }
    let pba = PhysicalBlockAddress { channel: 0, lun: 0, plane: 0, block: 0 };
    bbt.set_bad_block(&pba);
    true
}

} // verus!
