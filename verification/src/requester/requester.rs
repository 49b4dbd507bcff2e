//! Requests, and the workload generator that feeds them to the pipeline.

use vstd::prelude::*;
use std::collections::VecDeque;
use crate::l2p::l2p::LogicalAddr;
use crate::media_manager::media_manager::{Geometry, mm_page};

verus! {

/// What a request asks of the media.
#[derive(Clone, Copy, Debug, PartialEq, Eq, Structural)]
pub enum CommandType {
    READ,
    WRITE,
    ERASE,
}

/// How far a request has come through the pipeline.
#[derive(Clone, Copy, Debug, PartialEq, Eq, Structural)]
pub enum Status {
    BAD,
    DONE,
    IN_PROCESS,
    PENDING,
    MM_DONE,
}

/// Why a request could not be handed on.
#[derive(Clone, Copy, Debug, PartialEq, Eq, Structural)]
pub enum RequestError {
    ConnectorError,
    StageError,
}

/// Extra data that a request carries between stages.
#[derive(Clone, Copy, Debug)]
pub enum META_DATA {
    NONE,
    L2P_OLD_NEW_ID((Option<u8>, u8)),
}

/// One I/O request and what the pipeline has found out about it so far.
/// `data` is the page to write, or the page read; `None` when there is none.
#[derive(Clone, Copy, Debug)]
pub struct Request {
    pub id: u32,
    pub status: Status,
    pub cmd: CommandType,
    pub logical_addr: u32,
    pub physical_addr: Option<u32>,
    pub data: Option<mm_page>,
    pub md: META_DATA,
    pub start_time: u32,
    pub end_time: u32,
}

impl Request {
    /// A pending request with no physical address yet and no timing.
    pub fn new(id: u32, cmd: CommandType, logical_addr: LogicalAddr, data: Option<mm_page>) -> (r: Self)
        ensures
            r == (Request {
                id,
                status: Status::PENDING,
                cmd,
                logical_addr,
                physical_addr: None,
                data,
                md: META_DATA::NONE,
                start_time: 0,
                end_time: 0,
            }),
    {
        Request {
            id,
            status: Status::PENDING,
            cmd,
            logical_addr,
            physical_addr: None,
            data,
            md: META_DATA::NONE,
            start_time: 0,
            end_time: 0,
        }
    }

    /// The blank request: a read of logical address 0, in process.
    pub fn empty() -> (r: Self)
        ensures
            r == blank_request(),
    {
        Request {
            id: 0,
            cmd: CommandType::READ,
            logical_addr: 0,
            physical_addr: None,
            data: None,
            start_time: 0,
            end_time: 0,
            status: Status::IN_PROCESS,
            md: META_DATA::NONE,
        }
    }

    /// Clock cycles between the start and the end of the request.
    pub fn calc_round_trip_time_clock_cycles(&self) -> (r: u32)
        requires
            self.start_time <= self.end_time,
        ensures
            r == self.end_time - self.start_time,
    {
        self.end_time - self.start_time
    }

    /// Records `now`, the current timer reading, as the start time.
    pub fn start_timer(&mut self, now: u32)
        ensures
            *final(self) == (Request { start_time: now, ..*old(self) }),
    {
        self.start_time = now;
    }

    /// Records `now`, the current timer reading, as the end time.
    pub fn end_timer(&mut self, now: u32)
        ensures
            *final(self) == (Request { end_time: now, ..*old(self) }),
    {
        self.end_time = now;
    }
}

/// The blank request: a read of logical address 0, in process, with nothing
/// found out yet.
pub open spec fn blank_request() -> Request {
    Request {
        id: 0,
        status: Status::IN_PROCESS,
        cmd: CommandType::READ,
        logical_addr: 0,
        physical_addr: None,
        data: None,
        md: META_DATA::NONE,
        start_time: 0,
        end_time: 0,
    }
}

impl Default for Request {
    fn default() -> (r: Self)
        ensures
            r == blank_request(),
    {
        Request::empty()
    }
}

/// The request that `Request::new` makes.
pub open spec fn fresh_request(id: u32, cmd: CommandType, logical_addr: LogicalAddr, data: Option<mm_page>) -> Request {
    Request {
        id,
        status: Status::PENDING,
        cmd,
        logical_addr,
        physical_addr: None,
        data,
        md: META_DATA::NONE,
        start_time: 0,
        end_time: 0,
    }
}

/// Which commands a workload issues.
#[derive(Clone, Copy, Debug, PartialEq, Eq, Structural)]
pub enum WorkloadType {
    READ,
    WRITE,
    MIXED,
}

/// The data that every write of a workload writes.
pub open spec fn workload_data() -> mm_page {
    [42u8, 42u8]
}

/// The command of request `i` of a workload: a mixed workload reads on
/// even numbers and writes on odd ones.
pub open spec fn workload_cmd(kind: WorkloadType, i: int) -> CommandType {
    match kind {
        WorkloadType::READ => CommandType::READ,
        WorkloadType::WRITE => CommandType::WRITE,
        WorkloadType::MIXED => if i % 2 == 0 { CommandType::READ } else { CommandType::WRITE },
    }
}

/// Request `i` of a workload: it reads or writes logical address `i`, and
/// a write carries the workload's data.
pub open spec fn workload_request(kind: WorkloadType, i: int) -> Request {
    let cmd = workload_cmd(kind, i);
    fresh_request(
        i as u32,
        cmd,
        i as u32,
        if cmd == CommandType::WRITE { Some(workload_data()) } else { None },
    )
}

/// Law: request `i` of a workload is number `i`, pending, for logical
/// address `i`, with no physical address and no timing; a read workload
/// reads, a write workload writes, a mixed one reads at even `i` and writes
/// at odd `i`; writes carry the workload's data and reads carry none.
pub proof fn lemma_workload_request(kind: WorkloadType, i: int)
    requires
        0 <= i <= u32::MAX,
    ensures
        ({
            let r = workload_request(kind, i);
            &&& r.id as int == i
            &&& r.logical_addr as int == i
            &&& r.status == Status::PENDING
            &&& r.physical_addr is None
            &&& r.start_time == 0 && r.end_time == 0
            &&& r.cmd == match kind {
                WorkloadType::READ => CommandType::READ,
                WorkloadType::WRITE => CommandType::WRITE,
                WorkloadType::MIXED => if i % 2 == 0 { CommandType::READ } else { CommandType::WRITE },
            }
            &&& r.data == if r.cmd == CommandType::WRITE { Some([42u8, 42u8]) } else { None }
        }),
{
}

/// `req` made ready to be issued again.
pub open spec fn reset_spec(req: Request) -> Request {
    Request { status: Status::PENDING, physical_addr: None, md: META_DATA::NONE, data: Some(workload_data()), ..req }
}

/// The geometry of the media that the workloads are sized for.
pub open spec fn workload_geometry() -> Geometry {
    Geometry { n_pages: 131072, n_of_ch: 8, n_of_planes: 2, lun_per_ch: 4, blk_per_lun: 64, pg_per_blk: 64 }
}

/// What the workload generator holds, as values.
pub struct WorkloadView {
    pub requests: Seq<Request>,
    pub pending: Seq<usize>,
    pub size: nat,
    pub kind: WorkloadType,
}

/// A call that changes the workload generator.
pub enum WorkloadOp {
    Init,
    Next,
    Reset(Request),
}

/// The generator after the call `op`.
pub open spec fn workload_apply(v: WorkloadView, op: WorkloadOp) -> WorkloadView {
    match op {
        WorkloadOp::Init => {
            let requests = v.requests + Seq::new(v.size, |i: int| workload_request(v.kind, i));
            WorkloadView { requests, pending: v.pending + Seq::new(requests.len(), |i: int| i as usize), ..v }
        },
        WorkloadOp::Next => if v.pending.len() == 0 { v } else { WorkloadView { pending: v.pending.drop_first(), ..v } },
        WorkloadOp::Reset(req) => WorkloadView { pending: v.pending.push(req.id as usize), ..v },
    }
}

/// The generator after the calls `ops`, in order.
pub open spec fn workload_run(v: WorkloadView, ops: Seq<WorkloadOp>) -> WorkloadView
    decreases ops.len(),
{
    if ops.len() == 0 {
        v
    } else {
        workload_apply(workload_run(v, ops.drop_last()), ops.last())
    }
}

/// Law: no run of calls changes the workload's size or kind, so the count
/// of requests that the generator reports stays the one it was made with.
pub proof fn lemma_workload_run_keeps_size(v: WorkloadView, ops: Seq<WorkloadOp>)
    ensures
        workload_run(v, ops).size == v.size,
        workload_run(v, ops).kind == v.kind,
    decreases ops.len(),
{
    if ops.len() > 0 {
        lemma_workload_run_keeps_size(v, ops.drop_last());
    }
}

/// Generates a fixed set of requests and hands them out in turn: each
/// request returns to the back of the queue when it is reset.
pub struct RequestWorkloadGenerator {
    requests: Vec<Request>,
    pending: VecDeque<usize>,
    cur_request_idx: usize,
    pub request_returned: usize,
    workload_type: WorkloadType,
    start_time: u32,
    end_time: u32,
    write_data: mm_page,
    n_requests: usize,
}

impl RequestWorkloadGenerator {
    /// The requests made so far.
    /// The generator's requests, queue, size and kind.
    pub open spec fn wv(&self) -> WorkloadView {
        WorkloadView { requests: self.requests(), pending: self.pending(), size: self.size(), kind: self.kind() }
    }

    pub closed spec fn requests(&self) -> Seq<Request> {
        self.requests@
    }

    /// The numbers of the requests waiting to be handed out, in order.
    pub closed spec fn pending(&self) -> Seq<usize> {
        self.pending@
    }

    /// The count of returned requests that callers keep in the generator.
    pub closed spec fn returned(&self) -> usize {
        self.request_returned
    }

    /// How many requests the workload has.
    pub closed spec fn size(&self) -> nat {
        self.n_requests as nat
    }

    /// Which commands the workload issues.
    pub closed spec fn kind(&self) -> WorkloadType {
        self.workload_type
    }

    /// The generator's invariant: writes carry the workload's data.
    pub closed spec fn wf(&self) -> bool {
        self.write_data == workload_data()
    }

    /// A generator for a workload of `size` requests of kind
    /// `workload_type`; the requests are made by `init_workload`.
    pub fn new(workload_type: WorkloadType, size: usize) -> (g: Self)
        ensures
            g.wf(),
            g.requests() == Seq::<Request>::empty(),
            g.pending() == Seq::<usize>::empty(),
            g.size() == size,
            g.kind() == workload_type,
            g.returned() == 0,
    {
        RequestWorkloadGenerator {
            requests: Vec::with_capacity(size),
            pending: VecDeque::new(),
            cur_request_idx: 0,
            request_returned: 0,
            workload_type,
            start_time: 0,
            end_time: 0,
            write_data: [42u8, 42u8],
            n_requests: size,
        }
    }

    /// Adds the workload's requests, request `i` for logical address `i`
    /// for each `i` below the workload's size, behind those already made,
    /// and then queues the number of every request made so far, in order.
    pub fn init_workload(&mut self)
        requires
            old(self).wf(),
        ensures
            final(self).wf(),
            final(self).size() == old(self).size(),
            final(self).kind() == old(self).kind(),
            final(self).requests() == old(self).requests() + Seq::new(
                old(self).size(),
                |i: int| workload_request(old(self).kind(), i),
            ),
            final(self).pending() == old(self).pending() + Seq::new(
                final(self).requests().len(),
                |i: int| i as usize,
            ),
            final(self).returned() == old(self).returned(),
            final(self).wv() == workload_apply(old(self).wv(), WorkloadOp::Init),
            forall|k: int| 0 <= k < old(self).size() && k <= u32::MAX ==> {
                let r = #[trigger] final(self).requests()[old(self).requests().len() + k];
                &&& r.id as int == k
                &&& r.logical_addr as int == k
                &&& r.status == Status::PENDING
                &&& r.physical_addr is None
            },
    {
        let n = self.n_requests;
        let ghost before = self.requests@;
        let mut i: usize = 0;
        while i < n
            invariant
                n == self.n_requests,
                i <= n,
                self.wf(),
                self.workload_type == old(self).workload_type,
                self.pending@ == old(self).pending@,
                self.request_returned == old(self).request_returned,
                before == old(self).requests@,
                self.requests@ == before + Seq::new(i as nat, |k: int| workload_request(self.workload_type, k)),
            decreases n - i,
        {
            let data = self.write_data;
            let req = match self.workload_type {
                WorkloadType::READ => Request::new(i as u32, CommandType::READ, i as LogicalAddr, None),
                WorkloadType::WRITE => Request::new(i as u32, CommandType::WRITE, i as LogicalAddr, Some(data)),
                WorkloadType::MIXED => {
                    if i % 2 == 0 {
                        Request::new(i as u32, CommandType::READ, i as LogicalAddr, None)
                    } else {
                        Request::new(i as u32, CommandType::WRITE, i as LogicalAddr, Some(data))
                    }
                },
            };
            assert(req == workload_request(self.workload_type, i as int));
            self.requests.push(req);
            i = i + 1;
            assert(self.requests@ =~= before + Seq::new(i as nat, |k: int| workload_request(self.workload_type, k)));
        }
        let len = self.requests.len();
        let ghost made = self.requests@;
        let mut j: usize = 0;
        while j < len
            invariant
                len == self.requests@.len(),
                made == self.requests@,
                made == old(self).requests@ + Seq::new(n as nat, |k: int| workload_request(old(self).workload_type, k)),
                j <= len,
                self.wf(),
                self.n_requests == n,
                self.workload_type == old(self).workload_type,
                self.request_returned == old(self).request_returned,
                self.pending@ == old(self).pending@ + Seq::new(j as nat, |k: int| k as usize),
            decreases len - j,
        {
            self.pending.push_back(j);
            j = j + 1;
            assert(self.pending@ =~= old(self).pending@ + Seq::new(j as nat, |k: int| k as usize));
        }
    }

    /// Hands out the request at the front of the queue, if any; a queued
    /// number with no request behind it is dropped and gives `None`.
    pub fn next_request(&mut self) -> (r: Option<&Request>)
        ensures
            final(self).requests() == old(self).requests(),
            final(self).size() == old(self).size(),
            final(self).kind() == old(self).kind(),
            final(self).wf() == old(self).wf(),
            final(self).returned() == old(self).returned(),
            final(self).wv() == workload_apply(old(self).wv(), WorkloadOp::Next),
            old(self).pending().len() == 0 ==> r is None && final(self).pending() == old(self).pending(),
            old(self).pending().len() > 0 ==> {
                let id = old(self).pending()[0];
                &&& final(self).pending() == old(self).pending().drop_first()
                &&& r == if id < old(self).requests().len() {
                    Some(&old(self).requests()[id as int])
                } else {
                    None
                }
            },
    {
        let id = match self.pending.pop_front() {
            Some(id) => id,
            None => { return None; },
        };
        if id < self.requests.len() {
            Some(&self.requests[id])
        } else {
            None
        }
    }

    /// Whether the queue of pending requests has grown long: 1022 or more.
    pub fn pending_is_long(&self) -> (r: bool)
        ensures
            r == (self.pending().len() >= 1022),
    {
        self.pending.len() >= 1022
    }

    /// Makes `req` ready to be issued again (pending, no physical address,
    /// carrying the workload's data) and queues its number. The stored
    /// requests are left as they are: the request handed out by
    /// `next_request` is changed through `req` only when `req` is that
    /// stored request itself.
    pub fn reset_request(&mut self, req: &mut Request)
        requires
            old(self).wf(),
        ensures
            final(self).wf(),
            *final(req) == reset_spec(*old(req)),
            final(self).requests() == old(self).requests(),
            final(self).pending() == old(self).pending().push(old(req).id as usize),
            final(self).wv() == workload_apply(old(self).wv(), WorkloadOp::Reset(*old(req))),
            final(self).size() == old(self).size(),
            final(self).kind() == old(self).kind(),
            final(self).returned() == old(self).returned(),
    {
        req.status = Status::PENDING;
        req.physical_addr = None;
        req.md = META_DATA::NONE;
        req.data = Some(self.write_data);
        self.pending.push_back(req.id as usize);
    }

    /// The round-trip time of each request, in request order, over the
    /// first `size` requests made; every one of them must have ended.
    pub fn calculate_stats(&self) -> (times: Vec<u32>)
        requires
            forall|i: int| 0 <= i < self.requests().len() ==> (#[trigger] self.requests()[i]).start_time <= self.requests()[i].end_time,
        ensures
            times@.len() == if self.size() <= self.requests().len() { self.size() } else { self.requests().len() },
            forall|i: int| 0 <= i < times@.len() ==> #[trigger] times@[i] == self.requests()[i].end_time - self.requests()[i].start_time,
    {
        let mut times: Vec<u32> = Vec::new();
        let mut i: usize = 0;
        while i < self.n_requests
            invariant
                i <= self.n_requests,
                i <= self.requests@.len(),
                forall|k: int| 0 <= k < self.requests@.len() ==> (#[trigger] self.requests@[k]).start_time <= self.requests@[k].end_time,
                times@.len() == i,
                forall|k: int| 0 <= k < i ==> #[trigger] times@[k] == self.requests@[k].end_time - self.requests@[k].start_time,
            decreases self.n_requests - i,
        {
            if i >= self.requests.len() {
                return times;
            }
            times.push(self.requests[i].calc_round_trip_time_clock_cycles());
            i = i + 1;
        }
        times
    }

    /// The geometry of the media that the workload is sized for; the
    /// workload must fit in its pages.
    pub fn get_geo(&self) -> (g: Geometry)
        requires
            self.requests().len() <= 131072,
        ensures
            g == workload_geometry(),
    {
        let n_of_ch: usize = 8;
        let n_of_planes: u8 = 2;
        let lun_per_ch: usize = 4;
        let blk_per_lun: usize = 64;
        let pg_per_blk: usize = 64;
        let n_pages = n_of_ch * lun_per_ch * blk_per_lun * pg_per_blk;
        Geometry {
            n_of_ch: n_of_ch as u8,
            n_of_planes,
            lun_per_ch: lun_per_ch as u8,
            blk_per_lun: blk_per_lun as u16,
            pg_per_blk: pg_per_blk as u16,
            n_pages: n_pages as u32,
        }
    }

    /// How many requests the workload has.
    pub fn get_n_requests(&self) -> (n: usize)
        ensures
            n == self.size(),
    {
        self.n_requests
    }
}

} // verus!
