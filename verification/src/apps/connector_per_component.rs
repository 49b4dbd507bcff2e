//! The decisions of the translation layer with one connector per component:
//! where the L2P and media manager connectors send a request next, and what
//! they do to their own state on the way.

use vstd::prelude::*;
use crate::l2p::l2p::{L2pMapper, PhysicalAddr};
use crate::media_manager::media_manager::{MediaManager, mm_page, serve, servable};
use crate::requester::requester::{CommandType, Request, RequestError, Status, META_DATA};

verus! {

/// How many requests the requester issues, and how many pages the media
/// manager writes in advance for them.
pub const N_REQUESTS: usize = 1024;

/// Where the L2P connector sends a request.
#[derive(Clone, Copy, Debug, PartialEq, Eq, Structural)]
pub enum L2pRoute {
    /// To the media manager.
    MediaManager,
    /// To the provisioner, for a physical address.
    Provisioner,
}

/// What the L2P connector does with `req` in `table`: a read learns its
/// physical address and goes to the media manager; a write with no
/// physical address goes to the provisioner; a write that has one (which
/// only the provisioner sets) records its mapping and goes to the media
/// manager; anything else is dropped (`None`).
pub open spec fn l2p_step_spec(table: Seq<Option<PhysicalAddr>>, req: Request) -> (Seq<Option<PhysicalAddr>>, Request, Option<L2pRoute>) {
    let la = req.logical_addr as int;
    match req.cmd {
        CommandType::READ => (table, Request { physical_addr: table[la], ..req }, Some(L2pRoute::MediaManager)),
        CommandType::WRITE => match req.physical_addr {
            None => (table, req, Some(L2pRoute::Provisioner)),
            Some(ppa) => (table.update(la, Some(ppa)), req, Some(L2pRoute::MediaManager)),
        },
        CommandType::ERASE => (table, req, None),
    }
}

/// Law: the L2P connector records a write's new physical address for its
/// logical address, replacing whatever that address was mapped to, and
/// leaves every other address as it was; a read learns the address its
/// logical address is mapped to; neither changes the table's size, and both
/// go on to the media manager.
pub proof fn lemma_l2p_step_maps(table: Seq<Option<PhysicalAddr>>, req: Request)
    requires
        (req.logical_addr as int) < table.len(),
    ensures
        ({
            let (t2, r2, route) = l2p_step_spec(table, req);
            let la = req.logical_addr as int;
            &&& t2.len() == table.len()
            &&& req.cmd == CommandType::WRITE && req.physical_addr is Some ==> {
                &&& t2[la] == req.physical_addr
                &&& forall|k: int| 0 <= k < table.len() && k != la ==> t2[k] == table[k]
                &&& r2 == req
                &&& route == Some(L2pRoute::MediaManager)
            }
            &&& req.cmd == CommandType::WRITE && req.physical_addr is None ==> t2 == table && route == Some(L2pRoute::Provisioner)
            &&& req.cmd == CommandType::READ ==> {
                &&& t2 == table
                &&& r2.physical_addr == table[la]
                &&& route == Some(L2pRoute::MediaManager)
            }
        }),
{
}

/// Performs what the L2P connector does with `req` (see `l2p_step_spec`);
/// the table must hold the logical address of a read or an addressed write.
pub fn l2p_step<const CAPACITY: usize>(mapper: &mut L2pMapper<CAPACITY>, req: &mut Request) -> (r: Option<L2pRoute>)
    requires
        old(req).cmd == CommandType::READ || (old(req).cmd == CommandType::WRITE && old(req).physical_addr is Some)
            ==> (old(req).logical_addr as int) < old(mapper)@.len(),
    ensures
        (final(mapper)@, *final(req), r) == l2p_step_spec(old(mapper)@, *old(req)),
        final(mapper)@.len() == old(mapper)@.len(),
        old(req).cmd == CommandType::WRITE && old(req).physical_addr is Some ==> {
            &&& final(mapper)@[old(req).logical_addr as int] == old(req).physical_addr
            &&& forall|k: int| 0 <= k < old(mapper)@.len() && k != old(req).logical_addr ==> final(mapper)@[k] == old(mapper)@[k]
            &&& r == Some(L2pRoute::MediaManager)
        },
        old(req).cmd == CommandType::READ ==> {
            &&& final(req).physical_addr == old(mapper)@[old(req).logical_addr as int]
            &&& final(mapper)@ == old(mapper)@
            &&& r == Some(L2pRoute::MediaManager)
        },
{
    match req.cmd {
        CommandType::READ => {
            req.physical_addr = mapper.lookup(req.logical_addr);
            Some(L2pRoute::MediaManager)
        },
        CommandType::WRITE => match req.physical_addr {
            None => Some(L2pRoute::Provisioner),
            Some(ppa) => {
                mapper.map(req.logical_addr, ppa);
                Some(L2pRoute::MediaManager)
            },
        },
        CommandType::ERASE => None,
    }
}

/// The request with which the media manager writes page `i` in advance:
/// physical page `i` gets the data `[0, 0]`.
pub open spec fn prefill_request(i: int) -> Request {
    Request {
        id: i as u32,
        status: Status::PENDING,
        cmd: CommandType::WRITE,
        logical_addr: i as u32,
        physical_addr: Some(i as u32),
        data: Some([0u8, 0u8]),
        md: META_DATA::NONE,
        start_time: 0,
        end_time: 0,
    }
}

/// Writes the first `n` physical pages in advance, each with `[0, 0]`, so
/// that reads of them find data.
pub fn prefill(mm: &mut MediaManager, n: usize)
    requires
        n <= u32::MAX as usize + 1,
    ensures
        forall|p: PhysicalAddr| (p as int) < n ==> #[trigger] final(mm).pages().get(p) == Some([0u8, 0u8]),
        forall|p: PhysicalAddr| (p as int) >= n ==> #[trigger] final(mm).pages().get(p) == old(mm).pages().get(p),
{
    let mut i: usize = 0;
    while i < n
        invariant
            n <= u32::MAX as usize + 1,
            i <= n,
            forall|p: PhysicalAddr| (p as int) < i ==> #[trigger] mm.pages().get(p) == Some([0u8, 0u8]),
            forall|p: PhysicalAddr| (p as int) >= i ==> #[trigger] mm.pages().get(p) == old(mm).pages().get(p),
        decreases n - i,
    {
        let req = Request {
            id: i as u32,
            status: Status::PENDING,
            cmd: CommandType::WRITE,
            logical_addr: i as u32,
            physical_addr: Some(i as u32),
            data: Some([0u8, 0u8]),
            md: META_DATA::NONE,
            start_time: 0,
            end_time: 0,
        };
        let ghost before = mm.pages();
        let _ = mm.execute_request(&req);
        assert(mm.pages() == before.insert(i as u32, [0u8, 0u8]));
        i = i + 1;
        assert forall|p: PhysicalAddr| (p as int) < i implies #[trigger] mm.pages().get(p) == Some([0u8, 0u8]) by {
            if p as int != i - 1 {
                assert(mm.pages().get(p) == before.get(p));
            }
        }
        assert forall|p: PhysicalAddr| (p as int) >= i implies #[trigger] mm.pages().get(p) == old(mm).pages().get(p) by {
            assert(mm.pages().get(p) == before.get(p));
        }
    }
}

/// What the media manager connector does with the context it is handed: a
/// request is served and, on success, carries the answer back towards the
/// requester (`true`); a failed request, or a context holding an error, is
/// dropped (`false`).
pub open spec fn mm_serve_spec(pages: Map<PhysicalAddr, mm_page>, ctx: Result<Request, RequestError>) -> (Map<PhysicalAddr, mm_page>, Result<Request, RequestError>, bool) {
    match ctx {
        Err(_) => (pages, ctx, false),
        Ok(req) => {
            let (after, r) = serve(pages, req);
            match r {
                Ok(data) => (after, Ok(Request { data, ..req }), true),
                Err(_) => (after, ctx, false),
            }
        },
    }
}

/// Performs what the media manager connector does with `ctx` (see
/// `mm_serve_spec`).
pub fn mm_serve(mm: &mut MediaManager, ctx: &mut Result<Request, RequestError>) -> (r: bool)
    requires
        *old(ctx) matches Ok(req) ==> servable(req),
    ensures
        (final(mm).pages(), *final(ctx), r) == mm_serve_spec(old(mm).pages(), *old(ctx)),
{
    match ctx {
        Ok(req) => match mm.execute_request(req) {
            Ok(data) => {
                req.data = data;
                true
            },
            Err(_) => false,
        },
        Err(_) => false,
    }
}

} // verus!
