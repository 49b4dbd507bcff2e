//! The media manager: it serves read, write and erase requests for physical
//! pages, keeping the data of every written page.

use vstd::prelude::*;
use std::collections::BTreeMap;
use crate::bindings::nvm_mmgr_geometry;
use crate::l2p::l2p::PhysicalAddr;
use crate::requester::requester::{CommandType, Request};

verus! {

/// The data of one page.
pub type mm_page = [u8; 2];

/// The part of the media geometry that the translation layer uses.
#[derive(Clone, Copy, Debug, PartialEq, Eq, Structural)]
pub struct Geometry {
    pub n_pages: u32,
    pub n_of_ch: u8,
    pub n_of_planes: u8,
    pub lun_per_ch: u8,
    pub blk_per_lun: u16,
    pub pg_per_blk: u16,
}

impl Geometry {
    /// The geometry that the media manager reports, cut down to what the
    /// translation layer uses; the page count is kept to its low 32 bits.
    pub fn map_geometry(nvm_geo: &nvm_mmgr_geometry) -> (g: Geometry)
        ensures
            g.n_pages == nvm_geo.tot_pg as u32,
            g.n_of_ch == nvm_geo.n_of_ch,
            g.n_of_planes == nvm_geo.n_of_planes,
            g.lun_per_ch == nvm_geo.lun_per_ch,
            g.blk_per_lun == nvm_geo.blk_per_lun,
            g.pg_per_blk == nvm_geo.pg_per_blk,
    {
        Geometry {
            n_pages: nvm_geo.tot_pg as u32,
            n_of_ch: nvm_geo.n_of_ch,
            n_of_planes: nvm_geo.n_of_planes,
            lun_per_ch: nvm_geo.lun_per_ch,
            blk_per_lun: nvm_geo.blk_per_lun,
            pg_per_blk: nvm_geo.pg_per_blk,
        }
    }
}

/// Why a request could not be served.
#[derive(Clone, Copy, Debug, PartialEq, Eq, Structural)]
pub enum MM_ERR {
    /// The request carries no physical address.
    NoPPAInReq,
    /// Nothing has been written at the physical address read.
    PPANotFound,
    /// The request carries no data.
    NullDataPtr,
}

/// What serving `req` does to the written pages `pages`, and what it answers:
/// a read gives the page's data, a write stores the request's data, an
/// erase forgets the page; each needs a physical address.
pub open spec fn serve(pages: Map<PhysicalAddr, mm_page>, req: Request) -> (Map<PhysicalAddr, mm_page>, Result<Option<mm_page>, MM_ERR>) {
    match req.physical_addr {
        None => (pages, Err(MM_ERR::NoPPAInReq)),
        Some(ppa) => match req.cmd {
            CommandType::READ => if pages.contains_key(ppa) {
                (pages, Ok(Some(pages[ppa])))
            } else {
                (pages, Err(MM_ERR::PPANotFound))
            },
            CommandType::WRITE => (pages.insert(ppa, req.data->0), Ok(None)),
            CommandType::ERASE => (pages.remove(ppa), Ok(None)),
        },
    }
}

/// Whether the media manager can serve `req`: a write with an address must
/// carry data.
pub open spec fn servable(req: Request) -> bool {
    req.cmd == CommandType::WRITE && req.physical_addr is Some ==> req.data is Some
}

/// Law: reading a page gives back the data last written to it.
pub proof fn lemma_read_after_write(pages: Map<PhysicalAddr, mm_page>, write: Request, read: Request)
    requires
        write.cmd == CommandType::WRITE,
        read.cmd == CommandType::READ,
        write.physical_addr is Some,
        read.physical_addr == write.physical_addr,
        write.data is Some,
    ensures
        serve(serve(pages, write).0, read).1 == Ok::<Option<mm_page>, MM_ERR>(write.data),
{
}

/// Law: reading a page that was erased finds nothing.
pub proof fn lemma_read_after_erase(pages: Map<PhysicalAddr, mm_page>, erase: Request, read: Request)
    requires
        erase.cmd == CommandType::ERASE,
        read.cmd == CommandType::READ,
        erase.physical_addr is Some,
        read.physical_addr == erase.physical_addr,
    ensures
        serve(serve(pages, erase).0, read).1 == Err::<Option<mm_page>, MM_ERR>(MM_ERR::PPANotFound),
{
}

/// Law: serving a request touches no page but its own: a read of any other
/// page answers as before.
pub proof fn lemma_other_pages_untouched(pages: Map<PhysicalAddr, mm_page>, req: Request, read: Request)
    requires
        read.cmd == CommandType::READ,
        read.physical_addr is Some,
        req.physical_addr != read.physical_addr,
    ensures
        serve(serve(pages, req).0, read).1 == serve(pages, read).1,
{
    let q = read.physical_addr->0;
    let after = serve(pages, req).0;
    assert(after.contains_key(q) == pages.contains_key(q));
    if pages.contains_key(q) {
        assert(after[q] == pages[q]);
    }
}

/// Law: a request without a physical address is refused and changes nothing.
pub proof fn lemma_no_address_refused(pages: Map<PhysicalAddr, mm_page>, req: Request)
    requires
        req.physical_addr is None,
    ensures
        serve(pages, req) == (pages, Err::<Option<mm_page>, MM_ERR>(MM_ERR::NoPPAInReq)),
{
}

/// The pages after serving `reqs` in order.
pub open spec fn serve_run(pages: Map<PhysicalAddr, mm_page>, reqs: Seq<Request>) -> Map<PhysicalAddr, mm_page>
    decreases reqs.len(),
{
    if reqs.len() == 0 {
        pages
    } else {
        serve(serve_run(pages, reqs.drop_last()), reqs.last()).0
    }
}

/// `req` writes or erases the page at `ppa`.
pub open spec fn touches(req: Request, ppa: PhysicalAddr) -> bool {
    req.physical_addr == Some(ppa) && (req.cmd == CommandType::WRITE || req.cmd == CommandType::ERASE)
}

/// Serving requests that neither write nor erase the page at `ppa` leaves
/// that page as it was.
proof fn lemma_run_keeps_page(pages: Map<PhysicalAddr, mm_page>, reqs: Seq<Request>, ppa: PhysicalAddr)
    requires
        forall|k: int| 0 <= k < reqs.len() ==> !touches(#[trigger] reqs[k], ppa),
    ensures
        serve_run(pages, reqs).contains_key(ppa) == pages.contains_key(ppa),
        pages.contains_key(ppa) ==> serve_run(pages, reqs)[ppa] == pages[ppa],
    decreases reqs.len(),
{
    if reqs.len() > 0 {
        let rest = reqs.drop_last();
        assert forall|k: int| 0 <= k < rest.len() implies !touches(#[trigger] rest[k], ppa) by {
            assert(rest[k] == reqs[k]);
        }
        lemma_run_keeps_page(pages, rest, ppa);
        assert(!touches(reqs[reqs.len() - 1], ppa));
    }
}

/// Law: a read gives back the data last written to its page, whatever was
/// served in between, as long as nothing in between wrote or erased that page.
pub proof fn lemma_read_after_write_run(
    pages: Map<PhysicalAddr, mm_page>,
    write: Request,
    between: Seq<Request>,
    read: Request,
)
    requires
        write.cmd == CommandType::WRITE,
        read.cmd == CommandType::READ,
        write.physical_addr is Some,
        read.physical_addr == write.physical_addr,
        write.data is Some,
        forall|k: int| 0 <= k < between.len() ==> !touches(#[trigger] between[k], write.physical_addr->0),
    ensures
        serve(serve_run(serve(pages, write).0, between), read).1 == Ok::<Option<mm_page>, MM_ERR>(write.data),
{
    lemma_run_keeps_page(serve(pages, write).0, between, write.physical_addr->0);
}

/// The media manager: the data of every page written and not erased since.
pub struct MediaManager {
    data_buffer: BTreeMap<PhysicalAddr, mm_page>,
}

impl MediaManager {
    /// The written pages and their data.
    pub closed spec fn pages(&self) -> Map<PhysicalAddr, mm_page> {
        self.data_buffer@
    }

    /// A media manager with no page written.
    pub fn new() -> (mm: Self)
        ensures
            mm.pages() == Map::<PhysicalAddr, mm_page>::empty(),
    {
        MediaManager { data_buffer: BTreeMap::new() }
    }

    /// Serves `request`: a read answers the page's data, a write or an
    /// erase answers `None`.
    pub fn execute_request(&mut self, request: &Request) -> (r: Result<Option<mm_page>, MM_ERR>)
        requires
            servable(*request),
        ensures
            (final(self).pages(), r) == serve(old(self).pages(), *request),
    {
        match request.cmd {
            CommandType::READ => {
                let ppa = match request.physical_addr {
                    Some(ppa) => ppa,
                    None => { return Err(MM_ERR::NoPPAInReq); },
                };
                match self.data_buffer.get(&ppa) {
                    Some(page) => Ok(Some(*page)),
                    None => Err(MM_ERR::PPANotFound),
                }
            },
            CommandType::WRITE => {
                let ppa = match request.physical_addr {
                    Some(ppa) => ppa,
                    None => { return Err(MM_ERR::NoPPAInReq); },
                };
                let data = request.data.unwrap();
                self.data_buffer.insert(ppa, data);
                Ok(None)
            },
            CommandType::ERASE => {
                let ppa = match request.physical_addr {
                    Some(ppa) => ppa,
                    None => { return Err(MM_ERR::NoPPAInReq); },
                };
                self.data_buffer.remove(&ppa);
                Ok(None)
            },
        }
    }
}

} // verus!
