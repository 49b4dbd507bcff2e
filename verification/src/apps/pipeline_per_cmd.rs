//! The stages of the translation layer with one pipeline per command type:
//! what the read and the write pipelines do to a request at each component.

use vstd::prelude::*;
use crate::bbt::bbt::{BadBlockTable, addr_in_table, with_status, BadBlockStatus};
use crate::apps::distributed_l2p::charged_block;
use crate::l2p::l2p::{L2pMapper, PhysicalAddr};
use crate::media_manager::media_manager::{MediaManager, mm_page, serve, servable};
use crate::requester::requester::{CommandType, Request, RequestError};
use crate::shared::addresses::PhysicalBlockAddress;

verus! {

/// The pipeline that a request enters from the requester.
#[derive(Clone, Copy, Debug, PartialEq, Eq, Structural)]
pub enum CmdPipeline {
    Read,
    Write,
}

/// Where the requester sends a request: reads down the read pipeline,
/// writes down the write pipeline; erases have no pipeline (`None`).
pub fn pipeline_for(cmd: CommandType) -> (r: Option<CmdPipeline>)
    ensures
        r == match cmd {
            CommandType::READ => Some(CmdPipeline::Read),
            CommandType::WRITE => Some(CmdPipeline::Write),
            CommandType::ERASE => None::<CmdPipeline>,
        },
{
    match cmd {
        CommandType::READ => Some(CmdPipeline::Read),
        CommandType::WRITE => Some(CmdPipeline::Write),
        CommandType::ERASE => None,
    }
}


/// The L2P stage of the read pipeline: a request learns the physical address
/// its logical address is mapped to, which must exist.
pub fn read_l2p_stage<const CAPACITY: usize>(mapper: &L2pMapper<CAPACITY>, ctx: &mut Result<Request, RequestError>)
    requires
        *old(ctx) matches Ok(req) ==> (req.logical_addr as int) < mapper@.len() && mapper@[req.logical_addr as int] is Some,
    ensures
        *final(ctx) == match *old(ctx) {
            Ok(req) => Ok(Request { physical_addr: mapper@[req.logical_addr as int], ..req }),
            Err(e) => Err::<Request, RequestError>(e),
        },
{
    if let Ok(request) = ctx {
        let ppa = mapper.lookup(request.logical_addr).unwrap();
        request.physical_addr = Some(ppa);
    }
}

/// The media manager stage of the read pipeline: a request is served, which
/// must succeed, and carries the page read.
pub fn read_mm_stage(mm: &mut MediaManager, ctx: &mut Result<Request, RequestError>)
    requires
        *old(ctx) matches Ok(req) ==> servable(req) && serve(old(mm).pages(), req).1 is Ok,
    ensures
        match *old(ctx) {
            Ok(req) => {
                let (after, r) = serve(old(mm).pages(), req);
                &&& final(mm).pages() == after
                &&& *final(ctx) == Ok::<Request, RequestError>(Request { data: r->Ok_0, ..req })
            },
            Err(e) => final(mm).pages() == old(mm).pages() && *final(ctx) == Err::<Request, RequestError>(e),
        },
{
    if let Ok(request) = ctx {
        let data = mm.execute_request(request).unwrap();
        request.data = data;
    }
}

/// The L2P stage of the write pipeline: the request's logical address is
/// mapped to the physical address it was given, which it must carry.
pub fn write_l2p_stage<const CAPACITY: usize>(mapper: &mut L2pMapper<CAPACITY>, ctx: &Result<Request, RequestError>)
    requires
        *ctx matches Ok(req) ==> (req.logical_addr as int) < old(mapper)@.len() && req.physical_addr is Some,
    ensures
        final(mapper)@ == match *ctx {
            Ok(req) => old(mapper)@.update(req.logical_addr as int, req.physical_addr),
            Err(_) => old(mapper)@,
        },
{
    if let Ok(request) = ctx {
        mapper.map(request.logical_addr, request.physical_addr.unwrap());
    }
}

/// The media manager stage of the write pipeline: a request is served; on
/// success it carries the answer, on failure a request with a physical
/// address marks its block bad in the bad block table.
pub fn write_mm_stage(mm: &mut MediaManager, bbt: &mut BadBlockTable, ctx: &mut Result<Request, RequestError>)
    requires
        *old(ctx) matches Ok(req) ==> servable(req),
        old(bbt).is_initialized(),
        addr_in_table(old(bbt).table(), charged_block()),
    ensures
        final(bbt).is_initialized(),
        match *old(ctx) {
            Ok(req) => {
                let (after, r) = serve(old(mm).pages(), req);
                &&& final(mm).pages() == after
                &&& match r {
                    Ok(data) => {
                        &&& *final(ctx) == Ok::<Request, RequestError>(Request { data, ..req })
                        &&& final(bbt).table() == old(bbt).table()
                    },
                    Err(_) => {
                        &&& *final(ctx) == *old(ctx)
                        &&& final(bbt).table() == if req.physical_addr is Some {
                            with_status(old(bbt).table(), charged_block(), BadBlockStatus::Bad)
                        } else {
                            old(bbt).table()
                        }
                    },
                }
            },
            Err(e) => {
                &&& final(mm).pages() == old(mm).pages()
                &&& *final(ctx) == Err::<Request, RequestError>(e)
                &&& final(bbt).table() == old(bbt).table()
            },
        },
{
    if let Ok(request) = ctx {
        match mm.execute_request(request) {
            Ok(data) => {
                request.data = data;
            },
            Err(_) => {
                if request.physical_addr.is_some() {
                    let pba = PhysicalBlockAddress { channel: 0, lun: 0, plane: 0, block: 0 };
                    bbt.set_bad_block(&pba);
                }
            },
        }
    }
}

} // verus!
