use lib::apps::connector_per_component::{l2p_step, mm_serve, prefill, L2pRoute, N_REQUESTS};
use lib::apps::distributed_l2p::l2p_dist_table::L2PDistributionTable;
use lib::apps::distributed_l2p::{
    mark_failed_block, mm_step, ring_action, route_from_dist, table_step, DistRoute, MmRoute,
    RingAction, N_TABLES,
};
use lib::apps::pipeline_per_cmd::{
    pipeline_for, read_l2p_stage, read_mm_stage, write_l2p_stage, write_mm_stage, CmdPipeline,
};
use lib::apps::round_trip::{add_fn, MessagePool, Numbers, RoundTrip, POOL_SIZE, RING_SIZE};
use lib::bbt::bbt::{BadBlockStatus, BadBlockTable};
use lib::bindings::nvm_mmgr_geometry;
use lib::l2p::l2p::L2pMapper;
use lib::media_manager::media_manager::{MediaManager, MM_ERR};
use lib::requester::requester::{CommandType, Request, RequestError, Status};
use lib::shared::addresses::PhysicalBlockAddress;

fn media(ch: u8, luns: u8, planes: u8, blocks: u16) -> nvm_mmgr_geometry {
    nvm_mmgr_geometry {
        n_of_ch: ch,
        lun_per_ch: luns,
        blk_per_lun: blocks,
        pg_per_blk: 4,
        sec_per_pg: 1,
        n_of_planes: planes,
        pg_size: 0,
        sec_oob_sz: 0,
        sec_per_pl_pg: 0,
        sec_per_blk: 0,
        sec_per_lun: 0,
        sec_per_ch: 0,
        pg_per_lun: 0,
        pg_per_ch: 0,
        blk_per_ch: 0,
        tot_sec: 0,
        tot_pg: 0,
        tot_blk: 0,
        tot_lun: 0,
        sec_size: 0,
        pl_pg_size: 0,
        blk_size: 0,
        lun_size: 0,
        ch_size: 0,
        tot_size: 0,
        pg_oob_sz: 0,
        pl_pg_oob_sz: 0,
        blk_oob_sz: 0,
        lun_oob_sz: 0,
        ch_oob_sz: 0,
        tot_oob_sz: 0,
    }
}

fn block0() -> PhysicalBlockAddress {
    PhysicalBlockAddress { channel: 0, lun: 0, plane: 0, block: 0 }
}

fn req(cmd: CommandType, la: u32, pa: Option<u32>, data: Option<[u8; 2]>) -> Request {
    let mut r = Request::new(0, cmd, la, data);
    r.physical_addr = pa;
    r
}

#[test]
fn benchmark_sizes() {
    assert_eq!(N_REQUESTS, 1024);
    assert_eq!(N_TABLES, 4);
    assert_eq!(POOL_SIZE, 10000);
    assert_eq!(RING_SIZE, 128);
}

#[test]
fn l2p_connector_routes_and_maps() {
    let mut m: L2pMapper<8> = L2pMapper::new();
    let mut w = req(CommandType::WRITE, 3, None, Some([1, 1]));
    assert_eq!(l2p_step(&mut m, &mut w), Some(L2pRoute::Provisioner));
    assert_eq!(m.lookup(3), None);
    w.physical_addr = Some(17);
    assert_eq!(l2p_step(&mut m, &mut w), Some(L2pRoute::MediaManager));
    assert_eq!(m.lookup(3), Some(17));
    let mut r = req(CommandType::READ, 3, None, None);
    assert_eq!(l2p_step(&mut m, &mut r), Some(L2pRoute::MediaManager));
    assert_eq!(r.physical_addr, Some(17));
    let mut e = req(CommandType::ERASE, 3, None, None);
    assert_eq!(l2p_step(&mut m, &mut e), None);
}

#[test]
fn prefill_writes_zero_pages() {
    let mut mm = MediaManager::new();
    prefill(&mut mm, 4);
    for p in 0..4u32 {
        let r = req(CommandType::READ, 0, Some(p), None);
        assert_eq!(mm.execute_request(&r), Ok(Some([0, 0])));
    }
    let r = req(CommandType::READ, 0, Some(4), None);
    assert_eq!(mm.execute_request(&r), Err(MM_ERR::PPANotFound));
}

#[test]
fn mm_connector_serves_or_drops() {
    let mut mm = MediaManager::new();
    let mut ctx: Result<Request, RequestError> = Ok(req(CommandType::WRITE, 0, Some(5), Some([7, 8])));
    assert!(mm_serve(&mut mm, &mut ctx));
    assert_eq!(ctx.unwrap().data, None);
    let mut ctx: Result<Request, RequestError> = Ok(req(CommandType::READ, 0, Some(5), None));
    assert!(mm_serve(&mut mm, &mut ctx));
    assert_eq!(ctx.unwrap().data, Some([7, 8]));
    let mut ctx: Result<Request, RequestError> = Ok(req(CommandType::READ, 0, Some(6), None));
    assert!(!mm_serve(&mut mm, &mut ctx));
    let mut ctx: Result<Request, RequestError> = Err(RequestError::StageError);
    assert!(!mm_serve(&mut mm, &mut ctx));
    assert!(matches!(ctx, Err(RequestError::StageError)));
}

#[test]
fn distributing_connector_routes_by_address() {
    assert_eq!(route_from_dist(&req(CommandType::READ, 6, None, None)), DistRoute::Table(2));
    assert_eq!(route_from_dist(&req(CommandType::WRITE, 6, None, Some([0, 0]))), DistRoute::Provisioner);
    assert_eq!(route_from_dist(&req(CommandType::WRITE, 6, Some(1), Some([0, 0]))), DistRoute::Table(2));
    assert_eq!(route_from_dist(&req(CommandType::ERASE, 6, None, None)), DistRoute::Drop);
}

#[test]
fn table_connector_maps_then_unmaps() {
    let mut m: L2pMapper<8> = L2pMapper::new();
    let mut w = req(CommandType::WRITE, 2, Some(11), Some([0, 0]));
    table_step(&mut m, &mut w);
    assert_eq!(m.lookup(2), Some(11));
    assert_eq!(w.status, Status::PENDING);
    let mut r = req(CommandType::READ, 2, None, None);
    table_step(&mut m, &mut r);
    assert_eq!(r.physical_addr, Some(11));
    w.status = Status::MM_DONE;
    table_step(&mut m, &mut w);
    assert_eq!(m.lookup(2), None);
    assert_eq!(w.status, Status::DONE);
}

#[test]
fn media_manager_connector_marks_outcome() {
    let mut mm = MediaManager::new();
    let mut w = req(CommandType::WRITE, 0, Some(3), Some([4, 4]));
    assert_eq!(mm_step(&mut mm, &mut w), MmRoute::Requester);
    assert_eq!(w.status, Status::MM_DONE);
    let mut r = req(CommandType::READ, 0, Some(3), None);
    assert_eq!(mm_step(&mut mm, &mut r), MmRoute::Requester);
    assert_eq!(r.status, Status::DONE);
    assert_eq!(r.data, Some([4, 4]));
    let mut missing = req(CommandType::READ, 0, Some(9), None);
    assert_eq!(mm_step(&mut mm, &mut missing), MmRoute::BadBlockTable);
    assert_eq!(missing.status, Status::BAD);
    let mut done = req(CommandType::READ, 0, Some(9), None);
    done.status = Status::DONE;
    assert_eq!(mm_step(&mut mm, &mut done), MmRoute::Requester);
    assert_eq!(done.status, Status::DONE);
}

#[test]
fn requester_resets_done_and_resubmits_bad() {
    let mut r = req(CommandType::READ, 0, None, None);
    r.status = Status::DONE;
    assert_eq!(ring_action(&r), RingAction::Reset);
    r.status = Status::BAD;
    assert_eq!(ring_action(&r), RingAction::Resubmit);
}

#[test]
fn failed_request_marks_its_block_bad() {
    let mut bbt = BadBlockTable::new();
    assert!(bbt.init(&media(1, 1, 1, 2)).is_ok());
    assert!(!mark_failed_block(&mut bbt, &req(CommandType::READ, 0, None, None)));
    assert_eq!(bbt.get_block_status(&block0()), BadBlockStatus::Good);
    assert!(mark_failed_block(&mut bbt, &req(CommandType::READ, 0, Some(1), None)));
    assert_eq!(bbt.get_block_status(&block0()), BadBlockStatus::Bad);
}

#[test]
fn read_and_write_pipelines() {
    let mut m: L2pMapper<8> = L2pMapper::new();
    let mut mm = MediaManager::new();
    let mut bbt = BadBlockTable::new();
    assert!(bbt.init(&media(1, 1, 1, 2)).is_ok());

    let mut w: Result<Request, RequestError> = Ok(req(CommandType::WRITE, 1, Some(6), Some([9, 9])));
    write_mm_stage(&mut mm, &mut bbt, &mut w);
    write_l2p_stage(&mut m, &w);
    assert_eq!(m.lookup(1), Some(6));

    let mut r: Result<Request, RequestError> = Ok(req(CommandType::READ, 1, None, None));
    read_l2p_stage(&m, &mut r);
    assert_eq!(r.unwrap().physical_addr, Some(6));
    read_mm_stage(&mut mm, &mut r);
    assert_eq!(r.unwrap().data, Some([9, 9]));

    let mut bad: Result<Request, RequestError> = Ok(req(CommandType::READ, 0, Some(99), None));
    write_mm_stage(&mut mm, &mut bbt, &mut bad);
    assert_eq!(bbt.get_block_status(&block0()), BadBlockStatus::Bad);
}

#[test]
fn distribution_table_picks_in_turn() {
    let mut t: L2PDistributionTable<3> = L2PDistributionTable::new(["a", "b", "c"]);
    assert_eq!(t.pick_table_idx(), 0);
    assert_eq!(t.pick_table_idx(), 1);
    assert_eq!(t.pick_table_idx(), 2);
    assert_eq!(t.pick_table_idx(), 0);
    assert_eq!(t.get_table_pipe_name(1), "b");
    assert_eq!(t.get_table_idx(&5), None);
    assert_eq!(t.set_table_idx(5, 2), None);
    assert_eq!(t.set_table_idx(5, 1), Some(2));
    assert_eq!(t.get_table_idx(&5), Some(1));
}

#[test]
fn distribution_table_prepared_round_robin() {
    let mut t: L2PDistributionTable<4> = L2PDistributionTable::new(["p0", "p1", "p2", "p3"]);
    t.prepare_for_benchmark(10);
    for i in 0..10u32 {
        assert_eq!(t.get_table_idx(&i), Some((i % 4) as u8));
    }
    assert_eq!(t.get_table_idx(&10), None);
}

#[test]
fn stage_adds_increment_wrapping() {
    let mut n = Numbers { value: 250, add: 10, id: 1 };
    add_fn(&mut n);
    assert_eq!(n, Numbers { value: 4, add: 10, id: 1 });
    n.reset();
    assert_eq!(n, Numbers::default());
}

#[test]
fn message_pool_hands_out_lowest_free() {
    let mut p = MessagePool::new();
    assert_eq!(p.get_free_message_index(), Some(0));
    assert_eq!(p.get_free_message_index(), Some(1));
    p.set_message(1, Numbers { value: 3, add: 1, id: 9 });
    assert_eq!(p.message(1), Numbers { value: 3, add: 1, id: 9 });
    p.release_message(0);
    assert_eq!(p.message(0), Numbers::default());
    assert_eq!(p.get_free_message_index(), Some(0));
    assert_eq!(p.get_free_message_index(), Some(2));
}

#[test]
fn round_trip_message_comes_back_as_seven() {
    let mut rt = RoundTrip::new();
    let i = rt.submit().unwrap();
    for _ in 0..6 {
        rt.stage(i);
    }
    assert!(rt.complete(i));
    assert_eq!(rt.timer_tick(), 6);
    assert_eq!(rt.timer_tick(), 0);
}

#[test]
fn round_trip_limits_messages_in_flight() {
    let mut rt = RoundTrip::new();
    for k in 0..RING_SIZE {
        assert_eq!(rt.submit(), Some(k));
    }
    assert_eq!(rt.submit(), None);
    assert!(!rt.complete(5));
    assert_eq!(rt.submit(), Some(5));
}

#[test]
fn requester_picks_pipeline_by_command() {
    assert_eq!(pipeline_for(CommandType::READ), Some(CmdPipeline::Read));
    assert_eq!(pipeline_for(CommandType::WRITE), Some(CmdPipeline::Write));
    assert_eq!(pipeline_for(CommandType::ERASE), None);
}

#[test]
fn round_trip_counters_follow_the_messages() {
    let mut rt = RoundTrip::new();
    assert_eq!(rt.counters(), (0, 0, 0, 0));
    let i = rt.submit().unwrap();
    let _ = rt.submit().unwrap();
    assert_eq!(rt.counters(), (2, 0, 2, 0));
    rt.complete(i);
    assert_eq!(rt.counters(), (1, 1, 2, 0));
    rt.timer_tick();
    assert_eq!(rt.counters(), (1, 1, 2, 1));
}
