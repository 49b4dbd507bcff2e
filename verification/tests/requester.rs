use lib::media_manager::media_manager::Geometry;
use lib::requester::requester::{
    CommandType, Request, RequestWorkloadGenerator, Status, WorkloadType, META_DATA,
};

fn drain(g: &mut RequestWorkloadGenerator) -> Vec<Request> {
    let mut out = Vec::new();
    while let Some(r) = g.next_request() {
        out.push(*r);
    }
    out
}

#[test]
fn new_request_is_pending_without_physical_address() {
    let r = Request::new(7, CommandType::WRITE, 3, Some([1, 2]));
    assert_eq!(r.id, 7);
    assert_eq!(r.status, Status::PENDING);
    assert_eq!(r.cmd, CommandType::WRITE);
    assert_eq!(r.logical_addr, 3);
    assert_eq!(r.physical_addr, None);
    assert_eq!(r.data, Some([1, 2]));
    assert!(matches!(r.md, META_DATA::NONE));
    assert_eq!((r.start_time, r.end_time), (0, 0));
}

#[test]
fn empty_request_is_a_read_in_process() {
    let r = Request::empty();
    assert_eq!(r.id, 0);
    assert_eq!(r.status, Status::IN_PROCESS);
    assert_eq!(r.cmd, CommandType::READ);
    assert_eq!(r.logical_addr, 0);
    assert_eq!(r.data, None);
}

#[test]
fn round_trip_time_is_end_minus_start() {
    let mut r = Request::new(0, CommandType::READ, 0, None);
    r.start_timer(100);
    r.end_timer(350);
    assert_eq!(r.start_time, 100);
    assert_eq!(r.end_time, 350);
    assert_eq!(r.calc_round_trip_time_clock_cycles(), 250);
}

#[test]
fn read_workload_reads_every_address_in_order() {
    let mut g = RequestWorkloadGenerator::new(WorkloadType::READ, 3);
    g.init_workload();
    let reqs = drain(&mut g);
    assert_eq!(reqs.len(), 3);
    for (i, r) in reqs.iter().enumerate() {
        assert_eq!(r.id, i as u32);
        assert_eq!(r.logical_addr, i as u32);
        assert_eq!(r.cmd, CommandType::READ);
        assert_eq!(r.data, None);
        assert_eq!(r.status, Status::PENDING);
    }
}

#[test]
fn write_workload_writes_42s() {
    let mut g = RequestWorkloadGenerator::new(WorkloadType::WRITE, 2);
    g.init_workload();
    let reqs = drain(&mut g);
    assert_eq!(reqs.len(), 2);
    for r in &reqs {
        assert_eq!(r.cmd, CommandType::WRITE);
        assert_eq!(r.data, Some([42, 42]));
    }
}

#[test]
fn mixed_workload_alternates_read_and_write() {
    let mut g = RequestWorkloadGenerator::new(WorkloadType::MIXED, 4);
    g.init_workload();
    let cmds: Vec<CommandType> = drain(&mut g).iter().map(|r| r.cmd).collect();
    assert_eq!(
        cmds,
        vec![CommandType::READ, CommandType::WRITE, CommandType::READ, CommandType::WRITE]
    );
}

#[test]
fn next_request_is_none_when_nothing_is_queued() {
    let mut g = RequestWorkloadGenerator::new(WorkloadType::READ, 2);
    assert!(g.next_request().is_none());
    g.init_workload();
    assert!(g.next_request().is_some());
    assert!(g.next_request().is_some());
    assert!(g.next_request().is_none());
}

#[test]
fn reset_request_requeues_it_as_a_pending_write_payload() {
    let mut g = RequestWorkloadGenerator::new(WorkloadType::READ, 2);
    g.init_workload();
    let _ = drain(&mut g);
    let mut r = Request::new(1, CommandType::READ, 1, None);
    r.status = Status::DONE;
    r.physical_addr = Some(9);
    g.reset_request(&mut r);
    assert_eq!(r.status, Status::PENDING);
    assert_eq!(r.physical_addr, None);
    assert_eq!(r.data, Some([42, 42]));
    // the number is queued again; the stored request is left as it was
    let back = *g.next_request().unwrap();
    assert_eq!(back.id, 1);
    assert_eq!(back.status, Status::PENDING);
    assert_eq!(back.data, None);
    assert!(g.next_request().is_none());
}

#[test]
fn calculate_stats_gives_each_round_trip() {
    let mut g = RequestWorkloadGenerator::new(WorkloadType::READ, 2);
    assert_eq!(g.calculate_stats(), Vec::<u32>::new());
    g.init_workload();
    // requests that never ran took no time
    assert_eq!(g.calculate_stats(), vec![0, 0]);
}

#[test]
fn second_init_adds_the_workload_again_and_queues_everything() {
    let mut g = RequestWorkloadGenerator::new(WorkloadType::MIXED, 2);
    g.init_workload();
    g.init_workload();
    let reqs = drain(&mut g);
    let ids: Vec<u32> = reqs.iter().map(|r| r.id).collect();
    // queue: 0, 1 from the first call, then 0, 1, 2, 3 from the second
    assert_eq!(ids, vec![0, 1, 0, 1, 0, 1]);
    let cmds: Vec<CommandType> = reqs.iter().map(|r| r.cmd).collect();
    assert_eq!(cmds[..2], [CommandType::READ, CommandType::WRITE]);
    assert_eq!(g.calculate_stats(), vec![0, 0]);
}

#[test]
fn long_queue_is_flagged() {
    let mut g = RequestWorkloadGenerator::new(WorkloadType::READ, 1021);
    g.init_workload();
    assert!(!g.pending_is_long());
    let mut r = Request::new(0, CommandType::READ, 0, None);
    g.reset_request(&mut r);
    assert!(g.pending_is_long());
}

#[test]
fn workload_geometry_is_fixed() {
    let g = RequestWorkloadGenerator::new(WorkloadType::MIXED, 16);
    assert_eq!(
        g.get_geo(),
        Geometry {
            n_pages: 131072,
            n_of_ch: 8,
            n_of_planes: 2,
            lun_per_ch: 4,
            blk_per_lun: 64,
            pg_per_blk: 64,
        }
    );
    assert_eq!(g.get_n_requests(), 16);
}

#[test]
fn default_request_is_the_blank_one() {
    let d = Request::default();
    let e = Request::empty();
    assert_eq!((d.id, d.status, d.cmd, d.logical_addr), (e.id, e.status, e.cmd, e.logical_addr));
    assert_eq!((d.physical_addr, d.data, d.start_time, d.end_time), (None, None, 0, 0));
}

#[test]
fn request_count_is_kept_through_the_workload() {
    let mut g = RequestWorkloadGenerator::new(WorkloadType::WRITE, 5);
    assert_eq!(g.get_n_requests(), 5);
    g.init_workload();
    let mut r = *g.next_request().unwrap();
    g.reset_request(&mut r);
    assert_eq!(g.get_n_requests(), 5);
}
