use lib::bindings::nvm_mmgr_geometry;
use lib::media_manager::media_manager::{Geometry, MediaManager, MM_ERR};
use lib::requester::requester::{CommandType, Request};

fn req(cmd: CommandType, ppa: Option<u32>, data: Option<[u8; 2]>) -> Request {
    let mut r = Request::new(0, cmd, 0, data);
    r.physical_addr = ppa;
    r
}

#[test]
fn read_after_write_gives_written_data() {
    let mut mm = MediaManager::new();
    assert_eq!(mm.execute_request(&req(CommandType::WRITE, Some(5), Some([1, 2]))), Ok(None));
    assert_eq!(mm.execute_request(&req(CommandType::READ, Some(5), None)), Ok(Some([1, 2])));
}

#[test]
fn later_write_replaces_data() {
    let mut mm = MediaManager::new();
    mm.execute_request(&req(CommandType::WRITE, Some(5), Some([1, 2]))).unwrap();
    mm.execute_request(&req(CommandType::WRITE, Some(5), Some([3, 4]))).unwrap();
    assert_eq!(mm.execute_request(&req(CommandType::READ, Some(5), None)), Ok(Some([3, 4])));
}

#[test]
fn read_of_unwritten_page_is_not_found() {
    let mut mm = MediaManager::new();
    assert_eq!(mm.execute_request(&req(CommandType::READ, Some(9), None)), Err(MM_ERR::PPANotFound));
}

#[test]
fn read_after_erase_is_not_found() {
    let mut mm = MediaManager::new();
    mm.execute_request(&req(CommandType::WRITE, Some(5), Some([1, 2]))).unwrap();
    assert_eq!(mm.execute_request(&req(CommandType::ERASE, Some(5), None)), Ok(None));
    assert_eq!(mm.execute_request(&req(CommandType::READ, Some(5), None)), Err(MM_ERR::PPANotFound));
}

#[test]
fn requests_without_address_are_refused() {
    let mut mm = MediaManager::new();
    for cmd in [CommandType::READ, CommandType::WRITE, CommandType::ERASE] {
        assert_eq!(mm.execute_request(&req(cmd, None, Some([0, 0]))), Err(MM_ERR::NoPPAInReq));
    }
}

#[test]
fn writes_touch_only_their_page() {
    let mut mm = MediaManager::new();
    mm.execute_request(&req(CommandType::WRITE, Some(1), Some([7, 7]))).unwrap();
    mm.execute_request(&req(CommandType::WRITE, Some(2), Some([8, 8]))).unwrap();
    mm.execute_request(&req(CommandType::ERASE, Some(2), None)).unwrap();
    assert_eq!(mm.execute_request(&req(CommandType::READ, Some(1), None)), Ok(Some([7, 7])));
}

#[test]
fn map_geometry_keeps_counts_and_low_page_bits() {
    let nvm = nvm_mmgr_geometry {
        n_of_ch: 8,
        lun_per_ch: 4,
        blk_per_lun: 64,
        pg_per_blk: 32,
        sec_per_pg: 4,
        n_of_planes: 2,
        pg_size: 4096,
        sec_oob_sz: 0,
        sec_per_pl_pg: 0,
        sec_per_blk: 0,
        sec_per_lun: 0,
        sec_per_ch: 0,
        pg_per_lun: 0,
        pg_per_ch: 0,
        blk_per_ch: 0,
        tot_sec: 0,
        tot_pg: 0x1_0000_0005,
        tot_blk: 0,
        tot_lun: 0,
        sec_size: 0,
        pl_pg_size: 0,
        blk_size: 0,
        lun_size: 0,
        ch_size: 0,
        tot_size: 0,
        pg_oob_sz: 0,
        pl_pg_oob_sz: 0,
        blk_oob_sz: 0,
        lun_oob_sz: 0,
        ch_oob_sz: 0,
        tot_oob_sz: 0,
    };
    let g = Geometry::map_geometry(&nvm);
    assert_eq!(
        g,
        Geometry { n_pages: 5, n_of_ch: 8, n_of_planes: 2, lun_per_ch: 4, blk_per_lun: 64, pg_per_blk: 32 }
    );
}
