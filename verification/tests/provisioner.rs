use lib::bbt::bbt::{BadBlockStatus, BadBlockTable};
use lib::bindings::nvm_mmgr_geometry;
use lib::media_manager::media_manager::Geometry;
use lib::provisioner::provisioner::{Block, Lun, ProvisionError, Provisioner};
use lib::shared::addresses::{PhysicalBlockAddress, PhysicalPageAddress};

fn geo(ch: u8, luns: u8, planes: u8, blocks: u16, pages: u16) -> Geometry {
    Geometry {
        n_pages: 0,
        n_of_ch: ch,
        n_of_planes: planes,
        lun_per_ch: luns,
        blk_per_lun: blocks,
        pg_per_blk: pages,
    }
}

fn media(ch: u8, luns: u8, planes: u8, blocks: u16) -> nvm_mmgr_geometry {
    nvm_mmgr_geometry {
        n_of_ch: ch,
        lun_per_ch: luns,
        blk_per_lun: blocks,
        pg_per_blk: 4,
        sec_per_pg: 1,
        n_of_planes: planes,
        pg_size: 0,
        sec_oob_sz: 0,
        sec_per_pl_pg: 0,
        sec_per_blk: 0,
        sec_per_lun: 0,
        sec_per_ch: 0,
        pg_per_lun: 0,
        pg_per_ch: 0,
        blk_per_ch: 0,
        tot_sec: 0,
        tot_pg: 0,
        tot_blk: 0,
        tot_lun: 0,
        sec_size: 0,
        pl_pg_size: 0,
        blk_size: 0,
        lun_size: 0,
        ch_size: 0,
        tot_size: 0,
        pg_oob_sz: 0,
        pl_pg_oob_sz: 0,
        blk_oob_sz: 0,
        lun_oob_sz: 0,
        ch_oob_sz: 0,
        tot_oob_sz: 0,
    }
}

fn pba(channel: u64, lun: u64, plane: u64, block: u64) -> PhysicalBlockAddress {
    PhysicalBlockAddress { channel, lun, plane, block }
}

fn ppa(channel: u64, lun: u64, plane: u64, block: u64, page: u64) -> PhysicalPageAddress {
    PhysicalPageAddress { channel, lun, plane, block, page }
}

#[test]
fn new_provisioner_has_geometry_shape_and_no_free_block() {
    let mut p = Provisioner::new(&geo(2, 3, 1, 4, 2));
    assert_eq!(p.channels.len(), 2);
    for c in &p.channels {
        assert_eq!(c.luns.len(), 3);
        for l in &c.luns {
            assert!(l.free.is_empty());
            assert!(l.used.is_empty());
            assert!(l.partially_used.is_empty());
        }
    }
    assert_eq!(p.provision_block(), Err(ProvisionError::NoFreeBlock));
    assert_eq!(p.provision_page(), Err(ProvisionError::NoFreePage));
}

#[test]
fn new_lun_is_empty() {
    let l = Lun::new(8, 4);
    assert!(l.free.is_empty());
    assert!(l.used.is_empty());
    assert!(l.partially_used.is_empty());
}

#[test]
fn init_all_free_fills_every_lun_in_order() {
    let mut p = Provisioner::new(&geo(2, 2, 1, 3, 2));
    p.init_all_free();
    for c in &p.channels {
        for l in &c.luns {
            let free: Vec<Block> = l.free.iter().cloned().collect();
            assert_eq!(
                free,
                vec![
                    Block { id: 0, plane_id: 0 },
                    Block { id: 1, plane_id: 0 },
                    Block { id: 2, plane_id: 0 }
                ]
            );
        }
    }
}

#[test]
fn push_free_block_appends_to_its_lun() {
    let mut p = Provisioner::new(&geo(2, 2, 2, 4, 2));
    p.push_free_block(&pba(1, 0, 1, 3));
    p.push_free_block(&pba(1, 0, 0, 2));
    let free: Vec<Block> = p.channels[1].luns[0].free.iter().cloned().collect();
    assert_eq!(free, vec![Block { id: 3, plane_id: 1 }, Block { id: 2, plane_id: 0 }]);
    assert!(p.channels[0].luns[0].free.is_empty());
    assert!(p.channels[1].luns[1].free.is_empty());
}

#[test]
fn provision_block_stays_on_last_picked_lun_until_empty() {
    let mut p = Provisioner::new(&geo(2, 2, 1, 2, 2));
    p.init_all_free();
    assert_eq!(p.provision_block(), Ok(pba(0, 0, 0, 0)));
    assert_eq!(p.provision_block(), Ok(pba(0, 0, 0, 1)));
    assert_eq!(p.provision_block(), Ok(pba(0, 1, 0, 0)));
    assert_eq!(p.provision_block(), Ok(pba(0, 1, 0, 1)));
    assert_eq!(p.provision_block(), Ok(pba(1, 0, 0, 0)));
    assert_eq!(p.provision_block(), Ok(pba(1, 0, 0, 1)));
    assert_eq!(p.provision_block(), Ok(pba(1, 1, 0, 0)));
    assert_eq!(p.provision_block(), Ok(pba(1, 1, 0, 1)));
    assert_eq!(p.provision_block(), Err(ProvisionError::NoFreeBlock));
}

#[test]
fn provisioned_block_moves_to_used() {
    let mut p = Provisioner::new(&geo(1, 1, 1, 2, 2));
    p.init_all_free();
    assert_eq!(p.provision_block(), Ok(pba(0, 0, 0, 0)));
    let lun = &p.channels[0].luns[0];
    let used: Vec<Block> = lun.used.iter().cloned().collect();
    let free: Vec<Block> = lun.free.iter().cloned().collect();
    assert_eq!(used, vec![Block { id: 0, plane_id: 0 }]);
    assert_eq!(free, vec![Block { id: 1, plane_id: 0 }]);
}

#[test]
fn provision_page_hands_out_pages_of_a_block_in_order() {
    let mut p = Provisioner::new(&geo(1, 1, 1, 2, 3));
    p.init_all_free();
    assert_eq!(p.provision_page(), Ok(ppa(0, 0, 0, 0, 0)));
    assert_eq!(p.provision_page(), Ok(ppa(0, 0, 0, 0, 1)));
    assert_eq!(p.provision_page(), Ok(ppa(0, 0, 0, 0, 2)));
    // the block is full: it is used now, and the next block is opened
    assert_eq!(p.channels[0].luns[0].used.len(), 1);
    assert!(p.channels[0].luns[0].partially_used.is_empty());
    assert_eq!(p.provision_page(), Ok(ppa(0, 0, 0, 1, 0)));
    assert_eq!(p.channels[0].luns[0].partially_used.len(), 1);
    assert_eq!(p.channels[0].luns[0].partially_used[0].pages_reserved, 1);
}

#[test]
fn provision_page_runs_out() {
    let mut p = Provisioner::new(&geo(1, 1, 1, 1, 2));
    p.init_all_free();
    assert_eq!(p.provision_page(), Ok(ppa(0, 0, 0, 0, 0)));
    assert_eq!(p.provision_page(), Ok(ppa(0, 0, 0, 0, 1)));
    assert_eq!(p.provision_page(), Err(ProvisionError::NoFreePage));
}

#[test]
fn provision_page_does_not_move_the_round_robin_start() {
    let mut p = Provisioner::new(&geo(2, 1, 1, 1, 1));
    p.push_free_block(&pba(1, 0, 0, 0));
    p.push_free_block(&pba(0, 0, 0, 0));
    // channel 0 is searched first
    assert_eq!(p.provision_page(), Ok(ppa(0, 0, 0, 0, 0)));
    assert_eq!(p.provision_page(), Ok(ppa(1, 0, 0, 0, 0)));
    assert_eq!(p.provision_page(), Err(ProvisionError::NoFreePage));
}

#[test]
fn init_free_from_bbt_skips_bad_blocks() {
    let mut bbt = BadBlockTable::new();
    assert!(bbt.init(&media(1, 2, 2, 4)).is_ok());
    bbt.set_bad_block(&pba(0, 1, 0, 1));
    bbt.set_bad_block(&pba(0, 0, 1, 0));
    assert_eq!(bbt.get_block_status(&pba(0, 1, 0, 1)), BadBlockStatus::Bad);
    let g = geo(1, 2, 2, 4, 4);
    let mut p = Provisioner::new(&g);
    p.init_free_from_bbt(&g, &bbt);
    // each plane gives blk_per_lun / n_of_planes = 2 blocks
    let lun0: Vec<Block> = p.channels[0].luns[0].free.iter().cloned().collect();
    assert_eq!(
        lun0,
        vec![
            Block { id: 0, plane_id: 0 },
            Block { id: 1, plane_id: 0 },
            Block { id: 1, plane_id: 1 }
        ]
    );
    let lun1: Vec<Block> = p.channels[0].luns[1].free.iter().cloned().collect();
    assert_eq!(
        lun1,
        vec![
            Block { id: 0, plane_id: 0 },
            Block { id: 0, plane_id: 1 },
            Block { id: 1, plane_id: 1 }
        ]
    );
}

#[test]
fn zero_page_blocks_without_blocks_give_no_page() {
    let mut p = Provisioner::new(&geo(2, 2, 1, 4, 0));
    assert_eq!(p.provision_page(), Err(ProvisionError::NoFreePage));
}

#[test]
fn pages_handed_out_are_distinct_and_below_page_count() {
    let mut p = Provisioner::new(&geo(2, 2, 1, 3, 4));
    p.init_all_free();
    let mut seen: Vec<PhysicalPageAddress> = Vec::new();
    while let Ok(ppa) = p.provision_page() {
        assert!(ppa.page < 4);
        assert!(!seen.contains(&ppa));
        seen.push(ppa);
    }
    assert_eq!(seen.len(), 2 * 2 * 3 * 4);
}
