use lib::bbt::bbt::{BBTError, BadBlockStatus, BadBlockTable};
use lib::bbt::BadBlockTable as RebuildableTable;
use lib::bindings::nvm_mmgr_geometry;
use lib::shared::addresses::PhysicalBlockAddress;

fn geometry(ch: u8, lun: u8, planes: u8, blocks: u16) -> nvm_mmgr_geometry {
    nvm_mmgr_geometry {
        n_of_ch: ch,
        lun_per_ch: lun,
        blk_per_lun: blocks,
        pg_per_blk: 4,
        sec_per_pg: 1,
        n_of_planes: planes,
        pg_size: 0,
        sec_oob_sz: 0,
        sec_per_pl_pg: 0,
        sec_per_blk: 0,
        sec_per_lun: 0,
        sec_per_ch: 0,
        pg_per_lun: 0,
        pg_per_ch: 0,
        blk_per_ch: 0,
        tot_sec: 0,
        tot_pg: 0,
        tot_blk: 0,
        tot_lun: 0,
        sec_size: 0,
        pl_pg_size: 0,
        blk_size: 0,
        lun_size: 0,
        ch_size: 0,
        tot_size: 0,
        pg_oob_sz: 0,
        pl_pg_oob_sz: 0,
        blk_oob_sz: 0,
        lun_oob_sz: 0,
        ch_oob_sz: 0,
        tot_oob_sz: 0,
    }
}

fn pba(channel: u64, lun: u64, plane: u64, block: u64) -> PhysicalBlockAddress {
    PhysicalBlockAddress { channel, lun, plane, block }
}

#[test]
fn init_builds_all_good_table_of_geometry_shape() {
    let mut t = BadBlockTable::new();
    assert!(t.init(&geometry(2, 3, 2, 4)).is_ok());
    let channels = t.get_channel_cell();
    assert_eq!(channels.len(), 2);
    for c in channels {
        assert_eq!(c.luns.len(), 3);
        for l in &c.luns {
            assert_eq!(l.planes.len(), 2);
            for p in &l.planes {
                assert_eq!(p.blocks.len(), 4);
            }
        }
    }
    assert_eq!(t.get_block_status(&pba(1, 2, 1, 3)), BadBlockStatus::Good);
}

#[test]
fn second_init_is_refused() {
    let mut t = BadBlockTable::new();
    assert!(t.init(&geometry(1, 1, 1, 2)).is_ok());
    t.set_bad_block(&pba(0, 0, 0, 1));
    assert_eq!(t.init(&geometry(2, 2, 2, 2)), Err(BBTError::AlreadyInit));
    assert_eq!(t.get_channel_cell().len(), 1);
    assert_eq!(t.get_block_status(&pba(0, 0, 0, 1)), BadBlockStatus::Bad);
}

#[test]
fn set_bad_block_marks_only_that_block() {
    let mut t = BadBlockTable::new();
    t.init(&geometry(2, 2, 2, 3)).unwrap();
    t.set_bad_block(&pba(1, 0, 1, 2));
    assert_eq!(t.get_block_status(&pba(1, 0, 1, 2)), BadBlockStatus::Bad);
    assert_eq!(t.get_block_status(&pba(1, 0, 1, 1)), BadBlockStatus::Good);
    assert_eq!(t.get_block_status(&pba(0, 0, 1, 2)), BadBlockStatus::Good);
    assert_eq!(t.get_block_status(&pba(1, 1, 1, 2)), BadBlockStatus::Good);
}

#[test]
fn rebuildable_table_starts_afresh_on_every_init() {
    let mut t = RebuildableTable::new();
    t.init(&geometry(1, 1, 1, 2));
    t.set_bad_block(&pba(0, 0, 0, 0));
    assert_eq!(t.get_block_status(&pba(0, 0, 0, 0)), BadBlockStatus::Bad);
    assert_eq!(t.get_block_status(&pba(0, 0, 0, 1)), BadBlockStatus::Good);
    t.init(&geometry(1, 1, 1, 2));
    assert_eq!(t.get_block_status(&pba(0, 0, 0, 0)), BadBlockStatus::Good);
}
