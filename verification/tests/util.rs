use oxidd_rules::complement_edge::edge::{BCDDOp, Edge, EdgeTag};
use oxidd_rules::complement_edge::manager::BCDDKey;
use oxidd_rules::util::apply_cache::ApplyCache;
use oxidd_rules::util::math::ilog2;
use oxidd_rules::util::unique_table::UniqueTable;

#[test]
fn ilog2_of_powers_and_between() {
    assert_eq!(ilog2(1), 0);
    assert_eq!(ilog2(2), 1);
    assert_eq!(ilog2(3), 1);
    assert_eq!(ilog2(4096), 12);
    assert_eq!(ilog2(u64::MAX), 63);
}

#[test]
fn unique_table_keeps_triples_apart() {
    let mut t = UniqueTable::new();
    assert_eq!(t.get(1, 2, 3), None);
    t.insert(1, 2, 3, 7);
    t.insert(1, 3, 2, 8);
    t.insert(u32::MAX, u32::MAX, u32::MAX, 9);
    assert_eq!(t.get(1, 2, 3), Some(7));
    assert_eq!(t.get(1, 3, 2), Some(8));
    assert_eq!(t.get(u32::MAX, u32::MAX, u32::MAX), Some(9));
    assert_eq!(t.get(2, 1, 3), None);
    t.insert(1, 2, 3, 10);
    assert_eq!(t.get(1, 2, 3), Some(10));
}

fn key(op: BCDDOp, node: u32) -> BCDDKey {
    let e = Edge { node, tag: EdgeTag::Regular };
    BCDDKey { op, f: e, g: e, h: e, num: 0 }
}

#[test]
fn apply_cache_with_one_slot_keeps_the_last_entry() {
    let mut c: ApplyCache<BCDDKey, u32> = ApplyCache::new(0);
    assert_eq!(c.get(key(BCDDOp::And, 1)), None);
    c.add_entry(key(BCDDOp::And, 1), 5);
    assert_eq!(c.get(key(BCDDOp::And, 1)), Some(5));
    assert_eq!(c.get(key(BCDDOp::Xor, 1)), None);
    c.add_entry(key(BCDDOp::And, 1), 6);
    assert_eq!(c.get(key(BCDDOp::And, 1)), Some(6));
    c.add_entry(key(BCDDOp::Xor, 1), 7);
    assert_eq!(c.get(key(BCDDOp::And, 1)), None);
    assert_eq!(c.get(key(BCDDOp::Xor, 1)), Some(7));
}
