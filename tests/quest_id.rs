use better_questing_tools::QuestId;

#[test]
fn questid_roundtrip_zero() {
    let qid = QuestId::from_parts(0, 0);
    assert_eq!(qid.as_u64(), 0);
    let qid2 = QuestId::from_u64(0);
    assert_eq!(qid, qid2);
    assert_eq!(qid2.high_part(), 0);
    assert_eq!(qid2.low_part(), 0);
    assert_eq!(qid2.high_u32(), 0);
    assert_eq!(qid2.low_u32(), 0);
}

#[test]
fn questid_roundtrip_all_ones() {
    let qid = QuestId::from_parts(-1, -1);
    let u = qid.as_u64();
    let qid2 = QuestId::from_u64(u);
    assert_eq!(qid, qid2);
    assert_eq!(qid.high_part(), -1);
    assert_eq!(qid.low_part(), -1);
    assert_eq!(qid.high_u32(), 0xFFFF_FFFF);
    assert_eq!(qid.low_u32(), 0xFFFF_FFFF);
}

#[test]
fn questid_extreme_high_low() {
    let hi = i32::MAX;
    let lo = i32::MIN;
    let qid = QuestId::from_parts(hi, lo);
    let u = qid.as_u64();
    let qid2 = QuestId::from_u64(u);
    assert_eq!(qid, qid2);
    assert_eq!(qid.high_part(), i32::MAX);
    assert_eq!(qid.low_part(), i32::MIN);
    assert_eq!(qid.high_u32(), i32::MAX as u32);
    assert_eq!(qid.low_u32(), i32::MIN as u32);
}

#[test]
fn questid_unsigned_roundtrip() {
    let qid = QuestId::from_parts(0x12345678, 0x9ABCDEF0u32 as i32);
    let u = qid.as_u64();
    let qid2 = QuestId::from_u64(u);
    assert_eq!(qid2.high_u32(), 0x12345678);
    assert_eq!(qid2.low_u32(), 0x9ABCDEF0);
}

#[test]
fn questid_all_ones_value() {
    assert_eq!(QuestId::from_parts(-1, -1).as_u64(), 0xFFFF_FFFF_FFFF_FFFF);
}

#[test]
fn questid_value_formula() {
    let cases: [(i32, i32); 5] = [(0, 1), (1, 0), (-2, 5), (7, -3), (i32::MIN, i32::MAX)];
    for (h, l) in cases {
        let expected = ((h as i64 as u64) << 32) | (l as u32 as u64);
        assert_eq!(QuestId::from_parts(h, l).as_u64(), expected);
    }
    assert_eq!(QuestId::from_parts(1, 2).as_u64(), 0x0000_0001_0000_0002);
}
