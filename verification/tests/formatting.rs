use msrscan::report::{format_entry, format_report};
use msrscan::results::ResultMap;

#[test]
fn entry_lines_are_fixed_width_hex() {
    assert_eq!(format_entry(0x0, 0x0), "00000000: 0000000000000000");
    assert_eq!(format_entry(0x1, 0xAA), "00000001: 00000000000000aa");
    assert_eq!(format_entry(0xc000_0080, 0x1122_3344_5566_7788), "c0000080: 1122334455667788");
    assert_eq!(format_entry(0xffff_ffff, u64::MAX), "ffffffff: ffffffffffffffff");
    assert_eq!(format_entry(0x5, 0x1f), "00000005: 000000000000001f");
}

#[test]
fn report_is_sorted_by_address_not_discovery_order() {
    let mut map = ResultMap::new();
    map.insert(0x5, 0x55);
    map.insert(0x1, 0x11);
    map.insert(0x3, 0x33);
    let lines = format_report(&map);
    assert_eq!(
        lines,
        vec![
            "00000001: 0000000000000011".to_string(),
            "00000003: 0000000000000033".to_string(),
            "00000005: 0000000000000055".to_string(),
        ]
    );
}

#[test]
fn lookup_follows_insertions() {
    let mut map = ResultMap::new();
    map.insert(0x10, 1);
    map.insert(0x8, 2);
    assert_eq!(map.get(0x10), Some(1));
    assert_eq!(map.get(0x8), Some(2));
    assert_eq!(map.get(0x9), None);
    assert_eq!(map.len(), 2);
}

#[test]
fn empty_report_has_no_lines() {
    let map = ResultMap::new();
    assert!(format_report(&map).is_empty());
}
