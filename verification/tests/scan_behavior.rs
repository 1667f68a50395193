use msrscan::outcome::{
    classify_open_error, classify_read, u64_from_le_bytes, HandleError, ProbeFailure, ProbeOutcome,
};
use msrscan::report::format_report;
use msrscan::scan::{scan_with_outcomes, ScanStep, Scanner};
use msrscan::space::{AddressRange, ScanConfig};

fn range(start: u32, end: u32) -> AddressRange {
    AddressRange { start, end }
}

/// The addresses of a range list in scan order, for driving fakes.
fn addresses_of(ranges: &[AddressRange]) -> Vec<u32> {
    let mut out = Vec::new();
    for r in ranges {
        let mut a = r.start;
        while a < r.end {
            out.push(a);
            a += 1;
        }
    }
    out
}

/// A fake accessor that is a pure function of the address: even addresses
/// hold a register whose value is twice the address, odd ones do not.
fn fake_even_accessor(addr: u32) -> ProbeOutcome {
    if addr % 2 == 0 {
        ProbeOutcome::Success((addr as u64) * 2)
    } else {
        ProbeOutcome::ExpectedFailure
    }
}

#[test]
fn le_bytes_are_little_endian() {
    assert_eq!(
        u64_from_le_bytes(&[0x01, 0x02, 0x03, 0x04, 0x05, 0x06, 0x07, 0x08]),
        0x0807060504030201
    );
    assert_eq!(u64_from_le_bytes(&[0xaa, 0, 0, 0, 0, 0, 0, 0]), 0xaa);
    assert_eq!(u64_from_le_bytes(&[0, 0, 0, 0, 0, 0, 0, 0xff]), 0xff00_0000_0000_0000);
}

#[test]
fn classify_clean_read_is_success() {
    let buf = [0x2a, 0, 0, 0, 0, 0, 0, 0];
    assert_eq!(classify_read(Ok(8), &buf), ProbeOutcome::Success(0x2a));
}

#[test]
fn classify_short_read_is_unexpected() {
    let buf = [0u8; 8];
    assert_eq!(
        classify_read(Ok(4), &buf),
        ProbeOutcome::UnexpectedFailure(ProbeFailure::ShortRead(4))
    );
}

#[test]
fn classify_eio_is_expected_absence() {
    let buf = [0u8; 8];
    assert_eq!(classify_read(Err(5), &buf), ProbeOutcome::ExpectedFailure);
}

#[test]
fn classify_other_errno_is_unexpected() {
    let buf = [0u8; 8];
    assert_eq!(
        classify_read(Err(13), &buf),
        ProbeOutcome::UnexpectedFailure(ProbeFailure::Os(13))
    );
}

#[test]
fn open_errors_classified() {
    assert_eq!(classify_open_error(13), HandleError::PermissionDenied);
    assert_eq!(classify_open_error(2), HandleError::Fatal(2));
}

#[test]
fn config_rejects_overlapping_ranges() {
    assert!(ScanConfig::new(0, vec![range(0x0, 0x10), range(0x5, 0x15)]).is_none());
}

#[test]
fn config_rejects_inverted_range() {
    assert!(ScanConfig::new(0, vec![range(0x10, 0x5)]).is_none());
}

#[test]
fn config_accepts_unordered_disjoint_ranges() {
    assert!(ScanConfig::new(0, vec![range(0x10, 0x20), range(0x0, 0x5)]).is_some());
}

#[test]
fn address_count_matches_space() {
    let c = ScanConfig::new(0, vec![range(0x0, 0x4), range(0x10, 0x12)]).unwrap();
    assert_eq!(c.address_count(), Some(6));
    let e = ScanConfig::new(0, vec![range(0x7, 0x7)]).unwrap();
    assert_eq!(e.address_count(), Some(0));
}

#[test]
fn scenario_mixed_outcomes() {
    // space [0x0..0x4): 0x1 holds 0xAA, 0x3 is absent, 0x0 and 0x2 hold 0
    let space = ScanConfig::new(0, vec![range(0x0, 0x4)]).unwrap();
    let outcomes = vec![
        ProbeOutcome::Success(0x00),
        ProbeOutcome::Success(0xAA),
        ProbeOutcome::Success(0x00),
        ProbeOutcome::ExpectedFailure,
    ];
    let map = scan_with_outcomes(space, &outcomes).unwrap();
    assert_eq!(map.len(), 3);
    assert_eq!(map.get(0x0), Some(0x00));
    assert_eq!(map.get(0x1), Some(0xAA));
    assert_eq!(map.get(0x2), Some(0x00));
    assert_eq!(map.get(0x3), None);
    let lines = format_report(&map);
    assert_eq!(
        lines,
        vec![
            "00000000: 0000000000000000".to_string(),
            "00000001: 00000000000000aa".to_string(),
            "00000002: 0000000000000000".to_string(),
        ]
    );
}

#[test]
fn scenario_abort_on_unexpected() {
    // same space; the probe of 0x2 fails unexpectedly: no map comes out
    let space = ScanConfig::new(0, vec![range(0x0, 0x4)]).unwrap();
    let outcomes = vec![
        ProbeOutcome::Success(0x00),
        ProbeOutcome::Success(0xAA),
        ProbeOutcome::UnexpectedFailure(ProbeFailure::Os(19)),
        ProbeOutcome::Success(0x00),
    ];
    let r = scan_with_outcomes(space, &outcomes);
    assert_eq!(r.err(), Some(ProbeFailure::Os(19)));
}

#[test]
fn scan_is_deterministic() {
    // the same pure accessor, run twice over the same space, gives
    // byte-identical reports
    let ranges = vec![range(0x0, 0x10), range(0x40, 0x48)];
    let addrs = addresses_of(&ranges);
    let outcomes: Vec<ProbeOutcome> = addrs.iter().map(|a| fake_even_accessor(*a)).collect();

    let space1 = ScanConfig::new(0, ranges.clone()).unwrap();
    let map1 = scan_with_outcomes(space1, &outcomes).unwrap();
    let space2 = ScanConfig::new(0, ranges).unwrap();
    let map2 = scan_with_outcomes(space2, &outcomes).unwrap();

    assert_eq!(format_report(&map1), format_report(&map2));
    assert_eq!(map1.len(), 12);
    assert_eq!(map1.get(0x6), Some(0xc));
    assert_eq!(map1.get(0x7), None);
    assert_eq!(map1.get(0x44), Some(0x88));
}

#[test]
fn driver_probes_each_address_once_in_order() {
    // an empty range in the middle contributes nothing; every other
    // address is handed out exactly once, in the listed ranges' order
    let space =
        ScanConfig::new(0, vec![range(0x10, 0x13), range(0x5, 0x5), range(0x0, 0x2)]).unwrap();
    let mut scanner = Scanner::new(space);
    let mut probed = Vec::new();
    while let Some(addr) = scanner.next_address() {
        probed.push(addr);
        let step = scanner.record(ProbeOutcome::ExpectedFailure);
        assert_eq!(step, ScanStep::Skipped);
    }
    assert_eq!(probed, vec![0x10, 0x11, 0x12, 0x0, 0x1]);
    let map = scanner.finish().unwrap();
    assert_eq!(map.len(), 0);
}

#[test]
fn driver_stops_at_first_unexpected_failure() {
    let space = ScanConfig::new(0, vec![range(0x0, 0x8)]).unwrap();
    let mut scanner = Scanner::new(space);
    assert_eq!(scanner.next_address(), Some(0x0));
    assert_eq!(scanner.record(ProbeOutcome::Success(7)), ScanStep::Found);
    assert_eq!(scanner.next_address(), Some(0x1));
    assert_eq!(
        scanner.record(ProbeOutcome::UnexpectedFailure(ProbeFailure::ShortRead(0))),
        ScanStep::Aborted
    );
    // no further address is handed out, and no map is released
    assert_eq!(scanner.next_address(), None);
    assert_eq!(scanner.finish().err(), Some(ProbeFailure::ShortRead(0)));
}

#[test]
fn skipped_addresses_leave_no_entry() {
    let space = ScanConfig::new(0, vec![range(0x0, 0x2)]).unwrap();
    let outcomes = vec![ProbeOutcome::ExpectedFailure, ProbeOutcome::Success(1)];
    let map = scan_with_outcomes(space, &outcomes).unwrap();
    assert_eq!(map.get(0x0), None);
    assert_eq!(map.get(0x1), Some(1));
    assert_eq!(map.len(), 1);
}

#[test]
fn empty_space_scans_to_empty_map() {
    let space = ScanConfig::new(0, vec![]).unwrap();
    let outcomes = Vec::new();
    let map = scan_with_outcomes(space, &outcomes).unwrap();
    assert_eq!(map.len(), 0);
    assert_eq!(format_report(&map).len(), 0);
}
