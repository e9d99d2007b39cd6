use memscan::Proc;
use memscan::MemRegionErr;

/// A process whose map holds one region per `(start, end)` pair, in order.
fn proc_with_regions(spans: &[(u64, u64)]) -> Proc {
    let mut text = Vec::new();
    for (start, end) in spans {
        text.extend_from_slice(format!("{:x}-{:x} rw-p 0 0:0 0 [anon]\n", start, end).as_bytes());
    }
    let mut p = Proc::new("dummy".to_string(), 1);
    p.parse_maps(&text).unwrap();
    p
}

#[test]
fn absent_pattern_yields_empty_success() {
    let p = proc_with_regions(&[(0x1000, 0x1010)]);
    let reads = vec![Some(vec![0u8; 16])];
    let results = p.search_new(b"\xde\xad", &reads).unwrap();
    assert!(results.is_empty());
}

#[test]
fn match_address_is_region_start_plus_offset() {
    let p = proc_with_regions(&[(0x1000, 0x1010)]);
    let mut buf = vec![0u8; 16];
    buf[5] = 0xde;
    buf[6] = 0xad;
    let reads = vec![Some(buf)];
    let results = p.search_new(b"\xde\xad", &reads).unwrap();
    assert_eq!(results.len(), 1);
    assert_eq!(results[0].results, vec![0x1005]);
}

#[test]
fn match_is_attributed_to_the_owning_region() {
    let mut text = Vec::new();
    text.extend_from_slice(b"1000-1010 r--p 0 0:0 0 /lib/first.so\n");
    text.extend_from_slice(b"2000-2010 r--p 0 0:0 0 /lib/second.so\n");
    let mut p = Proc::new("dummy".to_string(), 1);
    p.parse_maps(&text).unwrap();
    let mut buf = vec![0u8; 16];
    buf[3] = 0xfe;
    let reads = vec![Some(vec![0u8; 16]), Some(buf)];
    let results = p.search_new(b"\xfe", &reads).unwrap();
    assert_eq!(results.len(), 1);
    assert_eq!(results[0].module, Some(b"/lib/second.so".to_vec()));
    assert_eq!(results[0].results, vec![0x2003]);
}

#[test]
fn failed_read_skips_only_that_region() {
    let p = proc_with_regions(&[(0x1000, 0x1010), (0x2000, 0x2010)]);
    let mut buf = vec![0u8; 16];
    buf[0] = 0x77;
    let reads = vec![None, Some(buf)];
    let results = p.search_new(b"\x77", &reads).unwrap();
    assert_eq!(results.len(), 1);
    assert_eq!(results[0].results, vec![0x2000]);
}

#[test]
fn float_bytes_round_trip_to_one_match() {
    let value: f32 = 3.25;
    let pattern = value.to_le_bytes();
    let p = proc_with_regions(&[(0x4000, 0x4020)]);
    let mut buf = vec![0u8; 32];
    buf[9..13].copy_from_slice(&pattern);
    let reads = vec![Some(buf)];
    let results = p.search_new(&pattern, &reads).unwrap();
    assert_eq!(results.len(), 1);
    assert_eq!(results[0].results, vec![0x4009]);
}

#[test]
fn short_read_skips_the_region() {
    let p = proc_with_regions(&[(0x1000, 0x1010)]);
    // fifteen bytes for a sixteen-byte region: a short read
    let reads = vec![Some(vec![0x42u8; 15])];
    let results = p.search_new(b"\x42", &reads).unwrap();
    assert!(results.is_empty());
}

#[test]
fn occurrences_do_not_overlap() {
    let p = proc_with_regions(&[(0x1000, 0x1004)]);
    let reads = vec![Some(vec![b'a'; 4])];
    let results = p.search_new(b"aa", &reads).unwrap();
    assert_eq!(results[0].results, vec![0x1000, 0x1002]);
}

#[test]
fn every_occurrence_is_reported_in_order() {
    let p = proc_with_regions(&[(0x1000, 0x1008)]);
    let reads = vec![Some(b"xyxxyxxy".to_vec())];
    let results = p.search_new(b"xy", &reads).unwrap();
    assert_eq!(results[0].results, vec![0x1000, 0x1003, 0x1006]);
}

#[test]
fn pattern_cut_by_the_region_end_is_not_a_match() {
    let p = proc_with_regions(&[(0x1000, 0x1004)]);
    let reads = vec![Some(b"abcd".to_vec())];
    let results = p.search_new(b"de", &reads).unwrap();
    assert!(results.is_empty());
}

#[test]
fn scanning_without_a_parsed_map_is_an_error() {
    let p = Proc::new("dummy".to_string(), 1);
    let reads: Vec<Option<Vec<u8>>> = Vec::new();
    assert_eq!(p.search_new(b"\x01", &reads), Err(MemRegionErr::Empty));
}
