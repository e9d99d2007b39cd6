use memscan::MemRegionErr;
use memscan::Proc;
use memscan::parser::parse_line;
use memscan::parser::parse_maps_bytes;

fn parse_one(line: &[u8]) -> memscan::MemRegion {
    parse_line(line).expect("line should match the grammar")
}

#[test]
fn parses_basic_line() {
    let r = parse_one(b"559e1000-559e5000 r-xp 00002000 08:01 1234567 /usr/bin/dummy");
    assert_eq!(r.start_addr, 0x559e1000);
    assert_eq!(r.end_addr, 0x559e5000);
    assert_eq!(r.size, 0x4000);
    assert!(r.readable);
    assert!(!r.writeable);
    assert!(r.execable);
    assert!(r.private);
    assert!(!r.shared);
    assert_eq!(r.name, Some(b"/usr/bin/dummy".to_vec()));
}

#[test]
fn size_is_span_of_addresses() {
    let samples: [&[u8]; 3] = [
        b"0-1 ---p 0 0:0 0",
        b"7ffd1000-7ffd3000 rw-p 00000000 00:00 0 [stack]",
        b"ffffffffff600000-ffffffffff601000 --xp 00000000 00:00 0 [vsyscall]",
    ];
    for line in samples {
        let r = parse_one(line);
        assert!(r.end_addr > r.start_addr);
        assert_eq!(r.size as u64, r.end_addr - r.start_addr);
    }
}

#[test]
fn empty_map_is_an_error_not_an_empty_list() {
    assert_eq!(parse_maps_bytes(b""), Err(MemRegionErr::Empty));
    assert_eq!(parse_maps_bytes(b"\n\n\n"), Err(MemRegionErr::Empty));
    assert_eq!(
        parse_maps_bytes(b"no region here\nstill nothing\n"),
        Err(MemRegionErr::Empty)
    );
}

#[test]
fn parsing_twice_yields_equal_lists() {
    let text: &[u8] = b"1000-2000 r-xp 00000000 08:01 42 /lib/a.so\n\
                        3000-4000 rw-p 00000000 00:00 0\n\
                        5000-6000 rw-s 00000000 00:05 7 /dev/shm/x\n";
    let first = parse_maps_bytes(text).unwrap();
    let second = parse_maps_bytes(text).unwrap();
    assert_eq!(first, second);
}

#[test]
fn flags_r_x_private() {
    let r = parse_one(b"1000-2000 r-xp 00000000 08:01 42");
    assert!(r.readable);
    assert!(!r.writeable);
    assert!(r.execable);
    assert!(r.private);
    assert!(!r.shared);
}

#[test]
fn flags_rw_shared() {
    let r = parse_one(b"1000-2000 rw-s 00000000 08:01 42");
    assert!(r.readable);
    assert!(r.writeable);
    assert!(!r.execable);
    assert!(!r.private);
    assert!(r.shared);
}

#[test]
fn fourth_flag_dash_sets_neither_private_nor_shared() {
    let r = parse_one(b"1000-2000 rw-- 00000000 08:01 42");
    assert!(!r.private);
    assert!(!r.shared);
}

#[test]
fn missing_name_is_none() {
    assert_eq!(parse_one(b"1000-2000 rw-p 00000000 00:00 0").name, None);
    assert_eq!(parse_one(b"1000-2000 rw-p 00000000 00:00 0   ").name, None);
}

#[test]
fn name_is_kept_verbatim() {
    let r = parse_one(b"1000-2000 rw-p 00000000 08:11 99          /tmp/with space (deleted)");
    assert_eq!(r.name, Some(b"/tmp/with space (deleted)".to_vec()));
    let r = parse_one(b"1000-2000 rw-p 00000000 00:00 0 [heap]");
    assert_eq!(r.name, Some(b"[heap]".to_vec()));
}

#[test]
fn malformed_lines_are_skipped() {
    let text: &[u8] = b"garbage\n\
                        1000-2000 r-xp 00000000 08:01 42 /lib/a.so\n\
                        1000 2000 rw-p 00000000 08:01 42\n\
                        3000-4000 rwqp 00000000 08:01 42\n\
                        5000-6000 rw-p 00000000 08:01 42\n";
    let regions = parse_maps_bytes(text).unwrap();
    assert_eq!(regions.len(), 2);
    assert_eq!(regions[0].start_addr, 0x1000);
    assert_eq!(regions[1].start_addr, 0x5000);
}

#[test]
fn address_too_wide_is_skipped() {
    // seventeen hexadecimal digits exceed a 64-bit address
    let text: &[u8] = b"10000000000000000-10000000000000001 rw-p 0 0:0 0\n";
    assert_eq!(parse_maps_bytes(text), Err(MemRegionErr::Empty));
}

#[test]
fn end_not_above_start_is_skipped() {
    assert_eq!(
        parse_maps_bytes(b"2000-2000 rw-p 0 0:0 0\n"),
        Err(MemRegionErr::Empty)
    );
    assert_eq!(
        parse_maps_bytes(b"2000-1000 rw-p 0 0:0 0\n"),
        Err(MemRegionErr::Empty)
    );
}

#[test]
fn regions_keep_line_order() {
    let text: &[u8] = b"5000-6000 rw-p 0 0:0 0\n1000-2000 rw-p 0 0:0 0\n";
    let regions = parse_maps_bytes(text).unwrap();
    assert_eq!(regions[0].start_addr, 0x5000);
    assert_eq!(regions[1].start_addr, 0x1000);
}

#[test]
fn carriage_return_line_ending_is_accepted() {
    let regions = parse_maps_bytes(b"1000-2000 rw-p 0 0:0 0 [heap]\r\n").unwrap();
    assert_eq!(regions[0].name, Some(b"[heap]".to_vec()));
}

#[test]
fn proc_parse_maps_fills_the_region_list() {
    let mut p = Proc::new("dummy".to_string(), 4242);
    assert_eq!(p.pid, 4242);
    assert!(p.regions.is_none());
    p.parse_maps(b"1000-2000 r--p 0 0:0 0\n").unwrap();
    let regions = p.regions.as_ref().unwrap();
    assert_eq!(regions.len(), 1);
    assert_eq!(regions[0].end_addr, 0x2000);
}

#[test]
fn proc_parse_maps_keeps_old_regions_on_error() {
    let mut p = Proc::new("dummy".to_string(), 1);
    p.parse_maps(b"1000-2000 r--p 0 0:0 0\n").unwrap();
    assert_eq!(p.parse_maps(b"nothing"), Err(MemRegionErr::Empty));
    assert_eq!(p.regions.as_ref().unwrap().len(), 1);
}
