use ringscan::ip_source::{build_host_ranges, host_count, host_range, Cidr, HostIter};

fn ip(a: u8, b: u8, c: u8, d: u8) -> u32 {
    u32::from_be_bytes([a, b, c, d])
}

fn hosts_of(cidrs: &Vec<Cidr>) -> Vec<u32> {
    let ranges = build_host_ranges(cidrs);
    let mut iter = HostIter::new(ranges);
    let mut out = Vec::new();
    while let Some(h) = iter.next() {
        out.push(h);
    }
    out
}

#[test]
fn slash_32_yields_no_hosts() {
    let c = Cidr { addr: ip(127, 0, 0, 1), prefix: 32 };
    assert!(host_range(&c).is_none());
    assert_eq!(hosts_of(&vec![c]), Vec::<u32>::new());
}

#[test]
fn slash_31_yields_two_hosts() {
    let c = Cidr { addr: ip(10, 0, 0, 0), prefix: 31 };
    let hr = host_range(&c).unwrap();
    assert_eq!(hr.lo, ip(10, 0, 0, 0));
    assert_eq!(hr.hi, ip(10, 0, 0, 1));
    assert_eq!(hosts_of(&vec![c]), vec![ip(10, 0, 0, 0), ip(10, 0, 0, 1)]);
}

#[test]
fn slash_30_yields_two_hosts() {
    let c = Cidr { addr: ip(10, 0, 0, 0), prefix: 30 };
    let hr = host_range(&c).unwrap();
    assert_eq!(hr.lo, ip(10, 0, 0, 1));
    assert_eq!(hr.hi, ip(10, 0, 0, 2));
    assert_eq!(hosts_of(&vec![c]), vec![ip(10, 0, 0, 1), ip(10, 0, 0, 2)]);
}

#[test]
fn network_bits_of_address_are_ignored() {
    // the address may sit anywhere inside the block
    let c = Cidr { addr: ip(192, 168, 1, 12), prefix: 28 };
    let hr = host_range(&c).unwrap();
    assert_eq!(hr.lo, ip(192, 168, 1, 1));
    assert_eq!(hr.hi, ip(192, 168, 1, 14));
}

#[test]
fn enumeration_order_of_inputs_is_irrelevant() {
    let a = Cidr { addr: ip(192, 168, 1, 12), prefix: 28 };
    let b = Cidr { addr: ip(192, 168, 1, 129), prefix: 30 };
    let ab = hosts_of(&vec![a, b]);
    let ba = hosts_of(&vec![b, a]);
    assert_eq!(ab, ba);
    assert_eq!(ab.len(), 14 + 2);
}

#[test]
fn duplicate_blocks_counted_once() {
    let a = Cidr { addr: ip(10, 0, 0, 0), prefix: 30 };
    let once = hosts_of(&vec![a]);
    let twice = hosts_of(&vec![a, a]);
    assert_eq!(once, twice);
    let ranges = build_host_ranges(&vec![a, a]);
    assert_eq!(host_count(&ranges), 2);
}

#[test]
fn overlapping_blocks_are_merged() {
    let small = Cidr { addr: ip(10, 0, 0, 0), prefix: 30 };
    let large = Cidr { addr: ip(10, 0, 0, 0), prefix: 29 };
    let merged = hosts_of(&vec![small, large]);
    // the /29 covers the /30: hosts are .1 through .6
    let expect: Vec<u32> = (1..=6).map(|d| ip(10, 0, 0, d)).collect();
    assert_eq!(merged, expect);
}

#[test]
fn adjacent_ranges_coalesce() {
    let a = Cidr { addr: ip(10, 0, 0, 0), prefix: 31 };
    let b = Cidr { addr: ip(10, 0, 0, 2), prefix: 31 };
    let ranges = build_host_ranges(&vec![a, b]);
    assert_eq!(ranges.len(), 1);
    assert_eq!(ranges[0].lo, ip(10, 0, 0, 0));
    assert_eq!(ranges[0].hi, ip(10, 0, 0, 3));
}

#[test]
fn host_count_sums_all_ranges() {
    let a = Cidr { addr: ip(192, 168, 1, 0), prefix: 28 };
    let b = Cidr { addr: ip(192, 168, 1, 129), prefix: 30 };
    let ranges = build_host_ranges(&vec![a, b]);
    assert_eq!(host_count(&ranges), 16);
}

#[test]
fn empty_input_enumerates_nothing() {
    let ranges = build_host_ranges(&Vec::new());
    assert_eq!(host_count(&ranges), 0);
    let mut iter = HostIter::new(ranges);
    assert!(iter.next().is_none());
}
