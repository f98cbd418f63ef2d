use raggre::{
    address_from_bits, find_slash, generation_plan, netblock_from_bits,
    decimal_text, from_parts, from_record, generate_random_ipv4, generate_random_ipv4_netblock,
    generate_random_ipv6, generate_random_ipv6_netblock, merge_sweep, parse_length, random_netblock,
    sort_prefixes, NetblockParseError, Prefix, IPV4_WIDTH, IPV6_WIDTH,
};

fn v4(a: u8, b: u8, c: u8, d: u8) -> u128 {
    ((a as u128) << 24) | ((b as u128) << 16) | ((c as u128) << 8) | (d as u128)
}

fn net4(a: u8, b: u8, c: u8, d: u8, len: u8) -> Prefix {
    Prefix { addr: v4(a, b, c, d), len }
}

#[test]
fn new_masks_low_bits() {
    assert_eq!(Prefix::new(v4(1, 2, 3, 4), 24, IPV4_WIDTH), net4(1, 2, 3, 0, 24));
    assert_eq!(Prefix::new(v4(255, 255, 255, 255), 0, IPV4_WIDTH), net4(0, 0, 0, 0, 0));
    assert_eq!(Prefix::new(v4(10, 1, 2, 3), 32, IPV4_WIDTH), net4(10, 1, 2, 3, 32));
    assert_eq!(Prefix::new(u128::MAX, 0, IPV6_WIDTH), Prefix { addr: 0, len: 0 });
    assert_eq!(Prefix::new(u128::MAX, 64, IPV6_WIDTH), Prefix { addr: u128::MAX << 64, len: 64 });
}

#[test]
fn contains_cases() {
    let a = net4(10, 0, 0, 0, 8);
    assert!(a.contains(&net4(10, 20, 0, 0, 16), IPV4_WIDTH));
    assert!(a.contains(&a, IPV4_WIDTH));
    assert!(!net4(10, 20, 0, 0, 16).contains(&a, IPV4_WIDTH));
    assert!(!a.contains(&net4(11, 0, 0, 0, 16), IPV4_WIDTH));
    assert!(net4(0, 0, 0, 0, 0).contains(&net4(255, 255, 255, 255, 32), IPV4_WIDTH));
    assert!(Prefix { addr: 0, len: 0 }.contains(&Prefix { addr: u128::MAX, len: 128 }, IPV6_WIDTH));
}

#[test]
fn sibling_cases() {
    assert!(net4(10, 0, 0, 0, 24).aggregateable_with(&net4(10, 0, 1, 0, 24), IPV4_WIDTH));
    assert!(net4(10, 0, 1, 0, 24).aggregateable_with(&net4(10, 0, 0, 0, 24), IPV4_WIDTH));
    assert!(!net4(10, 0, 1, 0, 24).aggregateable_with(&net4(10, 0, 2, 0, 24), IPV4_WIDTH));
    assert!(!net4(10, 0, 0, 0, 24).aggregateable_with(&net4(10, 0, 0, 0, 23), IPV4_WIDTH));
    assert!(!net4(0, 0, 0, 0, 0).aggregateable_with(&net4(0, 0, 0, 0, 0), IPV4_WIDTH));
    assert!(Prefix { addr: 0, len: 1 }.aggregateable_with(&Prefix { addr: 1 << 127, len: 1 }, IPV6_WIDTH));
}

#[test]
fn aggregate_gives_parent() {
    assert_eq!(
        net4(10, 0, 1, 0, 24).aggregate(&net4(10, 0, 0, 0, 24), IPV4_WIDTH),
        Some(net4(10, 0, 0, 0, 23))
    );
    assert_eq!(net4(10, 0, 1, 0, 24).aggregate(&net4(10, 0, 2, 0, 24), IPV4_WIDTH), None);
    assert_eq!(net4(128, 0, 0, 0, 1).aggregate(&net4(0, 0, 0, 0, 1), IPV4_WIDTH), Some(net4(0, 0, 0, 0, 0)));
}

#[test]
fn is_canonical_cases() {
    assert!(net4(1, 2, 3, 0, 24).is_canonical(IPV4_WIDTH));
    assert!(!net4(1, 2, 3, 4, 24).is_canonical(IPV4_WIDTH));
    assert!(net4(0, 0, 0, 0, 0).is_canonical(IPV4_WIDTH));
    assert!(!net4(0, 0, 0, 1, 0).is_canonical(IPV4_WIDTH));
    assert!(Prefix { addr: u128::MAX, len: 128 }.is_canonical(IPV6_WIDTH));
}

#[test]
fn sort_orders_by_address_then_length() {
    let v = vec![net4(10, 0, 0, 0, 24), net4(9, 0, 0, 0, 8), net4(10, 0, 0, 0, 16), net4(10, 0, 0, 0, 24)];
    assert_eq!(
        sort_prefixes(&v),
        vec![net4(9, 0, 0, 0, 8), net4(10, 0, 0, 0, 16), net4(10, 0, 0, 0, 24), net4(10, 0, 0, 0, 24)]
    );
}

#[test]
fn one_sweep_reports_change() {
    let v = vec![net4(10, 0, 0, 0, 24), net4(10, 0, 1, 0, 24), net4(10, 0, 1, 5, 32), net4(10, 0, 4, 0, 24)];
    assert_eq!(merge_sweep(&v, IPV4_WIDTH), (vec![net4(10, 0, 0, 0, 23), net4(10, 0, 4, 0, 24)], true));
    let stable = vec![net4(10, 0, 0, 0, 23), net4(10, 0, 4, 0, 24)];
    assert_eq!(merge_sweep(&stable, IPV4_WIDTH), (stable.clone(), false));
    assert_eq!(merge_sweep(&vec![], IPV4_WIDTH), (vec![], false));
}

#[test]
fn parse_length_accepts_decimal_within_width() {
    assert_eq!(parse_length(b"24", IPV4_WIDTH), Some(24));
    assert_eq!(parse_length(b"0", IPV4_WIDTH), Some(0));
    assert_eq!(parse_length(b"32", IPV4_WIDTH), Some(32));
    assert_eq!(parse_length(b"+8", IPV4_WIDTH), Some(8));
    assert_eq!(parse_length(b"008", IPV4_WIDTH), Some(8));
    assert_eq!(parse_length(b"128", IPV6_WIDTH), Some(128));
}

#[test]
fn parse_length_rejects_bad_text() {
    assert_eq!(parse_length(b"33", IPV4_WIDTH), None);
    assert_eq!(parse_length(b"129", IPV6_WIDTH), None);
    assert_eq!(parse_length(b"300", IPV6_WIDTH), None);
    assert_eq!(parse_length(b"", IPV4_WIDTH), None);
    assert_eq!(parse_length(b"+", IPV4_WIDTH), None);
    assert_eq!(parse_length(b"-1", IPV4_WIDTH), None);
    assert_eq!(parse_length(b"2a", IPV4_WIDTH), None);
    assert_eq!(parse_length(b" 24", IPV4_WIDTH), None);
}

#[test]
fn record_errors() {
    assert_eq!(from_record(v4(10, 0, 0, 0), Some(b"33"), IPV4_WIDTH, false), Err(NetblockParseError::BadLength));
    assert_eq!(from_record(v4(10, 0, 0, 0), Some(b"x"), IPV4_WIDTH, true), Err(NetblockParseError::BadLength));
    assert_eq!(from_parts(v4(10, 0, 0, 0), Some(40), IPV4_WIDTH, false), Err(NetblockParseError::BadLength));
    assert_eq!(from_parts(v4(10, 0, 0, 1), Some(8), IPV4_WIDTH, true), Err(NetblockParseError::NotCanonical));
}

#[test]
fn record_defaults_and_masking() {
    assert_eq!(from_record(v4(10, 0, 0, 1), None, IPV4_WIDTH, true), Ok(net4(10, 0, 0, 1, 32)));
    assert_eq!(from_parts(v4(10, 0, 0, 1), Some(8), IPV4_WIDTH, false), Ok(net4(10, 0, 0, 0, 8)));
    assert_eq!(from_parts(u128::MAX, None, IPV6_WIDTH, true), Ok(Prefix { addr: u128::MAX, len: 128 }));
}

#[test]
fn decimal_text_values() {
    assert_eq!(decimal_text(0), b"0".to_vec());
    assert_eq!(decimal_text(7), b"7".to_vec());
    assert_eq!(decimal_text(24), b"24".to_vec());
    assert_eq!(decimal_text(128), b"128".to_vec());
    assert_eq!(decimal_text(255), b"255".to_vec());
}

#[test]
fn length_text_round_trip() {
    for p in [net4(10, 0, 0, 0, 8), net4(0, 0, 0, 0, 0), net4(1, 2, 3, 4, 32), net4(192, 168, 0, 0, 16)] {
        let text = decimal_text(p.len);
        assert_eq!(from_record(p.addr, Some(&text), IPV4_WIDTH, true), Ok(p));
        assert_eq!(from_record(p.addr, Some(&text), IPV4_WIDTH, false), Ok(p));
    }
    let q = Prefix { addr: 0x2001_0db8u128 << 96, len: 32 };
    assert_eq!(from_record(q.addr, Some(&decimal_text(q.len)), IPV6_WIDTH, true), Ok(q));
}

#[test]
fn random_generators_give_canonical_blocks() {
    for _ in 0..50 {
        let h = generate_random_ipv4();
        assert_eq!(h.len, 32);
        assert!(h.addr < (1u128 << 32));
        let n = generate_random_ipv4_netblock();
        assert!((16..=31).contains(&n.len));
        assert!(n.addr < (1u128 << 32));
        assert!(n.is_canonical(IPV4_WIDTH));
        let h6 = generate_random_ipv6();
        assert_eq!(h6.len, 128);
        let n6 = generate_random_ipv6_netblock();
        assert!((32..=127).contains(&n6.len));
        assert!(n6.is_canonical(IPV6_WIDTH));
        let r = random_netblock(IPV4_WIDTH, 20, 20);
        assert_eq!(r.len, 20);
        assert_eq!(r.addr & 0xfff, 0);
    }
}

#[test]
fn random_draws_vary() {
    let lens: std::collections::BTreeSet<u8> = (0..200).map(|_| generate_random_ipv4_netblock().len).collect();
    assert!(lens.len() > 1);
    let addrs: std::collections::BTreeSet<u128> = (0..20).map(|_| generate_random_ipv6().addr).collect();
    assert!(addrs.len() > 1);
}

#[test]
fn identical_blocks_are_not_siblings() {
    let a = net4(10, 0, 0, 0, 24);
    assert!(!a.aggregateable_with(&a, IPV4_WIDTH));
    assert_eq!(a.aggregate(&a, IPV4_WIDTH), None);
    let z = net4(0, 0, 0, 0, 0);
    assert_eq!(z.aggregate(&z, IPV4_WIDTH), None);
    let h = Prefix { addr: 1u128 << 127, len: 1 };
    assert_eq!(h.aggregate(&h, IPV6_WIDTH), None);
}

#[test]
fn address_from_bits_keeps_low_bits() {
    assert_eq!(address_from_bits(0x1_2345_6789, IPV4_WIDTH), 0x2345_6789);
    assert_eq!(address_from_bits(u128::MAX, IPV4_WIDTH), 0xffff_ffff);
    assert_eq!(address_from_bits(u128::MAX, IPV6_WIDTH), u128::MAX);
    assert_eq!(address_from_bits(0xdead, IPV6_WIDTH), 0xdead);
}

#[test]
fn find_slash_positions() {
    assert_eq!(find_slash(b"10.0.0.0/24"), Some(8));
    assert_eq!(find_slash(b"10.0.0.1"), None);
    assert_eq!(find_slash(b"/8"), Some(0));
    assert_eq!(find_slash(b"1.2.3.4/24/5"), Some(7));
    assert_eq!(find_slash(b""), None);
}

#[test]
fn parse_error_message() {
    assert_eq!(NetblockParseError::BadLength.message(IPV4_WIDTH), "invalid netblock format");
    assert_eq!(NetblockParseError::NotCanonical.message(IPV4_WIDTH), "invalid netblock format");
    assert_eq!(NetblockParseError::BadLength.message(IPV6_WIDTH), "invalid IPv6 netblock format");
    assert_eq!(NetblockParseError::NotCanonical.message(IPV6_WIDTH), "invalid IPv6 netblock format");
}

#[test]
fn netblock_from_bits_masks_to_width_and_length() {
    assert_eq!(netblock_from_bits(0xff_0a01_0203, 16, IPV4_WIDTH), net4(10, 1, 0, 0, 16));
    assert_eq!(netblock_from_bits(u128::MAX, 0, IPV4_WIDTH), net4(0, 0, 0, 0, 0));
    assert_eq!(netblock_from_bits(u128::MAX, 64, IPV6_WIDTH), Prefix { addr: u128::MAX << 64, len: 64 });
    assert_eq!(netblock_from_bits(0xabcd, 128, IPV6_WIDTH), Prefix { addr: 0xabcd, len: 128 });
}

#[test]
fn generation_plan_halves() {
    assert_eq!(generation_plan(10), (5, 5));
    assert_eq!(generation_plan(7), (3, 3));
    assert_eq!(generation_plan(0), (0, 0));
}
