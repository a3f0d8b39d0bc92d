use virtual_dns::addr::IpAddr;
use virtual_dns::virtual_dns::{IpRange, VirtualDns};

fn v4(a: u8, b: u8, c: u8, d: u8) -> IpAddr {
    IpAddr::v4(a, b, c, d)
}

fn table(first: IpAddr, last: IpAddr) -> VirtualDns {
    VirtualDns::new(IpRange { first, last })
}

fn small_table() -> VirtualDns {
    table(v4(10, 0, 0, 0), v4(10, 0, 0, 3))
}

fn fill_four(dns: &mut VirtualDns) -> Vec<IpAddr> {
    ["a.com", "b.com", "c.com", "d.com"]
        .iter()
        .map(|n| dns.find_or_allocate_ip(n.to_string()))
        .collect()
}

#[test]
fn four_names_take_the_pool_in_order() {
    let mut dns = small_table();
    assert_eq!(dns.capacity(), 4);
    let got = fill_four(&mut dns);
    assert_eq!(got, vec![v4(10, 0, 0, 0), v4(10, 0, 0, 1), v4(10, 0, 0, 2), v4(10, 0, 0, 3)]);
    assert_eq!(dns.len(), 4);
}

#[test]
fn fifth_name_evicts_least_recently_used() {
    let mut dns = small_table();
    fill_four(&mut dns);
    let e = dns.find_or_allocate_ip("e.com".to_string());
    assert_eq!(e, v4(10, 0, 0, 0));
    assert_eq!(dns.resolve_ip(&v4(10, 0, 0, 0)), Some("e.com".to_string()));
    assert_eq!(dns.ip_of_name(&"a.com".to_string()), None);
    assert_eq!(dns.ip_of_name(&"e.com".to_string()), Some(v4(10, 0, 0, 0)));
    assert_eq!(dns.len(), 4);
}

#[test]
fn touched_entry_survives_eviction() {
    let mut dns = small_table();
    fill_four(&mut dns);
    dns.touch_ip(&v4(10, 0, 0, 0));
    let e = dns.find_or_allocate_ip("e.com".to_string());
    assert_eq!(e, v4(10, 0, 0, 1));
    assert_eq!(dns.ip_of_name(&"b.com".to_string()), None);
    assert_eq!(dns.ip_of_name(&"a.com".to_string()), Some(v4(10, 0, 0, 0)));
    assert_eq!(dns.resolve_ip(&v4(10, 0, 0, 1)), Some("e.com".to_string()));
}

#[test]
fn resolved_entry_survives_eviction() {
    let mut dns = small_table();
    fill_four(&mut dns);
    assert_eq!(dns.resolve_ip(&v4(10, 0, 0, 0)), Some("a.com".to_string()));
    let e = dns.find_or_allocate_ip("e.com".to_string());
    assert_eq!(e, v4(10, 0, 0, 1));
    assert_eq!(dns.resolve_ip(&v4(10, 0, 0, 0)), Some("a.com".to_string()));
}

#[test]
fn trailing_dot_is_stripped_by_default() {
    let mut dns = small_table();
    let first = dns.find_or_allocate_ip("www.test.org.".to_string());
    let second = dns.find_or_allocate_ip("www.test.org".to_string());
    assert_eq!(first, second);
    assert_eq!(dns.len(), 1);
    assert_eq!(dns.resolve_ip(&first), Some("www.test.org".to_string()));
}

#[test]
fn only_one_trailing_dot_is_stripped() {
    let mut dns = small_table();
    let a = dns.find_or_allocate_ip("x.org..".to_string());
    assert_eq!(dns.resolve_ip(&a), Some("x.org.".to_string()));
    let b = dns.find_or_allocate_ip("x.org".to_string());
    assert_ne!(a, b);
}

#[test]
fn kept_trailing_dot_makes_two_names() {
    let mut dns = small_table();
    dns.set_trailing_dot(true);
    let with_dot = dns.find_or_allocate_ip("example.com.".to_string());
    let without = dns.find_or_allocate_ip("example.com".to_string());
    assert_ne!(with_dot, without);
    assert_eq!(dns.resolve_ip(&with_dot), Some("example.com.".to_string()));
    assert_eq!(dns.len(), 2);
}

#[test]
fn single_address_pool_reuses_its_address() {
    let mut dns = table(v4(192, 168, 1, 1), v4(192, 168, 1, 1));
    assert_eq!(dns.capacity(), 1);
    let a = dns.find_or_allocate_ip("first.example".to_string());
    assert_eq!(a, v4(192, 168, 1, 1));
    let b = dns.find_or_allocate_ip("second.example".to_string());
    assert_eq!(b, v4(192, 168, 1, 1));
    assert_eq!(dns.resolve_ip(&b), Some("second.example".to_string()));
    assert_eq!(dns.ip_of_name(&"first.example".to_string()), None);
}

#[test]
fn repeated_request_keeps_address() {
    let mut dns = small_table();
    let a = dns.find_or_allocate_ip("same.net".to_string());
    dns.find_or_allocate_ip("other.net".to_string());
    let again = dns.find_or_allocate_ip("same.net".to_string());
    let third = dns.find_or_allocate_ip("same.net".to_string());
    assert_eq!(a, again);
    assert_eq!(a, third);
    assert_eq!(dns.len(), 2);
}

#[test]
fn occupancy_never_exceeds_capacity() {
    let mut dns = small_table();
    for i in 0..20u32 {
        dns.find_or_allocate_ip(format!("host{}.test", i));
        assert!(dns.len() <= dns.capacity());
    }
    assert_eq!(dns.len(), 4);
}

#[test]
fn eviction_unbinds_old_name_and_rebinds_address() {
    let mut dns = small_table();
    fill_four(&mut dns);
    dns.find_or_allocate_ip("e.com".to_string());
    let f = dns.find_or_allocate_ip("f.com".to_string());
    assert_eq!(f, v4(10, 0, 0, 1));
    assert_eq!(dns.resolve_ip(&f), Some("f.com".to_string()));
    assert_eq!(dns.ip_of_name(&"b.com".to_string()), None);
    assert_eq!(dns.ip_of_name(&"c.com".to_string()), Some(v4(10, 0, 0, 2)));
}

#[test]
fn resolve_unknown_and_foreign_addresses() {
    let mut dns = small_table();
    assert_eq!(dns.resolve_ip(&v4(10, 0, 0, 2)), None);
    let a = dns.find_or_allocate_ip("a.com".to_string());
    let mut v6 = vec![0u8; 12];
    v6.extend_from_slice(&a.octets);
    let foreign = IpAddr::from_octets(v6).unwrap();
    assert_eq!(dns.resolve_ip(&foreign), None);
    dns.touch_ip(&foreign);
    assert_eq!(dns.resolve_ip(&a), Some("a.com".to_string()));
}

#[test]
fn ipv6_pool_allocates_in_order() {
    let mut first = vec![0xfd, 0, 0, 0, 0, 0, 0, 0, 0, 0, 0, 0, 0, 0, 0, 0xfe];
    let mut last = first.clone();
    last[15] = 0xff;
    last[14] = 0x00;
    first[14] = 0x00;
    let first_ip = IpAddr::from_octets(first.clone()).unwrap();
    let last_ip = IpAddr::from_octets(last).unwrap();
    let mut dns = table(first_ip.clone(), last_ip.clone());
    assert_eq!(dns.capacity(), 2);
    assert_eq!(dns.find_or_allocate_ip("one.v6".to_string()), first_ip);
    assert_eq!(dns.find_or_allocate_ip("two.v6".to_string()), last_ip);
    assert_eq!(dns.find_or_allocate_ip("three.v6".to_string()), first_ip);
}

#[test]
fn whole_ipv6_space_has_saturated_capacity() {
    let dns = table(
        IpAddr::from_octets(vec![0; 16]).unwrap(),
        IpAddr::from_octets(vec![255; 16]).unwrap(),
    );
    assert_eq!(dns.capacity(), usize::MAX);
    assert_eq!(dns.len(), 0);
}

#[test]
fn addresses_follow_the_cursor_in_a_larger_pool() {
    let mut dns = table(v4(10, 0, 0, 0), v4(10, 0, 0, 7));
    for n in ["a", "b", "c"] {
        dns.find_or_allocate_ip(n.to_string());
    }
    assert_eq!(dns.find_or_allocate_ip("d".to_string()), v4(10, 0, 0, 3));
}

#[test]
fn names_and_addresses_stay_paired_through_evictions() {
    let mut dns = table(v4(10, 0, 0, 0), v4(10, 0, 0, 2));
    let names: Vec<String> = (0..7).map(|i| format!("n{}.example", i)).collect();
    let mut last = Vec::new();
    for n in &names {
        last.push((n.clone(), dns.find_or_allocate_ip(n.clone())));
    }
    // the three most recent names are live, each at its own address
    for (n, a) in &last[4..] {
        assert_eq!(dns.ip_of_name(n), Some(a.clone()));
        assert_eq!(dns.resolve_ip(a), Some(n.clone()));
    }
    for (n, _) in &last[..4] {
        assert_eq!(dns.ip_of_name(n), None);
    }
    assert_eq!(dns.len(), 3);
}
