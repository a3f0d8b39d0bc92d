use virtual_dns::addr::IpAddr;
use virtual_dns::virtual_dns::VirtualDns;

#[test]
fn increment_carries_into_next_octet() {
    let r = VirtualDns::increment_ip(&IpAddr::v4(10, 0, 0, 255));
    assert_eq!(r, IpAddr::v4(10, 0, 1, 0));
}

#[test]
fn increment_without_carry() {
    let r = VirtualDns::increment_ip(&IpAddr::v4(10, 0, 0, 3));
    assert_eq!(r, IpAddr::v4(10, 0, 0, 4));
}

#[test]
fn increment_of_broadcast_leaves_pool() {
    // broadcast of 10.0.0.0/16 is 10.0.255.255
    let r = VirtualDns::increment_ip(&IpAddr::v4(10, 0, 255, 255));
    assert_eq!(r, IpAddr::v4(10, 1, 0, 0));
    assert!(r.to_u128() > IpAddr::v4(10, 0, 255, 255).to_u128());
}

#[test]
fn increment_of_all_max_overflows_to_zero() {
    let r = VirtualDns::increment_ip(&IpAddr::v4(255, 255, 255, 255));
    assert_eq!(r, IpAddr::v4(0, 0, 0, 0));
    let v6 = IpAddr::from_octets(vec![255; 16]).unwrap();
    assert_eq!(VirtualDns::increment_ip(&v6).octets, vec![0u8; 16]);
}

#[test]
fn increment_ipv6_carries() {
    let mut o = vec![0u8; 16];
    o[14] = 1;
    o[15] = 255;
    let r = VirtualDns::increment_ip(&IpAddr::from_octets(o).unwrap());
    let mut want = vec![0u8; 16];
    want[14] = 2;
    assert_eq!(r.octets, want);
}

#[test]
fn address_values_round_trip() {
    let a = IpAddr::v4(192, 168, 1, 1);
    assert_eq!(a.to_u128(), 0xc0a8_0101);
    assert_eq!(IpAddr::from_u128(0xc0a8_0101, 4), a);
    let b = IpAddr::from_u128(1, 16);
    let mut want = vec![0u8; 16];
    want[15] = 1;
    assert_eq!(b.octets, want);
    assert!(b.to_u128() == 1 && !b.is_ipv4());
}

#[test]
fn octets_of_wrong_length_are_refused() {
    assert!(IpAddr::from_octets(vec![1, 2, 3]).is_none());
    assert!(IpAddr::from_octets(vec![1, 2, 3, 4]).is_some());
}
