use placard::net::{is_globally_reachable, IpAddress};

#[test]
fn rejects_private_and_loopback_and_link_local_v4() {
    assert!(!is_globally_reachable(IpAddress::V4([10, 0, 0, 1])));
    assert!(!is_globally_reachable(IpAddress::V4([192, 168, 1, 1])));
    assert!(!is_globally_reachable(IpAddress::V4([172, 16, 0, 1])));
    assert!(!is_globally_reachable(IpAddress::V4([127, 0, 0, 1])));
    assert!(!is_globally_reachable(IpAddress::V4([169, 254, 169, 254])));
}

#[test]
fn rejects_loopback_and_unique_local_v6() {
    assert!(!is_globally_reachable(IpAddress::V6([0, 0, 0, 0, 0, 0, 0, 1])));
    assert!(!is_globally_reachable(IpAddress::V6([0xfc00, 0, 0, 0, 0, 0, 0, 1])));
    assert!(!is_globally_reachable(IpAddress::V6([0xfe80, 0, 0, 0, 0, 0, 0, 1])));
}

#[test]
fn rejects_ipv4_mapped_private_addresses() {
    // ::ffff:10.0.0.1 follows the IPv4 rules.
    let mapped = [0, 0, 0, 0, 0, 0xffff, 0x0a00, 0x0001];
    assert!(!is_globally_reachable(IpAddress::V6(mapped)));
}

#[test]
fn accepts_ordinary_public_addresses() {
    assert!(is_globally_reachable(IpAddress::V4([8, 8, 8, 8])));
    assert!(is_globally_reachable(IpAddress::V6([
        0x2001, 0x4860, 0, 0, 0, 0, 0, 0x8888
    ])));
}

#[test]
fn ipv4_mapped_public_address_is_reachable() {
    let mapped = [0, 0, 0, 0, 0, 0xffff, 0x0808, 0x0808];
    assert!(is_globally_reachable(IpAddress::V6(mapped)));
}

#[test]
fn documentation_broadcast_and_unspecified_are_not_reachable() {
    assert!(!is_globally_reachable(IpAddress::V4([192, 0, 2, 7])));
    assert!(!is_globally_reachable(IpAddress::V4([203, 0, 113, 1])));
    assert!(!is_globally_reachable(IpAddress::V4([255, 255, 255, 255])));
    assert!(!is_globally_reachable(IpAddress::V4([0, 0, 0, 0])));
    assert!(!is_globally_reachable(IpAddress::V4([224, 0, 0, 1])));
    assert!(!is_globally_reachable(IpAddress::V6([0, 0, 0, 0, 0, 0, 0, 0])));
    assert!(!is_globally_reachable(IpAddress::V6([0xff02, 0, 0, 0, 0, 0, 0, 1])));
}

#[test]
fn edges_of_the_private_ranges() {
    assert!(is_globally_reachable(IpAddress::V4([172, 15, 255, 255])));
    assert!(!is_globally_reachable(IpAddress::V4([172, 31, 0, 1])));
    assert!(is_globally_reachable(IpAddress::V4([172, 32, 0, 1])));
    assert!(is_globally_reachable(IpAddress::V6([0xfbff, 0, 0, 0, 0, 0, 0, 1])));
    assert!(!is_globally_reachable(IpAddress::V6([0xfebf, 0, 0, 0, 0, 0, 0, 1])));
    assert!(is_globally_reachable(IpAddress::V6([0xfec0, 0, 0, 0, 0, 0, 0, 1])));
}
