//! Which network addresses a fetch may connect to.

use vstd::prelude::*;

verus! {

/// An IP address: four octets, or eight 16-bit segments.
#[derive(Debug, Clone, Copy, PartialEq, Eq)]
pub enum IpAddress {
    V4([u8; 4]),
    V6([u16; 8]),
}

/// `Ipv4Addr::is_private`: 10.0.0.0/8, 172.16.0.0/12, 192.168.0.0/16.
pub open spec fn v4_private(o: Seq<u8>) -> bool {
    o[0] == 10 || (o[0] == 172 && 16 <= o[1] <= 31) || (o[0] == 192 && o[1] == 168)
}

/// `Ipv4Addr::is_documentation`: 192.0.2.0/24, 198.51.100.0/24,
/// 203.0.113.0/24.
pub open spec fn v4_documentation(o: Seq<u8>) -> bool {
    (o[0] == 192 && o[1] == 0 && o[2] == 2) || (o[0] == 198 && o[1] == 51 && o[2] == 100) || (o[0]
        == 203 && o[1] == 0 && o[2] == 113)
}

/// A globally reachable IPv4 address: not private, loopback (127/8),
/// link-local (169.254/16), multicast (224/4), broadcast, documentation or
/// unspecified.
pub open spec fn v4_global(o: Seq<u8>) -> bool {
    !(v4_private(o) || o[0] == 127 || (o[0] == 169 && o[1] == 254) || (224 <= o[0] <= 239) || (
    o[0] == 255 && o[1] == 255 && o[2] == 255 && o[3] == 255) || v4_documentation(o) || (o[0]
        == 0 && o[1] == 0 && o[2] == 0 && o[3] == 0))
}

/// An IPv6 address `::ffff:a.b.c.d` embedding an IPv4 address.
pub open spec fn v4_mapped(s: Seq<u16>) -> bool {
    s[0] == 0 && s[1] == 0 && s[2] == 0 && s[3] == 0 && s[4] == 0 && s[5] == 0xffff
}

/// The IPv4 octets an IPv4-mapped address embeds.
pub open spec fn mapped_octets(s: Seq<u16>) -> Seq<u8> {
    seq![(s[6] / 256) as u8, (s[6] % 256) as u8, (s[7] / 256) as u8, (s[7] % 256) as u8]
}

/// A globally reachable IPv6 address: not loopback (`::1`), multicast
/// (ff00::/8), unspecified, unique local (fc00::/7) or link-local unicast
/// (fe80::/10).
pub open spec fn v6_global(s: Seq<u16>) -> bool {
    let loopback = s[0] == 0 && s[1] == 0 && s[2] == 0 && s[3] == 0 && s[4] == 0 && s[5] == 0
        && s[6] == 0 && s[7] == 1;
    let unspecified = s[0] == 0 && s[1] == 0 && s[2] == 0 && s[3] == 0 && s[4] == 0 && s[5] == 0
        && s[6] == 0 && s[7] == 0;
    !(loopback || s[0] >= 0xff00 || unspecified || (0xfc00 <= s[0] <= 0xfdff) || (0xfe80 <= s[0]
        <= 0xfebf))
}

/// Whether a fetch may connect to `ip`: an IPv4-mapped IPv6 address is
/// judged as the IPv4 address it embeds.
pub open spec fn globally_reachable(ip: IpAddress) -> bool {
    match ip {
        IpAddress::V4(o) => v4_global(o@),
        IpAddress::V6(s) => if v4_mapped(s@) {
            v4_global(mapped_octets(s@))
        } else {
            v6_global(s@)
        },
    }
}

fn v4_is_global(o: [u8; 4]) -> (r: bool)
    ensures
        r == v4_global(o@),
{
    let private = o[0] == 10 || (o[0] == 172 && 16 <= o[1] && o[1] <= 31) || (o[0] == 192 && o[1]
        == 168);
    let documentation = (o[0] == 192 && o[1] == 0 && o[2] == 2) || (o[0] == 198 && o[1] == 51
        && o[2] == 100) || (o[0] == 203 && o[1] == 0 && o[2] == 113);
    !(private || o[0] == 127 || (o[0] == 169 && o[1] == 254) || (224 <= o[0] && o[0] <= 239) || (
    o[0] == 255 && o[1] == 255 && o[2] == 255 && o[3] == 255) || documentation || (o[0] == 0
        && o[1] == 0 && o[2] == 0 && o[3] == 0))
}

/// Whether a fetch may connect to `ip`.
pub fn is_globally_reachable(ip: IpAddress) -> (r: bool)
    ensures
        r == globally_reachable(ip),
{
    match ip {
        IpAddress::V4(o) => v4_is_global(o),
        IpAddress::V6(s) => {
            if s[0] == 0 && s[1] == 0 && s[2] == 0 && s[3] == 0 && s[4] == 0 && s[5] == 0xffff {
                let o: [u8; 4] = [(s[6] / 256) as u8, (s[6] % 256) as u8, (s[7] / 256) as u8, (s[7]
                    % 256) as u8];
                assert(o@ =~= mapped_octets(s@));
                return v4_is_global(o);
            }
            let loopback = s[0] == 0 && s[1] == 0 && s[2] == 0 && s[3] == 0 && s[4] == 0 && s[5]
                == 0 && s[6] == 0 && s[7] == 1;
            let unspecified = s[0] == 0 && s[1] == 0 && s[2] == 0 && s[3] == 0 && s[4] == 0 && s[5]
                == 0 && s[6] == 0 && s[7] == 0;
            !(loopback || s[0] >= 0xff00 || unspecified || (0xfc00 <= s[0] && s[0] <= 0xfdff) || (
            0xfe80 <= s[0] && s[0] <= 0xfebf))
        },
    }
}

} // verus!
