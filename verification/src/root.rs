use vstd::prelude::*;
use crate::addr::{IpAddr, SockAddr};
use crate::handler::HandlerTarget;

verus! {

/// One of the thirteen well-known root servers: its name and its two
/// addresses.
pub struct RootServer(pub &'static str, pub u32, pub u128);

/// The 32 bits of a dotted quad.
pub open spec fn spec_v4(a: u8, b: u8, c: u8, d: u8) -> u32 {
    (a * 0x1000000 + b * 0x10000 + c * 0x100 + d) as u32
}

/// The 128 bits of eight address groups.
pub open spec fn spec_v6(
    g0: u16,
    g1: u16,
    g2: u16,
    g3: u16,
    g4: u16,
    g5: u16,
    g6: u16,
    g7: u16,
) -> u128 {
    (g0 * 0x10000000000000000000000000000 + g1 * 0x1000000000000000000000000 + g2
        * 0x100000000000000000000 + g3 * 0x10000000000000000 + g4 * 0x1000000000000 + g5
        * 0x100000000 + g6 * 0x10000 + g7) as u128
}

/// Builds an IPv4 address from its four octets.
pub fn v4(a: u8, b: u8, c: u8, d: u8) -> (r: u32)
    ensures
        r == spec_v4(a, b, c, d),
{
    let r: u32 = ((a as u32) << 24) | ((b as u32) << 16) | ((c as u32) << 8) | (d as u32);
    proof {
        let x = a as u32;
        let y = b as u32;
        let z = c as u32;
        let w = d as u32;
        assert(x < 0x100 && y < 0x100 && z < 0x100 && w < 0x100 ==> ((x << 24) | (y << 16) | (z
            << 8) | w) == x * 0x1000000 + y * 0x10000 + z * 0x100 + w) by (bit_vector);
    }
    r
}

/// Builds an IPv6 address from its eight groups.
pub fn v6(g0: u16, g1: u16, g2: u16, g3: u16, g4: u16, g5: u16, g6: u16, g7: u16) -> (r: u128)
    ensures
        r == spec_v6(g0, g1, g2, g3, g4, g5, g6, g7),
{
    let r: u128 = ((g0 as u128) << 112) | ((g1 as u128) << 96) | ((g2 as u128) << 80) | ((
    g3 as u128) << 64) | ((g4 as u128) << 48) | ((g5 as u128) << 32) | ((g6 as u128) << 16) | (
    g7 as u128);
    proof {
        let a0 = g0 as u128;
        let a1 = g1 as u128;
        let a2 = g2 as u128;
        let a3 = g3 as u128;
        let a4 = g4 as u128;
        let a5 = g5 as u128;
        let a6 = g6 as u128;
        let a7 = g7 as u128;
        assert(a0 < 0x10000 && a1 < 0x10000 && a2 < 0x10000 && a3 < 0x10000 && a4 < 0x10000 && a5
            < 0x10000 && a6 < 0x10000 && a7 < 0x10000 ==> ((a0 << 112) | (a1 << 96) | (a2 << 80) | (
        a3 << 64) | (a4 << 48) | (a5 << 32) | (a6 << 16) | a7) == a0
            * 0x10000000000000000000000000000 + a1 * 0x1000000000000000000000000 + a2
            * 0x100000000000000000000 + a3 * 0x10000000000000000 + a4 * 0x1000000000000 + a5
            * 0x100000000 + a6 * 0x10000 + a7) by (bit_vector);
    }
    r
}

impl RootServer {
    /// This server's two targets, both on port 53 with weight one.
    pub fn to_socket_addrs(&self) -> (r: (HandlerTarget, HandlerTarget))
        ensures
            r.0.addr == (SockAddr { ip: IpAddr::V4(self.1), port: 53 }),
            r.0.weight == 1,
            r.1.addr == (SockAddr { ip: IpAddr::V6(self.2), port: 53 }),
            r.1.weight == 1,
    {
        (
            HandlerTarget::from_addr(SockAddr { ip: IpAddr::V4(self.1), port: 53 }),
            HandlerTarget::from_addr(SockAddr { ip: IpAddr::V6(self.2), port: 53 }),
        )
    }
}

/// The IPv4 address of the root server at `i`, a through m.
pub open spec fn spec_root_v4(i: int) -> u32 {
    if i == 0 {
        spec_v4(198, 41, 0, 4)
    } else if i == 1 {
        spec_v4(170, 247, 170, 2)
    } else if i == 2 {
        spec_v4(192, 33, 4, 12)
    } else if i == 3 {
        spec_v4(199, 7, 91, 13)
    } else if i == 4 {
        spec_v4(192, 203, 230, 10)
    } else if i == 5 {
        spec_v4(192, 5, 5, 241)
    } else if i == 6 {
        spec_v4(192, 112, 36, 4)
    } else if i == 7 {
        spec_v4(198, 97, 190, 53)
    } else if i == 8 {
        spec_v4(192, 36, 148, 17)
    } else if i == 9 {
        spec_v4(192, 58, 128, 30)
    } else if i == 10 {
        spec_v4(193, 0, 14, 129)
    } else if i == 11 {
        spec_v4(199, 7, 83, 42)
    } else {
        spec_v4(202, 12, 27, 33)
    }
}

/// The IPv6 address of the root server at `i`, a through m.
pub open spec fn spec_root_v6(i: int) -> u128 {
    if i == 0 {
        spec_v6(0x2001, 0x0503, 0xba3e, 0, 0, 0, 0x0002, 0x0030)
    } else if i == 1 {
        spec_v6(0x2801, 0x01b8, 0x0010, 0, 0, 0, 0, 0x000b)
    } else if i == 2 {
        spec_v6(0x2001, 0x0500, 0x0002, 0, 0, 0, 0, 0x000c)
    } else if i == 3 {
        spec_v6(0x2001, 0x0500, 0x002d, 0, 0, 0, 0, 0x000d)
    } else if i == 4 {
        spec_v6(0x2001, 0x0500, 0x00a8, 0, 0, 0, 0, 0x000e)
    } else if i == 5 {
        spec_v6(0x2001, 0x0500, 0x002f, 0, 0, 0, 0, 0x000f)
    } else if i == 6 {
        spec_v6(0x2001, 0x0500, 0x0012, 0, 0, 0, 0, 0x0d0d)
    } else if i == 7 {
        spec_v6(0x2001, 0x0500, 0x0001, 0, 0, 0, 0, 0x0053)
    } else if i == 8 {
        spec_v6(0x2001, 0x07fe, 0, 0, 0, 0, 0, 0x0053)
    } else if i == 9 {
        spec_v6(0x2001, 0x0503, 0x0c27, 0, 0, 0, 0x0002, 0x0030)
    } else if i == 10 {
        spec_v6(0x2001, 0x07fd, 0, 0, 0, 0, 0, 0x0001)
    } else if i == 11 {
        spec_v6(0x2001, 0x0500, 0x009f, 0, 0, 0, 0, 0x0042)
    } else {
        spec_v6(0x2001, 0x0dc3, 0, 0, 0, 0, 0, 0x0035)
    }
}

/// The thirteen root servers, a through m, each with the addresses
/// the table above fixes.
pub fn root_servers() -> (r: Vec<RootServer>)
    ensures
        r@.len() == 13,
        forall|i: int|
            0 <= i < 13 ==> (#[trigger] r@[i]).1 == spec_root_v4(i) && r@[i].2 == spec_root_v6(i),
{
    let mut r: Vec<RootServer> = Vec::new();
    r.push(RootServer("a.root-servers.net", v4(198, 41, 0, 4), v6(0x2001, 0x0503, 0xba3e, 0, 0, 0, 0x0002, 0x0030)));
    r.push(RootServer("b.root-servers.net", v4(170, 247, 170, 2), v6(0x2801, 0x01b8, 0x0010, 0, 0, 0, 0, 0x000b)));
    r.push(RootServer("c.root-servers.net", v4(192, 33, 4, 12), v6(0x2001, 0x0500, 0x0002, 0, 0, 0, 0, 0x000c)));
    r.push(RootServer("d.root-servers.net", v4(199, 7, 91, 13), v6(0x2001, 0x0500, 0x002d, 0, 0, 0, 0, 0x000d)));
    r.push(RootServer("e.root-servers.net", v4(192, 203, 230, 10), v6(0x2001, 0x0500, 0x00a8, 0, 0, 0, 0, 0x000e)));
    r.push(RootServer("f.root-servers.net", v4(192, 5, 5, 241), v6(0x2001, 0x0500, 0x002f, 0, 0, 0, 0, 0x000f)));
    r.push(RootServer("g.root-servers.net", v4(192, 112, 36, 4), v6(0x2001, 0x0500, 0x0012, 0, 0, 0, 0, 0x0d0d)));
    r.push(RootServer("h.root-servers.net", v4(198, 97, 190, 53), v6(0x2001, 0x0500, 0x0001, 0, 0, 0, 0, 0x0053)));
    r.push(RootServer("i.root-servers.net", v4(192, 36, 148, 17), v6(0x2001, 0x07fe, 0, 0, 0, 0, 0, 0x0053)));
    r.push(RootServer("j.root-servers.net", v4(192, 58, 128, 30), v6(0x2001, 0x0503, 0x0c27, 0, 0, 0, 0x0002, 0x0030)));
    r.push(RootServer("k.root-servers.net", v4(193, 0, 14, 129), v6(0x2001, 0x07fd, 0, 0, 0, 0, 0, 0x0001)));
    r.push(RootServer("l.root-servers.net", v4(199, 7, 83, 42), v6(0x2001, 0x0500, 0x009f, 0, 0, 0, 0, 0x0042)));
    r.push(RootServer("m.root-servers.net", v4(202, 12, 27, 33), v6(0x2001, 0x0dc3, 0, 0, 0, 0, 0, 0x0035)));
    r
}

/// The root targets a recursive server starts from: every root's IPv4
/// address in order, each followed by that server's IPv6 address when
/// IPv6 is enabled, all on port 53 with weight one.
pub fn get_root_servers_socket_addrs(use_v6: bool) -> (r: Vec<HandlerTarget>)
    ensures
        use_v6 ==> r@.len() == 26,
        !use_v6 ==> r@.len() == 13,
        forall|i: int| 0 <= i < r@.len() ==> (#[trigger] r@[i]).weight == 1,
        forall|i: int| 0 <= i < r@.len() ==> (#[trigger] r@[i]).addr.port == 53,
        !use_v6 ==> forall|i: int|
            0 <= i < 13 ==> (#[trigger] r@[i]).addr.ip == IpAddr::V4(spec_root_v4(i)),
        use_v6 ==> forall|i: int|
            0 <= i < 13 ==> (#[trigger] r@[2 * i]).addr.ip == IpAddr::V4(spec_root_v4(i)) && r@[2
                * i + 1].addr.ip == IpAddr::V6(spec_root_v6(i)),
{
    let servers = root_servers();
    let mut res: Vec<HandlerTarget> = Vec::new();
    let mut i: usize = 0;
    while i < servers.len()
        invariant
            0 <= i <= servers@.len(),
            servers@.len() == 13,
            forall|k: int|
                0 <= k < 13 ==> (#[trigger] servers@[k]).1 == spec_root_v4(k) && servers@[k].2
                    == spec_root_v6(k),
            res@.len() == (if use_v6 {
                2 * i as int
            } else {
                i as int
            }),
            forall|k: int| 0 <= k < res@.len() ==> (#[trigger] res@[k]).weight == 1,
            forall|k: int| 0 <= k < res@.len() ==> (#[trigger] res@[k]).addr.port == 53,
            !use_v6 ==> forall|k: int|
                0 <= k < i ==> (#[trigger] res@[k]).addr.ip == IpAddr::V4(spec_root_v4(k)),
            use_v6 ==> forall|k: int|
                0 <= k < i ==> (#[trigger] res@[2 * k]).addr.ip == IpAddr::V4(spec_root_v4(k))
                    && res@[2 * k + 1].addr.ip == IpAddr::V6(spec_root_v6(k)),
        decreases servers@.len() - i,
    {
        let (a, b) = servers[i].to_socket_addrs();
        res.push(a);

        if use_v6 {
            res.push(b);
        }
        i = i + 1;
    }
    res
}

} // verus!
