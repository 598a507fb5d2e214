use mydns::addr::{parse_ipv4, parse_ipv6, parse_sock_addr, IpAddr, SockAddr};
use mydns::handler::{
    HandlerQueue, HandlerStrategy, HandlerTarget, RoundRobinQueue, StandardQueue, UdpHandlerState,
};

fn target(last_octet: u8, weight: usize) -> HandlerTarget {
    HandlerTarget {
        addr: SockAddr { ip: IpAddr::V4(0x0A000000 | last_octet as u32), port: 53 },
        weight,
    }
}

#[test]
fn standard_queue_cycles() {
    let mut q = StandardQueue::new(vec![target(1, 1), target(2, 1)]);
    assert_eq!(q.fetch(), Some(target(1, 1)));
    assert_eq!(q.next(), Some(target(2, 1)));
    // the cursor wraps at the end
    assert_eq!(q.next(), Some(target(1, 1)));
}

#[test]
fn standard_queue_remove_and_push() {
    // remove hands the current target out and the former successor
    // becomes current
    let mut q = StandardQueue::new(vec![target(1, 1), target(2, 1), target(3, 1)]);
    assert_eq!(q.remove(), Some(target(1, 1)));
    assert_eq!(q.fetch(), Some(target(2, 1)));
    assert_eq!(q.remove(), Some(target(2, 1)));
    q.push(target(3, 1));
    assert_eq!(q.next(), Some(target(3, 1)));

    let mut empty = StandardQueue::new(vec![]);
    assert_eq!(empty.fetch(), None);
    assert_eq!(empty.remove(), None);
}

#[test]
fn round_robin_serves_by_weight() {
    // the first target is served twice before the queue advances
    let mut q = RoundRobinQueue::new(vec![target(1, 2), target(2, 1)]);
    assert_eq!(q.fetch(), Some(target(1, 2)));
    assert_eq!(q.fetch(), Some(target(1, 2)));
    assert_eq!(q.fetch(), Some(target(2, 1)));
    assert_eq!(q.fetch(), Some(target(1, 2)));
}

#[test]
fn handler_failure_isolation() {
    // after a timeout removes the current target, later fetches do not
    // serve it until the health-retry loop reinstates it
    let queue = HandlerQueue::Standard(StandardQueue::new(vec![target(1, 1), target(2, 1)]));
    let mut state = UdpHandlerState::new(queue, false);

    assert_eq!(state.fetch(), Some(target(1, 1)));
    assert_eq!(state.fail_current(), Some(target(1, 1)));
    assert_eq!(state.failures_len(), 1);

    // the queue now serves only the survivor, over and over
    assert_eq!(state.fetch(), Some(target(2, 1)));
    assert_eq!(state.fetch(), Some(target(2, 1)));

    // a successful probe brings the failed target back
    assert_eq!(state.failure_at(0), target(1, 1));
    assert!(state.reinstate(0));
    assert_eq!(state.failures_len(), 0);
    assert_eq!(state.fetch(), Some(target(2, 1)));

    // once the survivor fails in turn, the reinstated target serves
    assert_eq!(state.fail_current(), Some(target(2, 1)));
    assert_eq!(state.fetch(), Some(target(1, 1)));
}

#[test]
fn strategy_names() {
    assert_eq!(HandlerStrategy::from(b"round-robin"), HandlerStrategy::RoundRobin);
    assert_eq!(HandlerStrategy::from(b"standard"), HandlerStrategy::Standard);
    assert_eq!(HandlerStrategy::from(b"anything"), HandlerStrategy::Standard);
}

#[test]
fn target_parsing() {
    let t = HandlerTarget::new(b"8.8.8.8", 53, 0).unwrap();
    assert_eq!(t.addr, SockAddr { ip: IpAddr::V4(0x08080808), port: 53 });
    assert_eq!(t.weight, 1);

    let t = HandlerTarget::new(b"1.1.1.1:5353", 53, 3).unwrap();
    assert_eq!(t.addr, SockAddr { ip: IpAddr::V4(0x01010101), port: 5353 });
    assert_eq!(t.weight, 3);

    assert!(HandlerTarget::new(b"not-an-address", 53, 1).is_err());
}

#[test]
fn address_literals() {
    assert_eq!(parse_ipv4(b"93.184.216.34"), Some(0x5DB8D822));
    assert_eq!(parse_ipv4(b"256.1.1.1"), None);
    assert_eq!(parse_ipv4(b"1.2.3"), None);

    assert_eq!(parse_ipv6(b"::1"), Some(1));
    assert_eq!(
        parse_ipv6(b"2001:db8::1"),
        Some(0x20010DB8_00000000_00000000_00000001)
    );
    assert_eq!(parse_ipv6(b"1:2:3:4:5:6:7:8"), Some(0x00010002_00030004_00050006_00070008));
    assert_eq!(parse_ipv6(b"1::2::3"), None);

    assert_eq!(
        parse_sock_addr(b"[::1]:8053", 53),
        Some(SockAddr { ip: IpAddr::V6(1), port: 8053 })
    );
    assert_eq!(
        parse_sock_addr(b"9.9.9.9", 5353),
        Some(SockAddr { ip: IpAddr::V4(0x09090909), port: 5353 })
    );
}
