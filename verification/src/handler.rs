use vstd::prelude::*;
use crate::addr::{parse_sock_addr, spec_sock_addr_of, SockAddr};
use crate::errors::DnsError;

verus! {

/// Sends a wire-format query to an upstream resolver and returns the
/// wire-format reply.  The library's resolvers are generic over this
/// capability; the datagram transport implements it outside the
/// verified core, and tests implement it with canned replies.
pub trait Handler {
    /// One round trip against the standing target queue.
    fn send(&mut self, buf: &[u8]) -> Result<Vec<u8>, DnsError>;

    /// One round trip against an explicit address list.
    fn send_to(&mut self, buf: &[u8], addrs: &[SockAddr]) -> Result<Vec<u8>, DnsError>;
}

/// How the target queue serves its entries.
#[derive(Default, PartialEq, Eq, Structural, Copy, Clone, Debug)]
pub enum HandlerStrategy {
    #[default]
    Standard,
    RoundRobin,
}

impl HandlerStrategy {
    /// "round-robin" selects weighted round robin; anything else the
    /// standard queue.
    pub open spec fn spec_from(s: Seq<u8>) -> HandlerStrategy {
        if s == seq![114u8, 111u8, 117u8, 110u8, 100u8, 45u8, 114u8, 111u8, 98u8, 105u8, 110u8] {
            HandlerStrategy::RoundRobin
        } else {
            HandlerStrategy::Standard
        }
    }

    pub fn from(s: &[u8]) -> (r: Self)
        ensures
            r == HandlerStrategy::spec_from(s@),
    {
        let pattern: [u8; 11] = [114, 111, 117, 110, 100, 45, 114, 111, 98, 105, 110];
        if s.len() != 11 {
            proof {
                assert(s@ != seq![
                    114u8,
                    111u8,
                    117u8,
                    110u8,
                    100u8,
                    45u8,
                    114u8,
                    111u8,
                    98u8,
                    105u8,
                    110u8,
                ]);
            }
            return HandlerStrategy::Standard;
        }
        let mut i: usize = 0;
        while i < 11
            invariant
                0 <= i <= 11,
                s@.len() == 11,
                pattern@ == seq![114u8, 111u8, 117u8, 110u8, 100u8, 45u8, 114u8, 111u8, 98u8, 105u8, 110u8],
                forall|k: int| 0 <= k < i ==> s@[k] == pattern@[k],
            decreases 11 - i,
        {
            if s[i] != pattern[i] {
                proof {
                    assert(s@[i as int] != pattern@[i as int]);
                    assert(s@ != pattern@);
                }
                return HandlerStrategy::Standard;
            }
            i = i + 1;
        }
        proof {
            assert(s@ =~= pattern@);
        }
        HandlerStrategy::RoundRobin
    }
}

/// One upstream resolver: its address and its round-robin weight.
#[derive(PartialEq, Eq, Structural, Copy, Clone, Debug)]
pub struct HandlerTarget {
    pub addr: SockAddr,
    pub weight: usize,
}

impl HandlerTarget {
    /// Reads a target from an address string, completing a bare IP
    /// with `default_port`.  A weight of zero is raised to one.
    pub fn new(addr: &[u8], default_port: u16, weight: usize) -> (r: Result<
        HandlerTarget,
        DnsError,
    >)
        ensures
            ({
                match spec_sock_addr_of(addr@, default_port) {
                    Some(sa) => r matches Ok(t) && t.addr == sa && t.weight == (
                    if weight == 0 {
                        1usize
                    } else {
                        weight
                    }),
                    None => r matches Err(e) && e == DnsError::BadLabel,
                }
            }),
    {
        match parse_sock_addr(addr, default_port) {
            Some(sa) => Ok(
                HandlerTarget {
                    addr: sa,
                    weight: if weight == 0 {
                        1
                    } else {
                        weight
                    },
                },
            ),
            None => Err(DnsError::BadLabel),
        }
    }

    pub fn from_addr(addr: SockAddr) -> (r: Self)
        ensures
            r.addr == addr,
            r.weight == 1,
    {
        HandlerTarget { addr, weight: 1 }
    }
}

/// The strictly sequential queue: serve the current target, advance by
/// one, wrap at the end.
pub struct StandardQueue {
    targets: Vec<HandlerTarget>,
    offset: usize,
}

impl StandardQueue {
    pub closed spec fn spec_targets(&self) -> Seq<HandlerTarget> {
        self.targets@
    }

    pub closed spec fn spec_offset(&self) -> int {
        self.offset as int
    }

    /// The cursor never strays past one beyond the end.
    pub closed spec fn wf(&self) -> bool {
        self.offset <= self.targets@.len() + 1
    }

    pub fn new(targets: Vec<HandlerTarget>) -> (r: Self)
        ensures
            r.wf(),
            r.spec_targets() == targets@,
            r.spec_offset() == 0,
    {
        StandardQueue { targets, offset: 0 }
    }

    /// The current target; a cursor past the end wraps to the front.
    pub fn fetch(&mut self) -> (r: Option<HandlerTarget>)
        requires
            old(self).wf(),
        ensures
            final(self).wf(),
            final(self).spec_targets() == old(self).spec_targets(),
            old(self).spec_offset() < old(self).spec_targets().len() ==> {
                &&& r == Some(old(self).spec_targets()[old(self).spec_offset()])
                &&& final(self).spec_offset() == old(self).spec_offset()
            },
            old(self).spec_offset() >= old(self).spec_targets().len() && old(
                self,
            ).spec_targets().len() > 0 ==> {
                &&& r == Some(old(self).spec_targets()[0])
                &&& final(self).spec_offset() == 0
            },
            old(self).spec_targets().len() == 0 ==> {
                &&& r is None
                &&& final(self).spec_offset() == 0
            },
    {
        if self.offset < self.targets.len() {
            return Some(self.targets[self.offset]);
        }

        // wrap to the front once the end is passed
        self.offset = 0;
        if self.targets.len() > 0 {
            return Some(self.targets[0]);
        }

        None
    }

    /// Advances by one, then serves as `fetch` does.
    pub fn next(&mut self) -> (r: Option<HandlerTarget>)
        requires
            old(self).wf(),
        ensures
            final(self).wf(),
            final(self).spec_targets() == old(self).spec_targets(),
            old(self).spec_offset() + 1 < old(self).spec_targets().len() ==> {
                &&& r == Some(old(self).spec_targets()[old(self).spec_offset() + 1])
                &&& final(self).spec_offset() == old(self).spec_offset() + 1
            },
            old(self).spec_offset() + 1 >= old(self).spec_targets().len() && old(
                self,
            ).spec_targets().len() > 0 ==> {
                &&& r == Some(old(self).spec_targets()[0])
                &&& final(self).spec_offset() == 0
            },
            old(self).spec_targets().len() == 0 ==> {
                &&& r is None
                &&& final(self).spec_offset() == 0
            },
    {
        if self.offset <= self.targets.len() && self.offset < usize::MAX {
            self.offset = self.offset + 1;
        }

        self.fetch()
    }

    /// Appends a target at the back.
    pub fn push(&mut self, target: HandlerTarget)
        requires
            old(self).wf(),
        ensures
            final(self).wf(),
            final(self).spec_targets() == old(self).spec_targets().push(target),
            final(self).spec_offset() == old(self).spec_offset(),
    {
        self.targets.push(target);
    }

    /// Removes and returns the current target; the cursor stays put,
    /// so the former successor becomes the current target.
    pub fn remove(&mut self) -> (r: Option<HandlerTarget>)
        requires
            old(self).wf(),
        ensures
            final(self).wf(),
            old(self).spec_offset() >= old(self).spec_targets().len() ==> {
                &&& r is None
                &&& *final(self) == *old(self)
            },
            old(self).spec_offset() < old(self).spec_targets().len() ==> {
                &&& r == Some(old(self).spec_targets()[old(self).spec_offset()])
                &&& final(self).spec_targets() == old(self).spec_targets().remove(
                    old(self).spec_offset(),
                )
                &&& final(self).spec_offset() == old(self).spec_offset()
            },
    {
        if self.offset >= self.targets.len() {
            return None;
        }

        let target = self.targets.remove(self.offset);

        Some(target)
    }
}

/// The weighted queue: serve the current target `weight` times before
/// advancing.
pub struct RoundRobinQueue {
    targets: Vec<HandlerTarget>,
    offset: usize,
    counter: usize,
}

/// One service tick of the weighted counter, saturating rather than
/// wrapping at the integer bound.
pub open spec fn spec_bump(c: int) -> int {
    if c < usize::MAX {
        c + 1
    } else {
        c
    }
}

impl RoundRobinQueue {
    pub closed spec fn spec_targets(&self) -> Seq<HandlerTarget> {
        self.targets@
    }

    pub closed spec fn spec_offset(&self) -> int {
        self.offset as int
    }

    pub closed spec fn spec_counter(&self) -> int {
        self.counter as int
    }

    pub closed spec fn wf(&self) -> bool {
        self.offset <= self.targets@.len() + 1
    }

    pub fn new(targets: Vec<HandlerTarget>) -> (r: Self)
        ensures
            r.wf(),
            r.spec_targets() == targets@,
            r.spec_offset() == 0,
            r.spec_counter() == 0,
    {
        RoundRobinQueue { targets, offset: 0, counter: 0 }
    }

    /// Serves the current target and counts the service; on the
    /// target's weight-th service the cursor advances.  A cursor past
    /// the end wraps to the front first.
    pub fn fetch(&mut self) -> (r: Option<HandlerTarget>)
        requires
            old(self).wf(),
        ensures
            final(self).wf(),
            final(self).spec_targets() == old(self).spec_targets(),
            old(self).spec_targets().len() == 0 ==> {
                &&& r is None
                &&& final(self).spec_offset() == 0
                &&& final(self).spec_counter() == old(self).spec_counter()
            },
            old(self).spec_targets().len() > 0 ==> {
                let at = if old(self).spec_offset() < old(self).spec_targets().len() {
                    old(self).spec_offset()
                } else {
                    0
                };
                let c2 = spec_bump(old(self).spec_counter());
                &&& r == Some(old(self).spec_targets()[at])
                &&& (c2 == old(self).spec_targets()[at].weight ==> final(self).spec_offset() == at
                    + 1 && final(self).spec_counter() == 0)
                &&& (c2 != old(self).spec_targets()[at].weight ==> final(self).spec_offset() == at
                    && final(self).spec_counter() == c2)
            },
    {
        if self.offset >= self.targets.len() {
            // wrap to the front once the end is passed
            self.offset = 0;
            if self.targets.len() == 0 {
                return None;
            }
        }

        let target = self.targets[self.offset];
        if self.counter < usize::MAX {
            self.counter = self.counter + 1;
        }
        if self.counter == target.weight {
            self.offset = self.offset + 1;
            self.counter = 0;
        }

        Some(target)
    }

    /// Advances by one with a fresh counter, then serves as `fetch`
    /// does.
    pub fn next(&mut self) -> (r: Option<HandlerTarget>)
        requires
            old(self).wf(),
        ensures
            final(self).wf(),
            final(self).spec_targets() == old(self).spec_targets(),
            old(self).spec_targets().len() == 0 ==> r is None,
            old(self).spec_targets().len() > 0 ==> {
                let at = if old(self).spec_offset() + 1 < old(self).spec_targets().len() {
                    old(self).spec_offset() + 1
                } else {
                    0
                };
                &&& r == Some(old(self).spec_targets()[at])
                &&& (1 == old(self).spec_targets()[at].weight ==> final(self).spec_offset() == at
                    + 1 && final(self).spec_counter() == 0)
                &&& (1 != old(self).spec_targets()[at].weight ==> final(self).spec_offset() == at
                    && final(self).spec_counter() == 1)
            },
    {
        if self.offset <= self.targets.len() && self.offset < usize::MAX {
            self.offset = self.offset + 1;
        }
        self.counter = 0;

        self.fetch()
    }

    /// Appends a target at the back.
    pub fn push(&mut self, target: HandlerTarget)
        requires
            old(self).wf(),
        ensures
            final(self).wf(),
            final(self).spec_targets() == old(self).spec_targets().push(target),
            final(self).spec_offset() == old(self).spec_offset(),
            final(self).spec_counter() == old(self).spec_counter(),
    {
        self.targets.push(target)
    }

    /// Removes and returns the current target; the cursor stays put,
    /// so the former successor becomes the current target.
    pub fn remove(&mut self) -> (r: Option<HandlerTarget>)
        requires
            old(self).wf(),
        ensures
            final(self).wf(),
            old(self).spec_offset() >= old(self).spec_targets().len() ==> {
                &&& r is None
                &&& *final(self) == *old(self)
            },
            old(self).spec_offset() < old(self).spec_targets().len() ==> {
                &&& r == Some(old(self).spec_targets()[old(self).spec_offset()])
                &&& final(self).spec_targets() == old(self).spec_targets().remove(
                    old(self).spec_offset(),
                )
                &&& final(self).spec_offset() == old(self).spec_offset()
                &&& final(self).spec_counter() == old(self).spec_counter()
            },
    {
        if self.offset >= self.targets.len() {
            return None;
        }

        let target = self.targets.remove(self.offset);

        Some(target)
    }
}

/// The closed choice of queue behaviours.
pub enum HandlerQueue {
    Standard(StandardQueue),
    RoundRobin(RoundRobinQueue),
}

impl HandlerQueue {
    pub open spec fn spec_targets(&self) -> Seq<HandlerTarget> {
        match self {
            HandlerQueue::Standard(q) => q.spec_targets(),
            HandlerQueue::RoundRobin(q) => q.spec_targets(),
        }
    }

    pub open spec fn spec_offset(&self) -> int {
        match self {
            HandlerQueue::Standard(q) => q.spec_offset(),
            HandlerQueue::RoundRobin(q) => q.spec_offset(),
        }
    }

    pub open spec fn wf(&self) -> bool {
        match self {
            HandlerQueue::Standard(q) => q.wf(),
            HandlerQueue::RoundRobin(q) => q.wf(),
        }
    }

    /// The current target; every served target is one of the queue's.
    pub fn fetch(&mut self) -> (r: Option<HandlerTarget>)
        requires
            old(self).wf(),
        ensures
            final(self).wf(),
            final(self).spec_targets() == old(self).spec_targets(),
            r matches Some(t) ==> old(self).spec_targets().contains(t),
            r is None ==> old(self).spec_targets().len() == 0,
    {
        match self {
            HandlerQueue::Standard(q) => {
                let r = q.fetch();
                proof {
                    if let Some(t) = r {
                        if old(self).spec_offset() < old(self).spec_targets().len() {
                            assert(old(self).spec_targets()[old(self).spec_offset()] == t);
                        } else {
                            assert(old(self).spec_targets()[0] == t);
                        }
                    }
                }
                r
            },
            HandlerQueue::RoundRobin(q) => {
                let r = q.fetch();
                proof {
                    if let Some(t) = r {
                        let at = if old(self).spec_offset() < old(self).spec_targets().len() {
                            old(self).spec_offset()
                        } else {
                            0
                        };
                        assert(old(self).spec_targets()[at] == t);
                    }
                }
                r
            },
        }
    }

    /// Advances, then serves.
    pub fn next(&mut self) -> (r: Option<HandlerTarget>)
        requires
            old(self).wf(),
        ensures
            final(self).wf(),
            final(self).spec_targets() == old(self).spec_targets(),
            r matches Some(t) ==> old(self).spec_targets().contains(t),
            r is None ==> old(self).spec_targets().len() == 0,
    {
        match self {
            HandlerQueue::Standard(q) => {
                let r = q.next();
                proof {
                    if let Some(t) = r {
                        if old(self).spec_offset() + 1 < old(self).spec_targets().len() {
                            assert(old(self).spec_targets()[old(self).spec_offset() + 1] == t);
                        } else {
                            assert(old(self).spec_targets()[0] == t);
                        }
                    }
                }
                r
            },
            HandlerQueue::RoundRobin(q) => {
                let r = q.next();
                proof {
                    if let Some(t) = r {
                        let at = if old(self).spec_offset() + 1 < old(self).spec_targets().len() {
                            old(self).spec_offset() + 1
                        } else {
                            0
                        };
                        assert(old(self).spec_targets()[at] == t);
                    }
                }
                r
            },
        }
    }

    /// Appends a target at the back.
    pub fn push(&mut self, target: HandlerTarget)
        requires
            old(self).wf(),
        ensures
            final(self).wf(),
            final(self).spec_targets() == old(self).spec_targets().push(target),
    {
        match self {
            HandlerQueue::Standard(q) => q.push(target),
            HandlerQueue::RoundRobin(q) => q.push(target),
        }
    }

    /// Removes and returns the current target; the cursor stays put.
    pub fn remove(&mut self) -> (r: Option<HandlerTarget>)
        requires
            old(self).wf(),
        ensures
            final(self).wf(),
            old(self).spec_offset() >= old(self).spec_targets().len() ==> {
                &&& r is None
                &&& final(self).spec_targets() == old(self).spec_targets()
            },
            old(self).spec_offset() < old(self).spec_targets().len() ==> {
                &&& r == Some(old(self).spec_targets()[old(self).spec_offset()])
                &&& final(self).spec_targets() == old(self).spec_targets().remove(
                    old(self).spec_offset(),
                )
                &&& final(self).spec_offset() == old(self).spec_offset()
            },
    {
        match self {
            HandlerQueue::Standard(q) => q.remove(),
            HandlerQueue::RoundRobin(q) => q.remove(),
        }
    }
}

/// The failure-isolation core: once a timeout removes the current
/// target from the queue, a target that stood there once is no longer
/// in the queue at all, so no later fetch can serve it until the
/// health-retry loop pushes it back.
pub proof fn lemma_failure_isolation(targets: Seq<HandlerTarget>, offset: int, t: HandlerTarget)
    requires
        0 <= offset < targets.len(),
        targets[offset] == t,
        forall|j: int| 0 <= j < targets.len() && j != offset ==> targets[j] != t,
    ensures
        !targets.remove(offset).contains(t),
{
    let after = targets.remove(offset);
    assert forall|j: int| 0 <= j < after.len() implies after[j] != t by {
        if j < offset {
            assert(after[j] == targets[j]);
        } else {
            assert(after[j] == targets[j + 1]);
        }
    }
    if after.contains(t) {
        let j = choose|j: int| 0 <= j < after.len() && after[j] == t;
        assert(false);
    }
}

/// The verified state behind the datagram handler: the live target
/// queue, the targets set aside after a timeout, and the IPv6 switch.
/// The transport performs the socket work and drives this state.
pub struct UdpHandlerState {
    pub targets: HandlerQueue,
    pub failures: Vec<HandlerTarget>,
    pub enable_ipv6: bool,
}

impl UdpHandlerState {
    pub open spec fn wf(&self) -> bool {
        self.targets.wf()
    }

    pub fn new(targets: HandlerQueue, enable_ipv6: bool) -> (r: UdpHandlerState)
        requires
            targets.wf(),
        ensures
            r.wf(),
            r.targets == targets,
            r.failures@ == Seq::<HandlerTarget>::empty(),
            r.enable_ipv6 == enable_ipv6,
    {
        let r = UdpHandlerState { targets, failures: Vec::new(), enable_ipv6 };
        proof {
            assert(r.failures@ =~= Seq::<HandlerTarget>::empty());
        }
        r
    }

    /// The target to try now.
    pub fn fetch(&mut self) -> (r: Option<HandlerTarget>)
        requires
            old(self).wf(),
        ensures
            final(self).wf(),
            final(self).failures@ == old(self).failures@,
            final(self).enable_ipv6 == old(self).enable_ipv6,
            final(self).targets.spec_targets() == old(self).targets.spec_targets(),
            r matches Some(t) ==> old(self).targets.spec_targets().contains(t),
            r is None ==> old(self).targets.spec_targets().len() == 0,
    {
        self.targets.fetch()
    }

    /// On a timeout: the current target leaves the queue and joins the
    /// failures, to be probed by the health-retry loop.
    pub fn fail_current(&mut self) -> (r: Option<HandlerTarget>)
        requires
            old(self).wf(),
        ensures
            final(self).wf(),
            final(self).enable_ipv6 == old(self).enable_ipv6,
            old(self).targets.spec_offset() >= old(self).targets.spec_targets().len() ==> {
                &&& r is None
                &&& final(self).targets.spec_targets() == old(self).targets.spec_targets()
                &&& final(self).failures@ == old(self).failures@
            },
            old(self).targets.spec_offset() < old(self).targets.spec_targets().len() ==> {
                let t = old(self).targets.spec_targets()[old(self).targets.spec_offset()];
                &&& r == Some(t)
                &&& final(self).targets.spec_targets() == old(self).targets.spec_targets().remove(
                    old(self).targets.spec_offset(),
                )
                &&& final(self).failures@ == old(self).failures@.push(t)
            },
    {
        match self.targets.remove() {
            Some(target) => {
                self.failures.push(target);
                Some(target)
            },
            None => None,
        }
    }

    /// A probed target answered: it leaves the failures and rejoins
    /// the live queue.
    pub fn reinstate(&mut self, i: usize) -> (r: bool)
        requires
            old(self).wf(),
        ensures
            final(self).wf(),
            final(self).enable_ipv6 == old(self).enable_ipv6,
            i >= old(self).failures@.len() ==> {
                &&& r == false
                &&& final(self).failures@ == old(self).failures@
                &&& final(self).targets.spec_targets() == old(self).targets.spec_targets()
            },
            i < old(self).failures@.len() ==> {
                &&& r == true
                &&& final(self).failures@ == old(self).failures@.remove(i as int)
                &&& final(self).targets.spec_targets() == old(self).targets.spec_targets().push(
                    old(self).failures@[i as int],
                )
            },
    {
        if i >= self.failures.len() {
            return false;
        }
        let target = self.failures.remove(i);
        self.targets.push(target);
        true
    }

    /// How many targets wait in the failures list.
    pub fn failures_len(&self) -> (r: usize)
        ensures
            r == self.failures@.len(),
    {
        self.failures.len()
    }

    /// The failed target at `i`.
    pub fn failure_at(&self, i: usize) -> (r: HandlerTarget)
        requires
            i < self.failures@.len(),
        ensures
            r == self.failures@[i as int],
    {
        self.failures[i]
    }
}

/// The addresses `send_to` may try: the given ones, IPv6 entries left
/// out while IPv6 is disabled.
pub open spec fn spec_send_candidates(addrs: Seq<SockAddr>, enable_ipv6: bool) -> Seq<SockAddr>
    decreases addrs.len(),
{
    if addrs.len() == 0 {
        seq![]
    } else if addrs[0].ip.spec_is_ipv6() && !enable_ipv6 {
        spec_send_candidates(addrs.drop_first(), enable_ipv6)
    } else {
        seq![addrs[0]] + spec_send_candidates(addrs.drop_first(), enable_ipv6)
    }
}

/// Filters an explicit address list for `send_to`.
#[verifier::loop_isolation(false)]
pub fn send_candidates(addrs: &[SockAddr], enable_ipv6: bool) -> (r: Vec<SockAddr>)
    ensures
        r@ == spec_send_candidates(addrs@, enable_ipv6),
{
    let mut r: Vec<SockAddr> = Vec::new();
    let mut i: usize = 0;
    proof {
        assert(addrs@.skip(0) =~= addrs@);
    }
    while i < addrs.len()
        invariant
            0 <= i <= addrs@.len(),
            spec_send_candidates(addrs@, enable_ipv6) == r@ + spec_send_candidates(
                addrs@.skip(i as int),
                enable_ipv6,
            ),
        decreases addrs@.len() - i,
    {
        proof {
            assert(addrs@.skip(i as int)[0] == addrs@[i as int]);
            assert(addrs@.skip(i as int).drop_first() =~= addrs@.skip(i as int + 1));
        }
        let a = addrs[i];
        if !(a.is_ipv6() && !enable_ipv6) {
            let ghost r0 = r@;
            r.push(a);
            proof {
                assert((r0 + seq![a]) + spec_send_candidates(addrs@.skip(i as int + 1), enable_ipv6)
                    =~= r0 + (seq![a] + spec_send_candidates(
                    addrs@.skip(i as int + 1),
                    enable_ipv6,
                )));
            }
        }
        i = i + 1;
    }
    proof {
        assert(addrs@.skip(addrs@.len() as int) =~= Seq::<SockAddr>::empty());
        assert(r@ + Seq::<SockAddr>::empty() =~= r@);
    }
    r
}

} // verus!
