use vstd::prelude::*;

verus! {

/// An IP address as plain values: IPv4 as its 32 bits, IPv6 as its
/// 128, both in network order.
#[derive(PartialEq, Eq, Structural, Clone, Copy, Debug)]
pub enum IpAddr {
    V4(u32),
    V6(u128),
}

impl IpAddr {
    pub open spec fn spec_is_ipv6(self) -> bool {
        self is V6
    }

    pub fn is_ipv6(&self) -> (r: bool)
        ensures
            r == self.spec_is_ipv6(),
    {
        match self {
            IpAddr::V6(_) => true,
            IpAddr::V4(_) => false,
        }
    }
}

/// A socket address: an IP address and a port.
#[derive(PartialEq, Eq, Structural, Clone, Copy, Debug)]
pub struct SockAddr {
    pub ip: IpAddr,
    pub port: u16,
}

impl SockAddr {
    pub fn new(ip: IpAddr, port: u16) -> (r: SockAddr)
        ensures
            r == (SockAddr { ip, port }),
    {
        SockAddr { ip, port }
    }

    pub fn is_ipv6(&self) -> (r: bool)
        ensures
            r == self.ip.spec_is_ipv6(),
    {
        self.ip.is_ipv6()
    }
}

/// The pieces of `s` once split at every `sep`, with `acc` holding the
/// piece begun so far.
pub open spec fn spec_split_sep_acc(s: Seq<u8>, sep: u8, acc: Seq<u8>) -> Seq<Seq<u8>>
    decreases s.len(),
{
    if s.len() == 0 {
        seq![acc]
    } else if s[0] == sep {
        seq![acc] + spec_split_sep_acc(s.drop_first(), sep, seq![])
    } else {
        spec_split_sep_acc(s.drop_first(), sep, acc.push(s[0]))
    }
}

/// The pieces of `s` split at `sep`.
pub open spec fn spec_split_sep(s: Seq<u8>, sep: u8) -> Seq<Seq<u8>> {
    spec_split_sep_acc(s, sep, seq![])
}

/// The views of a list of byte strings.
pub open spec fn spec_views_of(v: Seq<Vec<u8>>) -> Seq<Seq<u8>> {
    v.map_values(|x: Vec<u8>| x@)
}

/// Splits `s` at every occurrence of `sep`.
#[verifier::loop_isolation(false)]
pub fn split_sep(s: &[u8], sep: u8) -> (r: Vec<Vec<u8>>)
    ensures
        spec_views_of(r@) == spec_split_sep(s@, sep),
{
    let mut done: Vec<Vec<u8>> = Vec::new();
    let mut cur: Vec<u8> = Vec::new();
    let mut i: usize = 0;

    proof {
        assert(s@.skip(0) =~= s@);
        assert(spec_views_of(done@) + spec_split_sep_acc(s@.skip(0), sep, cur@)
            =~= spec_split_sep(s@, sep));
    }

    while i < s.len()
        invariant
            0 <= i <= s@.len(),
            spec_split_sep(s@, sep) == spec_views_of(done@) + spec_split_sep_acc(
                s@.skip(i as int),
                sep,
                cur@,
            ),
        decreases s@.len() - i,
    {
        let b: u8 = s[i];
        proof {
            assert(s@.skip(i as int).drop_first() =~= s@.skip(i as int + 1));
            assert(s@.skip(i as int)[0] == s@[i as int]);
        }
        if b == sep {
            let ghost cur0 = cur@;
            let ghost done0 = spec_views_of(done@);
            done.push(cur);
            cur = Vec::new();
            proof {
                assert(spec_views_of(done@) =~= done0 + seq![cur0]);
                assert((done0 + seq![cur0]) + spec_split_sep_acc(s@.skip(i as int + 1), sep, seq![])
                    =~= done0 + (seq![cur0] + spec_split_sep_acc(
                    s@.skip(i as int + 1),
                    sep,
                    seq![],
                )));
            }
        } else {
            cur.push(b);
        }
        i = i + 1;
    }

    proof {
        assert(s@.skip(s@.len() as int) =~= Seq::<u8>::empty());
    }
    let ghost done0 = spec_views_of(done@);
    let ghost cur0 = cur@;
    done.push(cur);
    proof {
        assert(spec_views_of(done@) =~= done0 + seq![cur0]);
    }
    done
}

pub open spec fn spec_is_dec_digit(b: u8) -> bool {
    48 <= b <= 57
}

/// Ten to the `n`.
pub open spec fn spec_pow10(n: nat) -> int
    decreases n,
{
    if n == 0 {
        1
    } else {
        10 * spec_pow10((n - 1) as nat)
    }
}

/// Sixteen to the `n`.
pub open spec fn spec_pow16(n: nat) -> int
    decreases n,
{
    if n == 0 {
        1
    } else {
        16 * spec_pow16((n - 1) as nat)
    }
}

/// The decimal value of a digit string.
pub open spec fn spec_dec_val(run: Seq<u8>) -> int
    decreases run.len(),
{
    if run.len() == 0 {
        0
    } else {
        spec_dec_val(run.drop_last()) * 10 + (run.last() - 48)
    }
}

/// A digit string's value is bounded by its length.
pub proof fn lemma_dec_val_bound(p: Seq<u8>)
    requires
        forall|i: int| 0 <= i < p.len() ==> spec_is_dec_digit(#[trigger] p[i]),
    ensures
        0 <= spec_dec_val(p) < spec_pow10(p.len()),
    decreases p.len(),
{
    if p.len() > 0 {
        assert(forall|i: int|
            0 <= i < p.drop_last().len() ==> spec_is_dec_digit(#[trigger] p.drop_last()[i]));
        lemma_dec_val_bound(p.drop_last());
        assert(spec_is_dec_digit(p.last()));
    }
}

/// A hex string's value is bounded by its length.
pub proof fn lemma_hex_val_bound(p: Seq<u8>)
    requires
        forall|i: int| 0 <= i < p.len() ==> spec_is_hex_digit(#[trigger] p[i]),
    ensures
        0 <= spec_hex_val(p) < spec_pow16(p.len()),
    decreases p.len(),
{
    if p.len() > 0 {
        assert(forall|i: int|
            0 <= i < p.drop_last().len() ==> spec_is_hex_digit(#[trigger] p.drop_last()[i]));
        lemma_hex_val_bound(p.drop_last());
        assert(spec_is_hex_digit(p.last()));
        assert(0 <= spec_hex_digit_val(p.last()) < 16);
    }
}

/// A decimal run of one to three digits.
pub open spec fn spec_dec_part_ok(p: Seq<u8>) -> bool {
    &&& 1 <= p.len() <= 3
    &&& forall|i: int| 0 <= i < p.len() ==> spec_is_dec_digit(#[trigger] p[i])
    &&& spec_dec_val(p) <= 255
}

/// The 32 bits of a dotted-quad IPv4 literal, read left to right.
pub open spec fn spec_ipv4_of(s: Seq<u8>) -> Option<u32> {
    let parts = spec_split_sep(s, 46);
    if parts.len() == 4 && spec_dec_part_ok(parts[0]) && spec_dec_part_ok(parts[1])
        && spec_dec_part_ok(parts[2]) && spec_dec_part_ok(parts[3]) {
        Some(
            (spec_dec_val(parts[0]) * 0x1000000 + spec_dec_val(parts[1]) * 0x10000 + spec_dec_val(
                parts[2],
            ) * 0x100 + spec_dec_val(parts[3])) as u32,
        )
    } else {
        None
    }
}

/// Reads one decimal part of up to three digits.
fn dec_part(p: &Vec<u8>) -> (r: Option<u8>)
    ensures
        spec_dec_part_ok(p@) ==> (r == Some((spec_dec_val(p@)) as u8) && 0 <= spec_dec_val(p@)
            <= 255),
        !spec_dec_part_ok(p@) ==> r is None,
{
    if p.len() == 0 || p.len() > 3 {
        return None;
    }
    let mut val: u32 = 0;
    let mut i: usize = 0;
    while i < p.len()
        invariant
            0 <= i <= p@.len(),
            p@.len() <= 3,
            forall|k: int| 0 <= k < i ==> spec_is_dec_digit(#[trigger] p@[k]),
            val == spec_dec_val(p@.subrange(0, i as int)),
            val <= 999,
        decreases p@.len() - i,
    {
        let b: u8 = p[i];
        if !(48 <= b && b <= 57) {
            return None;
        }
        proof {
            assert(p@.subrange(0, i as int + 1).drop_last() =~= p@.subrange(0, i as int));
            assert(forall|k: int|
                0 <= k < i + 1 ==> spec_is_dec_digit(#[trigger] p@.subrange(0, i as int + 1)[k]));
            lemma_dec_val_bound(p@.subrange(0, i as int + 1));
            assert(spec_pow10(3) == 1000) by {
                assert(spec_pow10(0) == 1);
                assert(spec_pow10(1) == 10);
                assert(spec_pow10(2) == 100);
            }
            assert(spec_pow10(p@.subrange(0, i as int + 1).len()) <= 1000) by {
                assert(spec_pow10(0) == 1);
                assert(spec_pow10(1) == 10);
                assert(spec_pow10(2) == 100);
                assert(spec_pow10(3) == 1000);
            }
        }
        val = val * 10 + ((b - 48) as u32);
        i = i + 1;
    }
    proof {
        assert(p@.subrange(0, p@.len() as int) =~= p@);
    }
    if val > 255 {
        return None;
    }
    Some(val as u8)
}

/// Reads a dotted-quad IPv4 literal.
pub fn parse_ipv4(s: &[u8]) -> (r: Option<u32>)
    ensures
        r == spec_ipv4_of(s@),
{
    let parts = split_sep(s, 46);
    if parts.len() != 4 {
        return None;
    }
    proof {
        assert(spec_views_of(parts@)[0] == parts@[0]@);
        assert(spec_views_of(parts@)[1] == parts@[1]@);
        assert(spec_views_of(parts@)[2] == parts@[2]@);
        assert(spec_views_of(parts@)[3] == parts@[3]@);
    }
    let a = match dec_part(&parts[0]) {
        Some(v) => v,
        None => {
            return None;
        },
    };
    let b = match dec_part(&parts[1]) {
        Some(v) => v,
        None => {
            return None;
        },
    };
    let c = match dec_part(&parts[2]) {
        Some(v) => v,
        None => {
            return None;
        },
    };
    let d = match dec_part(&parts[3]) {
        Some(v) => v,
        None => {
            return None;
        },
    };
    let r: u32 = ((a as u32) << 24) | ((b as u32) << 16) | ((c as u32) << 8) | (d as u32);
    proof {
        let x = a as u32;
        let y = b as u32;
        let z = c as u32;
        let w = d as u32;
        assert(x < 0x100 && y < 0x100 && z < 0x100 && w < 0x100 ==> ((x << 24) | (y << 16) | (z
            << 8) | w) == x * 0x1000000 + y * 0x10000 + z * 0x100 + w) by (bit_vector);
    }
    Some(r)
}

pub open spec fn spec_is_hex_digit(b: u8) -> bool {
    (48 <= b <= 57) || (97 <= b <= 102) || (65 <= b <= 70)
}

pub open spec fn spec_hex_digit_val(b: u8) -> int {
    if 48 <= b <= 57 {
        b - 48
    } else if 97 <= b <= 102 {
        b - 87
    } else {
        b - 55
    }
}

/// The value of a hex group.
pub open spec fn spec_hex_val(run: Seq<u8>) -> int
    decreases run.len(),
{
    if run.len() == 0 {
        0
    } else {
        spec_hex_val(run.drop_last()) * 16 + spec_hex_digit_val(run.last())
    }
}

/// A hex group of one to four digits.
pub open spec fn spec_hex_group_ok(p: Seq<u8>) -> bool {
    &&& 1 <= p.len() <= 4
    &&& forall|i: int| 0 <= i < p.len() ==> spec_is_hex_digit(#[trigger] p[i])
}

/// The 128 bits of eight 16-bit groups, read left to right.
pub open spec fn spec_groups_val(gs: Seq<int>) -> int
    decreases gs.len(),
{
    if gs.len() == 0 {
        0
    } else {
        spec_groups_val(gs.drop_last()) * 0x10000 + gs.last()
    }
}

/// Reads one hex group of up to four digits.
fn hex_group(p: &Vec<u8>) -> (r: Option<u16>)
    ensures
        spec_hex_group_ok(p@) ==> (r == Some((spec_hex_val(p@)) as u16) && 0 <= spec_hex_val(p@)
            <= 0xFFFF),
        !spec_hex_group_ok(p@) ==> r is None,
{
    if p.len() == 0 || p.len() > 4 {
        return None;
    }
    let mut val: u32 = 0;
    let mut i: usize = 0;
    while i < p.len()
        invariant
            0 <= i <= p@.len(),
            p@.len() <= 4,
            forall|k: int| 0 <= k < i ==> spec_is_hex_digit(#[trigger] p@[k]),
            val == spec_hex_val(p@.subrange(0, i as int)),
            val <= 0xFFFF,
        decreases p@.len() - i,
    {
        let b: u8 = p[i];
        let d: u32 = if 48 <= b && b <= 57 {
            (b - 48) as u32
        } else if 97 <= b && b <= 102 {
            (b - 87) as u32
        } else if 65 <= b && b <= 70 {
            (b - 55) as u32
        } else {
            return None;
        };
        proof {
            assert(p@.subrange(0, i as int + 1).drop_last() =~= p@.subrange(0, i as int));
            assert(forall|k: int|
                0 <= k < i + 1 ==> spec_is_hex_digit(#[trigger] p@.subrange(0, i as int + 1)[k]));
            lemma_hex_val_bound(p@.subrange(0, i as int + 1));
            assert(spec_pow16(p@.subrange(0, i as int + 1).len()) <= 0x10000) by {
                assert(spec_pow16(0) == 1);
                assert(spec_pow16(1) == 16);
                assert(spec_pow16(2) == 256);
                assert(spec_pow16(3) == 4096);
                assert(spec_pow16(4) == 0x10000);
            }
        }
        val = val * 16 + d;
        i = i + 1;
    }
    proof {
        assert(p@.subrange(0, p@.len() as int) =~= p@);
        lemma_hex_val_bound(p@);
        assert(spec_pow16(p@.len()) <= 0x10000) by {
            assert(spec_pow16(0) == 1);
            assert(spec_pow16(1) == 16);
            assert(spec_pow16(2) == 256);
            assert(spec_pow16(3) == 4096);
            assert(spec_pow16(4) == 0x10000);
        }
    }
    Some(val as u16)
}


/// The first position of a "::", if any.
pub open spec fn spec_find_dcolon(s: Seq<u8>) -> Option<int>
    decreases s.len(),
{
    if s.len() < 2 {
        None
    } else if s[0] == 58 && s[1] == 58 {
        Some(0)
    } else {
        match spec_find_dcolon(s.drop_first()) {
            Some(i) => Some(i + 1),
            None => None,
        }
    }
}

/// The colon-separated groups of a piece; an empty piece holds none.
pub open spec fn spec_groups_of(x: Seq<u8>) -> Seq<Seq<u8>> {
    if x.len() == 0 {
        seq![]
    } else {
        spec_split_sep(x, 58)
    }
}

pub open spec fn spec_groups_ok(parts: Seq<Seq<u8>>) -> bool {
    forall|i: int| 0 <= i < parts.len() ==> spec_hex_group_ok(#[trigger] parts[i])
}

/// The value of eight 16-bit groups, most significant first.
pub open spec fn spec_eight_groups_val(g: Seq<int>) -> int {
    g[0] * 0x1000000000000000000000000000 * 0x10 + g[1] * 0x1000000000000000000000000 + g[2]
        * 0x100000000000000000000 + g[3] * 0x10000000000000000 + g[4] * 0x1000000000000 + g[5]
        * 0x100000000 + g[6] * 0x10000 + g[7]
}

/// The group values a literal stands for: its own groups, with a "::"
/// standing for the zero groups that complete the eight.
pub open spec fn spec_ipv6_groups(s: Seq<u8>) -> Option<Seq<int>> {
    match spec_find_dcolon(s) {
        None => {
            let parts = spec_split_sep(s, 58);
            if parts.len() == 8 && spec_groups_ok(parts) {
                Some(parts.map_values(|p: Seq<u8>| spec_hex_val(p)))
            } else {
                None
            }
        },
        Some(i) => {
            let left = spec_groups_of(s.subrange(0, i));
            let right = spec_groups_of(s.skip(i + 2));
            if spec_groups_ok(left) && spec_groups_ok(right) && left.len() + right.len() <= 7 {
                Some(
                    left.map_values(|p: Seq<u8>| spec_hex_val(p)) + Seq::new(
                        (8 - left.len() - right.len()) as nat,
                        |k: int| 0,
                    ) + right.map_values(|p: Seq<u8>| spec_hex_val(p)),
                )
            } else {
                None
            }
        },
    }
}

/// The 128 bits of an IPv6 literal: hex groups split at colons, one
/// "::" allowed for a run of zero groups.
pub open spec fn spec_ipv6_of(s: Seq<u8>) -> Option<u128> {
    match spec_ipv6_groups(s) {
        Some(g) => Some(spec_eight_groups_val(g) as u128),
        None => None,
    }
}

/// Collects the values of a list of hex groups.
#[verifier::loop_isolation(false)]
fn hex_groups(parts: &Vec<Vec<u8>>) -> (r: Option<Vec<u16>>)
    ensures
        spec_groups_ok(spec_views_of(parts@)) ==> (r matches Some(v) && v@.map_values(
            |g: u16| g as int,
        ) == spec_views_of(parts@).map_values(|p: Seq<u8>| spec_hex_val(p))),
        !spec_groups_ok(spec_views_of(parts@)) ==> r is None,
{
    let ghost pv = spec_views_of(parts@);
    let mut out: Vec<u16> = Vec::new();
    let mut i: usize = 0;
    while i < parts.len()
        invariant
            0 <= i <= parts@.len(),
            out@.len() == i,
            forall|k: int| 0 <= k < i ==> spec_hex_group_ok(#[trigger] pv[k]),
            forall|k: int| 0 <= k < i ==> (#[trigger] out@[k]) as int == spec_hex_val(pv[k]),
        decreases parts@.len() - i,
    {
        proof {
            assert(pv[i as int] == parts@[i as int]@);
        }
        match hex_group(&parts[i]) {
            Some(g) => {
                out.push(g);
            },
            None => {
                proof {
                    assert(!spec_hex_group_ok(pv[i as int]));
                }
                return None;
            },
        }
        i = i + 1;
    }
    proof {
        assert(out@.map_values(|g: u16| g as int) =~= pv.map_values(
            |p: Seq<u8>| spec_hex_val(p),
        ));
    }
    Some(out)
}

/// Reads an IPv6 literal.
#[verifier::loop_isolation(false)]
#[verifier::rlimit(100)]
pub fn parse_ipv6(s: &[u8]) -> (r: Option<u128>)
    ensures
        r == spec_ipv6_of(s@),
{
    // find the first "::"
    let mut dc: Option<usize> = None;
    let mut i: usize = 0;
    proof {
        assert(s@.skip(0) =~= s@);
    }
    while dc.is_none() && i < s.len() && s.len() - i >= 2
        invariant
            0 <= i <= s@.len(),
            dc is None ==> spec_find_dcolon(s@) == ({
                match spec_find_dcolon(s@.skip(i as int)) {
                    Some(k) => Some(k + i),
                    None => None::<int>,
                }
            }),
            dc matches Some(d) ==> spec_find_dcolon(s@) == Some(d as int) && d + 2 <= s@.len(),
        decreases s@.len() - i, (if dc is None { 1int } else { 0int }),
    {
        proof {
            assert(s@.skip(i as int).drop_first() =~= s@.skip(i as int + 1));
            assert(s@.skip(i as int)[0] == s@[i as int]);
            assert(s@.skip(i as int)[1] == s@[i as int + 1]);
        }
        if s[i] == 58 && s[i + 1] == 58 {
            dc = Some(i);
        } else {
            i = i + 1;
        }
    }
    proof {
        if dc is None {
            assert(spec_find_dcolon(s@.skip(i as int)) is None) by {
                assert(s@.skip(i as int).len() < 2);
            }
        }
    }

    let groups: Vec<u16> = match dc {
        None => {
            let parts = split_sep(s, 58);
            if parts.len() != 8 {
                return None;
            }
            match hex_groups(&parts) {
                Some(g) => g,
                None => {
                    return None;
                },
            }
        },
        Some(d) => {
            let n: usize = s.len();
            proof {
                assert(d + 2 <= n);
            }
            let left_bytes = &s[0..d];
            let right_bytes = &s[(d + 2)..n];
            let left_parts: Vec<Vec<u8>> = if left_bytes.len() == 0 {
                Vec::new()
            } else {
                split_sep(left_bytes, 58)
            };
            let right_parts: Vec<Vec<u8>> = if right_bytes.len() == 0 {
                Vec::new()
            } else {
                split_sep(right_bytes, 58)
            };
            proof {
                assert(left_bytes@ == s@.subrange(0, d as int));
                assert(right_bytes@ == s@.skip(d as int + 2));
                if left_bytes@.len() == 0 {
                    assert(spec_views_of(Seq::<Vec<u8>>::empty()) =~= Seq::<Seq<u8>>::empty());
                }
                if right_bytes@.len() == 0 {
                    assert(spec_views_of(Seq::<Vec<u8>>::empty()) =~= Seq::<Seq<u8>>::empty());
                }
            }
            if left_parts.len() > 7 || right_parts.len() > 7 - left_parts.len() {
                return None;
            }
            let lv = match hex_groups(&left_parts) {
                Some(g) => g,
                None => {
                    return None;
                },
            };
            let rv = match hex_groups(&right_parts) {
                Some(g) => g,
                None => {
                    return None;
                },
            };
            let ghost lv0 = lv@;
            let ghost rv0 = rv@;
            let rv_len: usize = rv.len();
            let mut groups: Vec<u16> = lv;
            let zeros: usize = 8 - groups.len() - rv_len;
            let mut z: usize = 0;
            while z < zeros
                invariant
                    0 <= z <= zeros,
                    groups@ =~= lv0 + Seq::new(z as nat, |k: int| 0u16),
                decreases zeros - z,
            {
                groups.push(0);
                proof {
                    assert(groups@ =~= lv0 + Seq::new(z as nat + 1, |k: int| 0u16));
                }
                z = z + 1;
            }
            let mut rvm = rv;
            groups.append(&mut rvm);
            proof {
                let lvv = lv0.map_values(|g: u16| g as int);
                let rvv = rv0.map_values(|g: u16| g as int);
                let zz = Seq::new((8 - lv0.len() - rv0.len()) as nat, |k: int| 0);
                assert(groups@.map_values(|g: u16| g as int) =~= lvv + zz + rvv);
            }
            groups
        },
    };

    proof {
        assert(groups@.map_values(|g: u16| g as int).len() == 8);
        assert(groups@.len() == 8);
    }
    let g0 = groups[0];
    let g1 = groups[1];
    let g2 = groups[2];
    let g3 = groups[3];
    let g4 = groups[4];
    let g5 = groups[5];
    let g6 = groups[6];
    let g7 = groups[7];
    let v: u128 = ((g0 as u128) << 112) | ((g1 as u128) << 96) | ((g2 as u128) << 80) | ((
    g3 as u128) << 64) | ((g4 as u128) << 48) | ((g5 as u128) << 32) | ((g6 as u128) << 16) | (
    g7 as u128);
    proof {
        let a0 = g0 as u128;
        let a1 = g1 as u128;
        let a2 = g2 as u128;
        let a3 = g3 as u128;
        let a4 = g4 as u128;
        let a5 = g5 as u128;
        let a6 = g6 as u128;
        let a7 = g7 as u128;
        assert(a0 < 0x10000 && a1 < 0x10000 && a2 < 0x10000 && a3 < 0x10000 && a4 < 0x10000 && a5
            < 0x10000 && a6 < 0x10000 && a7 < 0x10000 ==> ((a0 << 112) | (a1 << 96) | (a2 << 80) | (
        a3 << 64) | (a4 << 48) | (a5 << 32) | (a6 << 16) | a7) == a0
            * 0x10000000000000000000000000000 + a1 * 0x1000000000000000000000000 + a2
            * 0x100000000000000000000 + a3 * 0x10000000000000000 + a4 * 0x1000000000000 + a5
            * 0x100000000 + a6 * 0x10000 + a7) by (bit_vector);
        let gv = groups@.map_values(|g: u16| g as int);
        assert(gv[0] == g0 as int && gv[1] == g1 as int && gv[2] == g2 as int && gv[3] == g3 as int
            && gv[4] == g4 as int && gv[5] == g5 as int && gv[6] == g6 as int && gv[7]
            == g7 as int);
    }
    Some(v)
}

/// A decimal port of up to five digits.
pub open spec fn spec_port_ok(p: Seq<u8>) -> bool {
    &&& 1 <= p.len() <= 5
    &&& forall|i: int| 0 <= i < p.len() ==> spec_is_dec_digit(#[trigger] p[i])
    &&& spec_dec_val(p) <= 65535
}

/// Reads a decimal port.
fn dec_port(p: &Vec<u8>) -> (r: Option<u16>)
    ensures
        spec_port_ok(p@) ==> (r == Some((spec_dec_val(p@)) as u16) && 0 <= spec_dec_val(p@)
            <= 65535),
        !spec_port_ok(p@) ==> r is None,
{
    if p.len() == 0 || p.len() > 5 {
        return None;
    }
    let mut val: u32 = 0;
    let mut i: usize = 0;
    while i < p.len()
        invariant
            0 <= i <= p@.len(),
            p@.len() <= 5,
            forall|k: int| 0 <= k < i ==> spec_is_dec_digit(#[trigger] p@[k]),
            val == spec_dec_val(p@.subrange(0, i as int)),
            val <= 99999,
        decreases p@.len() - i,
    {
        let b: u8 = p[i];
        if !(48 <= b && b <= 57) {
            return None;
        }
        proof {
            assert(p@.subrange(0, i as int + 1).drop_last() =~= p@.subrange(0, i as int));
            assert(forall|k: int|
                0 <= k < i + 1 ==> spec_is_dec_digit(#[trigger] p@.subrange(0, i as int + 1)[k]));
            lemma_dec_val_bound(p@.subrange(0, i as int + 1));
            assert(spec_pow10(p@.subrange(0, i as int + 1).len()) <= 100000) by {
                assert(spec_pow10(0) == 1);
                assert(spec_pow10(1) == 10);
                assert(spec_pow10(2) == 100);
                assert(spec_pow10(3) == 1000);
                assert(spec_pow10(4) == 10000);
                assert(spec_pow10(5) == 100000);
            }
        }
        val = val * 10 + ((b - 48) as u32);
        i = i + 1;
    }
    proof {
        assert(p@.subrange(0, p@.len() as int) =~= p@);
    }
    if val > 65535 {
        return None;
    }
    Some(val as u16)
}

/// What an upstream address string names: "[v6]:port", "v4:port", a
/// bare IPv4, or a bare IPv6, the bare forms taking `default_port`.
pub open spec fn spec_sock_addr_of(s: Seq<u8>, default_port: u16) -> Option<SockAddr> {
    if s.len() >= 2 && s[0] == 91 {
        match spec_find_byte(s, 93) {
            Some(i) => if i + 2 <= s.len() && s[i + 1] == 58 && spec_port_ok(
                s.skip(i + 2),
            ) && spec_ipv6_of(s.subrange(1, i)) is Some {
                Some(
                    SockAddr {
                        ip: IpAddr::V6(spec_ipv6_of(s.subrange(1, i))->Some_0),
                        port: spec_dec_val(s.skip(i + 2)) as u16,
                    },
                )
            } else {
                None
            },
            None => None,
        }
    } else {
        let parts = spec_split_sep(s, 58);
        if parts.len() == 2 && spec_ipv4_of(parts[0]) is Some && spec_port_ok(parts[1]) {
            Some(
                SockAddr {
                    ip: IpAddr::V4(spec_ipv4_of(parts[0])->Some_0),
                    port: spec_dec_val(parts[1]) as u16,
                },
            )
        } else if spec_ipv4_of(s) is Some {
            Some(SockAddr { ip: IpAddr::V4(spec_ipv4_of(s)->Some_0), port: default_port })
        } else if spec_ipv6_of(s) is Some {
            Some(SockAddr { ip: IpAddr::V6(spec_ipv6_of(s)->Some_0), port: default_port })
        } else {
            None
        }
    }
}

/// The first position of `b`, if any.
pub open spec fn spec_find_byte(s: Seq<u8>, b: u8) -> Option<int>
    decreases s.len(),
{
    if s.len() == 0 {
        None
    } else if s[0] == b {
        Some(0)
    } else {
        match spec_find_byte(s.drop_first(), b) {
            Some(i) => Some(i + 1),
            None => None,
        }
    }
}

/// A found position is in range and holds the byte sought.
pub proof fn lemma_find_byte_hit(s: Seq<u8>, b: u8)
    ensures
        ({
            match spec_find_byte(s, b) {
                Some(i) => 0 <= i < s.len() && s[i] == b,
                None => true,
            }
        }),
    decreases s.len(),
{
    if s.len() > 0 && s[0] != b {
        lemma_find_byte_hit(s.drop_first(), b);
    }
}

/// Finds the first position of `b`.
#[verifier::loop_isolation(false)]
fn find_byte(s: &[u8], b: u8) -> (r: Option<usize>)
    ensures
        ({
            match spec_find_byte(s@, b) {
                Some(i) => r matches Some(j) && j as int == i && i < s@.len(),
                None => r is None,
            }
        }),
{
    let mut i: usize = 0;
    proof {
        assert(s@.skip(0) =~= s@);
    }
    while i < s.len()
        invariant
            0 <= i <= s@.len(),
            spec_find_byte(s@, b) == ({
                match spec_find_byte(s@.skip(i as int), b) {
                    Some(k) => Some(k + i),
                    None => None::<int>,
                }
            }),
        decreases s@.len() - i,
    {
        proof {
            assert(s@.skip(i as int).drop_first() =~= s@.skip(i as int + 1));
            assert(s@.skip(i as int)[0] == s@[i as int]);
        }
        if s[i] == b {
            return Some(i);
        }
        i = i + 1;
    }
    proof {
        assert(s@.skip(i as int).len() == 0);
    }
    None
}

/// Reads an upstream address, completing a bare IP with `default_port`.
#[verifier::rlimit(100)]
pub fn parse_sock_addr(s: &[u8], default_port: u16) -> (r: Option<SockAddr>)
    ensures
        r == spec_sock_addr_of(s@, default_port),
{
    if s.len() >= 2 && s[0] == 91 {
        match find_byte(s, 93) {
            Some(i) => {
                proof {
                    lemma_find_byte_hit(s@, 93);
                    assert(s@[0] == 91 && s@[i as int] == 93);
                    assert(i >= 1);
                }
                if i < s.len() && s.len() - i >= 2 && s[i + 1] == 58 {
                    let inner = &s[1..i];
                    let port_bytes = &s[(i + 2)..s.len()];
                    let mut pb: Vec<u8> = Vec::new();
                    let mut k: usize = 0;
                    while k < port_bytes.len()
                        invariant
                            0 <= k <= port_bytes@.len(),
                            pb@ == port_bytes@.subrange(0, k as int),
                        decreases port_bytes@.len() - k,
                    {
                        pb.push(port_bytes[k]);
                        proof {
                            assert(pb@ =~= port_bytes@.subrange(0, k as int + 1));
                        }
                        k = k + 1;
                    }
                    proof {
                        assert(pb@ =~= port_bytes@);
                        assert(port_bytes@ == s@.skip(i as int + 2));
                        assert(inner@ == s@.subrange(1, i as int));
                    }
                    let port = match dec_port(&pb) {
                        Some(p) => p,
                        None => {
                            return None;
                        },
                    };
                    match parse_ipv6(inner) {
                        Some(v) => Some(SockAddr { ip: IpAddr::V6(v), port }),
                        None => None,
                    }
                } else {
                    None
                }
            },
            None => None,
        }
    } else {
        let parts = split_sep(s, 58);
        proof {
            assert(forall|k: int|
                0 <= k < parts@.len() ==> (#[trigger] spec_views_of(parts@)[k]) == parts@[k]@);
        }
        if parts.len() == 2 {
            let port_opt = dec_port(&parts[1]);
            let ip_opt = parse_ipv4(parts[0].as_slice());
            if let (Some(ip), Some(port)) = (ip_opt, port_opt) {
                return Some(SockAddr { ip: IpAddr::V4(ip), port });
            }
        }
        if let Some(v) = parse_ipv4(s) {
            return Some(SockAddr { ip: IpAddr::V4(v), port: default_port });
        }
        match parse_ipv6(s) {
            Some(v) => Some(SockAddr { ip: IpAddr::V6(v), port: default_port }),
            None => None,
        }
    }
}


/// A prefix of a digit string never exceeds the whole string's value.
pub proof fn lemma_dec_val_prefix_le(run: Seq<u8>, j: int)
    requires
        0 <= j <= run.len(),
        forall|k: int| 0 <= k < run.len() ==> spec_is_dec_digit(#[trigger] run[k]),
    ensures
        0 <= spec_dec_val(run.subrange(0, j)) <= spec_dec_val(run),
    decreases run.len() - j,
{
    assert(forall|k: int|
        0 <= k < run.subrange(0, j).len() ==> spec_is_dec_digit(
            #[trigger] run.subrange(0, j)[k],
        ));
    lemma_dec_val_bound(run.subrange(0, j));
    if j == run.len() {
        assert(run.subrange(0, j) =~= run);
    } else {
        lemma_dec_val_prefix_le(run, j + 1);
        assert(run.subrange(0, j + 1).drop_last() =~= run.subrange(0, j));
    }
}

/// What a decimal literal is worth, when it is all digits and fits.
pub open spec fn spec_dec_u32_of(s: Seq<u8>) -> Option<u32> {
    if s.len() >= 1 && (forall|i: int| 0 <= i < s.len() ==> spec_is_dec_digit(#[trigger] s[i]))
        && spec_dec_val(s) <= u32::MAX {
        Some(spec_dec_val(s) as u32)
    } else {
        None
    }
}

/// Reads an unsigned 32-bit decimal literal.
#[verifier::loop_isolation(false)]
pub fn parse_dec_u32(s: &[u8]) -> (r: Option<u32>)
    ensures
        r == spec_dec_u32_of(s@),
{
    if s.len() == 0 {
        return None;
    }
    let mut val: u32 = 0;
    let mut i: usize = 0;
    proof {
        assert(s@.subrange(0, 0) =~= Seq::<u8>::empty());
    }
    while i < s.len()
        invariant
            0 <= i <= s@.len(),
            forall|k: int| 0 <= k < i ==> spec_is_dec_digit(#[trigger] s@[k]),
            val == spec_dec_val(s@.subrange(0, i as int)),
        decreases s@.len() - i,
    {
        let b: u8 = s[i];
        if !(48 <= b && b <= 57) {
            return None;
        }
        proof {
            assert(s@.subrange(0, i as int + 1).drop_last() =~= s@.subrange(0, i as int));
        }
        let stepped: Option<u32> = match val.checked_mul(10) {
            Some(v) => v.checked_add((b - 48) as u32),
            None => None,
        };
        match stepped {
            Some(v) => {
                val = v;
            },
            None => {
                proof {
                    assert(spec_dec_val(s@.subrange(0, i as int + 1)) > u32::MAX);
                    assert(forall|k: int|
                        0 <= k < i + 1 ==> spec_is_dec_digit(#[trigger] s@[k]));
                    if forall|k: int| 0 <= k < s@.len() ==> spec_is_dec_digit(#[trigger] s@[k]) {
                        lemma_dec_val_prefix_le(s@, i as int + 1);
                    }
                }
                return None;
            },
        }
        i = i + 1;
    }
    proof {
        assert(s@.subrange(0, s@.len() as int) =~= s@);
    }
    Some(val)
}

/// What a 16-bit decimal literal is worth.
pub open spec fn spec_dec_u16_of(s: Seq<u8>) -> Option<u16> {
    if s.len() >= 1 && (forall|i: int| 0 <= i < s.len() ==> spec_is_dec_digit(#[trigger] s[i]))
        && spec_dec_val(s) <= u16::MAX {
        Some(spec_dec_val(s) as u16)
    } else {
        None
    }
}

/// Reads an unsigned 16-bit decimal literal.
#[verifier::loop_isolation(false)]
pub fn parse_dec_u16(s: &[u8]) -> (r: Option<u16>)
    ensures
        r == spec_dec_u16_of(s@),
{
    if s.len() == 0 {
        return None;
    }
    let mut val: u32 = 0;
    let mut i: usize = 0;
    proof {
        assert(s@.subrange(0, 0) =~= Seq::<u8>::empty());
    }
    while i < s.len()
        invariant
            0 <= i <= s@.len(),
            forall|k: int| 0 <= k < i ==> spec_is_dec_digit(#[trigger] s@[k]),
            val == spec_dec_val(s@.subrange(0, i as int)),
            val <= 65535,
        decreases s@.len() - i,
    {
        let b: u8 = s[i];
        if !(48 <= b && b <= 57) {
            return None;
        }
        proof {
            assert(s@.subrange(0, i as int + 1).drop_last() =~= s@.subrange(0, i as int));
        }
        let stepped: u32 = val * 10 + ((b - 48) as u32);
        if stepped > 65535 {
            proof {
                assert(spec_dec_val(s@.subrange(0, i as int + 1)) > u16::MAX);
                assert(forall|k: int| 0 <= k < i + 1 ==> spec_is_dec_digit(#[trigger] s@[k]));
                if forall|k: int| 0 <= k < s@.len() ==> spec_is_dec_digit(#[trigger] s@[k]) {
                    lemma_dec_val_prefix_le(s@, i as int + 1);
                }
            }
            return None;
        }
        val = stepped;
        i = i + 1;
    }
    proof {
        assert(s@.subrange(0, s@.len() as int) =~= s@);
    }
    Some(val as u16)
}

} // verus!
