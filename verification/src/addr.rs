//! Address blocks and the deterministic host-address allocator.
//!
//! A network block (CIDR) is modelled as a raw numeric address plus a
//! prefix length.  All mask, network and host computations are done here
//! on those plain values; only turning a textual CIDR into a block is
//! delegated to the `ipnet` crate.

use core::str::FromStr;
use vstd::arithmetic::power2::lemma2_to64;
use vstd::arithmetic::power2::lemma_pow2_strictly_increases;
use vstd::arithmetic::power2::pow2;
use vstd::prelude::*;

verus! {

/// A raw IP address of either family.
#[derive(Clone, Copy, Debug, PartialEq, Eq)]
pub enum Ip {
    V4(u32),
    V6(u128),
}

/// An address together with a prefix length: either a network block or a
/// host address carrying the prefix length of its block.
#[derive(Clone, Copy, Debug, PartialEq, Eq)]
pub struct Cidr {
    pub addr: Ip,
    pub prefix: u8,
}

/// The recoverable failures of the core.
#[derive(Clone, Copy, Debug, PartialEq, Eq)]
pub enum AppError {
    /// A link's address block has fewer than two usable host addresses.
    InvalidBlock,
    /// A pair operation was invoked with identical handles on both sides.
    DuplicateEndpoint,
}

impl Cidr {
    /// The prefix length fits the address family.
    pub open spec fn wf(self) -> bool {
        match self.addr {
            Ip::V4(_) => self.prefix <= 32,
            Ip::V6(_) => self.prefix <= 128,
        }
    }
}

/// The network mask of a v4 prefix: the high `p` bits set.
pub open spec fn mask32(p: u8) -> u32
    recommends
        p <= 32,
{
    if p == 0 {
        0u32
    } else {
        (0xFFFF_FFFFu32 << ((32 - p) as u32)) as u32
    }
}

/// The network mask of a v6 prefix: the high `p` bits set.
pub open spec fn mask128(p: u8) -> u128
    recommends
        p <= 128,
{
    if p == 0 {
        0u128
    } else {
        (0xFFFF_FFFF_FFFF_FFFF_FFFF_FFFF_FFFF_FFFFu128 << ((128 - p) as u128)) as u128
    }
}

/// The network mask of a block, as an address value.
pub open spec fn mask_addr(c: Cidr) -> Ip {
    match c.addr {
        Ip::V4(_) => Ip::V4(mask32(c.prefix)),
        Ip::V6(_) => Ip::V6(mask128(c.prefix)),
    }
}

/// The wildcard (complement-of-mask) of a block, as an address value.
pub open spec fn wildcard_addr(c: Cidr) -> Ip {
    match c.addr {
        Ip::V4(_) => Ip::V4(!mask32(c.prefix)),
        Ip::V6(_) => Ip::V6(!mask128(c.prefix)),
    }
}

/// The network address of a block: its address with the host bits cleared.
pub open spec fn net_addr(c: Cidr) -> Ip {
    match c.addr {
        Ip::V4(a) => Ip::V4(a & mask32(c.prefix)),
        Ip::V6(a) => Ip::V6(a & mask128(c.prefix)),
    }
}

/// How many usable host addresses the block holds, applying the standard
/// host-exclusion rule of each family: a v4 block keeps its network and
/// broadcast addresses out unless the prefix is 31 or 32; a v6 block has
/// no such exclusion.
pub open spec fn host_count(c: Cidr) -> nat {
    match c.addr {
        Ip::V4(_) => if c.prefix <= 30 {
            (pow2((32 - c.prefix) as nat) - 2) as nat
        } else if c.prefix == 31 {
            2
        } else {
            1
        },
        Ip::V6(_) => pow2((128 - c.prefix) as nat),
    }
}

/// `x` is one of the addresses of the block `c` (same family, same
/// network once masked).
pub open spec fn contains_host(c: Cidr, x: Ip) -> bool {
    match (c.addr, x) {
        (Ip::V4(_), Ip::V4(v)) => Ip::V4(v & mask32(c.prefix)) == net_addr(c),
        (Ip::V6(_), Ip::V6(v)) => Ip::V6(v & mask128(c.prefix)) == net_addr(c),
        _ => false,
    }
}

/// The first two usable host addresses of a block, in ascending numeric
/// order, each carrying the block's prefix length.
pub open spec fn alloc_pair(c: Cidr) -> (Cidr, Cidr) {
    match c.addr {
        Ip::V4(a) => {
            let n = a & mask32(c.prefix);
            if c.prefix <= 30 {
                (
                    Cidr { addr: Ip::V4((n + 1) as u32), prefix: c.prefix },
                    Cidr { addr: Ip::V4((n + 2) as u32), prefix: c.prefix },
                )
            } else {
                (
                    Cidr { addr: Ip::V4(n), prefix: c.prefix },
                    Cidr { addr: Ip::V4((n + 1) as u32), prefix: c.prefix },
                )
            }
        },
        Ip::V6(a) => {
            let n = a & mask128(c.prefix);
            (
                Cidr { addr: Ip::V6(n), prefix: c.prefix },
                Cidr { addr: Ip::V6((n + 1) as u128), prefix: c.prefix },
            )
        },
    }
}

proof fn lemma_v4_mask_props(a: u32, p: u8)
    requires
        p <= 32,
    ensures
        (a & mask32(p)) & mask32(p) == a & mask32(p),
        p <= 30 ==> a & mask32(p) <= u32::MAX - 2,
        p <= 30 ==> (((a & mask32(p)) + 1) as u32) & mask32(p) == a & mask32(p),
        p <= 30 ==> (((a & mask32(p)) + 2) as u32) & mask32(p) == a & mask32(p),
        p == 31 ==> a & mask32(p) <= u32::MAX - 1,
        p == 31 ==> (((a & mask32(p)) + 1) as u32) & mask32(p) == a & mask32(p),
{
    if p == 0 {
        assert((a & 0u32) & 0u32 == a & 0u32 && a & 0u32 <= u32::MAX - 2 && (((a & 0u32)
            + 1) as u32) & 0u32 == a & 0u32 && (((a & 0u32) + 2) as u32) & 0u32 == a & 0u32)
            by (bit_vector);
    } else {
        let m = mask32(p);
        assert((a & m) & m == a & m) by (bit_vector)
            requires
                m == (0xFFFF_FFFFu32 << ((32 - p) as u32)) as u32 && 1 <= p && p <= 32,
        ;
        if p <= 30 {
            assert(a & m <= u32::MAX - 2 && (((a & m) + 1) as u32) & m == a & m && (((a & m)
                + 2) as u32) & m == a & m) by (bit_vector)
                requires
                    m == (0xFFFF_FFFFu32 << ((32 - p) as u32)) as u32 && 1 <= p && p <= 30,
            ;
        }
        if p == 31 {
            assert(a & m <= u32::MAX - 1 && (((a & m) + 1) as u32) & m == a & m) by (bit_vector)
                requires
                    m == (0xFFFF_FFFFu32 << ((32 - p) as u32)) as u32 && p == 31,
            ;
        }
    }
}

proof fn lemma_v6_mask_props(a: u128, p: u8)
    requires
        p <= 128,
    ensures
        (a & mask128(p)) & mask128(p) == a & mask128(p),
        p <= 127 ==> a & mask128(p) <= u128::MAX - 1,
        p <= 127 ==> (((a & mask128(p)) + 1) as u128) & mask128(p) == a & mask128(p),
{
    if p == 0 {
        assert((a & 0u128) & 0u128 == a & 0u128 && a & 0u128 <= u128::MAX - 1 && (((a & 0u128)
            + 1) as u128) & 0u128 == a & 0u128) by (bit_vector);
    } else {
        let m = mask128(p);
        assert((a & m) & m == a & m) by (bit_vector)
            requires
                m == (0xFFFF_FFFF_FFFF_FFFF_FFFF_FFFF_FFFF_FFFFu128 << ((128 - p) as u128)) as u128
                    && 1 <= p && p <= 128,
        ;
        if p <= 127 {
            assert(a & m <= u128::MAX - 1 && (((a & m) + 1) as u128) & m == a & m) by (bit_vector)
                requires
                    m == (0xFFFF_FFFF_FFFF_FFFF_FFFF_FFFF_FFFF_FFFFu128 << ((
                    128 - p) as u128)) as u128 && 1 <= p && p <= 127,
            ;
        }
    }
}

/// The allocator never hands out more than the block holds: whenever a
/// block has at least two usable host addresses, the allocated pair
/// consists of two distinct members of the block, both carrying the
/// block's prefix length.
pub proof fn lemma_allocation_properties(c: Cidr)
    requires
        c.wf(),
        host_count(c) >= 2,
    ensures
        contains_host(c, alloc_pair(c).0.addr),
        contains_host(c, alloc_pair(c).1.addr),
        alloc_pair(c).0.prefix == c.prefix,
        alloc_pair(c).1.prefix == c.prefix,
        alloc_pair(c).0 != alloc_pair(c).1,
        alloc_pair(c).0.wf(),
        alloc_pair(c).1.wf(),
        net_addr(alloc_pair(c).0) == net_addr(c),
        net_addr(alloc_pair(c).1) == net_addr(c),
{
    match c.addr {
        Ip::V4(a) => {
            if c.prefix == 32 {
                assert(host_count(c) == 1);
            }
            lemma_v4_mask_props(a, c.prefix);
        },
        Ip::V6(a) => {
            if c.prefix == 128 {
                lemma2_to64();
                assert(host_count(c) == 1);
            }
            lemma_v6_mask_props(a, c.prefix);
        },
    }
}

/// Decides `host_count(c) >= 2` from the prefix alone.
fn has_two_hosts(c: &Cidr) -> (b: bool)
    requires
        c.wf(),
    ensures
        b == (host_count(*c) >= 2),
{
    proof {
        lemma2_to64();
        match c.addr {
            Ip::V4(_) => {
                if c.prefix <= 30 && 32 - c.prefix > 2 {
                    lemma_pow2_strictly_increases(2, (32 - c.prefix) as nat);
                }
            },
            Ip::V6(_) => {
                if c.prefix <= 127 && 128 - c.prefix > 1 {
                    lemma_pow2_strictly_increases(1, (128 - c.prefix) as nat);
                }
            },
        }
    }
    match c.addr {
        Ip::V4(_) => c.prefix <= 31,
        Ip::V6(_) => c.prefix <= 127,
    }
}

/// Picks the two host addresses a link's endpoints get: the first two
/// usable host addresses of the block, in ascending numeric order.  The
/// result is a pure function of the block, so a second call with the
/// same block returns the identical pair.
pub fn allocate(c: Cidr) -> (res: Result<(Cidr, Cidr), AppError>)
    requires
        c.wf(),
    ensures
        host_count(c) >= 2 ==> res == Ok::<(Cidr, Cidr), AppError>(alloc_pair(c)),
        host_count(c) < 2 ==> res == Err::<(Cidr, Cidr), AppError>(AppError::InvalidBlock),
{
    if !has_two_hosts(&c) {
        return Err(AppError::InvalidBlock);
    }
    proof {
        lemma_allocation_properties(c);
    }
    match c.addr {
        Ip::V4(a) => {
            proof {
                lemma_v4_mask_props(a, c.prefix);
            }
            let m = netmask32(c.prefix);
            let n = a & m;
            if c.prefix <= 30 {
                Ok(
                    (
                        Cidr { addr: Ip::V4(n + 1), prefix: c.prefix },
                        Cidr { addr: Ip::V4(n + 2), prefix: c.prefix },
                    ),
                )
            } else {
                Ok(
                    (
                        Cidr { addr: Ip::V4(n), prefix: c.prefix },
                        Cidr { addr: Ip::V4(n + 1), prefix: c.prefix },
                    ),
                )
            }
        },
        Ip::V6(a) => {
            proof {
                lemma_v6_mask_props(a, c.prefix);
                if c.prefix == 128 {
                    lemma2_to64();
                }
            }
            let m = netmask128(c.prefix);
            let n = a & m;
            Ok(
                (
                    Cidr { addr: Ip::V6(n), prefix: c.prefix },
                    Cidr { addr: Ip::V6(n + 1), prefix: c.prefix },
                ),
            )
        },
    }
}

fn netmask32(p: u8) -> (m: u32)
    requires
        p <= 32,
    ensures
        m == mask32(p),
{
    if p == 0 {
        0
    } else {
        0xFFFF_FFFFu32 << ((32 - p) as u32)
    }
}

fn netmask128(p: u8) -> (m: u128)
    requires
        p <= 128,
    ensures
        m == mask128(p),
{
    if p == 0 {
        0
    } else {
        0xFFFF_FFFF_FFFF_FFFF_FFFF_FFFF_FFFF_FFFFu128 << ((128 - p) as u128)
    }
}

/// The network mask of a block, as an address value.
pub fn netmask_of(c: &Cidr) -> (m: Ip)
    requires
        c.wf(),
    ensures
        m == mask_addr(*c),
{
    match c.addr {
        Ip::V4(_) => Ip::V4(netmask32(c.prefix)),
        Ip::V6(_) => Ip::V6(netmask128(c.prefix)),
    }
}

/// The wildcard (complement-of-mask) of a block, as an address value.
pub fn wildcard_of(c: &Cidr) -> (m: Ip)
    requires
        c.wf(),
    ensures
        m == wildcard_addr(*c),
{
    match c.addr {
        Ip::V4(_) => Ip::V4(!netmask32(c.prefix)),
        Ip::V6(_) => Ip::V6(!netmask128(c.prefix)),
    }
}

/// The network address of a block.
pub fn network_of(c: &Cidr) -> (n: Ip)
    requires
        c.wf(),
    ensures
        n == net_addr(*c),
{
    match c.addr {
        Ip::V4(a) => Ip::V4(a & netmask32(c.prefix)),
        Ip::V6(a) => Ip::V6(a & netmask128(c.prefix)),
    }
}

/// What `ipnet::IpNet::from_str` accepts, as a block value; `None` where
/// it rejects the text.
pub uninterp spec fn cidr_of(s: Seq<char>) -> Option<Cidr>;

/// Relies on `ipnet::IpNet::from_str`: the parse is a pure function of
/// the characters, and an accepted prefix length never exceeds the
/// family's address width (`Ipv4Net::new` and `Ipv6Net::new` reject
/// longer ones).
#[verifier::external_body]
fn ipnet_parse(s: &str) -> (r: Option<Cidr>)
    ensures
        r == cidr_of(s@),
        r matches Some(c) ==> c.wf(),
{
    match ipnet::IpNet::from_str(s) {
        Ok(ipnet::IpNet::V4(n)) => Some(
            Cidr { addr: Ip::V4(u32::from(n.addr())), prefix: n.prefix_len() },
        ),
        Ok(ipnet::IpNet::V6(n)) => Some(
            Cidr { addr: Ip::V6(u128::from(n.addr())), prefix: n.prefix_len() },
        ),
        Err(_) => None,
    }
}

/// Parse a CIDR string such as `10.0.0.0/30` into a block value.
pub fn parse_cidr(s: &str) -> (r: Option<Cidr>)
    ensures
        r == cidr_of(s@),
        r matches Some(c) ==> c.wf(),
{
    ipnet_parse(s)
}

} // verus!
