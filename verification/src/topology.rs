//! The topology model: the device registry and the link table, with the
//! transition functions their mutating operations are specified by.
//!
//! Device handles are creation indices into the registry; devices are
//! never deleted, so handles stay valid and are totally ordered by
//! creation sequence.  A link is keyed by the canonical ordered pair of
//! its endpoints (`lo < hi`); the table never holds two records for the
//! same pair.

use crate::addr::alloc_pair;
use crate::addr::host_count;
use crate::addr::net_addr;
use crate::addr::AppError;
use crate::addr::Cidr;
use crate::device::Device;
use crate::device::DeviceBuilder;
use crate::device::DeviceM;
use vstd::prelude::*;
use vstd::std_specs::vec::vec_index_mut;

verus! {

/// A stored link between two devices, keyed by the canonical pair
/// `lo < hi`.  Each endpoint holds one of the two allocated host
/// addresses and the interface index it was assigned.
#[derive(Clone, Copy, Debug, PartialEq, Eq)]
pub struct Link {
    pub lo: usize,
    pub hi: usize,
    pub lo_ip: Cidr,
    pub hi_ip: Cidr,
    pub lo_iface: u64,
    pub hi_iface: u64,
    pub ospf_area: Option<u16>,
}

/// A stored link re-oriented around a chosen "close" endpoint.
#[derive(Clone, Copy, Debug, PartialEq, Eq)]
pub struct DirectedLink {
    pub close_key: usize,
    pub far_key: usize,
    pub close_ip: Cidr,
    pub far_ip: Cidr,
    pub close_iface: u64,
    pub ospf_area: Option<u16>,
}

/// The whole in-memory topology.
pub struct App {
    pub devices: Vec<Device>,
    pub links: Vec<Link>,
    pub rip_enabled: Vec<usize>,
}

/// The mathematical content of the topology.
#[verifier::ext_equal]
pub ghost struct AppM {
    pub devices: Seq<DeviceM>,
    pub links: Seq<Link>,
    pub rip: Seq<usize>,
}

impl View for App {
    type V = AppM;

    open spec fn view(&self) -> AppM {
        AppM {
            devices: self.devices@.map_values(|d: Device| d@),
            links: self.links@,
            rip: self.rip_enabled@,
        }
    }
}

/// The smaller handle of an unordered pair.
pub open spec fn key_lo(a: usize, b: usize) -> usize {
    if a < b {
        a
    } else {
        b
    }
}

/// The larger handle of an unordered pair.
pub open spec fn key_hi(a: usize, b: usize) -> usize {
    if a < b {
        b
    } else {
        a
    }
}

/// The index of the first record for the canonical pair, or -1.
pub open spec fn find_link(links: Seq<Link>, lo: usize, hi: usize) -> int
    decreases links.len(),
{
    if links.len() == 0 {
        -1
    } else if links[0].lo == lo && links[0].hi == hi {
        0
    } else {
        let r = find_link(links.drop_first(), lo, hi);
        if r < 0 {
            -1
        } else {
            r + 1
        }
    }
}

/// Whether the table holds a record for the unordered pair `{a, b}`.
pub open spec fn has_link(s: AppM, a: usize, b: usize) -> bool {
    find_link(s.links, key_lo(a, b), key_hi(a, b)) >= 0
}

pub proof fn lemma_find_link(links: Seq<Link>, lo: usize, hi: usize)
    ensures
        find_link(links, lo, hi) >= -1,
        find_link(links, lo, hi) >= 0 ==> find_link(links, lo, hi) < links.len() && links[find_link(
            links,
            lo,
            hi,
        )].lo == lo && links[find_link(links, lo, hi)].hi == hi,
        find_link(links, lo, hi) >= 0 ==> forall|j: int|
            0 <= j < find_link(links, lo, hi) ==> !(#[trigger] links[j].lo == lo && links[j].hi
                == hi),
        find_link(links, lo, hi) < 0 ==> forall|j: int|
            0 <= j < links.len() ==> !(#[trigger] links[j].lo == lo && links[j].hi == hi),
    decreases links.len(),
{
    if links.len() > 0 && !(links[0].lo == lo && links[0].hi == hi) {
        let sub = links.drop_first();
        lemma_find_link(sub, lo, hi);
        let r = find_link(links, lo, hi);
        if r >= 0 {
            assert forall|j: int| 0 <= j < r implies !(#[trigger] links[j].lo == lo && links[j].hi
                == hi) by {
                if j > 0 {
                    assert(links[j] == sub[j - 1]);
                }
            }
        } else {
            assert forall|j: int|
                0 <= j < links.len() implies !(#[trigger] links[j].lo == lo && links[j].hi
                == hi) by {
                if j > 0 {
                    assert(links[j] == sub[j - 1]);
                }
            }
        }
    }
}

pub proof fn lemma_find_link_at(links: Seq<Link>, lo: usize, hi: usize, i: int)
    requires
        0 <= i < links.len(),
        links[i].lo == lo && links[i].hi == hi,
        forall|j: int| 0 <= j < i ==> !(#[trigger] links[j].lo == lo && links[j].hi == hi),
    ensures
        find_link(links, lo, hi) == i,
    decreases links.len(),
{
    if i > 0 {
        let sub = links.drop_first();
        assert(sub[i - 1] == links[i]);
        assert forall|j: int| 0 <= j < i - 1 implies !(#[trigger] sub[j].lo == lo && sub[j].hi
            == hi) by {
            assert(sub[j] == links[j + 1]);
        }
        lemma_find_link_at(sub, lo, hi, i - 1);
    }
}

/// The index of the first device with the name, or -1.
pub open spec fn device_index(devices: Seq<DeviceM>, name: Seq<char>) -> int
    decreases devices.len(),
{
    if devices.len() == 0 {
        -1
    } else if devices[0].name == name {
        0
    } else {
        let r = device_index(devices.drop_first(), name);
        if r < 0 {
            -1
        } else {
            r + 1
        }
    }
}

pub proof fn lemma_device_index(devices: Seq<DeviceM>, name: Seq<char>)
    ensures
        device_index(devices, name) >= -1,
        device_index(devices, name) >= 0 ==> device_index(devices, name) < devices.len()
            && devices[device_index(devices, name)].name == name,
        device_index(devices, name) < 0 ==> forall|j: int|
            0 <= j < devices.len() ==> #[trigger] devices[j].name != name,
    decreases devices.len(),
{
    if devices.len() > 0 && devices[0].name != name {
        let sub = devices.drop_first();
        lemma_device_index(sub, name);
        if device_index(devices, name) < 0 {
            assert forall|j: int| 0 <= j < devices.len() implies #[trigger] devices[j].name
                != name by {
                if j > 0 {
                    assert(devices[j] == sub[j - 1]);
                }
            }
        }
    }
}

pub proof fn lemma_device_index_at(devices: Seq<DeviceM>, name: Seq<char>, i: int)
    requires
        0 <= i < devices.len(),
        devices[i].name == name,
        forall|j: int| 0 <= j < i ==> #[trigger] devices[j].name != name,
    ensures
        device_index(devices, name) == i,
    decreases devices.len(),
{
    if i > 0 {
        let sub = devices.drop_first();
        assert(sub[i - 1] == devices[i]);
        assert forall|j: int| 0 <= j < i - 1 implies #[trigger] sub[j].name != name by {
            assert(sub[j] == devices[j + 1]);
        }
        lemma_device_index_at(sub, name, i - 1);
    }
}

/// A counter advanced by one, staying put at its ceiling.
pub open spec fn bumped(c: u64) -> u64 {
    if c == u64::MAX {
        c
    } else {
        (c + 1) as u64
    }
}

pub open spec fn bump_device(d: DeviceM) -> DeviceM {
    DeviceM { next_iface: bumped(d.next_iface), ..d }
}

/// What `link(a, b, block, area)` does to the topology, assuming
/// `a != b` and a block with at least two usable host addresses: the
/// canonical pair's record is created or fully overwritten with the
/// allocated pair of addresses and the area.  A fresh record consumes
/// one interface index from each endpoint's counter; an overwritten
/// record keeps the interface numbers it already had.
pub open spec fn link_effect(s: AppM, a: usize, b: usize, c: Cidr, area: Option<u16>) -> AppM
    recommends
        a != b,
        host_count(c) >= 2,
        a < s.devices.len(),
        b < s.devices.len(),
{
    let lo = key_lo(a, b);
    let hi = key_hi(a, b);
    let pair = alloc_pair(c);
    let i = find_link(s.links, lo, hi);
    if i >= 0 {
        AppM {
            links: s.links.update(
                i,
                Link {
                    lo,
                    hi,
                    lo_ip: pair.0,
                    hi_ip: pair.1,
                    lo_iface: s.links[i].lo_iface,
                    hi_iface: s.links[i].hi_iface,
                    ospf_area: area,
                },
            ),
            ..s
        }
    } else {
        AppM {
            links: s.links.push(
                Link {
                    lo,
                    hi,
                    lo_ip: pair.0,
                    hi_ip: pair.1,
                    lo_iface: s.devices[lo as int].next_iface,
                    hi_iface: s.devices[hi as int].next_iface,
                    ospf_area: area,
                },
            ),
            devices: s.devices.update(lo as int, bump_device(s.devices[lo as int])).update(
                hi as int,
                bump_device(s.devices[hi as int]),
            ),
            ..s
        }
    }
}

/// What `unlink(a, b)` does to the topology: the canonical pair's
/// record is removed if present; otherwise nothing changes.
pub open spec fn unlink_effect(s: AppM, a: usize, b: usize) -> AppM {
    let i = find_link(s.links, key_lo(a, b), key_hi(a, b));
    if i >= 0 {
        AppM { links: s.links.remove(i), ..s }
    } else {
        s
    }
}

/// A stored record seen from one of its endpoints.
pub open spec fn orient(l: Link, close: usize) -> DirectedLink {
    if close == l.lo {
        DirectedLink {
            close_key: l.lo,
            far_key: l.hi,
            close_ip: l.lo_ip,
            far_ip: l.hi_ip,
            close_iface: l.lo_iface,
            ospf_area: l.ospf_area,
        }
    } else {
        DirectedLink {
            close_key: l.hi,
            far_key: l.lo,
            close_ip: l.hi_ip,
            far_ip: l.lo_ip,
            close_iface: l.hi_iface,
            ospf_area: l.ospf_area,
        }
    }
}

/// What `lookupOriented(close, far)` returns, assuming `close != far`.
pub open spec fn oriented(s: AppM, close: usize, far: usize) -> Option<DirectedLink> {
    let i = find_link(s.links, key_lo(close, far), key_hi(close, far));
    if i >= 0 {
        Some(orient(s.links[i], close))
    } else {
        None
    }
}

/// The well-formedness of one stored record: a canonical pair of known
/// devices, two distinct host addresses of one block with one prefix
/// length, and interface indices the endpoint counters have passed.
pub open spec fn link_ok(s: AppM, l: Link) -> bool {
    &&& l.lo < l.hi
    &&& (l.hi as int) < s.devices.len()
    &&& l.lo_ip.wf()
    &&& l.hi_ip.wf()
    &&& l.lo_ip.prefix == l.hi_ip.prefix
    &&& l.lo_ip != l.hi_ip
    &&& net_addr(l.lo_ip) == net_addr(l.hi_ip)
    &&& (l.lo_iface < s.devices[l.lo as int].next_iface || s.devices[l.lo as int].next_iface
        == u64::MAX)
    &&& (l.hi_iface < s.devices[l.hi as int].next_iface || s.devices[l.hi as int].next_iface
        == u64::MAX)
}

/// The global invariant of the topology: every stored record is
/// well-formed and no unordered pair is stored twice.
pub open spec fn inv(s: AppM) -> bool {
    &&& forall|i: int| 0 <= i < s.links.len() ==> link_ok(s, #[trigger] s.links[i])
    &&& forall|i: int, j: int|
        #![trigger s.links[i], s.links[j]]
        0 <= i < j < s.links.len() ==> !(s.links[i].lo == s.links[j].lo && s.links[i].hi
            == s.links[j].hi)
}

impl App {
    /// Create a new `App`, without devices or links.
    pub fn new() -> (app: App)
        ensures
            app@.devices == Seq::<DeviceM>::empty(),
            app@.links == Seq::<Link>::empty(),
            app@.rip == Seq::<usize>::empty(),
            inv(app@),
    {
        let app = App { devices: Vec::new(), links: Vec::new(), rip_enabled: Vec::new() };
        proof {
            assert(app@.devices =~= Seq::<DeviceM>::empty());
        }
        app
    }

    /// Register a device built from the given configuration value and
    /// return its handle: the next creation index.
    pub fn add_device(&mut self, b: DeviceBuilder) -> (h: usize)
        requires
            inv(old(self)@),
        ensures
            inv(final(self)@),
            h == old(self)@.devices.len(),
            final(self)@.devices == old(self)@.devices.push(
                DeviceM {
                    name: b.name@,
                    ospf_to_rip: b.redistributions.ospf_to_rip,
                    next_iface: 0,
                },
            ),
            final(self)@.links == old(self)@.links,
            final(self)@.rip == old(self)@.rip,
    {
        let h = self.devices.len();
        let dev = Device { name: b.name, redistributions: b.redistributions, next_iface: 0 };
        self.devices.push(dev);
        proof {
            assert(self@.devices =~= old(self)@.devices.push(
                DeviceM {
                    name: b.name@,
                    ospf_to_rip: b.redistributions.ospf_to_rip,
                    next_iface: 0,
                },
            ));
            assert forall|i: int| 0 <= i < self@.links.len() implies link_ok(
                self@,
                #[trigger] self@.links[i],
            ) by {
                assert(link_ok(old(self)@, old(self)@.links[i]));
            }
        }
        h
    }
}

impl App {
    /// Connect two devices: allocate the first two host addresses of
    /// the block, create or fully overwrite the canonical pair's record,
    /// and, for a fresh pair, consume one interface index from each
    /// endpoint's counter.
    pub fn link_block(&mut self, r1: usize, r2: usize, block: Cidr, ospf_area: Option<u16>) -> (res:
        Result<(), AppError>)
        requires
            inv(old(self)@),
            block.wf(),
            r1 < old(self)@.devices.len(),
            r2 < old(self)@.devices.len(),
        ensures
            inv(final(self)@),
            r1 == r2 ==> res == Err::<(), AppError>(AppError::DuplicateEndpoint) && final(self)@
                == old(self)@,
            r1 != r2 && host_count(block) < 2 ==> res == Err::<(), AppError>(AppError::InvalidBlock)
                && final(self)@ == old(self)@,
            r1 != r2 && host_count(block) >= 2 ==> res == Ok::<(), AppError>(()) && final(self)@
                == link_effect(old(self)@, r1, r2, block, ospf_area),
    {
        if r1 == r2 {
            return Err(AppError::DuplicateEndpoint);
        }
        let pair = match crate::addr::allocate(block) {
            Ok(p) => p,
            Err(e) => {
                return Err(e);
            },
        };
        proof {
            crate::addr::lemma_allocation_properties(block);
        }
        let (lo, hi) = if r1 < r2 {
            (r1, r2)
        } else {
            (r2, r1)
        };
        let ghost links0 = self.links@;
        let n = self.links.len();
        let mut idx: Option<usize> = None;
        let mut i: usize = 0;
        while i < n
            invariant
                self == old(self),
                links0 == self.links@,
                n == links0.len(),
                i <= n,
                idx is None ==> forall|j: int|
                    0 <= j < i ==> !(#[trigger] links0[j].lo == lo && links0[j].hi == hi),
                idx matches Some(k) ==> k < n && links0[k as int].lo == lo && links0[k as int].hi
                    == hi && forall|j: int|
                    0 <= j < k ==> !(#[trigger] links0[j].lo == lo && links0[j].hi == hi),
            decreases n - i,
        {
            if idx.is_none() && self.links[i].lo == lo && self.links[i].hi == hi {
                idx = Some(i);
            }
            i = i + 1;
        }
        proof {
            match idx {
                Some(k) => lemma_find_link_at(links0, lo, hi, k as int),
                None => lemma_find_link(links0, lo, hi),
            }
        }
        match idx {
            Some(k) => {
                let mut l = self.links.remove(k);
                l.lo_ip = pair.0;
                l.hi_ip = pair.1;
                l.ospf_area = ospf_area;
                self.links.insert(k, l);
                proof {
                    let s0 = old(self)@;
                    let rec = Link {
                        lo,
                        hi,
                        lo_ip: pair.0,
                        hi_ip: pair.1,
                        lo_iface: links0[k as int].lo_iface,
                        hi_iface: links0[k as int].hi_iface,
                        ospf_area,
                    };
                    assert(self.links@ =~= links0.update(k as int, rec));
                    assert(self@ =~= link_effect(s0, r1, r2, block, ospf_area));
                    assert forall|j: int| 0 <= j < self@.links.len() implies link_ok(
                        self@,
                        #[trigger] self@.links[j],
                    ) by {
                        assert(link_ok(s0, s0.links[j]));
                        if j == k {
                            assert(link_ok(s0, s0.links[k as int]));
                        }
                    }
                }
                Ok(())
            },
            None => {
                let lo_iface = self.devices[lo].next_iface;
                let hi_iface = self.devices[hi].next_iface;
                let rec = Link { lo, hi, lo_ip: pair.0, hi_ip: pair.1, lo_iface, hi_iface, ospf_area };
                self.links.push(rec);
                let dlo = vec_index_mut(&mut self.devices, lo);
                if dlo.next_iface < u64::MAX {
                    dlo.next_iface = dlo.next_iface + 1;
                }
                let dhi = vec_index_mut(&mut self.devices, hi);
                if dhi.next_iface < u64::MAX {
                    dhi.next_iface = dhi.next_iface + 1;
                }
                proof {
                    let s0 = old(self)@;
                    let s1 = link_effect(s0, r1, r2, block, ospf_area);
                    assert(self@.devices =~= s1.devices);
                    assert(self@ =~= s1);
                    assert forall|j: int| 0 <= j < self@.links.len() implies link_ok(
                        self@,
                        #[trigger] self@.links[j],
                    ) by {
                        if j < s0.links.len() {
                            assert(link_ok(s0, s0.links[j]));
                        }
                    }
                    assert forall|u: int, v: int|
                        #![trigger self@.links[u], self@.links[v]]
                        0 <= u < v < self@.links.len() implies !(self@.links[u].lo
                        == self@.links[v].lo && self@.links[u].hi == self@.links[v].hi) by {
                        if v < s0.links.len() {
                            assert(s0.links[u] == self@.links[u]);
                            assert(s0.links[v] == self@.links[v]);
                        } else {
                            assert(self@.links[v] == rec);
                        }
                    }
                }
                Ok(())
            },
        }
    }

    /// Connect two devices, parsing the block from a CIDR string; a
    /// string the parser rejects is an invalid block.
    pub fn link(&mut self, r1: usize, r2: usize, ip: &str, ospf_area: Option<u16>) -> (res: Result<
        (),
        AppError,
    >)
        requires
            inv(old(self)@),
            r1 < old(self)@.devices.len(),
            r2 < old(self)@.devices.len(),
        ensures
            inv(final(self)@),
            r1 == r2 ==> res == Err::<(), AppError>(AppError::DuplicateEndpoint) && final(self)@
                == old(self)@,
            r1 != r2 && crate::addr::cidr_of(ip@) is None ==> res == Err::<(), AppError>(
                AppError::InvalidBlock,
            ) && final(self)@ == old(self)@,
            r1 != r2 && crate::addr::cidr_of(ip@) is Some && host_count(
                crate::addr::cidr_of(ip@).unwrap(),
            ) < 2 ==> res == Err::<(), AppError>(AppError::InvalidBlock) && final(self)@ == old(
                self,
            )@,
            r1 != r2 && crate::addr::cidr_of(ip@) is Some && host_count(
                crate::addr::cidr_of(ip@).unwrap(),
            ) >= 2 ==> res == Ok::<(), AppError>(()) && final(self)@ == link_effect(
                old(self)@,
                r1,
                r2,
                crate::addr::cidr_of(ip@).unwrap(),
                ospf_area,
            ),
    {
        if r1 == r2 {
            return Err(AppError::DuplicateEndpoint);
        }
        match crate::addr::parse_cidr(ip) {
            Some(block) => self.link_block(r1, r2, block, ospf_area),
            None => Err(AppError::InvalidBlock),
        }
    }

    /// Disconnect the two devices if they are connected; a pair without
    /// a record is left as it is, and that is no error.
    pub fn unlink(&mut self, r1: usize, r2: usize) -> (res: Result<(), AppError>)
        requires
            inv(old(self)@),
        ensures
            inv(final(self)@),
            r1 == r2 ==> res == Err::<(), AppError>(AppError::DuplicateEndpoint) && final(self)@
                == old(self)@,
            r1 != r2 ==> res == Ok::<(), AppError>(()) && final(self)@ == unlink_effect(
                old(self)@,
                r1,
                r2,
            ),
            r1 != r2 && !has_link(old(self)@, r1, r2) ==> final(self)@ == old(self)@,
    {
        if r1 == r2 {
            return Err(AppError::DuplicateEndpoint);
        }
        let (lo, hi) = if r1 < r2 {
            (r1, r2)
        } else {
            (r2, r1)
        };
        let ghost links0 = self.links@;
        let n = self.links.len();
        let mut idx: Option<usize> = None;
        let mut i: usize = 0;
        while i < n
            invariant
                self == old(self),
                links0 == self.links@,
                n == links0.len(),
                i <= n,
                idx is None ==> forall|j: int|
                    0 <= j < i ==> !(#[trigger] links0[j].lo == lo && links0[j].hi == hi),
                idx matches Some(k) ==> k < n && links0[k as int].lo == lo && links0[k as int].hi
                    == hi && forall|j: int|
                    0 <= j < k ==> !(#[trigger] links0[j].lo == lo && links0[j].hi == hi),
            decreases n - i,
        {
            if idx.is_none() && self.links[i].lo == lo && self.links[i].hi == hi {
                idx = Some(i);
            }
            i = i + 1;
        }
        proof {
            match idx {
                Some(k) => lemma_find_link_at(links0, lo, hi, k as int),
                None => lemma_find_link(links0, lo, hi),
            }
        }
        match idx {
            Some(k) => {
                self.links.remove(k);
                proof {
                    let s0 = old(self)@;
                    assert(self@ =~= unlink_effect(s0, r1, r2));
                    assert forall|j: int| 0 <= j < self@.links.len() implies link_ok(
                        self@,
                        #[trigger] self@.links[j],
                    ) by {
                        let jj = if j < k as int {
                            j
                        } else {
                            j + 1
                        };
                        assert(self@.links[j] == s0.links[jj]);
                        assert(link_ok(s0, s0.links[jj]));
                    }
                    assert forall|u: int, v: int|
                        #![trigger self@.links[u], self@.links[v]]
                        0 <= u < v < self@.links.len() implies !(self@.links[u].lo
                        == self@.links[v].lo && self@.links[u].hi == self@.links[v].hi) by {
                        let uu = if u < k as int {
                            u
                        } else {
                            u + 1
                        };
                        let vv = if v < k as int {
                            v
                        } else {
                            v + 1
                        };
                        assert(self@.links[u] == s0.links[uu]);
                        assert(self@.links[v] == s0.links[vv]);
                    }
                }
                Ok(())
            },
            None => Ok(()),
        }
    }

    /// Retrieve the handle of the first device carrying the given
    /// name, or `None` where no device does.
    pub fn get_device(&self, name: &str) -> (res: Option<usize>)
        ensures
            device_index(self@.devices, name@) < 0 ==> res is None,
            device_index(self@.devices, name@) >= 0 ==> res == Some(
                device_index(self@.devices, name@) as usize,
            ),
            res matches Some(h) ==> h < self@.devices.len(),
    {
        let key = name.to_owned();
        let n = self.devices.len();
        let mut i: usize = 0;
        while i < n
            invariant
                n == self.devices@.len(),
                i <= n,
                key@ == name@,
                forall|j: int| 0 <= j < i ==> #[trigger] self@.devices[j].name != name@,
            decreases n - i,
        {
            proof {
                assert(self@.devices[i as int] == self.devices@[i as int]@);
            }
            if self.devices[i].name == key {
                proof {
                    lemma_device_index_at(self@.devices, name@, i as int);
                }
                return Some(i);
            }
            i = i + 1;
        }
        proof {
            lemma_device_index(self@.devices, name@);
        }
        None
    }

    /// The stored record of the pair, re-oriented around `close_key`,
    /// or `None` where the pair has no record.
    pub fn get_directed_link(&self, close_key: usize, far_key: usize) -> (res: Result<
        Option<DirectedLink>,
        AppError,
    >)
        ensures
            close_key == far_key ==> res == Err::<Option<DirectedLink>, AppError>(
                AppError::DuplicateEndpoint,
            ),
            close_key != far_key ==> res == Ok::<Option<DirectedLink>, AppError>(
                oriented(self@, close_key, far_key),
            ),
    {
        if close_key == far_key {
            return Err(AppError::DuplicateEndpoint);
        }
        let (lo, hi) = if close_key < far_key {
            (close_key, far_key)
        } else {
            (far_key, close_key)
        };
        let n = self.links.len();
        let mut idx: Option<usize> = None;
        let mut i: usize = 0;
        while i < n
            invariant
                n == self.links@.len(),
                i <= n,
                idx is None ==> forall|j: int|
                    0 <= j < i ==> !(#[trigger] self.links@[j].lo == lo && self.links@[j].hi == hi),
                idx matches Some(k) ==> k < n && self.links@[k as int].lo == lo
                    && self.links@[k as int].hi == hi && forall|j: int|
                    0 <= j < k ==> !(#[trigger] self.links@[j].lo == lo && self.links@[j].hi == hi),
            decreases n - i,
        {
            if idx.is_none() && self.links[i].lo == lo && self.links[i].hi == hi {
                idx = Some(i);
            }
            i = i + 1;
        }
        proof {
            match idx {
                Some(k) => lemma_find_link_at(self.links@, lo, hi, k as int),
                None => lemma_find_link(self.links@, lo, hi),
            }
        }
        match idx {
            Some(k) => {
                let l = self.links[k];
                if close_key == l.lo {
                    Ok(
                        Some(
                            DirectedLink {
                                close_key,
                                far_key,
                                close_ip: l.lo_ip,
                                far_ip: l.hi_ip,
                                close_iface: l.lo_iface,
                                ospf_area: l.ospf_area,
                            },
                        ),
                    )
                } else {
                    Ok(
                        Some(
                            DirectedLink {
                                close_key,
                                far_key,
                                close_ip: l.hi_ip,
                                far_ip: l.lo_ip,
                                close_iface: l.hi_iface,
                                ospf_area: l.ospf_area,
                            },
                        ),
                    )
                }
            },
            None => Ok(None),
        }
    }
}

/// Linking is symmetric in its endpoints: `link(a, b, X)` and
/// `link(b, a, X)` leave the very same topology behind, because every
/// access canonicalizes the pair first.
pub proof fn lemma_link_symmetric(s: AppM, a: usize, b: usize, c: Cidr, area: Option<u16>)
    ensures
        link_effect(s, a, b, c, area) == link_effect(s, b, a, c, area),
{
    assert(key_lo(a, b) == key_lo(b, a));
    assert(key_hi(a, b) == key_hi(b, a));
}

/// Linking a previously unlinked pair and then unlinking it leaves the
/// link table exactly as it was, and the pair has no oriented view.
pub proof fn lemma_link_then_unlink(s: AppM, a: usize, b: usize, c: Cidr, area: Option<u16>)
    requires
        a != b,
        a < s.devices.len(),
        b < s.devices.len(),
        host_count(c) >= 2,
        !has_link(s, a, b),
    ensures
        oriented(unlink_effect(link_effect(s, a, b, c, area), a, b), a, b) is None,
        unlink_effect(link_effect(s, a, b, c, area), a, b).links == s.links,
        unlink_effect(link_effect(s, a, b, c, area), a, b).links.len() == s.links.len(),
{
    let lo = key_lo(a, b);
    let hi = key_hi(a, b);
    lemma_find_link(s.links, lo, hi);
    let s1 = link_effect(s, a, b, c, area);
    let n = s.links.len() as int;
    assert forall|j: int| 0 <= j < n implies !(#[trigger] s1.links[j].lo == lo && s1.links[j].hi
        == hi) by {
        assert(s1.links[j] == s.links[j]);
    }
    lemma_find_link_at(s1.links, lo, hi, n);
    let s2 = unlink_effect(s1, a, b);
    assert(s2.links =~= s.links);
    lemma_find_link(s2.links, lo, hi);
}

/// Re-linking a pair with another block replaces its addresses and
/// area without growing the table, and keeps the interface numbers the
/// record already had.
pub proof fn lemma_relink_replaces(
    s: AppM,
    a: usize,
    b: usize,
    c1: Cidr,
    c2: Cidr,
    area1: Option<u16>,
    area2: Option<u16>,
)
    requires
        a != b,
        a < s.devices.len(),
        b < s.devices.len(),
        host_count(c1) >= 2,
        host_count(c2) >= 2,
    ensures
        ({
            let lo = key_lo(a, b);
            let hi = key_hi(a, b);
            let s1 = link_effect(s, a, b, c1, area1);
            let s2 = link_effect(s1, a, b, c2, area2);
            let i = find_link(s1.links, lo, hi);
            &&& s2.links.len() == s1.links.len()
            &&& has_link(s1, a, b)
            &&& has_link(s2, a, b)
            &&& find_link(s2.links, lo, hi) == i
            &&& s2.links[i] == (Link {
                lo,
                hi,
                lo_ip: alloc_pair(c2).0,
                hi_ip: alloc_pair(c2).1,
                lo_iface: s1.links[i].lo_iface,
                hi_iface: s1.links[i].hi_iface,
                ospf_area: area2,
            })
        }),
{
    let lo = key_lo(a, b);
    let hi = key_hi(a, b);
    let s1 = link_effect(s, a, b, c1, area1);
    let i0 = find_link(s.links, lo, hi);
    lemma_find_link(s.links, lo, hi);
    if i0 >= 0 {
        assert forall|j: int| 0 <= j < i0 implies !(#[trigger] s1.links[j].lo == lo
            && s1.links[j].hi == hi) by {
            assert(s1.links[j] == s.links[j]);
        }
        lemma_find_link_at(s1.links, lo, hi, i0);
    } else {
        let n = s.links.len() as int;
        assert forall|j: int| 0 <= j < n implies !(#[trigger] s1.links[j].lo == lo && s1.links[j].hi
            == hi) by {
            assert(s1.links[j] == s.links[j]);
        }
        lemma_find_link_at(s1.links, lo, hi, n);
    }
    let i = find_link(s1.links, lo, hi);
    let s2 = link_effect(s1, a, b, c2, area2);
    assert forall|j: int| 0 <= j < i implies !(#[trigger] s2.links[j].lo == lo && s2.links[j].hi
        == hi) by {
        assert(s2.links[j] == s1.links[j]);
    }
    lemma_find_link_at(s2.links, lo, hi, i);
}

impl DeviceBuilder {
    /// Register the described device and return its handle.
    pub fn finish(self, app: &mut App) -> (h: usize)
        requires
            inv(old(app)@),
        ensures
            inv(final(app)@),
            h == old(app)@.devices.len(),
            final(app)@.devices == old(app)@.devices.push(
                DeviceM {
                    name: self.name@,
                    ospf_to_rip: self.redistributions.ospf_to_rip,
                    next_iface: 0,
                },
            ),
            final(app)@.links == old(app)@.links,
            final(app)@.rip == old(app)@.rip,
    {
        app.add_device(self)
    }
}

} // verus!
