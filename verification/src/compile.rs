//! The configuration compiler: one vendor-style CLI text per device.
//!
//! Every device's directly connected links are emitted in ascending
//! order of the device's own interface indices, so the output does not
//! depend on any storage iteration order.

use crate::addr::mask_addr;
use crate::addr::net_addr;
use crate::addr::netmask_of;
use crate::addr::network_of;
use crate::addr::wildcard_addr;
use crate::addr::wildcard_of;
use crate::text::dec_of;
use crate::text::fmt_ip;
use crate::text::fmt_u64;
use crate::text::ip_text;
use crate::topology::inv;
use crate::topology::orient;
use crate::topology::App;
use crate::topology::AppM;
use crate::topology::DirectedLink;
use crate::topology::Link;
use vstd::prelude::*;
use vstd::string::StringExecFns;

verus! {

/// The links incident to device `d`, in table order, oriented around it.
pub open spec fn incident_links(links: Seq<Link>, d: usize) -> Seq<DirectedLink>
    decreases links.len(),
{
    if links.len() == 0 {
        Seq::<DirectedLink>::empty()
    } else {
        let rest = incident_links(links.drop_last(), d);
        let l = links.last();
        if l.lo == d || l.hi == d {
            rest.push(orient(l, d))
        } else {
            rest
        }
    }
}

/// Insertion into a sequence sorted by ascending interface index,
/// placed after any equal index (stable).
pub open spec fn insert_by_iface(x: DirectedLink, s: Seq<DirectedLink>) -> Seq<DirectedLink>
    decreases s.len(),
{
    if s.len() == 0 {
        seq![x]
    } else if x.close_iface < s[0].close_iface {
        seq![x] + s
    } else {
        seq![s[0]] + insert_by_iface(x, s.drop_first())
    }
}

/// Stable sort by ascending interface index.
pub open spec fn sort_by_iface(s: Seq<DirectedLink>) -> Seq<DirectedLink>
    decreases s.len(),
{
    if s.len() == 0 {
        Seq::<DirectedLink>::empty()
    } else {
        insert_by_iface(s.last(), sort_by_iface(s.drop_last()))
    }
}

/// The emission order of a device's links.
pub open spec fn device_links(s: AppM, d: usize) -> Seq<DirectedLink> {
    sort_by_iface(incident_links(s.links, d))
}

/// One interface stanza.
pub open spec fn iface_block(dl: DirectedLink) -> Seq<char> {
    "interface GigabitEthernet"@ + dec_of(dl.close_iface as int) + "/0\n   ip address "@ + ip_text(
        dl.close_ip.addr,
    ) + " "@ + ip_text(mask_addr(dl.close_ip)) + "\n   no shutdown\nexit\n\n"@
}

pub open spec fn iface_blocks(ls: Seq<DirectedLink>) -> Seq<char>
    decreases ls.len(),
{
    if ls.len() == 0 {
        Seq::<char>::empty()
    } else {
        iface_blocks(ls.drop_last()) + iface_block(ls.last())
    }
}

/// One RIP network line: the network portion of the far address.
pub open spec fn rip_line(dl: DirectedLink) -> Seq<char> {
    "   network "@ + ip_text(net_addr(dl.far_ip)) + "\n"@
}

/// The RIP network lines of the links whose far device is RIP-enabled.
pub open spec fn rip_lines(ls: Seq<DirectedLink>, rip: Seq<usize>) -> Seq<char>
    decreases ls.len(),
{
    if ls.len() == 0 {
        Seq::<char>::empty()
    } else {
        rip_lines(ls.drop_last(), rip) + if rip.contains(ls.last().far_key) {
            rip_line(ls.last())
        } else {
            Seq::<char>::empty()
        }
    }
}

/// One OSPF network line: far network, wildcard mask, and area.
pub open spec fn ospf_line(dl: DirectedLink) -> Seq<char> {
    "   network "@ + ip_text(net_addr(dl.far_ip)) + " "@ + ip_text(wildcard_addr(dl.far_ip))
        + " area "@ + dec_of(dl.ospf_area.unwrap() as int) + "\n"@
}

/// The OSPF network lines of the links that carry an area.
pub open spec fn ospf_lines(ls: Seq<DirectedLink>) -> Seq<char>
    decreases ls.len(),
{
    if ls.len() == 0 {
        Seq::<char>::empty()
    } else {
        ospf_lines(ls.drop_last()) + if ls.last().ospf_area is Some {
            ospf_line(ls.last())
        } else {
            Seq::<char>::empty()
        }
    }
}

/// The whole configuration text of device `d`.
pub open spec fn config_text(s: AppM, d: usize) -> Seq<char> {
    let ls = device_links(s, d);
    "enable\nconfigure terminal\n\n"@ + iface_blocks(ls) + "router rip\n   version 2\n"@
        + rip_lines(ls, s.rip) + "exit\n\n"@ + "router ospf 1\n"@ + (if s.devices[
        d as int
    ].ospf_to_rip {
        "   redistribute rip subnets\n"@
    } else {
        Seq::<char>::empty()
    }) + ospf_lines(ls) + "exit\n\n"@ + "exit\ndisable\n"@
}

/// Both addresses of an oriented link are well-formed.
pub open spec fn dl_wf(dl: DirectedLink) -> bool {
    dl.close_ip.wf() && dl.far_ip.wf()
}

proof fn lemma_incident_wf(links: Seq<Link>, d: usize)
    requires
        forall|j: int|
            0 <= j < links.len() ==> (#[trigger] links[j]).lo_ip.wf() && links[j].hi_ip.wf(),
    ensures
        forall|k: int|
            0 <= k < incident_links(links, d).len() ==> dl_wf(
                #[trigger] incident_links(links, d)[k],
            ),
    decreases links.len(),
{
    if links.len() > 0 {
        let prefix = links.drop_last();
        assert forall|j: int|
            0 <= j < prefix.len() implies (#[trigger] prefix[j]).lo_ip.wf()
            && prefix[j].hi_ip.wf() by {
            assert(prefix[j] == links[j]);
        }
        lemma_incident_wf(prefix, d);
        let cur = incident_links(links, d);
        let rest = incident_links(prefix, d);
        assert forall|k: int| 0 <= k < cur.len() implies dl_wf(#[trigger] cur[k]) by {
            if k < rest.len() {
                assert(cur[k] == rest[k]);
            } else {
                assert(links.last() == links[links.len() - 1]);
            }
        }
    }
}

proof fn lemma_insert_wf(x: DirectedLink, s: Seq<DirectedLink>)
    requires
        dl_wf(x),
        forall|k: int| 0 <= k < s.len() ==> dl_wf(#[trigger] s[k]),
    ensures
        forall|k: int|
            0 <= k < insert_by_iface(x, s).len() ==> dl_wf(#[trigger] insert_by_iface(x, s)[k]),
    decreases s.len(),
{
    let out = insert_by_iface(x, s);
    if s.len() == 0 {
    } else if x.close_iface < s[0].close_iface {
    } else {
        let sub = s.drop_first();
        assert forall|k: int| 0 <= k < sub.len() implies dl_wf(#[trigger] sub[k]) by {
            assert(sub[k] == s[k + 1]);
        }
        lemma_insert_wf(x, sub);
        let rec = insert_by_iface(x, sub);
        assert forall|k: int| 0 <= k < out.len() implies dl_wf(#[trigger] out[k]) by {
            if k > 0 {
                assert(out[k] == rec[k - 1]);
            }
        }
    }
}

proof fn lemma_sort_wf(s: Seq<DirectedLink>)
    requires
        forall|k: int| 0 <= k < s.len() ==> dl_wf(#[trigger] s[k]),
    ensures
        forall|k: int|
            0 <= k < sort_by_iface(s).len() ==> dl_wf(#[trigger] sort_by_iface(s)[k]),
    decreases s.len(),
{
    if s.len() > 0 {
        let prefix = s.drop_last();
        assert forall|k: int| 0 <= k < prefix.len() implies dl_wf(#[trigger] prefix[k]) by {
            assert(prefix[k] == s[k]);
        }
        lemma_sort_wf(prefix);
        assert(s.last() == s[s.len() - 1]);
        lemma_insert_wf(s.last(), sort_by_iface(prefix));
    }
}

proof fn lemma_insert_position(x: DirectedLink, s: Seq<DirectedLink>, j: int)
    requires
        0 <= j <= s.len(),
        forall|k: int| 0 <= k < j ==> (#[trigger] s[k]).close_iface <= x.close_iface,
        j < s.len() ==> x.close_iface < s[j].close_iface,
    ensures
        insert_by_iface(x, s) == s.insert(j, x),
    decreases s.len(),
{
    if s.len() == 0 {
        assert(s.insert(0, x) =~= seq![x]);
    } else if j == 0 {
        assert(seq![x] + s =~= s.insert(0, x));
    } else {
        let sub = s.drop_first();
        assert forall|k: int|
            0 <= k < j - 1 implies (#[trigger] sub[k]).close_iface <= x.close_iface by {
            assert(sub[k] == s[k + 1]);
        }
        if j - 1 < sub.len() {
            assert(sub[j - 1] == s[j]);
        }
        lemma_insert_position(x, sub, j - 1);
        assert(seq![s[0]] + sub.insert(j - 1, x) =~= s.insert(j, x));
    }
}

fn orient_exec(l: &Link, close: usize) -> (r: DirectedLink)
    ensures
        r == orient(*l, close),
{
    if close == l.lo {
        DirectedLink {
            close_key: l.lo,
            far_key: l.hi,
            close_ip: l.lo_ip,
            far_ip: l.hi_ip,
            close_iface: l.lo_iface,
            ospf_area: l.ospf_area,
        }
    } else {
        DirectedLink {
            close_key: l.hi,
            far_key: l.lo,
            close_ip: l.hi_ip,
            far_ip: l.lo_ip,
            close_iface: l.hi_iface,
            ospf_area: l.ospf_area,
        }
    }
}

fn incident_exec(links: &Vec<Link>, d: usize) -> (out: Vec<DirectedLink>)
    ensures
        out@ == incident_links(links@, d),
{
    let mut out: Vec<DirectedLink> = Vec::new();
    let n = links.len();
    let mut i: usize = 0;
    while i < n
        invariant
            n == links@.len(),
            i <= n,
            out@ == incident_links(links@.take(i as int), d),
        decreases n - i,
    {
        proof {
            assert(links@.take(i as int + 1).drop_last() =~= links@.take(i as int));
            assert(links@.take(i as int + 1).last() == links@[i as int]);
        }
        if links[i].lo == d || links[i].hi == d {
            let dl = orient_exec(&links[i], d);
            out.push(dl);
        }
        i = i + 1;
    }
    proof {
        assert(links@.take(n as int) =~= links@);
    }
    out
}

fn insert_sorted(v: &mut Vec<DirectedLink>, x: DirectedLink)
    ensures
        final(v)@ == insert_by_iface(x, old(v)@),
{
    let mut j: usize = 0;
    while j < v.len() && v[j].close_iface <= x.close_iface
        invariant
            v@ == old(v)@,
            j <= v@.len(),
            forall|k: int| 0 <= k < j ==> (#[trigger] v@[k]).close_iface <= x.close_iface,
        decreases v@.len() - j,
    {
        j = j + 1;
    }
    proof {
        lemma_insert_position(x, v@, j as int);
    }
    v.insert(j, x);
}

fn sort_links(src: &Vec<DirectedLink>) -> (out: Vec<DirectedLink>)
    ensures
        out@ == sort_by_iface(src@),
{
    let mut out: Vec<DirectedLink> = Vec::new();
    let n = src.len();
    let mut i: usize = 0;
    while i < n
        invariant
            n == src@.len(),
            i <= n,
            out@ == sort_by_iface(src@.take(i as int)),
        decreases n - i,
    {
        proof {
            assert(src@.take(i as int + 1).drop_last() =~= src@.take(i as int));
            assert(src@.take(i as int + 1).last() == src@[i as int]);
        }
        insert_sorted(&mut out, src[i]);
        i = i + 1;
    }
    proof {
        assert(src@.take(n as int) =~= src@);
    }
    out
}

fn rip_contains(v: &Vec<usize>, x: usize) -> (b: bool)
    ensures
        b == v@.contains(x),
{
    let n = v.len();
    let mut i: usize = 0;
    while i < n
        invariant
            n == v@.len(),
            i <= n,
            forall|j: int| 0 <= j < i ==> v@[j] != x,
        decreases n - i,
    {
        if v[i] == x {
            return true;
        }
        i = i + 1;
    }
    false
}

fn iface_block_text(dl: &DirectedLink) -> (s: String)
    requires
        dl.close_ip.wf(),
    ensures
        s@ == iface_block(*dl),
{
    let mut s = String::from_str("interface GigabitEthernet");
    s.append(fmt_u64(dl.close_iface).as_str());
    s.append("/0\n   ip address ");
    s.append(fmt_ip(&dl.close_ip.addr).as_str());
    s.append(" ");
    s.append(fmt_ip(&netmask_of(&dl.close_ip)).as_str());
    s.append("\n   no shutdown\nexit\n\n");
    s
}

fn rip_line_text(dl: &DirectedLink) -> (s: String)
    requires
        dl.far_ip.wf(),
    ensures
        s@ == rip_line(*dl),
{
    let mut s = String::from_str("   network ");
    s.append(fmt_ip(&network_of(&dl.far_ip)).as_str());
    s.append("\n");
    s
}

fn ospf_line_text(dl: &DirectedLink, area: u16) -> (s: String)
    requires
        dl.far_ip.wf(),
        dl.ospf_area == Some(area),
    ensures
        s@ == ospf_line(*dl),
{
    let mut s = String::from_str("   network ");
    s.append(fmt_ip(&network_of(&dl.far_ip)).as_str());
    s.append(" ");
    s.append(fmt_ip(&wildcard_of(&dl.far_ip)).as_str());
    s.append(" area ");
    s.append(fmt_u64(area as u64).as_str());
    s.append("\n");
    s
}

impl App {
    /// Compile one configuration text per device, keyed by device name,
    /// in device creation order.
    pub fn to_commands(&self) -> (out: Vec<(String, String)>)
        requires
            inv(self@),
        ensures
            out@.len() == self@.devices.len(),
            forall|i: int|
                0 <= i < out@.len() ==> (#[trigger] out@[i]).0@ == self@.devices[i].name
                    && out@[i].1@ == config_text(self@, i as usize),
    {
        let mut out: Vec<(String, String)> = Vec::new();
        let n = self.devices.len();
        let mut d: usize = 0;
        while d < n
            invariant
                inv(self@),
                n == self.devices@.len(),
                d <= n,
                out@.len() == d,
                forall|i: int|
                    0 <= i < d ==> (#[trigger] out@[i]).0@ == self@.devices[i].name && out@[i].1@
                        == config_text(self@, i as usize),
            decreases n - d,
        {
            let text = self.device_config(d);
            proof {
                assert(self@.devices[d as int] == self.devices@[d as int]@);
            }
            let name = String::from_str(self.devices[d].name.as_str());
            out.push((name, text));
            d = d + 1;
        }
        out
    }

    fn device_config(&self, d: usize) -> (text: String)
        requires
            inv(self@),
            d < self@.devices.len(),
        ensures
            text@ == config_text(self@, d),
    {
        let ghost m = self@;
        proof {
            assert forall|j: int|
                0 <= j < self.links@.len() implies (#[trigger] self.links@[j]).lo_ip.wf()
                && self.links@[j].hi_ip.wf() by {
                assert(crate::topology::link_ok(m, m.links[j]));
            }
            lemma_incident_wf(self.links@, d);
            lemma_sort_wf(incident_links(self.links@, d));
        }
        let incident = incident_exec(&self.links, d);
        let dls = sort_links(&incident);
        let ghost ls = device_links(m, d);
        let nl = dls.len();
        let mut s = String::from_str("enable\nconfigure terminal\n\n");
        let mut k: usize = 0;
        while k < nl
            invariant
                nl == dls@.len(),
                k <= nl,
                dls@ == ls,
                forall|j: int| 0 <= j < dls@.len() ==> dl_wf(#[trigger] dls@[j]),
                s@ == "enable\nconfigure terminal\n\n"@ + iface_blocks(ls.take(k as int)),
            decreases nl - k,
        {
            proof {
                assert(ls.take(k as int + 1).drop_last() =~= ls.take(k as int));
                assert(ls.take(k as int + 1).last() == ls[k as int]);
            }
            s.append(iface_block_text(&dls[k]).as_str());
            k = k + 1;
        }
        proof {
            assert(ls.take(nl as int) =~= ls);
        }
        s.append("router rip\n   version 2\n");
        let ghost pre_rip = s@;
        k = 0;
        while k < nl
            invariant
                nl == dls@.len(),
                k <= nl,
                dls@ == ls,
                forall|j: int| 0 <= j < dls@.len() ==> dl_wf(#[trigger] dls@[j]),
                m.rip == self.rip_enabled@,
                s@ == pre_rip + rip_lines(ls.take(k as int), m.rip),
            decreases nl - k,
        {
            proof {
                assert(ls.take(k as int + 1).drop_last() =~= ls.take(k as int));
                assert(ls.take(k as int + 1).last() == ls[k as int]);
            }
            if rip_contains(&self.rip_enabled, dls[k].far_key) {
                s.append(rip_line_text(&dls[k]).as_str());
            } else {
                proof {
                    assert(rip_lines(ls.take(k as int), m.rip) + Seq::<char>::empty() =~= rip_lines(
                        ls.take(k as int),
                        m.rip,
                    ));
                }
            }
            k = k + 1;
        }
        proof {
            assert(ls.take(nl as int) =~= ls);
        }
        s.append("exit\n\n");
        s.append("router ospf 1\n");
        let ghost pre_redist = s@;
        if self.devices[d].redistributions.ospf_to_rip {
            s.append("   redistribute rip subnets\n");
        }
        proof {
            assert(self@.devices[d as int] == self.devices@[d as int]@);
            if !m.devices[d as int].ospf_to_rip {
                assert(pre_redist + Seq::<char>::empty() =~= pre_redist);
            }
        }
        let ghost pre_ospf = s@;
        k = 0;
        while k < nl
            invariant
                nl == dls@.len(),
                k <= nl,
                dls@ == ls,
                forall|j: int| 0 <= j < dls@.len() ==> dl_wf(#[trigger] dls@[j]),
                s@ == pre_ospf + ospf_lines(ls.take(k as int)),
            decreases nl - k,
        {
            proof {
                assert(ls.take(k as int + 1).drop_last() =~= ls.take(k as int));
                assert(ls.take(k as int + 1).last() == ls[k as int]);
            }
            match dls[k].ospf_area {
                Some(area) => {
                    s.append(ospf_line_text(&dls[k], area).as_str());
                },
                None => {
                    proof {
                        assert(ospf_lines(ls.take(k as int)) + Seq::<char>::empty() =~= ospf_lines(
                            ls.take(k as int),
                        ));
                    }
                },
            }
            k = k + 1;
        }
        proof {
            assert(ls.take(nl as int) =~= ls);
        }
        s.append("exit\n\n");
        s.append("exit\ndisable\n");
        s
    }
}

} // verus!
