//! Overlapping VNet_CIDR detection and conflict resolution.
//!
//! Each `(VNet name, subscription ID, VNet_CIDR)` triple is one address
//! space.  Two address spaces of different VNets conflict when their blocks
//! share an address; conflict groups are the connected components of that
//! relation.  In each group one address space is kept and the subnets of
//! the others are excluded.
use crate::azure::graph::Data;
use crate::models::ipv4::{cidr_text, Ipv4};
use crate::models::subnet::Subnet;
use crate::subnet_order::{lemma_text_lt_irrefl, lemma_text_lt_total, lemma_text_lt_trans, text_less, text_lt};
use crate::text::{contains_text, lowercase_text, str_eq, text_contains, to_lowercase};
use vstd::prelude::*;

verus! {

/// One address space of a VNet, with the number of subnets it holds.
#[derive(Debug)]
pub struct VnetInfo {
    pub vnet_name: String,
    /// The address space (one block).
    pub vnet_cidr: Vec<Ipv4>,
    pub subscription_id: String,
    pub subscription_name: String,
    pub location: String,
    /// Number of subnets in this address space.
    pub subnet_count: usize,
}

/// The contents of a [`VnetInfo`].
pub struct InfoView {
    pub vnet_name: Seq<char>,
    pub vnet_cidr: Seq<Ipv4>,
    pub subscription_id: Seq<char>,
    pub subscription_name: Seq<char>,
    pub location: Seq<char>,
    pub subnet_count: usize,
}

impl View for VnetInfo {
    type V = InfoView;

    open spec fn view(&self) -> InfoView {
        InfoView {
            vnet_name: self.vnet_name@,
            vnet_cidr: self.vnet_cidr@,
            subscription_id: self.subscription_id@,
            subscription_name: self.subscription_name@,
            location: self.location@,
            subnet_count: self.subnet_count,
        }
    }
}

/// The views of a list of address spaces.
pub open spec fn info_views(v: Seq<VnetInfo>) -> Seq<InfoView> {
    v.map_values(|i: VnetInfo| i@)
}

/// A group of conflicting address spaces.
#[derive(Debug)]
pub struct OverlapConflict {
    pub vnets: Vec<VnetInfo>,
}

/// The views of a list of conflict groups.
pub open spec fn conflict_views(v: Seq<OverlapConflict>) -> Seq<Seq<InfoView>> {
    v.map_values(|c: OverlapConflict| info_views(c.vnets@))
}

/// Subnet `s` falls in address space `info`: same VNet name, subscription
/// ID and VNet_CIDR text.
pub open spec fn info_holds(info: InfoView, s: Subnet) -> bool {
    &&& info.vnet_name == s.vnet_name@
    &&& info.subscription_id == s.subscription_id@
    &&& info.vnet_cidr.len() > 0
    &&& cidr_text(info.vnet_cidr[0]) == cidr_text(s.vnet_cidr)
}

/// The position of the address space that holds `s`, or -1.
pub open spec fn info_index(infos: Seq<InfoView>, s: Subnet) -> int
    decreases infos.len(),
{
    if infos.len() == 0 {
        -1
    } else {
        let r = info_index(infos.drop_last(), s);
        if r >= 0 {
            r
        } else if info_holds(infos.last(), s) {
            infos.len() - 1
        } else {
            -1
        }
    }
}

/// The address space that subnet `s` opens.
pub open spec fn new_info(s: Subnet) -> InfoView {
    InfoView {
        vnet_name: s.vnet_name@,
        vnet_cidr: seq![s.vnet_cidr],
        subscription_id: s.subscription_id@,
        subscription_name: s.subscription_name@,
        location: s.location@,
        subnet_count: 1,
    }
}

/// `info` with one more subnet.
pub open spec fn counted(info: InfoView) -> InfoView {
    InfoView {
        vnet_name: info.vnet_name,
        vnet_cidr: info.vnet_cidr,
        subscription_id: info.subscription_id,
        subscription_name: info.subscription_name,
        location: info.location,
        subnet_count: (info.subnet_count + 1) as usize,
    }
}

/// The address spaces of the subnets, in order of first appearance, each
/// with its subnet count.
pub open spec fn vnet_infos(s: Seq<Subnet>) -> Seq<InfoView>
    decreases s.len(),
{
    if s.len() == 0 {
        Seq::empty()
    } else {
        let r = vnet_infos(s.drop_last());
        let i = info_index(r, s.last());
        if i >= 0 {
            r.update(i, counted(r[i]))
        } else {
            r.push(new_info(s.last()))
        }
    }
}

/// Two blocks share an address.
pub open spec fn blocks_meet(a: Ipv4, b: Ipv4) -> bool {
    a.lo_spec() <= b.hi_spec() && b.lo_spec() <= a.hi_spec()
}

/// Some block of `a` shares an address with some block of `b`.
pub open spec fn any_blocks_meet(a: Seq<Ipv4>, b: Seq<Ipv4>) -> bool {
    exists|i: int, j: int| 0 <= i < a.len() && 0 <= j < b.len() && blocks_meet(#[trigger] a[i], #[trigger] b[j])
}

/// Address spaces `i` and `j` conflict: they belong to different VNets and
/// their blocks share an address.
pub open spec fn conflict_edge(infos: Seq<InfoView>, i: int, j: int) -> bool {
    &&& 0 <= i < infos.len()
    &&& 0 <= j < infos.len()
    &&& !(infos[i].vnet_name == infos[j].vnet_name && infos[i].subscription_id
        == infos[j].subscription_id)
    &&& any_blocks_meet(infos[i].vnet_cidr, infos[j].vnet_cidr)
}

/// Every block is well formed.
pub open spec fn blocks_wf(a: Seq<Ipv4>) -> bool {
    forall|i: int| 0 <= i < a.len() ==> (#[trigger] a[i]).wf()
}

/// Whether some block of `a` shares an address with some block of `b`.
pub fn cidrs_overlap(a: &[Ipv4], b: &[Ipv4]) -> (r: bool)
    requires
        blocks_wf(a@),
        blocks_wf(b@),
    ensures
        r == any_blocks_meet(a@, b@),
{
    let mut i: usize = 0;
    while i < a.len()
        invariant
            i <= a@.len(),
            blocks_wf(a@),
            blocks_wf(b@),
            forall|i2: int, j2: int|
                0 <= i2 < i && 0 <= j2 < b@.len() ==> !blocks_meet(#[trigger] a@[i2], #[trigger] b@[j2]),
        decreases a@.len() - i,
    {
        let mut j: usize = 0;
        while j < b.len()
            invariant
                i < a@.len(),
                j <= b@.len(),
                blocks_wf(a@),
                blocks_wf(b@),
                forall|i2: int, j2: int|
                    0 <= i2 < i && 0 <= j2 < b@.len() ==> !blocks_meet(#[trigger] a@[i2], #[trigger] b@[j2]),
                forall|j2: int| 0 <= j2 < j ==> !blocks_meet(a@[i as int], #[trigger] b@[j2]),
            decreases b@.len() - j,
        {
            let ca = a[i];
            let cb = b[j];
            if ca.lo() <= cb.hi() && cb.lo() <= ca.hi() {
                assert(blocks_meet(a@[i as int], b@[j as int]));
                return true;
            }
            j += 1;
        }
        i += 1;
    }
    false
}

/// What overlap detection needs of the subnets: well-formed VNet_CIDRs.
pub open spec fn vnet_cidrs_wf(s: Seq<Subnet>) -> bool {
    forall|k: int| 0 <= k < s.len() ==> (#[trigger] s[k]).vnet_cidr.wf()
}

proof fn lemma_vnet_infos_facts(s: Seq<Subnet>)
    requires
        s.len() <= usize::MAX,
    ensures
        forall|k: int| 0 <= k < vnet_infos(s).len() ==> {
            &&& (#[trigger] vnet_infos(s)[k]).vnet_cidr.len() == 1
            &&& 1 <= vnet_infos(s)[k].subnet_count <= s.len()
            &&& exists|m: int| 0 <= m < s.len() && vnet_infos(s)[k].vnet_cidr[0] == (#[trigger] s[m]).vnet_cidr
        },
        vnet_infos(s).len() <= s.len(),
    decreases s.len(),
{
    if s.len() > 0 {
        let pre = s.drop_last();
        lemma_vnet_infos_facts(pre);
        let r = vnet_infos(pre);
        let i = info_index(r, s.last());
        let out = vnet_infos(s);
        assert forall|k: int| #![trigger r[k]] 0 <= k < r.len() implies exists|m: int|
            0 <= m < s.len() && r[k].vnet_cidr[0] == (#[trigger] s[m]).vnet_cidr by {
            let m = choose|m: int| 0 <= m < pre.len() && r[k].vnet_cidr[0] == (#[trigger] pre[m]).vnet_cidr;
            assert(s[m] == pre[m]);
        }
        if i >= 0 {
            assert(out == r.update(i, counted(r[i])));
            assert(0 <= i < r.len()) by {
                lemma_info_index_range(r, s.last());
            }
            assert forall|k: int| 0 <= k < out.len() implies {
                &&& (#[trigger] out[k]).vnet_cidr.len() == 1
                &&& 1 <= out[k].subnet_count <= s.len()
                &&& exists|m: int| 0 <= m < s.len() && out[k].vnet_cidr[0] == (#[trigger] s[m]).vnet_cidr
            } by {
                assert(out[k].vnet_cidr == r[k].vnet_cidr);
            }
        } else {
            assert(out == r.push(new_info(s.last())));
            assert forall|k: int| 0 <= k < out.len() implies {
                &&& (#[trigger] out[k]).vnet_cidr.len() == 1
                &&& 1 <= out[k].subnet_count <= s.len()
                &&& exists|m: int| 0 <= m < s.len() && out[k].vnet_cidr[0] == (#[trigger] s[m]).vnet_cidr
            } by {
                if k == r.len() {
                    assert(out[k].vnet_cidr[0] == s[s.len() - 1].vnet_cidr);
                } else {
                    assert(out[k] == r[k]);
                }
            }
        }
    }
}

proof fn lemma_info_index_range(infos: Seq<InfoView>, s: Subnet)
    ensures
        -1 <= info_index(infos, s) < infos.len(),
        info_index(infos, s) >= 0 ==> info_holds(infos[info_index(infos, s)], s),
    decreases infos.len(),
{
    if infos.len() > 0 {
        lemma_info_index_range(infos.drop_last(), s);
        let r = info_index(infos.drop_last(), s);
        if r >= 0 {
            assert(infos.drop_last()[r] == infos[r]);
        }
    }
}

proof fn lemma_info_index<'a>(infos: Seq<InfoView>, s: Subnet, p: int)
    requires
        -1 <= p < infos.len(),
        p >= 0 ==> info_holds(infos[p], s),
        forall|q: int| 0 <= q < infos.len() && (p < 0 || q < p) ==> !info_holds(#[trigger] infos[q], s),
    ensures
        info_index(infos, s) == p,
    decreases infos.len(),
{
    if infos.len() > 0 {
        let pre = infos.drop_last();
        if p == infos.len() - 1 {
            lemma_info_index(pre, s, -1);
        } else {
            assert forall|q: int| 0 <= q < pre.len() && (p < 0 || q < p) implies !info_holds(#[trigger] pre[q], s) by {
                assert(pre[q] == infos[q]);
            }
            if p >= 0 {
                assert(pre[p] == infos[p]);
            }
            lemma_info_index(pre, s, p);
        }
    }
}

fn holds_exec(info: &VnetInfo, key: &str, s: &Subnet, skey: &str) -> (r: bool)
    requires
        info.vnet_cidr@.len() == 1,
        key@ == cidr_text(info.vnet_cidr@[0]),
        skey@ == cidr_text(s.vnet_cidr),
    ensures
        r == info_holds(info@, *s),
{
    str_eq(info.vnet_name.as_str(), s.vnet_name.as_str()) && str_eq(
        info.subscription_id.as_str(),
        s.subscription_id.as_str(),
    ) && str_eq(key, skey)
}

/// A copy of an address space record.
fn copy_info(v: &VnetInfo) -> (r: VnetInfo)
    ensures
        r@ == v@,
{
    let mut cidrs: Vec<Ipv4> = Vec::new();
    let mut k: usize = 0;
    while k < v.vnet_cidr.len()
        invariant
            k <= v.vnet_cidr@.len(),
            cidrs@ == v.vnet_cidr@.subrange(0, k as int),
        decreases v.vnet_cidr@.len() - k,
    {
        cidrs.push(v.vnet_cidr[k]);
        k += 1;
    }
    assert(v.vnet_cidr@.subrange(0, v.vnet_cidr@.len() as int) =~= v.vnet_cidr@);
    VnetInfo {
        vnet_name: v.vnet_name.clone(),
        vnet_cidr: cidrs,
        subscription_id: v.subscription_id.clone(),
        subscription_name: v.subscription_name.clone(),
        location: v.location.clone(),
        subnet_count: v.subnet_count,
    }
}

/// The address spaces of the subnets, in order of first appearance.
pub fn collect_vnet_infos(subnets: &Vec<Subnet>) -> (r: Vec<VnetInfo>)
    ensures
        info_views(r@) == vnet_infos(subnets@),
{
    let mut infos: Vec<VnetInfo> = Vec::new();
    let mut keys: Vec<String> = Vec::new();
    let mut k: usize = 0;
    assert(subnets@.subrange(0, 0) =~= Seq::<Subnet>::empty());
    while k < subnets.len()
        invariant
            k <= subnets@.len(),
            info_views(infos@) == vnet_infos(subnets@.subrange(0, k as int)),
            keys@.len() == infos@.len(),
            forall|q: int| 0 <= q < infos@.len() ==> {
                &&& (#[trigger] infos@[q]).vnet_cidr@.len() == 1
                &&& keys@[q]@ == cidr_text(infos@[q].vnet_cidr@[0])
                &&& infos@[q].subnet_count <= k
            },
        decreases subnets@.len() - k,
    {
        let s = &subnets[k];
        let key = s.vnet_cidr.to_string();
        let ghost pre = subnets@.subrange(0, k as int);
        let ghost now = subnets@.subrange(0, k + 1);
        assert(now.drop_last() =~= pre);
        assert(now.last() == *s);
        let mut p: usize = 0;
        while p < infos.len() && !holds_exec(&infos[p], keys[p].as_str(), s, key.as_str())
            invariant
                p <= infos@.len(),
                keys@.len() == infos@.len(),
                key@ == cidr_text(s.vnet_cidr),
                forall|q: int| 0 <= q < infos@.len() ==> {
                    &&& (#[trigger] infos@[q]).vnet_cidr@.len() == 1
                    &&& keys@[q]@ == cidr_text(infos@[q].vnet_cidr@[0])
                },
                forall|q: int| 0 <= q < p ==> !info_holds(#[trigger] info_views(infos@)[q], *s),
            decreases infos@.len() - p,
        {
            p += 1;
        }
        let found = p < infos.len();
        let ghost views = info_views(infos@);
        if found {
            proof {
                lemma_info_index(views, *s, p as int);
            }
            let old_count = infos[p].subnet_count;
            let mut info = copy_info(&infos[p]);
            info.subnet_count = old_count + 1;
            infos.set(p, info);
            assert(info_views(infos@) =~= views.update(p as int, counted(views[p as int])));
        } else {
            proof {
                lemma_info_index(views, *s, -1);
            }
            let mut one: Vec<Ipv4> = Vec::new();
            one.push(s.vnet_cidr);
            assert(one@ =~= seq![s.vnet_cidr]);
            infos.push(
                VnetInfo {
                    vnet_name: s.vnet_name.clone(),
                    vnet_cidr: one,
                    subscription_id: s.subscription_id.clone(),
                    subscription_name: s.subscription_name.clone(),
                    location: s.location.clone(),
                    subnet_count: 1,
                },
            );
            keys.push(key);
            assert(info_views(infos@) =~= views.push(new_info(*s)));
        }
        k += 1;
    }
    assert(subnets@.subrange(0, subnets@.len() as int) =~= subnets@);
    infos
}


/// A walk along conflict edges, through positions of `infos`.
pub open spec fn is_walk(infos: Seq<InfoView>, p: Seq<int>) -> bool {
    &&& p.len() >= 1
    &&& forall|k: int| 0 <= k < p.len() ==> 0 <= #[trigger] p[k] < infos.len()
    &&& forall|k: int| 0 <= k < p.len() - 1 ==> #[trigger] conflict_edge(infos, p[k], p[k + 1])
}

/// Positions `i` and `j` are in the same conflict group: a walk along
/// conflict edges leads from one to the other.
pub open spec fn linked(infos: Seq<InfoView>, i: int, j: int) -> bool {
    exists|p: Seq<int>| #[trigger] is_walk(infos, p) && p[0] == i && p.last() == j
}

/// The smallest position in the conflict group of position `i`.
pub open spec fn group_root(infos: Seq<InfoView>, i: int) -> int {
    choose|r: int| linked(infos, i, r) && forall|k: int| #[trigger] linked(infos, i, k) ==> r <= k
}

proof fn lemma_linked_self(infos: Seq<InfoView>, i: int)
    requires
        0 <= i < infos.len(),
    ensures
        linked(infos, i, i),
{
    let p = seq![i];
    assert(is_walk(infos, p));
}

proof fn lemma_edge_symmetric(infos: Seq<InfoView>, i: int, j: int)
    requires
        conflict_edge(infos, i, j),
    ensures
        conflict_edge(infos, j, i),
{
    let (a, b) = choose|a: int, b: int|
        0 <= a < infos[i].vnet_cidr.len() && 0 <= b < infos[j].vnet_cidr.len() && blocks_meet(
            #[trigger] infos[i].vnet_cidr[a],
            #[trigger] infos[j].vnet_cidr[b],
        );
    assert(blocks_meet(infos[j].vnet_cidr[b], infos[i].vnet_cidr[a]));
}

proof fn lemma_linked_edge(infos: Seq<InfoView>, i: int, j: int)
    requires
        conflict_edge(infos, i, j),
    ensures
        linked(infos, i, j),
{
    let p = seq![i, j];
    assert(conflict_edge(infos, p[0], p[1]));
    assert(is_walk(infos, p));
}

proof fn lemma_linked_trans(infos: Seq<InfoView>, i: int, j: int, k: int)
    requires
        linked(infos, i, j),
        linked(infos, j, k),
    ensures
        linked(infos, i, k),
{
    let p = choose|p: Seq<int>| #[trigger] is_walk(infos, p) && p[0] == i && p.last() == j;
    let q = choose|q: Seq<int>| #[trigger] is_walk(infos, q) && q[0] == j && q.last() == k;
    let w = p + q.drop_first();
    assert forall|m: int| 0 <= m < w.len() implies 0 <= #[trigger] w[m] < infos.len() by {
        if m >= p.len() {
            assert(w[m] == q[m - p.len() + 1]);
        }
    }
    assert forall|m: int| 0 <= m < w.len() - 1 implies #[trigger] conflict_edge(infos, w[m], w[m + 1]) by {
        if m < p.len() - 1 {
            assert(w[m] == p[m] && w[m + 1] == p[m + 1]);
        } else if m == p.len() - 1 {
            assert(w[m] == p.last());
            assert(w[m + 1] == q[1]);
            assert(conflict_edge(infos, q[0], q[1]));
        } else {
            let n = m - p.len() + 1;
            assert(w[m] == q[n] && w[m + 1] == q[n + 1]);
        }
    }
    assert(is_walk(infos, w));
    if q.len() == 1 {
        assert(w.last() == p.last());
    } else {
        assert(w.last() == q.last());
    }
}

proof fn lemma_linked_symmetric(infos: Seq<InfoView>, i: int, j: int)
    requires
        linked(infos, i, j),
    ensures
        linked(infos, j, i),
{
    let p = choose|p: Seq<int>| #[trigger] is_walk(infos, p) && p[0] == i && p.last() == j;
    let w = p.reverse();
    assert forall|m: int| 0 <= m < w.len() implies 0 <= #[trigger] w[m] < infos.len() by {
        assert(w[m] == p[p.len() - 1 - m]);
    }
    assert forall|m: int| 0 <= m < w.len() - 1 implies #[trigger] conflict_edge(infos, w[m], w[m + 1]) by {
        let a = p.len() - 2 - m;
        assert(w[m] == p[a + 1] && w[m + 1] == p[a]);
        assert(conflict_edge(infos, p[a], p[a + 1]));
        lemma_edge_symmetric(infos, p[a], p[a + 1]);
    }
    assert(is_walk(infos, w));
}

/// Labels that agree across every conflict edge agree along every walk.
proof fn lemma_walk_labels(infos: Seq<InfoView>, labels: Seq<usize>, p: Seq<int>)
    requires
        is_walk(infos, p),
        labels.len() == infos.len(),
        forall|a: int, b: int| #[trigger] conflict_edge(infos, a, b) ==> labels[a] == labels[b],
    ensures
        labels[p[0]] == labels[p.last()],
    decreases p.len(),
{
    if p.len() > 1 {
        let q = p.drop_last();
        assert forall|m: int| 0 <= m < q.len() - 1 implies #[trigger] conflict_edge(infos, q[m], q[m + 1]) by {
            assert(q[m] == p[m] && q[m + 1] == p[m + 1]);
        }
        assert(is_walk(infos, q));
        lemma_walk_labels(infos, labels, q);
        let k = p.len() - 2;
        assert(conflict_edge(infos, p[k], p[k + 1]));
        assert(q.last() == p[k]);
    }
}

/// Labels that name, for each position, a linked position no larger than
/// it, that are fixed points, and that agree on the edges seen so far.
pub open spec fn labels_ok(infos: Seq<InfoView>, labels: Seq<usize>) -> bool {
    &&& labels.len() == infos.len()
    &&& forall|k: int|
        0 <= k < labels.len() ==> {
            &&& #[trigger] labels[k] <= k
            &&& labels[labels[k] as int] == labels[k]
            &&& linked(infos, k, labels[k] as int)
        }
}

/// Whether address spaces `i` and `j` conflict.
fn conflicts_exec(infos: &Vec<VnetInfo>, i: usize, j: usize) -> (r: bool)
    requires
        i < infos@.len(),
        j < infos@.len(),
        blocks_wf(infos@[i as int].vnet_cidr@),
        blocks_wf(infos@[j as int].vnet_cidr@),
    ensures
        r == conflict_edge(info_views(infos@), i as int, j as int),
{
    let same_vnet = str_eq(infos[i].vnet_name.as_str(), infos[j].vnet_name.as_str()) && str_eq(
        infos[i].subscription_id.as_str(),
        infos[j].subscription_id.as_str(),
    );
    !same_vnet && cidrs_overlap(infos[i].vnet_cidr.as_slice(), infos[j].vnet_cidr.as_slice())
}

/// For each address space, the smallest position of its conflict group.
pub fn group_labels(infos: &Vec<VnetInfo>) -> (labels: Vec<usize>)
    requires
        forall|k: int| 0 <= k < infos@.len() ==> blocks_wf(#[trigger] infos@[k].vnet_cidr@),
    ensures
        labels@.len() == infos@.len(),
        forall|k: int| 0 <= k < infos@.len() ==> #[trigger] labels@[k] as int == group_root(info_views(infos@), k),
{
    let ghost g = info_views(infos@);
    let n = infos.len();
    let mut labels: Vec<usize> = Vec::new();
    let mut k: usize = 0;
    while k < n
        invariant
            k <= n == infos@.len() == g.len(),
            labels@.len() == k,
            forall|m: int| 0 <= m < k ==> #[trigger] labels@[m] == m,
        decreases n - k,
    {
        labels.push(k);
        k += 1;
    }
    assert forall|m: int| 0 <= m < n implies {
        &&& #[trigger] labels@[m] <= m
        &&& labels@[labels@[m] as int] == labels@[m]
        &&& linked(g, m, labels@[m] as int)
    } by {
        lemma_linked_self(g, m);
    }
    let mut i: usize = 0;
    while i < n
        invariant
            i <= n == infos@.len() == g.len(),
            g == info_views(infos@),
            forall|k2: int| 0 <= k2 < infos@.len() ==> blocks_wf(#[trigger] infos@[k2].vnet_cidr@),
            labels_ok(g, labels@),
            forall|a: int, b: int|
                0 <= a < i && a < b < n && #[trigger] conflict_edge(g, a, b) ==> labels@[a] == labels@[b],
        decreases n - i,
    {
        let mut j: usize = i + 1;
        while j < n
            invariant
                i < n == infos@.len() == g.len(),
                i + 1 <= j <= n,
                g == info_views(infos@),
                forall|k2: int| 0 <= k2 < infos@.len() ==> blocks_wf(#[trigger] infos@[k2].vnet_cidr@),
                labels_ok(g, labels@),
                forall|a: int, b: int|
                    ((0 <= a < i && a < b < n) || (a == i && i < b < j)) && #[trigger] conflict_edge(g, a, b)
                        ==> labels@[a] == labels@[b],
            decreases n - j,
        {
            if conflicts_exec(infos, i, j) {
                let la = labels[i];
                let lb = labels[j];
                if la != lb {
                    let (lo, hi) = if la < lb {
                        (la, lb)
                    } else {
                        (lb, la)
                    };
                    proof {
                        lemma_linked_edge(g, i as int, j as int);
                        lemma_linked_symmetric(g, i as int, la as int);
                        lemma_linked_trans(g, la as int, i as int, j as int);
                        lemma_linked_trans(g, la as int, j as int, lb as int);
                        if la > lb {
                        } else {
                            lemma_linked_symmetric(g, la as int, lb as int);
                        }
                        assert(linked(g, hi as int, lo as int));
                    }
                    let ghost before = labels@;
                    let mut m: usize = 0;
                    while m < n
                        invariant
                            m <= n == labels@.len() == before.len() == g.len(),
                            lo < hi < n,
                            before[hi as int] == hi,
                            before[lo as int] == lo,
                            linked(g, hi as int, lo as int),
                            labels_ok(g, before),
                            forall|q: int| 0 <= q < m ==> #[trigger] labels@[q] == if before[q] == hi {
                                lo
                            } else {
                                before[q]
                            },
                            forall|q: int| m <= q < n ==> #[trigger] labels@[q] == before[q],
                        decreases n - m,
                    {
                        if labels[m] == hi {
                            labels.set(m, lo);
                        }
                        m += 1;
                    }
                    proof {
                        assert forall|q: int| 0 <= q < n implies {
                            &&& #[trigger] labels@[q] <= q
                            &&& labels@[labels@[q] as int] == labels@[q]
                            &&& linked(g, q, labels@[q] as int)
                        } by {
                            assert(labels@[q] == if before[q] == hi { lo } else { before[q] });
                            if before[q] == hi {
                                lemma_linked_trans(g, q, hi as int, lo as int);
                                assert(labels@[lo as int] == lo);
                            } else {
                                let l = before[q] as int;
                                assert(before[l] == l);
                                assert(labels@[l] == if before[l] == hi { lo } else { before[l] });
                            }
                        }
                        assert forall|a: int, b: int|
                            ((0 <= a < i && a < b < n) || (a == i && i < b < j + 1)) && #[trigger] conflict_edge(g, a, b)
                                implies labels@[a] == labels@[b] by {
                            assert(labels@[a] == if before[a] == hi { lo } else { before[a] });
                            assert(labels@[b] == if before[b] == hi { lo } else { before[b] });
                        }
                    }
                }
            }
            j += 1;
        }
        i += 1;
    }
    proof {
        assert forall|a: int, b: int| #[trigger] conflict_edge(g, a, b) implies labels@[a] == labels@[b] by {
            if a < b {
            } else if b < a {
                lemma_edge_symmetric(g, a, b);
            } else {
            }
        }
        assert forall|k2: int| 0 <= k2 < infos@.len() implies #[trigger] labels@[k2] as int == group_root(g, k2) by {
            let l = labels@[k2] as int;
            assert forall|k3: int| #[trigger] linked(g, k2, k3) implies l <= k3 by {
                let p = choose|p: Seq<int>| #[trigger] is_walk(g, p) && p[0] == k2 && p.last() == k3;
                lemma_walk_labels(g, labels@, p);
                assert(labels@[k3] <= k3);
            }
            assert(linked(g, k2, l));
            let r = group_root(g, k2);
            assert(linked(g, k2, r) && forall|k3: int| #[trigger] linked(g, k2, k3) ==> r <= k3);
            assert(r <= l);
            assert(l <= r);
        }
    }
    labels
}


/// The address spaces of the first `n` positions whose group root is `r`,
/// in order.
pub open spec fn group_members(infos: Seq<InfoView>, r: int, n: int) -> Seq<InfoView>
    decreases n,
{
    if n <= 0 {
        Seq::empty()
    } else {
        let m = group_members(infos, r, n - 1);
        if group_root(infos, n - 1) == r {
            m.push(infos[n - 1])
        } else {
            m
        }
    }
}

/// The conflict groups rooted among the first `n` positions, in order of
/// their roots; a group of one address space is no conflict.
pub open spec fn raw_groups(infos: Seq<InfoView>, n: int) -> Seq<Seq<InfoView>>
    decreases n,
{
    if n <= 0 {
        Seq::empty()
    } else {
        let g = raw_groups(infos, n - 1);
        let members = group_members(infos, n - 1, infos.len() as int);
        if group_root(infos, n - 1) == n - 1 && members.len() > 1 {
            g.push(members)
        } else {
            g
        }
    }
}

/// The order of blocks: by address, then by prefix length.
pub open spec fn block_lt(a: Ipv4, b: Ipv4) -> bool {
    a.addr < b.addr || (a.addr == b.addr && a.mask < b.mask)
}

/// The least block of a group (its members hold one block each).
pub open spec fn least_block(g: Seq<InfoView>) -> Ipv4
    decreases g.len(),
{
    if g.len() <= 1 {
        g[0].vnet_cidr[0]
    } else {
        let m = least_block(g.drop_last());
        let x = g.last().vnet_cidr[0];
        if block_lt(x, m) {
            x
        } else {
            m
        }
    }
}

/// Where a stable insertion puts group `x`.
pub open spec fn group_insert_pos(s: Seq<Seq<InfoView>>, x: Seq<InfoView>) -> nat
    decreases s.len(),
{
    if s.len() == 0 || !block_lt(least_block(s[0]), least_block(x)) {
        0
    } else {
        1 + group_insert_pos(s.drop_first(), x)
    }
}

/// The groups stably sorted by their least block.
pub open spec fn groups_by_block(s: Seq<Seq<InfoView>>) -> Seq<Seq<InfoView>>
    decreases s.len(),
{
    if s.len() == 0 {
        s
    } else {
        let t = groups_by_block(s.drop_first());
        t.insert(group_insert_pos(t, s[0]) as int, s[0])
    }
}

/// The conflict groups of the address spaces, sorted by least block.
pub open spec fn conflict_groups(infos: Seq<InfoView>) -> Seq<Seq<InfoView>> {
    groups_by_block(raw_groups(infos, infos.len() as int))
}

/// Every member holds exactly one block.
pub open spec fn single_blocks(g: Seq<InfoView>) -> bool {
    forall|k: int| 0 <= k < g.len() ==> (#[trigger] g[k]).vnet_cidr.len() == 1
}

/// The least block of a non-empty group.
fn least_block_exec(c: &OverlapConflict) -> (r: Ipv4)
    requires
        c.vnets@.len() > 0,
        single_blocks(info_views(c.vnets@)),
    ensures
        r == least_block(info_views(c.vnets@)),
{
    let ghost g = info_views(c.vnets@);
    assert(g[0].vnet_cidr.len() == 1);
    let mut best = c.vnets[0].vnet_cidr[0];
    let mut k: usize = 1;
    assert(g.subrange(0, 1).len() == 1 && g.subrange(0, 1)[0] == g[0]);
    while k < c.vnets.len()
        invariant
            1 <= k <= g.len(),
            g == info_views(c.vnets@),
            single_blocks(g),
            best == least_block(g.subrange(0, k as int)),
        decreases g.len() - k,
    {
        assert(g[k as int].vnet_cidr.len() == 1);
        let x = c.vnets[k].vnet_cidr[0];
        proof {
            let now = g.subrange(0, k + 1);
            assert(now.drop_last() =~= g.subrange(0, k as int));
            assert(now.last() == g[k as int]);
        }
        if x.addr < best.addr || (x.addr == best.addr && x.mask < best.mask) {
            best = x;
        }
        k += 1;
    }
    assert(g.subrange(0, g.len() as int) =~= g);
    best
}

proof fn lemma_group_insert_pos(t: Seq<Seq<InfoView>>, x: Seq<InfoView>, p: int)
    requires
        0 <= p <= t.len(),
        forall|q: int| 0 <= q < p ==> block_lt(least_block(#[trigger] t[q]), least_block(x)),
        p == t.len() || !block_lt(least_block(t[p]), least_block(x)),
    ensures
        group_insert_pos(t, x) == p,
    decreases p,
{
    if p > 0 {
        let u = t.drop_first();
        assert(block_lt(least_block(t[0]), least_block(x)));
        assert forall|q: int| 0 <= q < p - 1 implies block_lt(least_block(#[trigger] u[q]), least_block(x)) by {
            assert(u[q] == t[q + 1]);
            assert(block_lt(least_block(t[q + 1]), least_block(x)));
        }
        if p < t.len() {
            assert(u[p - 1] == t[p]);
        }
        lemma_group_insert_pos(u, x, p - 1);
    }
}

/// Every group is non-empty and its members hold one block each.
pub open spec fn groups_shaped(s: Seq<Seq<InfoView>>) -> bool {
    forall|k: int| 0 <= k < s.len() ==> (#[trigger] s[k]).len() > 0 && single_blocks(s[k])
}

/// The groups stably sorted by least block.
fn sort_groups(v: Vec<OverlapConflict>) -> (r: Vec<OverlapConflict>)
    requires
        groups_shaped(conflict_views(v@)),
    ensures
        conflict_views(r@) == groups_by_block(conflict_views(v@)),
        groups_shaped(conflict_views(r@)),
{
    let ghost s = conflict_views(v@);
    let mut src = v;
    let mut out: Vec<OverlapConflict> = Vec::new();
    assert(s.subrange(s.len() as int, s.len() as int) =~= Seq::<Seq<InfoView>>::empty());
    while src.len() > 0
        invariant
            src@.len() <= s.len(),
            conflict_views(src@) == s.subrange(0, src@.len() as int),
            conflict_views(out@) == groups_by_block(s.subrange(src@.len() as int, s.len() as int)),
            groups_shaped(s),
            groups_shaped(conflict_views(out@)),
        decreases src@.len(),
    {
        let ghost k = src@.len() - 1;
        let ghost before = src@;
        let x = src.pop().unwrap();
        assert(conflict_views(before)[k] == s[k]);
        assert(info_views(x.vnets@) == s[k]);
        assert(conflict_views(src@) =~= s.subrange(0, src@.len() as int)) by {
            assert(src@ =~= before.subrange(0, k));
        }
        let xb = least_block_exec(&x);
        let ghost ov = conflict_views(out@);
        let mut p: usize = 0;
        while p < out.len()
            invariant
                p <= out@.len(),
                ov == conflict_views(out@),
                groups_shaped(ov),
                xb == least_block(info_views(x.vnets@)),
                forall|q: int| 0 <= q < p ==> block_lt(least_block(#[trigger] ov[q]), xb),
            ensures
                p <= out@.len(),
                forall|q: int| 0 <= q < p ==> block_lt(least_block(#[trigger] ov[q]), xb),
                p == out@.len() || !block_lt(least_block(ov[p as int]), xb),
            decreases out@.len() - p,
        {
            assert(ov[p as int] == info_views(out@[p as int].vnets@));
            let b = least_block_exec(&out[p]);
            if !(b.addr < xb.addr || (b.addr == xb.addr && b.mask < xb.mask)) {
                break;
            }
            p += 1;
        }
        proof {
            lemma_group_insert_pos(ov, info_views(x.vnets@), p as int);
            let whole = s.subrange(k, s.len() as int);
            assert(whole.drop_first() =~= s.subrange(k + 1, s.len() as int));
            assert(whole[0] == info_views(x.vnets@));
        }
        out.insert(p, x);
        assert(conflict_views(out@) =~= ov.insert(p as int, info_views(x.vnets@)));
    }
    assert(s.subrange(0, s.len() as int) =~= s);
    out
}


/// The conflict groups among the subnets' address spaces: the connected
/// components, of more than one address space, of the conflict relation,
/// each in order of first appearance, sorted (stably) by least block.
pub fn find_overlapping_vnets(data: &Data) -> (r: Vec<OverlapConflict>)
    requires
        vnet_cidrs_wf(data.data@),
    ensures
        conflict_views(r@) == conflict_groups(vnet_infos(data.data@)),
        groups_shaped(conflict_views(r@)),
{
    let infos = collect_vnet_infos(&data.data);
    let ghost g = info_views(infos@);
    let total = data.data.len();
    proof {
        lemma_vnet_infos_facts(data.data@);
        assert forall|k: int| 0 <= k < infos@.len() implies blocks_wf(#[trigger] infos@[k].vnet_cidr@) by {
            assert(g[k] == infos@[k]@);
            let m = choose|m: int| 0 <= m < data.data@.len() && g[k].vnet_cidr[0] == (#[trigger] data.data@[m]).vnet_cidr;
            assert(data.data@[m].vnet_cidr.wf());
        }
    }
    let labels = group_labels(&infos);
    let n = infos.len();
    let mut groups: Vec<OverlapConflict> = Vec::new();
    let mut r: usize = 0;
    while r < n
        invariant
            r <= n == infos@.len() == g.len() == labels@.len(),
            g == info_views(infos@),
            g == vnet_infos(data.data@),
            forall|k: int| 0 <= k < n ==> #[trigger] labels@[k] as int == group_root(g, k),
            forall|k: int| 0 <= k < n ==> (#[trigger] g[k]).vnet_cidr.len() == 1,
            conflict_views(groups@) == raw_groups(g, r as int),
            groups_shaped(conflict_views(groups@)),
        decreases n - r,
    {
        if labels[r] == r {
            let mut members: Vec<VnetInfo> = Vec::new();
            let mut k: usize = 0;
            while k < n
                invariant
                    k <= n == infos@.len() == g.len() == labels@.len(),
                    r < n,
                    g == info_views(infos@),
                    forall|k2: int| 0 <= k2 < n ==> #[trigger] labels@[k2] as int == group_root(g, k2),
                    forall|k2: int| 0 <= k2 < n ==> (#[trigger] g[k2]).vnet_cidr.len() == 1,
                    info_views(members@) == group_members(g, r as int, k as int),
                    single_blocks(info_views(members@)),
                decreases n - k,
            {
                if labels[k] == r {
                    let c = copy_info(&infos[k]);
                    members.push(c);
                    assert(info_views(members@) =~= group_members(g, r as int, k as int).push(g[k as int]));
                }
                k += 1;
            }
            if members.len() > 1 {
                groups.push(OverlapConflict { vnets: members });
                assert(conflict_views(groups@) =~= raw_groups(g, r as int).push(group_members(g, r as int, n as int)));
            }
        }
        r += 1;
    }
    sort_groups(groups)
}


/// A production subscription: its name, lower-cased, contains `prod`.
pub open spec fn production(subscription_name: Seq<char>) -> bool {
    text_contains(lowercase_text(subscription_name), "prod"@)
}

/// Whether a subscription is a production one (its lower-cased name
/// contains `prod`).
pub fn is_production(subscription_name: &str) -> (r: bool)
    ensures
        r == production(subscription_name@),
{
    let lower = to_lowercase(subscription_name);
    contains_text(lower.as_str(), "prod")
}

/// `a` wins over `b` in conflict resolution: a production subscription
/// over a non-production one, then more subnets, then the subscription name
/// that sorts first.
pub open spec fn ranks_above(a: InfoView, b: InfoView) -> bool {
    let pa = production(a.subscription_name);
    let pb = production(b.subscription_name);
    ||| pa && !pb
    ||| pa == pb && a.subnet_count > b.subnet_count
    ||| pa == pb && a.subnet_count == b.subnet_count && text_lt(
        a.subscription_name,
        b.subscription_name,
    )
}

/// Position `k` is the kept member of group `g`: nobody ranks above it,
/// and it ranks above everyone before it (the first of the best).
pub open spec fn keeper_ok(g: Seq<InfoView>, k: int) -> bool {
    &&& 0 <= k < g.len()
    &&& forall|j: int| 0 <= j < g.len() ==> !ranks_above(#[trigger] g[j], g[k])
    &&& forall|j: int| 0 <= j < k ==> ranks_above(g[k], #[trigger] g[j])
}

/// The kept member of group `g`.
pub open spec fn keeper_index(g: Seq<InfoView>) -> int {
    choose|k: int| keeper_ok(g, k)
}

/// Ranking is a strict weak order.
pub proof fn lemma_ranks_above(a: InfoView, b: InfoView, c: InfoView)
    ensures
        !ranks_above(a, a),
        ranks_above(a, b) ==> !ranks_above(b, a),
        ranks_above(a, b) && ranks_above(b, c) ==> ranks_above(a, c),
        ranks_above(a, b) && !ranks_above(c, b) ==> ranks_above(a, c),
{
    lemma_text_lt_irrefl(a.subscription_name);
    lemma_text_lt_total(a.subscription_name, b.subscription_name);
    lemma_text_lt_total(b.subscription_name, c.subscription_name);
    lemma_text_lt_total(a.subscription_name, c.subscription_name);
    if text_lt(a.subscription_name, b.subscription_name) && text_lt(b.subscription_name, a.subscription_name) {
        lemma_text_lt_trans(a.subscription_name, b.subscription_name, a.subscription_name);
    }
    if text_lt(a.subscription_name, b.subscription_name) && text_lt(b.subscription_name, c.subscription_name) {
        lemma_text_lt_trans(a.subscription_name, b.subscription_name, c.subscription_name);
    }
    if text_lt(a.subscription_name, b.subscription_name) && text_lt(c.subscription_name, a.subscription_name) {
        lemma_text_lt_trans(c.subscription_name, a.subscription_name, b.subscription_name);
    }
    if text_lt(b.subscription_name, c.subscription_name) && text_lt(c.subscription_name, b.subscription_name) {
        lemma_text_lt_trans(b.subscription_name, c.subscription_name, b.subscription_name);
        lemma_text_lt_irrefl(b.subscription_name);
    }
}

/// There is one kept member per group.
pub proof fn lemma_keeper_unique(g: Seq<InfoView>, k: int)
    requires
        keeper_ok(g, k),
    ensures
        keeper_index(g) == k,
{
    let c = keeper_index(g);
    assert(keeper_ok(g, c));
    if c < k {
        assert(ranks_above(g[k], g[c]));
    } else if k < c {
        assert(ranks_above(g[c], g[k]));
    }
}

fn ranks_above_exec(a: &VnetInfo, pa: bool, b: &VnetInfo, pb: bool) -> (r: bool)
    requires
        pa == production(a.subscription_name@),
        pb == production(b.subscription_name@),
    ensures
        r == ranks_above(a@, b@),
{
    if pa && !pb {
        true
    } else if pa != pb {
        false
    } else if a.subnet_count != b.subnet_count {
        a.subnet_count > b.subnet_count
    } else {
        text_less(a.subscription_name.as_str(), b.subscription_name.as_str())
    }
}

/// The kept member of a group: the first of those nobody ranks above.
pub fn find_keeper(c: &OverlapConflict) -> (r: usize)
    requires
        c.vnets@.len() > 0,
    ensures
        keeper_ok(info_views(c.vnets@), r as int),
        r as int == keeper_index(info_views(c.vnets@)),
{
    let ghost g = info_views(c.vnets@);
    let mut best: usize = 0;
    let mut best_prod = is_production(c.vnets[0].subscription_name.as_str());
    let mut k: usize = 1;
    proof {
        lemma_ranks_above(g[0], g[0], g[0]);
    }
    while k < c.vnets.len()
        invariant
            1 <= k <= g.len(),
            g == info_views(c.vnets@),
            best < k,
            best_prod == production(g[best as int].subscription_name),
            forall|j: int| 0 <= j < k ==> !ranks_above(#[trigger] g[j], g[best as int]),
            forall|j: int| 0 <= j < best ==> ranks_above(g[best as int], #[trigger] g[j]),
        decreases g.len() - k,
    {
        let kp = is_production(c.vnets[k].subscription_name.as_str());
        if ranks_above_exec(&c.vnets[k], kp, &c.vnets[best], best_prod) {
            proof {
                assert forall|j: int| 0 <= j < k + 1 implies !ranks_above(#[trigger] g[j], g[k as int]) by {
                    lemma_ranks_above(g[j], g[k as int], g[best as int]);
                    lemma_ranks_above(g[k as int], g[k as int], g[k as int]);
                }
                assert forall|j: int| 0 <= j < k implies ranks_above(g[k as int], #[trigger] g[j]) by {
                    lemma_ranks_above(g[k as int], g[best as int], g[j]);
                }
            }
            best = k;
            best_prod = kp;
        }
        k += 1;
    }
    proof {
        lemma_keeper_unique(g, best as int);
    }
    best
}

/// The winner's VNet name when group `g` excludes subnet `s`: some member
/// other than the kept one holds `s`.
pub open spec fn winner_in(g: Seq<InfoView>, s: Subnet) -> Option<Seq<char>> {
    let k = keeper_index(g);
    if exists|j: int| 0 <= j < g.len() && j != k && info_holds(#[trigger] g[j], s) {
        Some(g[k].vnet_name)
    } else {
        None
    }
}

/// The winner's VNet name of the first group that excludes subnet `s`.
pub open spec fn winner_for(groups: Seq<Seq<InfoView>>, s: Subnet) -> Option<Seq<char>>
    decreases groups.len(),
{
    if groups.len() == 0 {
        None
    } else {
        match winner_in(groups[0], s) {
            Some(w) => Some(w),
            None => winner_for(groups.drop_first(), s),
        }
    }
}

/// An excluded subnet with the VNet name that won conflict resolution.
#[derive(Debug)]
pub struct ExcludedSubnet {
    pub subnet: Subnet,
    pub winner_vnet_name: String,
}

/// Conflict resolution result: the subnets kept and those excluded.
#[derive(Debug)]
pub struct ConflictResolutionOutput {
    pub active: Data,
    pub excluded: Vec<ExcludedSubnet>,
}

/// The subnets that no group excludes, in order.
pub open spec fn active_subnets(s: Seq<Subnet>, groups: Seq<Seq<InfoView>>) -> Seq<Subnet>
    decreases s.len(),
{
    if s.len() == 0 {
        s
    } else {
        let r = active_subnets(s.drop_last(), groups);
        if winner_for(groups, s.last()) is None {
            r.push(s.last())
        } else {
            r
        }
    }
}

/// The excluded subnets with their winners' VNet names, in order.
pub open spec fn excluded_subnets(s: Seq<Subnet>, groups: Seq<Seq<InfoView>>) -> Seq<(Subnet, Seq<char>)>
    decreases s.len(),
{
    if s.len() == 0 {
        Seq::empty()
    } else {
        let r = excluded_subnets(s.drop_last(), groups);
        match winner_for(groups, s.last()) {
            Some(w) => r.push((s.last(), w)),
            None => r,
        }
    }
}

/// The views of excluded subnets.
pub open spec fn excluded_views(v: Seq<ExcludedSubnet>) -> Seq<(Subnet, Seq<char>)> {
    v.map_values(|e: ExcludedSubnet| (e.subnet, e.winner_vnet_name@))
}

/// Whether subnet `s` falls in the address space `info` (whose block text
/// is `key`).
fn info_holds_exec(info: &VnetInfo, s: &Subnet, skey: &str) -> (r: bool)
    requires
        skey@ == cidr_text(s.vnet_cidr),
    ensures
        r == info_holds(info@, *s),
{
    if info.vnet_cidr.len() == 0 {
        return false;
    }
    let key = info.vnet_cidr[0].to_string();
    str_eq(info.vnet_name.as_str(), s.vnet_name.as_str()) && str_eq(
        info.subscription_id.as_str(),
        s.subscription_id.as_str(),
    ) && str_eq(key.as_str(), skey)
}

/// The winner's VNet name for subnet `s` among the groups (with their
/// kept members).
fn winner_exec(conflicts: &Vec<OverlapConflict>, keepers: &Vec<usize>, s: &Subnet) -> (r: Option<String>)
    requires
        keepers@.len() == conflicts@.len(),
        forall|c: int| 0 <= c < conflicts@.len() ==> #[trigger] keepers@[c] as int == keeper_index(
            info_views(conflicts@[c].vnets@),
        ) && keepers@[c] < conflicts@[c].vnets@.len(),
    ensures
        match winner_for(conflict_views(conflicts@), *s) {
            Some(w) => r matches Some(x) && x@ == w,
            None => r is None,
        },
{
    let skey = s.vnet_cidr.to_string();
    let ghost gs = conflict_views(conflicts@);
    let mut c: usize = 0;
    assert(gs.subrange(0, gs.len() as int) =~= gs);
    while c < conflicts.len()
        invariant
            c <= conflicts@.len() == gs.len() == keepers@.len(),
            gs == conflict_views(conflicts@),
            skey@ == cidr_text(s.vnet_cidr),
            forall|c2: int| 0 <= c2 < conflicts@.len() ==> #[trigger] keepers@[c2] as int == keeper_index(
                info_views(conflicts@[c2].vnets@),
            ) && keepers@[c2] < conflicts@[c2].vnets@.len(),
            winner_for(gs, *s) == winner_for(gs.subrange(c as int, gs.len() as int), *s),
        decreases gs.len() - c,
    {
        let group = &conflicts[c].vnets;
        let keeper = keepers[c];
        let ghost g = info_views(group@);
        assert(gs[c as int] == g);
        let mut j: usize = 0;
        let mut hit = false;
        while j < group.len()
            invariant
                j <= group@.len(),
                g == info_views(group@),
                skey@ == cidr_text(s.vnet_cidr),
                hit == exists|j2: int| 0 <= j2 < j && j2 != keeper && info_holds(#[trigger] g[j2], *s),
            decreases group@.len() - j,
        {
            if j != keeper && info_holds_exec(&group[j], s, skey.as_str()) {
                assert(info_holds(g[j as int], *s));
                hit = true;
            }
            j += 1;
        }
        let ghost rest = gs.subrange(c as int, gs.len() as int);
        assert(rest[0] == g);
        assert(rest.drop_first() =~= gs.subrange(c + 1, gs.len() as int));
        if hit {
            return Some(group[keeper].vnet_name.clone());
        }
        c += 1;
    }
    None
}

/// Resolves overlapping VNet_CIDRs: in each conflict group the kept address
/// space is the one of a production subscription, then with the most
/// subnets, then with the subscription name that sorts first; the subnets
/// of the other address spaces are excluded, each with the kept VNet's
/// name.  Without conflicts the data is returned unchanged.
pub fn resolve_overlapping_vnets(data: Data) -> (r: ConflictResolutionOutput)
    requires
        vnet_cidrs_wf(data.data@),
    ensures
        ({
            let groups = conflict_groups(vnet_infos(data.data@));
            if groups.len() == 0 {
                &&& r.active == data
                &&& r.excluded@.len() == 0
            } else {
                &&& r.active.data@ == active_subnets(data.data@, groups)
                &&& excluded_views(r.excluded@) == excluded_subnets(data.data@, groups)
                &&& r.active.count == r.active.data@.len() as i32
                &&& r.active.skip_token == data.skip_token
                &&& r.active.total_records == data.total_records
            }
        }),
{
    let conflicts = find_overlapping_vnets(&data);
    let ghost groups = conflict_groups(vnet_infos(data.data@));
    if conflicts.len() == 0 {
        return ConflictResolutionOutput { active: data, excluded: Vec::new() };
    }
    let mut keepers: Vec<usize> = Vec::new();
    let mut c: usize = 0;
    while c < conflicts.len()
        invariant
            c <= conflicts@.len(),
            keepers@.len() == c,
            conflict_views(conflicts@) == groups,
            forall|c2: int| 0 <= c2 < conflicts@.len() ==> (#[trigger] groups[c2]).len() > 0,
            forall|c2: int| 0 <= c2 < c ==> #[trigger] keepers@[c2] as int == keeper_index(
                info_views(conflicts@[c2].vnets@),
            ) && keepers@[c2] < conflicts@[c2].vnets@.len(),
        decreases conflicts@.len() - c,
    {
        assert(groups[c as int] == info_views(conflicts@[c as int].vnets@));
        let k = find_keeper(&conflicts[c]);
        keepers.push(k);
        c += 1;
    }
    let Data { data: subnets, skip_token, total_records, count: _ } = data;
    let ghost s = subnets@;
    let mut src = subnets;
    let mut active: Vec<Subnet> = Vec::new();
    let mut excluded: Vec<ExcludedSubnet> = Vec::new();
    let ghost mut k: int = 0;
    assert(s.subrange(0, 0) =~= Seq::<Subnet>::empty());
    while src.len() > 0
        invariant
            0 <= k <= s.len(),
            src@ == s.subrange(k, s.len() as int),
            conflict_views(conflicts@) == groups,
            keepers@.len() == conflicts@.len(),
            forall|c2: int| 0 <= c2 < conflicts@.len() ==> #[trigger] keepers@[c2] as int == keeper_index(
                info_views(conflicts@[c2].vnets@),
            ) && keepers@[c2] < conflicts@[c2].vnets@.len(),
            active@ == active_subnets(s.subrange(0, k), groups),
            excluded_views(excluded@) == excluded_subnets(s.subrange(0, k), groups),
        decreases src@.len(),
    {
        let x = src.remove(0);
        proof {
            assert(x == s[k]);
            let pre = s.subrange(0, k + 1);
            assert(pre.drop_last() =~= s.subrange(0, k));
            assert(pre.last() == x);
        }
        let w = winner_exec(&conflicts, &keepers, &x);
        match w {
            Some(name) => {
                let ghost before = excluded_views(excluded@);
                excluded.push(ExcludedSubnet { subnet: x, winner_vnet_name: name });
                assert(excluded_views(excluded@) =~= before.push((s[k], name@)));
            },
            None => {
                active.push(x);
            },
        }
        proof {
            k = k + 1;
        }
        assert(src@ =~= s.subrange(k, s.len() as int));
    }
    assert(s.subrange(0, k) =~= s);
    let n = active.len();
    let active_data = Data { data: active, skip_token, total_records, count: n as i32 };
    ConflictResolutionOutput { active: active_data, excluded }
}


/// Law: conflict resolution splits the subnets: each is either kept or
/// excluded, so the two counts add up to the input's.
pub proof fn lemma_resolution_splits(s: Seq<Subnet>, groups: Seq<Seq<InfoView>>)
    ensures
        active_subnets(s, groups).len() + excluded_subnets(s, groups).len() == s.len(),
    decreases s.len(),
{
    if s.len() > 0 {
        lemma_resolution_splits(s.drop_last(), groups);
    }
}

/// Law (resolution priority): the kept member of a group is of a
/// production subscription whenever any member is, and has at least as many
/// subnets as every member whose production status it shares.
pub proof fn lemma_keeper_priority(g: Seq<InfoView>, k: int, j: int)
    requires
        keeper_ok(g, k),
        0 <= j < g.len(),
    ensures
        production(g[j].subscription_name) ==> production(g[k].subscription_name),
        production(g[j].subscription_name) == production(g[k].subscription_name) ==> g[j].subnet_count
            <= g[k].subnet_count,
{
    assert(!ranks_above(g[j], g[k]));
}

/// Law (name tie-break): among members of a conflict group that are
/// equally production and hold as many subnets, the kept member's
/// subscription name sorts first: no such member's name sorts before it,
/// and each such member before it has a name that sorts after it.
pub proof fn lemma_keeper_name_tiebreak(g: Seq<InfoView>, k: int, j: int)
    requires
        keeper_ok(g, k),
        0 <= j < g.len(),
        production(g[j].subscription_name) == production(g[k].subscription_name),
        g[j].subnet_count == g[k].subnet_count,
    ensures
        !text_lt(g[j].subscription_name, g[k].subscription_name),
        j < k ==> text_lt(g[k].subscription_name, g[j].subscription_name),
{
    assert(!ranks_above(g[j], g[k]));
    if j < k {
        assert(ranks_above(g[k], g[j]));
    }
}

/// Law (kept member): every non-empty conflict group has its kept member:
/// no member ranks above it (a production subscription first, then the most
/// subnets, then the subscription name that sorts first), and it ranks
/// above every member before it.
pub proof fn lemma_keeper_exists(g: Seq<InfoView>)
    requires
        g.len() > 0,
    ensures
        keeper_ok(g, keeper_index(g)),
    decreases g.len(),
{
    let n = g.len() as int;
    if n == 1 {
        lemma_ranks_above(g[0], g[0], g[0]);
        assert(keeper_ok(g, 0));
    } else {
        let pre = g.drop_last();
        lemma_keeper_exists(pre);
        let k = keeper_index(pre);
        let x = g[n - 1];
        assert(pre[k] == g[k]);
        if ranks_above(x, g[k]) {
            assert forall|j: int| 0 <= j < g.len() implies !ranks_above(#[trigger] g[j], g[n - 1]) by {
                lemma_ranks_above(x, x, x);
                if j < n - 1 {
                    assert(g[j] == pre[j]);
                    assert(!ranks_above(pre[j], pre[k]));
                    lemma_ranks_above(g[j], x, g[k]);
                }
            }
            assert forall|j: int| 0 <= j < n - 1 implies ranks_above(g[n - 1], #[trigger] g[j]) by {
                assert(g[j] == pre[j]);
                assert(!ranks_above(pre[j], pre[k]));
                lemma_ranks_above(x, g[k], g[j]);
            }
            assert(keeper_ok(g, n - 1));
        } else {
            assert forall|j: int| 0 <= j < g.len() implies !ranks_above(#[trigger] g[j], g[k]) by {
                if j < n - 1 {
                    assert(g[j] == pre[j]);
                }
            }
            assert forall|j: int| 0 <= j < k implies ranks_above(g[k], #[trigger] g[j]) by {
                assert(g[j] == pre[j]);
                assert(ranks_above(pre[k], pre[j]));
            }
            assert(keeper_ok(g, k));
        }
    }
}

} // verus!
