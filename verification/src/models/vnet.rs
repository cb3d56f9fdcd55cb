//! Azure Virtual Network (VNet) data model: subnets grouped by VNet name
//! and subscription.
use crate::models::ipv4::Ipv4;
use crate::models::subnet::Subnet;
use crate::text::str_eq;
use vstd::prelude::*;

verus! {

/// An Azure Virtual Network with its subnets.
#[derive(Debug)]
pub struct Vnet<'a> {
    pub vnet_name: &'a str,
    /// The VNet_CIDRs of the VNet's subnets, each once, in order.
    pub vnet_cidr: Vec<Ipv4>,
    pub location: &'a str,
    pub subscription_id: &'a str,
    pub subscription_name: &'a str,
    pub subnets: Vec<&'a Subnet>,
}

/// A VNet as plain values.
pub struct VnetView {
    pub vnet_name: Seq<char>,
    pub vnet_cidr: Seq<Ipv4>,
    pub location: Seq<char>,
    pub subscription_id: Seq<char>,
    pub subscription_name: Seq<char>,
    pub subnets: Seq<Subnet>,
}

impl<'a> View for Vnet<'a> {
    type V = VnetView;

    open spec fn view(&self) -> VnetView {
        VnetView {
            vnet_name: self.vnet_name@,
            vnet_cidr: self.vnet_cidr@,
            location: self.location@,
            subscription_id: self.subscription_id@,
            subscription_name: self.subscription_name@,
            subnets: self.subnets@.map_values(|s: &Subnet| *s),
        }
    }
}

/// `s` with block `c` added at the end unless it is there.
pub open spec fn push_block(s: Seq<Ipv4>, c: Ipv4) -> Seq<Ipv4> {
    if s.contains(c) {
        s
    } else {
        s.push(c)
    }
}

/// The VNet of a first subnet.
pub open spec fn vnet_of(s: Subnet) -> VnetView {
    VnetView {
        vnet_name: s.vnet_name@,
        vnet_cidr: seq![s.vnet_cidr],
        location: s.location@,
        subscription_id: s.subscription_id@,
        subscription_name: s.subscription_name@,
        subnets: seq![s],
    }
}

/// The VNet with one more subnet.
pub open spec fn with_subnet(v: VnetView, s: Subnet) -> VnetView {
    VnetView { vnet_cidr: push_block(v.vnet_cidr, s.vnet_cidr), subnets: v.subnets.push(s), ..v }
}

impl<'a> Vnet<'a> {
    /// A VNet holding one subnet.
    pub fn new(subnet: &'a Subnet) -> (r: Vnet<'a>)
        ensures
            r@ == vnet_of(*subnet),
    {
        let mut cidrs: Vec<Ipv4> = Vec::new();
        cidrs.push(subnet.vnet_cidr);
        let mut subnets: Vec<&'a Subnet> = Vec::new();
        subnets.push(subnet);
        let r = Vnet {
            vnet_name: subnet.vnet_name.as_str(),
            vnet_cidr: cidrs,
            location: subnet.location.as_str(),
            subscription_id: subnet.subscription_id.as_str(),
            subscription_name: subnet.subscription_name.as_str(),
            subnets,
        };
        assert(r@.subnets =~= seq![*subnet]);
        assert(r@.vnet_cidr =~= seq![subnet.vnet_cidr]);
        r
    }

    /// Adds a subnet (and its VNet_CIDR, when new) to this VNet.
    pub fn add_subnet(&mut self, subnet: &'a Subnet)
        ensures
            final(self)@ == with_subnet(old(self)@, *subnet),
    {
        let mut k: usize = 0;
        let mut found = false;
        while k < self.vnet_cidr.len()
            invariant
                k <= self.vnet_cidr@.len(),
                found == exists|q: int| 0 <= q < k && self.vnet_cidr@[q] == subnet.vnet_cidr,
            decreases self.vnet_cidr@.len() - k,
        {
            if self.vnet_cidr[k].addr == subnet.vnet_cidr.addr && self.vnet_cidr[k].mask == subnet.vnet_cidr.mask {
                found = true;
            }
            k += 1;
        }
        let ghost before = self@;
        if !found {
            self.vnet_cidr.push(subnet.vnet_cidr);
        }
        self.subnets.push(subnet);
        assert(self@.subnets =~= before.subnets.push(*subnet));
        assert(self@.vnet_cidr =~= push_block(before.vnet_cidr, subnet.vnet_cidr));
    }
}

/// VNets keyed by VNet name and subscription name, in order of first
/// sight.
#[derive(Debug)]
pub struct VnetList<'a> {
    pub vnets: Vec<Vnet<'a>>,
}

/// The views of VNets.
pub open spec fn vnet_views(v: Seq<Vnet>) -> Seq<VnetView> {
    v.map_values(|x: Vnet| x@)
}

/// Position of the VNet with this name and subscription, or -1.
pub open spec fn vnet_pos(v: Seq<VnetView>, name: Seq<char>, sub: Seq<char>) -> int
    decreases v.len(),
{
    if v.len() == 0 {
        -1
    } else if vnet_pos(v.drop_last(), name, sub) >= 0 {
        vnet_pos(v.drop_last(), name, sub)
    } else if v.last().vnet_name == name && v.last().subscription_name == sub {
        v.len() - 1
    } else {
        -1
    }
}

/// The list with the VNet of `s` put in the place of its key (a map
/// insert: a VNet already there is replaced by a new one).
pub open spec fn with_vnet(v: Seq<VnetView>, s: Subnet) -> Seq<VnetView> {
    let p = vnet_pos(v, s.vnet_name@, s.subscription_name@);
    if p >= 0 {
        v.update(p, vnet_of(s))
    } else {
        v.push(vnet_of(s))
    }
}

/// `vnet_pos` finds the first VNet with the name and subscription, or
/// reports that there is none.
pub proof fn lemma_vnet_pos(v: Seq<VnetView>, name: Seq<char>, sub: Seq<char>)
    ensures
        -1 <= vnet_pos(v, name, sub) < v.len(),
        vnet_pos(v, name, sub) >= 0 ==> v[vnet_pos(v, name, sub)].vnet_name == name
            && v[vnet_pos(v, name, sub)].subscription_name == sub,
        forall|i: int|
            0 <= i < v.len() && (vnet_pos(v, name, sub) < 0 || i < vnet_pos(v, name, sub)) ==> !(
            #[trigger] v[i].vnet_name == name && v[i].subscription_name == sub),
    decreases v.len(),
{
    if v.len() > 0 {
        lemma_vnet_pos(v.drop_last(), name, sub);
        let p = vnet_pos(v, name, sub);
        assert forall|i: int|
            0 <= i < v.len() && (p < 0 || i < p) implies !(#[trigger] v[i].vnet_name == name && v[i].subscription_name
            == sub) by {
            if i < v.len() - 1 {
                assert(v.drop_last()[i] == v[i]);
            }
        }
    }
}

/// Position of the VNet with this name and subscription, if present.
pub fn find_vnet(v: &Vec<Vnet>, name: &str, sub: &str) -> (r: Option<usize>)
    ensures
        match r {
            Some(p) => p as int == vnet_pos(vnet_views(v@), name@, sub@),
            None => vnet_pos(vnet_views(v@), name@, sub@) < 0,
        },
{
    let ghost g = vnet_views(v@);
    proof {
        lemma_vnet_pos(g, name@, sub@);
    }
    let mut k: usize = 0;
    while k < v.len()
        invariant
            k <= v@.len() == g.len(),
            g == vnet_views(v@),
            -1 <= vnet_pos(g, name@, sub@) < g.len(),
            vnet_pos(g, name@, sub@) >= 0 ==> g[vnet_pos(g, name@, sub@)].vnet_name == name@
                && g[vnet_pos(g, name@, sub@)].subscription_name == sub@,
            forall|i: int|
                0 <= i < g.len() && (vnet_pos(g, name@, sub@) < 0 || i < vnet_pos(g, name@, sub@)) ==> !(
                #[trigger] g[i].vnet_name == name@ && g[i].subscription_name == sub@),
            forall|i: int| 0 <= i < k ==> !(#[trigger] g[i].vnet_name == name@ && g[i].subscription_name == sub@),
        decreases v@.len() - k,
    {
        if str_eq(v[k].vnet_name, name) && str_eq(v[k].subscription_name, sub) {
            assert(g[k as int].vnet_name == name@ && g[k as int].subscription_name == sub@);
            return Some(k);
        }
        k += 1;
    }
    None
}

impl<'a> VnetList<'a> {
    /// An empty list.
    pub fn new() -> (r: VnetList<'a>)
        ensures
            r.vnets@.len() == 0,
    {
        VnetList { vnets: Vec::new() }
    }

    /// Puts a new VNet holding `subnet` under its key, replacing any VNet
    /// already there.
    pub fn add_vnet(&mut self, subnet: &'a Subnet)
        ensures
            vnet_views(final(self).vnets@) == with_vnet(vnet_views(old(self).vnets@), *subnet),
    {
        let ghost before = vnet_views(self.vnets@);
        proof {
            lemma_vnet_pos(before, subnet.vnet_name@, subnet.subscription_name@);
        }
        let fresh = Vnet::new(subnet);
        match find_vnet(&self.vnets, subnet.vnet_name.as_str(), subnet.subscription_name.as_str()) {
            Some(p) => {
                self.vnets.set(p, fresh);
                assert(vnet_views(self.vnets@) =~= with_vnet(before, *subnet));
            },
            None => {
                self.vnets.push(fresh);
                assert(vnet_views(self.vnets@) =~= with_vnet(before, *subnet));
            },
        }
    }
}

impl<'a> Default for VnetList<'a> {
    fn default() -> (r: VnetList<'a>)
        ensures
            r.vnets@.len() == 0,
    {
        VnetList::new()
    }
}

} // verus!
