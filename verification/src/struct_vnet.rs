//! VNets of the multi-CIDR cache format: subnet records grouped by VNet name
//! and subscription name.
use crate::graph_read_subnet_data::Data;
use crate::models::ipv4::Ipv4;
use crate::struct_subnet::Subnet;
use crate::text::str_eq;
use vstd::prelude::*;

verus! {

/// A VNet of the multi-CIDR cache format, with its subnets.
#[derive(Debug)]
pub struct Vnet<'a> {
    pub vnet_name: &'a str,
    /// The address spaces of the VNet, as its first subnet lists them.
    pub vnet_cidr: &'a Vec<Ipv4>,
    pub location: &'a str,
    pub subscription_id: &'a str,
    pub subscription_name: &'a str,
    pub subnets: Vec<&'a Subnet>,
}

/// A VNet as plain values: name, location, subscription ID and name,
/// address spaces and subnets.
pub struct VnetGroupView {
    pub vnet_name: Seq<char>,
    pub location: Seq<char>,
    pub subscription_id: Seq<char>,
    pub subscription_name: Seq<char>,
    pub vnet_cidr: Seq<Ipv4>,
    pub subnets: Seq<Subnet>,
}

impl<'a> View for Vnet<'a> {
    type V = VnetGroupView;

    open spec fn view(&self) -> VnetGroupView {
        VnetGroupView {
            vnet_name: self.vnet_name@,
            location: self.location@,
            subscription_id: self.subscription_id@,
            subscription_name: self.subscription_name@,
            vnet_cidr: self.vnet_cidr@,
            subnets: self.subnets@.map_values(|s: &Subnet| *s),
        }
    }
}

/// The VNet of a first subnet.
pub open spec fn group_of_first(s: Subnet) -> VnetGroupView {
    VnetGroupView {
        vnet_name: s.vnet_name@,
        location: s.location@,
        subscription_id: s.subscription_id@,
        subscription_name: s.subscription_name@,
        vnet_cidr: s.vnet_cidr@,
        subnets: seq![s],
    }
}

impl<'a> Vnet<'a> {
    /// A VNet holding one subnet.
    pub fn new(subnet: &'a Subnet) -> (r: Vnet<'a>)
        ensures
            r@ == group_of_first(*subnet),
    {
        let mut subnets: Vec<&'a Subnet> = Vec::new();
        subnets.push(subnet);
        let r = Vnet {
            vnet_name: subnet.vnet_name.as_str(),
            vnet_cidr: &subnet.vnet_cidr,
            location: subnet.location.as_str(),
            subscription_id: subnet.subscription_id.as_str(),
            subscription_name: subnet.subscription_name.as_str(),
            subnets,
        };
        assert(r@.subnets =~= seq![*subnet]);
        r
    }

    /// Adds a subnet to this VNet.
    pub fn add_subnet(&mut self, subnet: &'a Subnet)
        ensures
            final(self)@.subnets == old(self)@.subnets.push(*subnet),
            final(self)@.vnet_name == old(self)@.vnet_name,
            final(self)@.location == old(self)@.location,
            final(self)@.subscription_id == old(self)@.subscription_id,
            final(self)@.subscription_name == old(self)@.subscription_name,
            final(self)@.vnet_cidr == old(self)@.vnet_cidr,
    {
        let ghost before = self@;
        self.subnets.push(subnet);
        assert(self@.subnets =~= before.subnets.push(*subnet));
    }
}

/// VNets of the multi-CIDR cache format, keyed by VNet name and subscription
/// name, in order of first sight.
#[derive(Debug)]
pub struct VnetList<'a> {
    pub vnets: Vec<Vnet<'a>>,
}

/// The views of VNets.
pub open spec fn group_views(v: Seq<Vnet>) -> Seq<VnetGroupView> {
    v.map_values(|x: Vnet| x@)
}

/// Position of the VNet with this name and subscription, or -1.
pub open spec fn group_pos(v: Seq<VnetGroupView>, name: Seq<char>, sub: Seq<char>) -> int
    decreases v.len(),
{
    if v.len() == 0 {
        -1
    } else if group_pos(v.drop_last(), name, sub) >= 0 {
        group_pos(v.drop_last(), name, sub)
    } else if v.last().vnet_name == name && v.last().subscription_name == sub {
        v.len() - 1
    } else {
        -1
    }
}

proof fn lemma_group_pos(v: Seq<VnetGroupView>, name: Seq<char>, sub: Seq<char>)
    ensures
        -1 <= group_pos(v, name, sub) < v.len(),
        group_pos(v, name, sub) >= 0 ==> v[group_pos(v, name, sub)].vnet_name == name
            && v[group_pos(v, name, sub)].subscription_name == sub,
        forall|i: int|
            0 <= i < v.len() && (group_pos(v, name, sub) < 0 || i < group_pos(v, name, sub)) ==> !(
            #[trigger] v[i].vnet_name == name && v[i].subscription_name == sub),
    decreases v.len(),
{
    if v.len() > 0 {
        lemma_group_pos(v.drop_last(), name, sub);
        let p = group_pos(v, name, sub);
        assert forall|i: int|
            0 <= i < v.len() && (p < 0 || i < p) implies !(#[trigger] v[i].vnet_name == name && v[i].subscription_name
            == sub) by {
            if i < v.len() - 1 {
                assert(v.drop_last()[i] == v[i]);
            }
        }
    }
}

/// Position of the VNet with this name and subscription, if present.
fn find_group(v: &Vec<Vnet>, name: &str, sub: &str) -> (r: Option<usize>)
    ensures
        match r {
            Some(p) => p as int == group_pos(group_views(v@), name@, sub@),
            None => group_pos(group_views(v@), name@, sub@) < 0,
        },
{
    let ghost g = group_views(v@);
    proof {
        lemma_group_pos(g, name@, sub@);
    }
    let mut k: usize = 0;
    while k < v.len()
        invariant
            k <= v@.len() == g.len(),
            g == group_views(v@),
            -1 <= group_pos(g, name@, sub@) < g.len(),
            group_pos(g, name@, sub@) >= 0 ==> g[group_pos(g, name@, sub@)].vnet_name == name@
                && g[group_pos(g, name@, sub@)].subscription_name == sub@,
            forall|i: int|
                0 <= i < g.len() && (group_pos(g, name@, sub@) < 0 || i < group_pos(g, name@, sub@)) ==> !(
                #[trigger] g[i].vnet_name == name@ && g[i].subscription_name == sub@),
            forall|i: int| 0 <= i < k ==> !(#[trigger] g[i].vnet_name == name@ && g[i].subscription_name == sub@),
        decreases v@.len() - k,
    {
        if str_eq(v[k].vnet_name, name) && str_eq(v[k].subscription_name, sub) {
            assert(g[k as int].vnet_name == name@ && g[k as int].subscription_name == sub@);
            return Some(k);
        }
        k += 1;
    }
    None
}

/// The list with the VNet of `s` put in the place of its key, replacing a
/// VNet already there (a map insert).
pub open spec fn with_group(v: Seq<VnetGroupView>, s: Subnet) -> Seq<VnetGroupView> {
    let p = group_pos(v, s.vnet_name@, s.subscription_name@);
    if p >= 0 {
        v.update(p, group_of_first(s))
    } else {
        v.push(group_of_first(s))
    }
}

/// The list after `add_vnet` of each of the first `n` subnets in turn.
pub open spec fn imported(v: Seq<VnetGroupView>, s: Seq<Subnet>, n: int) -> Seq<VnetGroupView>
    decreases n,
{
    if n <= 0 {
        v
    } else {
        with_group(imported(v, s, n - 1), s[n - 1])
    }
}

/// The VNets of the first `n` subnet records, grouped by VNet name and
/// subscription name, in order of first sight; each takes its address
/// spaces, location and subscription ID from its first subnet.
pub open spec fn grouped_vnets(s: Seq<Subnet>, n: int) -> Seq<VnetGroupView>
    decreases n,
{
    if n <= 0 {
        Seq::empty()
    } else {
        let g = grouped_vnets(s, n - 1);
        let x = s[n - 1];
        let p = group_pos(g, x.vnet_name@, x.subscription_name@);
        if p >= 0 {
            g.update(p, VnetGroupView { subnets: g[p].subnets.push(x), ..g[p] })
        } else {
            g.push(group_of_first(x))
        }
    }
}

impl<'a> VnetList<'a> {
    /// An empty list.
    pub fn new() -> (r: VnetList<'a>)
        ensures
            r.vnets@.len() == 0,
    {
        VnetList { vnets: Vec::new() }
    }

    /// Puts a new VNet holding `subnet` under its key, replacing any VNet
    /// already there.
    pub fn add_vnet(&mut self, subnet: &'a Subnet)
        ensures
            group_views(final(self).vnets@) == with_group(group_views(old(self).vnets@), *subnet),
    {
        let ghost before = group_views(self.vnets@);
        proof {
            lemma_group_pos(before, subnet.vnet_name@, subnet.subscription_name@);
        }
        let fresh = Vnet::new(subnet);
        match find_group(&self.vnets, subnet.vnet_name.as_str(), subnet.subscription_name.as_str()) {
            Some(p) => {
                self.vnets.set(p, fresh);
                assert(group_views(self.vnets@) =~= with_group(before, *subnet));
            },
            None => {
                self.vnets.push(fresh);
                assert(group_views(self.vnets@) =~= with_group(before, *subnet));
            },
        }
    }

    /// Adds a VNet for each subnet record in turn (a later record of the
    /// same key replaces the VNet of an earlier one).
    pub fn import_from_subnets(&mut self, subnets: &'a Data)
        ensures
            group_views(final(self).vnets@) == imported(group_views(old(self).vnets@), subnets.data@, subnets.data@.len() as int),
    {
        let ghost start = group_views(self.vnets@);
        let mut k: usize = 0;
        while k < subnets.data.len()
            invariant
                k <= subnets.data@.len(),
                group_views(self.vnets@) == imported(start, subnets.data@, k as int),
            decreases subnets.data@.len() - k,
        {
            self.add_vnet(&subnets.data[k]);
            k += 1;
        }
    }
}

impl<'a> Default for VnetList<'a> {
    fn default() -> (r: VnetList<'a>)
        ensures
            r.vnets@.len() == 0,
    {
        VnetList::new()
    }
}

/// Groups the subnet records of the multi-CIDR format into their VNets.
pub fn get_vnets(data: &Data) -> (r: VnetList<'_>)
    ensures
        group_views(r.vnets@) == grouped_vnets(data.data@, data.data@.len() as int),
{
    let mut list = VnetList::new();
    let mut k: usize = 0;
    assert(group_views(list.vnets@) =~= grouped_vnets(data.data@, 0));
    while k < data.data.len()
        invariant
            k <= data.data@.len(),
            group_views(list.vnets@) == grouped_vnets(data.data@, k as int),
        decreases data.data@.len() - k,
    {
        let subnet = &data.data[k];
        let ghost g = group_views(list.vnets@);
        proof {
            lemma_group_pos(g, subnet.vnet_name@, subnet.subscription_name@);
        }
        match find_group(&list.vnets, subnet.vnet_name.as_str(), subnet.subscription_name.as_str()) {
            Some(p) => {
                let mut v = list.vnets.remove(p);
                v.add_subnet(subnet);
                list.vnets.insert(p, v);
                assert(group_views(list.vnets@) =~= grouped_vnets(data.data@, k + 1));
            },
            None => {
                list.vnets.push(Vnet::new(subnet));
                assert(group_views(list.vnets@) =~= grouped_vnets(data.data@, k + 1));
            },
        }
        k += 1;
    }
    list
}

} // verus!
