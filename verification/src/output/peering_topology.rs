//! Peering topology shared by the diagram writers: VNet metadata, fully
//! connected pairs, broken peerings and the islands of connected VNets.
use crate::azure::graph::Data;
use crate::azure::peering_graph::{last_nonempty, piece_after_subscriptions, PeeringEdge};
use crate::components::{adj_ok, component_index, components, find_components, ints, rows};
use crate::models::ipv4::cidr_text;
use crate::models::subnet::Subnet;
use crate::subnet_order::{lemma_text_lt_irrefl, lemma_text_lt_total, lemma_text_lt_trans, text_less, text_lt};
use crate::text::{
    alphanumeric, chars_of, has_prefix, is_alphanumeric, split_on, starts_with_chars, str_eq, string_from_chars,
    string_views,
};
use vstd::prelude::*;

verus! {

/// What the diagrams know of one VNet.
#[derive(Debug)]
pub struct VNetMeta {
    pub vnet_name: String,
    pub subscription_name: String,
    pub vnet_cidr: Vec<String>,
    /// The VNet has a subnet named `GatewaySubnet`.
    pub has_gateway: bool,
    /// The VNet has no subnet records and is no peering edge's source: it
    /// was only seen as the remote side of a peering edge.
    pub missing: bool,
}

/// A VNet's metadata as plain values.
pub struct MetaView {
    pub name: Seq<char>,
    pub subscription_name: Seq<char>,
    pub vnet_cidr: Seq<Seq<char>>,
    pub has_gateway: bool,
    pub missing: bool,
}

impl View for VNetMeta {
    type V = MetaView;

    open spec fn view(&self) -> MetaView {
        MetaView {
            name: self.vnet_name@,
            subscription_name: self.subscription_name@,
            vnet_cidr: string_views(self.vnet_cidr@),
            has_gateway: self.has_gateway,
            missing: self.missing,
        }
    }
}

/// The views of a sequence of metadata.
pub open spec fn meta_views(v: Seq<VNetMeta>) -> Seq<MetaView> {
    v.map_values(|m: VNetMeta| m@)
}

/// A peering that is not connected on both sides, drawn from `from` to
/// `to`.
#[derive(Debug)]
pub struct BrokenEdge {
    pub from: String,
    pub to: String,
}

/// The analysed peering topology.
#[derive(Debug)]
pub struct PeeringTopology {
    /// Metadata of every VNet, sorted by name.
    pub vnet_meta: Vec<VNetMeta>,
    /// Name pairs `(lo, hi)` connected on both sides.
    pub bidir_pairs: Vec<(String, String)>,
    /// Broken peerings, one per VNet pair.
    pub broken_edges: Vec<BrokenEdge>,
    /// The islands of VNets linked by fully connected peerings; each sorted.
    pub islands: Vec<Vec<String>>,
    /// For each entry of `vnet_meta`, the position of its island.
    pub island_id: Vec<usize>,
}

/// The topology as plain values.
pub struct TopologyView {
    pub metas: Seq<MetaView>,
    pub bidir: Seq<(Seq<char>, Seq<char>)>,
    pub broken: Seq<(Seq<char>, Seq<char>)>,
    pub islands: Seq<Seq<Seq<char>>>,
    pub island_id: Seq<int>,
}

impl View for PeeringTopology {
    type V = TopologyView;

    open spec fn view(&self) -> TopologyView {
        TopologyView {
            metas: meta_views(self.vnet_meta@),
            bidir: pair_views(self.bidir_pairs@),
            broken: broken_views(self.broken_edges@),
            islands: island_views(self.islands@),
            island_id: ints(self.island_id@),
        }
    }
}

/// Position of the first metadata entry named `name`, or -1.
pub open spec fn meta_pos(m: Seq<MetaView>, name: Seq<char>) -> int
    decreases m.len(),
{
    if m.len() == 0 {
        -1
    } else if meta_pos(m.drop_last(), name) >= 0 {
        meta_pos(m.drop_last(), name)
    } else if m.last().name == name {
        m.len() - 1
    } else {
        -1
    }
}

/// `m` with `x` added unless an entry of that name is already there (the
/// first entry for a name wins).
pub open spec fn with_meta(m: Seq<MetaView>, x: MetaView) -> Seq<MetaView> {
    if meta_pos(m, x.name) >= 0 {
        m
    } else {
        m.push(x)
    }
}

/// The entry of a VNet first seen in a subnet record.
pub open spec fn subnet_meta(s: Subnet) -> MetaView {
    MetaView {
        name: s.vnet_name@,
        subscription_name: s.subscription_name@,
        vnet_cidr: seq![cidr_text(s.vnet_cidr)],
        has_gateway: false,
        missing: false,
    }
}

/// `m` with the entry named `name` marked as a gateway VNet.
pub open spec fn gateway_marked(m: Seq<MetaView>, name: Seq<char>) -> Seq<MetaView> {
    m.map_values(
        |v: MetaView|
            if v.name == name {
                MetaView { has_gateway: true, ..v }
            } else {
                v
            },
    )
}

/// The VNet entries gathered from subnet records, in order of first sight.
pub open spec fn metas_of_subnets(s: Seq<Subnet>) -> Seq<MetaView>
    decreases s.len(),
{
    if s.len() == 0 {
        Seq::empty()
    } else {
        let m = with_meta(metas_of_subnets(s.drop_last()), subnet_meta(s.last()));
        if s.last().subnet_name@ == "GatewaySubnet"@ {
            gateway_marked(m, s.last().vnet_name@)
        } else {
            m
        }
    }
}

/// The remote VNet's name as the ARM ID of a peering edge gives it.
pub open spec fn arm_remote(e: PeeringEdge) -> Seq<char> {
    last_nonempty(split_on(e.remote_vnet_id@, '/'))
}

/// A VNet named `HV_...` is the internal fabric of a vWAN hub, not a peer.
pub open spec fn is_fabric(name: Seq<char>) -> bool {
    has_prefix(name, "HV_"@)
}

/// The peer VNet of an edge: its remote VNet, or empty text when there is
/// none or it is the fabric of a vWAN hub.
pub open spec fn remote_name(e: PeeringEdge) -> Seq<char> {
    if is_fabric(arm_remote(e)) {
        Seq::empty()
    } else {
        arm_remote(e)
    }
}

/// The peer VNet's name of an edge (empty for none or a vWAN fabric VNet).
pub fn peer_name(e: &PeeringEdge) -> (r: String)
    ensures
        r@ == remote_name(*e),
{
    let remote = e.remote_vnet_name();
    let cs = chars_of(remote.as_str());
    let hv = chars_of("HV_");
    if starts_with_chars(&cs, &hv) {
        String::new()
    } else {
        remote
    }
}

/// The remote subscription ID of a peering edge.
pub open spec fn remote_sub(e: PeeringEdge) -> Seq<char> {
    piece_after_subscriptions(split_on(e.remote_vnet_id@, '/'))
}

/// The peering state of an edge is `Connected`.
pub open spec fn connected(e: PeeringEdge) -> bool {
    e.peering_state@ == "Connected"@
}

/// The entry of a VNet first seen as the source of a peering edge: the
/// edge shows that the VNet exists, so it is not missing.
pub open spec fn source_meta(e: PeeringEdge) -> MetaView {
    MetaView {
        name: e.vnet_name@,
        subscription_name: e.subscription_name@,
        vnet_cidr: string_views(e.vnet_cidr@),
        has_gateway: false,
        missing: false,
    }
}

/// The entry of a VNet first seen as the remote side of a peering edge; the
/// remote subscription ID stands for its subscription name.
pub open spec fn target_meta(e: PeeringEdge) -> MetaView {
    MetaView {
        name: remote_name(e),
        subscription_name: remote_sub(e),
        vnet_cidr: Seq::empty(),
        has_gateway: false,
        missing: true,
    }
}

/// `m` with the VNets of the edges added, in order of first sight.
pub open spec fn metas_with_edges(m: Seq<MetaView>, e: Seq<PeeringEdge>) -> Seq<MetaView>
    decreases e.len(),
{
    if e.len() == 0 {
        m
    } else {
        let m1 = with_meta(metas_with_edges(m, e.drop_last()), source_meta(e.last()));
        if remote_name(e.last()).len() > 0 {
            with_meta(m1, target_meta(e.last()))
        } else {
            m1
        }
    }
}

/// All VNet entries: those of the subnet records, then those only seen in
/// peering edges.
pub open spec fn gathered_metas(s: Seq<Subnet>, e: Seq<PeeringEdge>) -> Seq<MetaView> {
    metas_with_edges(metas_of_subnets(s), e)
}

/// Names strictly increasing.
pub open spec fn names_sorted(m: Seq<MetaView>) -> bool {
    forall|i: int, j: int| 0 <= i < j < m.len() ==> text_lt(#[trigger] m[i].name, #[trigger] m[j].name)
}

/// No two entries share a name.
pub open spec fn names_distinct(m: Seq<MetaView>) -> bool {
    forall|i: int, j: int| 0 <= i < j < m.len() ==> (#[trigger] m[i]).name != (#[trigger] m[j]).name
}

/// `meta_pos` finds an entry with the name, or reports that there is none.
pub proof fn lemma_meta_pos(m: Seq<MetaView>, name: Seq<char>)
    ensures
        -1 <= meta_pos(m, name) < m.len(),
        meta_pos(m, name) >= 0 ==> m[meta_pos(m, name)].name == name,
        meta_pos(m, name) < 0 ==> forall|i: int| 0 <= i < m.len() ==> #[trigger] m[i].name != name,
    decreases m.len(),
{
    if m.len() > 0 {
        lemma_meta_pos(m.drop_last(), name);
        if meta_pos(m.drop_last(), name) < 0 {
            assert forall|i: int| 0 <= i < m.len() - 1 implies #[trigger] m[i].name != name by {
                assert(m.drop_last()[i] == m[i]);
            }
        }
    }
}

fn copy_strings(v: &Vec<String>) -> (r: Vec<String>)
    ensures
        string_views(r@) == string_views(v@),
{
    let mut r: Vec<String> = Vec::new();
    let mut k: usize = 0;
    while k < v.len()
        invariant
            k <= v@.len(),
            r@.len() == k,
            string_views(r@) == string_views(v@.subrange(0, k as int)),
        decreases v@.len() - k,
    {
        let ghost before = r@;
        let c = v[k].clone();
        r.push(c);
        proof {
            assert(r@ == before.push(v@[k as int]));
            assert forall|i: int| 0 <= i < r@.len() implies #[trigger] string_views(r@)[i] == string_views(v@.subrange(0, k + 1))[i] by {
                if i < k {
                    assert(string_views(before)[i] == string_views(v@.subrange(0, k as int))[i]);
                }
            }
            assert(string_views(r@) =~= string_views(v@.subrange(0, k + 1)));
        }
        k += 1;
    }
    assert(v@.subrange(0, v@.len() as int) =~= v@);
    r
}

/// Position of the entry named `name`, if any.
pub fn find_meta(m: &Vec<VNetMeta>, name: &str) -> (r: Option<usize>)
    ensures
        match r {
            Some(p) => p as int == meta_pos(meta_views(m@), name@),
            None => meta_pos(meta_views(m@), name@) < 0,
        },
{
    let ghost g = meta_views(m@);
    let mut k: usize = 0;
    while k < m.len()
        invariant
            k <= m@.len() == g.len(),
            g == meta_views(m@),
            forall|i: int| 0 <= i < k ==> #[trigger] g[i].name != name@,
        decreases m@.len() - k,
    {
        if str_eq(m[k].vnet_name.as_str(), name) {
            proof {
                lemma_meta_pos(g, name@);
                lemma_meta_pos_first(g, name@, k as int);
            }
            return Some(k);
        }
        k += 1;
    }
    proof {
        lemma_meta_pos(g, name@);
    }
    None
}

proof fn lemma_meta_pos_first(m: Seq<MetaView>, name: Seq<char>, k: int)
    requires
        0 <= k < m.len(),
        m[k].name == name,
        forall|i: int| 0 <= i < k ==> #[trigger] m[i].name != name,
    ensures
        meta_pos(m, name) == k,
    decreases m.len(),
{
    if k < m.len() - 1 {
        lemma_meta_pos_first(m.drop_last(), name, k);
    } else {
        lemma_meta_pos(m.drop_last(), name);
        if meta_pos(m.drop_last(), name) >= 0 {
            let p = meta_pos(m.drop_last(), name);
            assert(m.drop_last()[p] == m[p]);
        }
    }
}

/// Adds `x` unless an entry of that name is there; returns the entry's
/// position.
fn add_meta(m: &mut Vec<VNetMeta>, x: VNetMeta) -> (r: usize)
    requires
        names_distinct(meta_views(old(m)@)),
    ensures
        meta_views(final(m)@) == with_meta(meta_views(old(m)@), x@),
        names_distinct(meta_views(final(m)@)),
        r < final(m)@.len(),
        final(m)@[r as int].vnet_name@ == x.vnet_name@,
{
    match find_meta(m, x.vnet_name.as_str()) {
        Some(p) => {
            proof {
                lemma_meta_pos(meta_views(m@), x.vnet_name@);
            }
            p
        },
        None => {
            proof {
                lemma_meta_pos(meta_views(m@), x.vnet_name@);
            }
            let ghost before = meta_views(m@);
            m.push(x);
            assert(meta_views(m@) =~= before.push(x@));
            m.len() - 1
        },
    }
}

/// Builds the metadata entry of a subnet record.
fn meta_of_subnet(s: &Subnet) -> (r: VNetMeta)
    ensures
        r@ == subnet_meta(*s),
{
    let mut cidrs: Vec<String> = Vec::new();
    cidrs.push(s.vnet_cidr.to_string());
    let r = VNetMeta {
        vnet_name: s.vnet_name.clone(),
        subscription_name: s.subscription_name.clone(),
        vnet_cidr: cidrs,
        has_gateway: false,
        missing: false,
    };
    assert(r@.vnet_cidr =~= seq![cidr_text(s.vnet_cidr)]);
    r
}

/// Gathers the VNet entries of the subnet records and the peering edges,
/// in order of first sight.
fn gather_metas(edges: &[PeeringEdge], subnets: &Data) -> (r: Vec<VNetMeta>)
    ensures
        meta_views(r@) == gathered_metas(subnets.data@, edges@),
        names_distinct(meta_views(r@)),
{
    let mut m: Vec<VNetMeta> = Vec::new();
    let mut k: usize = 0;
    let ghost s = subnets.data@;
    while k < subnets.data.len()
        invariant
            k <= s.len(),
            s == subnets.data@,
            meta_views(m@) == metas_of_subnets(s.subrange(0, k as int)),
            names_distinct(meta_views(m@)),
        decreases s.len() - k,
    {
        let sub = &subnets.data[k];
        let p = add_meta(&mut m, meta_of_subnet(sub));
        proof {
            let t = s.subrange(0, k + 1);
            assert(t.drop_last() =~= s.subrange(0, k as int));
            assert(t.last() == s[k as int]);
        }
        if str_eq(sub.subnet_name.as_str(), "GatewaySubnet") {
            let ghost before = meta_views(m@);
            let mut entry = m.remove(p);
            entry.has_gateway = true;
            m.insert(p, entry);
            proof {
                assert forall|i: int| 0 <= i < before.len() && i != p implies #[trigger] before[i].name != sub.vnet_name@ by {
                    if i < p {
                        assert(before[i].name != before[p as int].name);
                    } else {
                        assert(before[p as int].name != before[i].name);
                    }
                }
                assert(meta_views(m@) =~= gateway_marked(before, sub.vnet_name@));
            }
        }
        k += 1;
    }
    assert(s.subrange(0, s.len() as int) =~= s);
    let ghost base = meta_views(m@);
    let mut k: usize = 0;
    while k < edges.len()
        invariant
            k <= edges@.len(),
            base == metas_of_subnets(s),
            meta_views(m@) == metas_with_edges(base, edges@.subrange(0, k as int)),
            names_distinct(meta_views(m@)),
        decreases edges@.len() - k,
    {
        let e = &edges[k];
        let src = VNetMeta {
            vnet_name: e.vnet_name.clone(),
            subscription_name: e.subscription_name.clone(),
            vnet_cidr: copy_strings(&e.vnet_cidr),
            has_gateway: false,
            missing: false,
        };
        add_meta(&mut m, src);
        let remote = peer_name(e);
        if chars_of(remote.as_str()).len() > 0 {
            let tgt = VNetMeta {
                vnet_name: remote,
                subscription_name: e.remote_subscription_id(),
                vnet_cidr: Vec::new(),
                has_gateway: false,
                missing: true,
            };
            assert(tgt@.vnet_cidr =~= Seq::<Seq<char>>::empty());
            add_meta(&mut m, tgt);
        }
        proof {
            let t = edges@.subrange(0, k + 1);
            assert(t.drop_last() =~= edges@.subrange(0, k as int));
            assert(t.last() == edges@[k as int]);
        }
        k += 1;
    }
    assert(edges@.subrange(0, edges@.len() as int) =~= edges@);
    m
}

/// Where insertion by name puts `x` into `s`: before the first entry whose
/// name is not below `x`'s.
pub open spec fn name_pos(s: Seq<MetaView>, x: MetaView) -> nat
    decreases s.len(),
{
    if s.len() == 0 || !text_lt(s[0].name, x.name) {
        0
    } else {
        1 + name_pos(s.drop_first(), x)
    }
}

/// The entries sorted by name (insertion sort).
pub open spec fn by_name(s: Seq<MetaView>) -> Seq<MetaView>
    decreases s.len(),
{
    if s.len() == 0 {
        s
    } else {
        let t = by_name(s.drop_first());
        t.insert(name_pos(t, s[0]) as int, s[0])
    }
}

proof fn lemma_name_pos(t: Seq<MetaView>, x: MetaView, p: int)
    requires
        0 <= p <= t.len(),
        forall|q: int| 0 <= q < p ==> #[trigger] text_lt(t[q].name, x.name),
        p < t.len() ==> !text_lt(t[p].name, x.name),
    ensures
        name_pos(t, x) == p,
    decreases t.len(),
{
    if p > 0 {
        let u = t.drop_first();
        assert forall|q: int| 0 <= q < p - 1 implies #[trigger] text_lt(u[q].name, x.name) by {
            assert(u[q] == t[q + 1]);
        }
        if p - 1 < u.len() {
            assert(u[p - 1] == t[p]);
        }
        lemma_name_pos(u, x, p - 1);
    }
}

proof fn lemma_name_pos_bound(t: Seq<MetaView>, x: MetaView)
    ensures
        name_pos(t, x) <= t.len(),
        forall|q: int| 0 <= q < name_pos(t, x) ==> #[trigger] text_lt(t[q].name, x.name),
        name_pos(t, x) < t.len() ==> !text_lt(t[name_pos(t, x) as int].name, x.name),
    decreases t.len(),
{
    if t.len() > 0 && text_lt(t[0].name, x.name) {
        let u = t.drop_first();
        lemma_name_pos_bound(u, x);
        assert forall|q: int| 0 <= q < name_pos(t, x) implies #[trigger] text_lt(t[q].name, x.name) by {
            if q > 0 {
                assert(t[q] == u[q - 1]);
            }
        }
        if name_pos(t, x) < t.len() {
            assert(t[name_pos(t, x) as int] == u[name_pos(u, x) as int]);
        }
    }
}

/// Law: sorting entries with distinct names by name gives a permutation of
/// them with strictly increasing names.
pub proof fn lemma_by_name(s: Seq<MetaView>)
    requires
        names_distinct(s),
    ensures
        by_name(s).to_multiset() == s.to_multiset(),
        by_name(s).len() == s.len(),
        names_sorted(by_name(s)),
    decreases s.len(),
{
    broadcast use vstd::seq_lib::group_to_multiset_ensures;
    broadcast use vstd::multiset::group_multiset_axioms;
    if s.len() > 0 {
        let rest = s.drop_first();
        assert forall|i: int, j: int| 0 <= i < j < rest.len() implies (#[trigger] rest[i]).name != (#[trigger] rest[j]).name by {
            assert(rest[i] == s[i + 1] && rest[j] == s[j + 1]);
        }
        lemma_by_name(rest);
        let t = by_name(rest);
        let x = s[0];
        let p = name_pos(t, x) as int;
        lemma_name_pos_bound(t, x);
        let u = t.insert(p, x);
        vstd::seq_lib::to_multiset_insert(t, p, x);
        assert(s.to_multiset() =~= rest.to_multiset().insert(x)) by {
            assert(s == rest.insert(0, x));
            vstd::seq_lib::to_multiset_insert(rest, 0, x);
        }
        t.insert_ensures(p, x);
        assert forall|q: int| 0 <= q < t.len() implies (#[trigger] t[q]).name != x.name by {
            assert(t.to_multiset().count(t[q]) > 0);
            assert(rest.to_multiset().count(t[q]) > 0);
            let r = choose|r: int| 0 <= r < rest.len() && rest[r] == t[q];
            assert(rest[r] == s[r + 1]);
            assert(s[0].name != s[r + 1].name);
        }
        assert forall|i: int, j: int| 0 <= i < j < u.len() implies text_lt(#[trigger] u[i].name, #[trigger] u[j].name) by {
            if j < p {
                assert(u[i] == t[i] && u[j] == t[j]);
            } else if j == p {
                assert(u[i] == t[i]);
            } else if i == p {
                assert(u[j] == t[j - 1]);
                lemma_text_lt_total(t[p].name, x.name);
                if j - 1 > p {
                    lemma_text_lt_trans(x.name, t[p].name, t[j - 1].name);
                }
            } else if i < p {
                assert(u[i] == t[i] && u[j] == t[j - 1]);
            } else {
                assert(u[i] == t[i - 1] && u[j] == t[j - 1]);
            }
        }
    }
}

/// Sorts the entries by name.
fn sort_by_name(v: Vec<VNetMeta>) -> (r: Vec<VNetMeta>)
    ensures
        meta_views(r@) == by_name(meta_views(v@)),
{
    let ghost s = meta_views(v@);
    let mut src = v;
    let mut out: Vec<VNetMeta> = Vec::new();
    assert(s.subrange(s.len() as int, s.len() as int) =~= Seq::<MetaView>::empty());
    assert(meta_views(out@) =~= by_name(s.subrange(s.len() as int, s.len() as int)));
    while src.len() > 0
        invariant
            src@.len() <= s.len(),
            meta_views(src@) == s.subrange(0, src@.len() as int),
            meta_views(out@) == by_name(s.subrange(src@.len() as int, s.len() as int)),
        decreases src@.len(),
    {
        let ghost k = src@.len() - 1;
        let ghost before_src = src@;
        let x = src.pop().unwrap();
        assert(src@ == before_src.drop_last());
        assert(x@ == s[k]) by {
            assert(meta_views(before_src)[k] == s.subrange(0, k + 1)[k]);
        }
        let mut p: usize = 0;
        while p < out.len() && text_less(out[p].vnet_name.as_str(), x.vnet_name.as_str())
            invariant
                p <= out@.len(),
                forall|q: int| 0 <= q < p ==> #[trigger] text_lt(meta_views(out@)[q].name, x@.name),
            decreases out@.len() - p,
        {
            p += 1;
        }
        let ghost t = meta_views(out@);
        proof {
            lemma_name_pos(t, x@, p as int);
            let whole = s.subrange(k, s.len() as int);
            assert(whole.drop_first() =~= s.subrange(k + 1, s.len() as int));
            assert(whole[0] == x@);
        }
        out.insert(p, x);
        assert(meta_views(out@) =~= t.insert(p as int, x@));
        assert(meta_views(src@) =~= s.subrange(0, src@.len() as int)) by {
            assert forall|i: int| 0 <= i < src@.len() implies #[trigger] meta_views(src@)[i] == s.subrange(0, src@.len() as int)[i] by {
                assert(meta_views(before_src)[i] == s.subrange(0, k + 1)[i]);
            }
        }
    }
    assert(s.subrange(0, s.len() as int) =~= s);
    out
}

/// `(a, b)` ordered so that the first is not above the second.
pub open spec fn canon(a: Seq<char>, b: Seq<char>) -> (Seq<char>, Seq<char>) {
    if text_lt(b, a) {
        (b, a)
    } else {
        (a, b)
    }
}

/// The pair of names in order, for de-duplication.
pub fn canonical_pair(a: &str, b: &str) -> (r: (String, String))
    ensures
        (r.0@, r.1@) == canon(a@, b@),
{
    if text_less(b, a) {
        (b.to_owned(), a.to_owned())
    } else {
        (a.to_owned(), b.to_owned())
    }
}

proof fn lemma_canon_symmetric(a: Seq<char>, b: Seq<char>)
    ensures
        canon(a, b) == canon(b, a),
        canon(canon(a, b).0, canon(a, b).1) == canon(a, b),
        canon(a, b) == (a, b) || canon(a, b) == (b, a),
{
    lemma_text_lt_total(a, b);
    lemma_text_lt_irrefl(a);
    if text_lt(a, b) && text_lt(b, a) {
        lemma_text_lt_trans(a, b, a);
    }
}

/// The pair of VNets a peering edge joins.
pub open spec fn edge_pair(e: PeeringEdge) -> (Seq<char>, Seq<char>) {
    canon(e.vnet_name@, remote_name(e))
}

/// A connected edge with a remote VNet, joining the pair `p`.
pub open spec fn counts_for(e: PeeringEdge, p: (Seq<char>, Seq<char>)) -> bool {
    connected(e) && remote_name(e).len() > 0 && edge_pair(e) == p
}

/// Some connected edge runs from VNet `x` to VNet `y`.
pub open spec fn conn_dir(e: Seq<PeeringEdge>, x: Seq<char>, y: Seq<char>) -> bool {
    exists|i: int| 0 <= i < e.len() && connected(#[trigger] e[i]) && e[i].vnet_name@ == x && remote_name(e[i]) == y
}

/// The pair is connected from both sides: a connected edge runs each way.
pub open spec fn fully_connected(e: Seq<PeeringEdge>, p: (Seq<char>, Seq<char>)) -> bool {
    conn_dir(e, p.0, p.1) && conn_dir(e, p.1, p.0)
}

/// The fully connected pairs among the first `n` edges of `all`, in order
/// of first sight.
pub open spec fn bidir_list(all: Seq<PeeringEdge>, n: int) -> Seq<(Seq<char>, Seq<char>)>
    decreases n,
{
    if n <= 0 {
        Seq::empty()
    } else {
        let pre = bidir_list(all, n - 1);
        let e = all[n - 1];
        if connected(e) && remote_name(e).len() > 0 && fully_connected(all, edge_pair(e)) && !pre.contains(
            edge_pair(e),
        ) {
            pre.push(edge_pair(e))
        } else {
            pre
        }
    }
}

/// The views of name pairs.
pub open spec fn pair_views(v: Seq<(String, String)>) -> Seq<(Seq<char>, Seq<char>)> {
    v.map_values(|p: (String, String)| (p.0@, p.1@))
}

/// Some edge before position `i` with a remote VNet joins the same pair as
/// edge `i`.
pub open spec fn pair_seen_before(all: Seq<PeeringEdge>, i: int) -> bool {
    exists|j: int| 0 <= j < i && remote_name(#[trigger] all[j]).len() > 0 && edge_pair(all[j]) == edge_pair(all[i])
}

/// The remote VNet has a connected edge back to the source of `e`.
pub open spec fn answered(all: Seq<PeeringEdge>, e: PeeringEdge) -> bool {
    exists|j: int|
        0 <= j < all.len() && (#[trigger] all[j]).vnet_name@ == remote_name(e) && remote_name(all[j]) == e.vnet_name@
            && connected(all[j])
}

/// The direction a broken peering is drawn in: from the connected side.
pub open spec fn broken_direction(all: Seq<PeeringEdge>, e: PeeringEdge) -> (Seq<char>, Seq<char>) {
    if answered(all, e) && !connected(e) {
        (remote_name(e), e.vnet_name@)
    } else {
        (e.vnet_name@, remote_name(e))
    }
}

/// Edge `i` is the first edge of a pair that is not fully connected.
pub open spec fn starts_broken(all: Seq<PeeringEdge>, i: int) -> bool {
    remote_name(all[i]).len() > 0 && !fully_connected(all, edge_pair(all[i])) && !pair_seen_before(all, i)
}

/// The broken peerings among the first `n` edges of `all`: one per pair
/// that is not fully connected, at its first edge.
pub open spec fn broken_list(all: Seq<PeeringEdge>, n: int) -> Seq<(Seq<char>, Seq<char>)>
    decreases n,
{
    if n <= 0 {
        Seq::empty()
    } else if starts_broken(all, n - 1) {
        broken_list(all, n - 1).push(broken_direction(all, all[n - 1]))
    } else {
        broken_list(all, n - 1)
    }
}

/// The views of broken edges.
pub open spec fn broken_views(v: Seq<BrokenEdge>) -> Seq<(Seq<char>, Seq<char>)> {
    v.map_values(|b: BrokenEdge| (b.from@, b.to@))
}

/// The pair joined by an edge with a remote VNet.
fn pair_of_edge(e: &PeeringEdge) -> (r: Option<(String, String)>)
    ensures
        match r {
            Some(p) => remote_name(*e).len() > 0 && (p.0@, p.1@) == edge_pair(*e),
            None => remote_name(*e).len() == 0,
        },
{
    let remote = peer_name(e);
    if chars_of(remote.as_str()).len() > 0 {
        Some(canonical_pair(e.vnet_name.as_str(), remote.as_str()))
    } else {
        None
    }
}

fn same_pair(a: &(String, String), b: &(String, String)) -> (r: bool)
    ensures
        r == ((a.0@, a.1@) == (b.0@, b.1@)),
{
    str_eq(a.0.as_str(), b.0.as_str()) && str_eq(a.1.as_str(), b.1.as_str())
}

/// Whether some connected edge runs from VNet `x` to VNet `y`.
fn has_connected(edges: &[PeeringEdge], x: &str, y: &str) -> (r: bool)
    ensures
        r == conn_dir(edges@, x@, y@),
{
    let mut k: usize = 0;
    while k < edges.len()
        invariant
            k <= edges@.len(),
            forall|j: int|
                0 <= j < k ==> !(connected(#[trigger] edges@[j]) && edges@[j].vnet_name@ == x@ && remote_name(edges@[j])
                    == y@),
        decreases edges@.len() - k,
    {
        let f = &edges[k];
        if f.is_connected() && str_eq(f.vnet_name.as_str(), x) {
            let back = peer_name(f);
            if str_eq(back.as_str(), y) {
                return true;
            }
        }
        k += 1;
    }
    false
}

/// Whether a connected edge runs each way between the two VNets of `p`.
fn pair_fully_connected(edges: &[PeeringEdge], p: &(String, String)) -> (r: bool)
    ensures
        r == fully_connected(edges@, (p.0@, p.1@)),
{
    has_connected(edges, p.0.as_str(), p.1.as_str()) && has_connected(edges, p.1.as_str(), p.0.as_str())
}

fn contains_pair(v: &Vec<(String, String)>, p: &(String, String)) -> (r: bool)
    ensures
        r == pair_views(v@).contains((p.0@, p.1@)),
{
    let mut k: usize = 0;
    while k < v.len()
        invariant
            k <= v@.len(),
            forall|i: int| 0 <= i < k ==> pair_views(v@)[i] != (p.0@, p.1@),
        decreases v@.len() - k,
    {
        if same_pair(&v[k], p) {
            assert(pair_views(v@)[k as int] == (p.0@, p.1@));
            return true;
        }
        k += 1;
    }
    false
}

/// The fully connected pairs, in order of first sight.
fn find_bidir_pairs(edges: &[PeeringEdge]) -> (r: Vec<(String, String)>)
    ensures
        pair_views(r@) == bidir_list(edges@, edges@.len() as int),
{
    let mut out: Vec<(String, String)> = Vec::new();
    let mut k: usize = 0;
    while k < edges.len()
        invariant
            k <= edges@.len(),
            pair_views(out@) == bidir_list(edges@, k as int),
        decreases edges@.len() - k,
    {
        let e = &edges[k];
        if e.is_connected() {
            if let Some(p) = pair_of_edge(e) {
                if !contains_pair(&out, &p) && pair_fully_connected(edges, &p) {
                    let ghost before = out@;
                    out.push(p);
                    assert(pair_views(out@) =~= pair_views(before).push(edge_pair(edges@[k as int])));
                }
            }
        }
        k += 1;
    }
    out
}

/// Whether the remote VNet of `e` has a connected edge back to its source.
fn answered_exec(edges: &[PeeringEdge], e: &PeeringEdge, remote: &String) -> (r: bool)
    requires
        remote@ == remote_name(*e),
    ensures
        r == answered(edges@, *e),
{
    let mut k: usize = 0;
    while k < edges.len()
        invariant
            k <= edges@.len(),
            remote@ == remote_name(*e),
            forall|j: int|
                0 <= j < k ==> !((#[trigger] edges@[j]).vnet_name@ == remote_name(*e) && remote_name(edges@[j])
                    == e.vnet_name@ && connected(edges@[j])),
        decreases edges@.len() - k,
    {
        let f = &edges[k];
        if str_eq(f.vnet_name.as_str(), remote.as_str()) && f.is_connected() {
            let back = peer_name(f);
            if str_eq(back.as_str(), e.vnet_name.as_str()) {
                return true;
            }
        }
        k += 1;
    }
    false
}

/// Whether an edge before position `i` with a remote VNet joins pair `p`.
fn seen_before(edges: &[PeeringEdge], i: usize, p: &(String, String)) -> (r: bool)
    requires
        i < edges@.len(),
        (p.0@, p.1@) == edge_pair(edges@[i as int]),
    ensures
        r == pair_seen_before(edges@, i as int),
{
    let mut k: usize = 0;
    while k < i
        invariant
            k <= i < edges@.len(),
            (p.0@, p.1@) == edge_pair(edges@[i as int]),
            forall|j: int|
                0 <= j < k ==> !(remote_name(#[trigger] edges@[j]).len() > 0 && edge_pair(edges@[j]) == edge_pair(
                    edges@[i as int],
                )),
        decreases i - k,
    {
        if let Some(q) = pair_of_edge(&edges[k]) {
            if same_pair(&q, p) {
                return true;
            }
        }
        k += 1;
    }
    false
}

/// The broken peerings, one per pair, drawn from the connected side.
fn find_broken_edges(edges: &[PeeringEdge]) -> (r: Vec<BrokenEdge>)
    ensures
        broken_views(r@) == broken_list(edges@, edges@.len() as int),
{
    let mut out: Vec<BrokenEdge> = Vec::new();
    let mut k: usize = 0;
    while k < edges.len()
        invariant
            k <= edges@.len(),
            broken_views(out@) == broken_list(edges@, k as int),
        decreases edges@.len() - k,
    {
        let e = &edges[k];
        let remote = peer_name(e);
        if chars_of(remote.as_str()).len() > 0 {
            let p = canonical_pair(e.vnet_name.as_str(), remote.as_str());
            if !pair_fully_connected(edges, &p) && !seen_before(edges, k, &p) {
                let back = answered_exec(edges, e, &remote);
                let b = if back && !e.is_connected() {
                    BrokenEdge { from: remote, to: e.vnet_name.clone() }
                } else {
                    BrokenEdge { from: e.vnet_name.clone(), to: remote }
                };
                let ghost before = out@;
                out.push(b);
                assert(broken_views(out@) =~= broken_views(before).push(broken_direction(edges@, edges@[k as int])));
            }
        }
        k += 1;
    }
    out
}

/// The names of the entries.
pub open spec fn meta_names(m: Seq<MetaView>) -> Seq<Seq<char>> {
    m.map_values(|v: MetaView| v.name)
}

/// The graph on `names` that joins two names when their pair is one of
/// `pairs`.
pub open spec fn pair_adj(names: Seq<Seq<char>>, pairs: Seq<(Seq<char>, Seq<char>)>) -> Seq<Seq<bool>> {
    Seq::new(names.len(), |i: int| Seq::new(names.len(), |j: int| pairs.contains(canon(names[i], names[j]))))
}

/// The names in each component of the graph.
pub open spec fn component_names(names: Seq<Seq<char>>, g: Seq<Seq<bool>>) -> Seq<Seq<Seq<char>>> {
    components(g).map_values(|c: Seq<int>| c.map_values(|k: int| names[k]))
}

/// The views of the islands.
pub open spec fn island_views(v: Seq<Vec<String>>) -> Seq<Seq<Seq<char>>> {
    v.map_values(|w: Vec<String>| string_views(w@))
}

/// The VNet entries of the topology: all gathered entries, sorted by name.
pub open spec fn topology_metas(e: Seq<PeeringEdge>, s: Seq<Subnet>) -> Seq<MetaView> {
    by_name(gathered_metas(s, e))
}

/// The graph of fully connected peerings between the topology's VNets, in
/// the order of `topology_metas`.
pub open spec fn topology_graph(e: Seq<PeeringEdge>, s: Seq<Subnet>) -> Seq<Seq<bool>> {
    pair_adj(meta_names(topology_metas(e, s)), bidir_list(e, e.len() as int))
}

/// No name occurs twice.
pub open spec fn distinct_texts(v: Seq<Seq<char>>) -> bool {
    forall|i: int, j: int| 0 <= i < v.len() && 0 <= j < v.len() && i != j ==> v[i] != v[j]
}

/// Position of `x` among `names`, if present.
fn name_position(names: &Vec<String>, x: &String) -> (r: Option<usize>)
    ensures
        match r {
            Some(p) => p < names@.len() && names@[p as int]@ == x@,
            None => forall|i: int| 0 <= i < names@.len() ==> (#[trigger] names@[i])@ != x@,
        },
{
    let mut k: usize = 0;
    while k < names.len()
        invariant
            k <= names@.len(),
            forall|i: int| 0 <= i < k ==> (#[trigger] names@[i])@ != x@,
        decreases names@.len() - k,
    {
        if str_eq(names[k].as_str(), x.as_str()) {
            return Some(k);
        }
        k += 1;
    }
    None
}

fn set_cell(adj: &mut Vec<Vec<bool>>, i: usize, j: usize)
    requires
        i < old(adj)@.len(),
        j < old(adj)@[i as int]@.len(),
    ensures
        final(adj)@.len() == old(adj)@.len(),
        forall|a: int| 0 <= a < old(adj)@.len() && a != i ==> #[trigger] final(adj)@[a]@ == old(adj)@[a]@,
        final(adj)@[i as int]@ == old(adj)@[i as int]@.update(j as int, true),
{
    let mut row = adj.remove(i);
    row.set(j, true);
    adj.insert(i, row);
}

/// The adjacency matrix of `pair_adj`.
fn pair_adjacency(names: &Vec<String>, pairs: &Vec<(String, String)>) -> (adj: Vec<Vec<bool>>)
    requires
        distinct_texts(string_views(names@)),
        forall|q: int| 0 <= q < pairs@.len() ==> canon(#[trigger] pair_views(pairs@)[q].0, pair_views(pairs@)[q].1) == pair_views(pairs@)[q],
    ensures
        rows(adj@) == pair_adj(string_views(names@), pair_views(pairs@)),
{
    let ghost ns = string_views(names@);
    let ghost ps = pair_views(pairs@);
    let n = names.len();
    let mut adj: Vec<Vec<bool>> = Vec::new();
    let mut i: usize = 0;
    while i < n
        invariant
            i <= n == names@.len(),
            adj@.len() == i,
            forall|a: int| 0 <= a < i ==> (#[trigger] adj@[a])@ == Seq::new(n as nat, |j: int| false),
        decreases n - i,
    {
        let mut row: Vec<bool> = Vec::new();
        let mut j: usize = 0;
        while j < n
            invariant
                j <= n,
                row@ == Seq::new(j as nat, |q: int| false),
            decreases n - j,
        {
            row.push(false);
            assert(row@ =~= Seq::new((j + 1) as nat, |q: int| false));
            j += 1;
        }
        adj.push(row);
        i += 1;
    }
    let mut k: usize = 0;
    while k < pairs.len()
        invariant
            k <= pairs@.len(),
            n == names@.len() == ns.len(),
            ns == string_views(names@),
            ps == pair_views(pairs@),
            distinct_texts(ns),
            forall|q: int| 0 <= q < pairs@.len() ==> canon(#[trigger] ps[q].0, ps[q].1) == ps[q],
            adj@.len() == n,
            forall|a: int| 0 <= a < n ==> (#[trigger] adj@[a])@.len() == n,
            forall|a: int, b: int|
                0 <= a < n && 0 <= b < n ==> #[trigger] adj@[a]@[b] == ps.subrange(0, k as int).contains(
                    canon(ns[a], ns[b]),
                ),
        decreases pairs@.len() - k,
    {
        let ghost pk = ps[k as int];
        let ia = name_position(names, &pairs[k].0);
        let ib = name_position(names, &pairs[k].1);
        let ghost before = adj@;
        match (ia, ib) {
            (Some(a), Some(b)) => {
                set_cell(&mut adj, a, b);
                let ghost mid = adj@;
                assert(mid[b as int]@.len() == n);
                set_cell(&mut adj, b, a);
            },
            _ => {},
        }
        proof {
            assert forall|a: int, b: int| 0 <= a < n && 0 <= b < n implies #[trigger] adj@[a]@[b] == ps.subrange(
                0,
                k + 1,
            ).contains(canon(ns[a], ns[b])) by {
                let c = canon(ns[a], ns[b]);
                lemma_canon_symmetric(ns[a], ns[b]);
                lemma_canon_symmetric(pk.0, pk.1);
                assert(ps.subrange(0, k + 1) =~= ps.subrange(0, k as int).push(pk));
                assert(ps.subrange(0, k + 1).contains(c) == (ps.subrange(0, k as int).contains(c) || c == pk)) by {
                    if ps.subrange(0, k as int).contains(c) {
                        let w = choose|w: int| 0 <= w < k && ps.subrange(0, k as int)[w] == c;
                        assert(ps.subrange(0, k + 1)[w] == c);
                    }
                    if c == pk {
                        assert(ps.subrange(0, k + 1)[k as int] == c);
                    }
                }
                assert(ns[a] == names@[a]@ && ns[b] == names@[b]@);
                match (ia, ib) {
                    (Some(x), Some(y)) => {
                        assert(ns[x as int] == pk.0 && ns[y as int] == pk.1);
                        if c == pk {
                            if (ns[a], ns[b]) == pk {
                                assert(a == x as int);
                                assert(b == y as int);
                            } else {
                                assert(a == y as int);
                                assert(b == x as int);
                            }
                        }
                        if (a == x as int && b == y as int) {
                            assert(c == canon(pk.0, pk.1));
                        }
                        if (a == y as int && b == x as int) {
                            lemma_canon_symmetric(pk.1, pk.0);
                            assert(c == canon(pk.1, pk.0));
                        }
                    },
                    _ => {
                        if c == pk {
                            assert((ns[a], ns[b]) == pk || (ns[b], ns[a]) == pk);
                            assert(names@[a]@ == ns[a] && names@[b]@ == ns[b]);
                        }
                    },
                }
            }
        }
        k += 1;
    }
    proof {
        assert(ps.subrange(0, pairs@.len() as int) =~= ps);
        let want = pair_adj(ns, ps);
        assert forall|a: int| 0 <= a < n implies #[trigger] rows(adj@)[a] == want[a] by {
            assert(rows(adj@)[a] =~= want[a]);
        }
        assert(rows(adj@) =~= want);
    }
    adj
}

proof fn lemma_bidir_canonical(all: Seq<PeeringEdge>, n: int)
    ensures
        forall|q: int| 0 <= q < bidir_list(all, n).len() ==> canon(#[trigger] bidir_list(all, n)[q].0, bidir_list(all, n)[q].1) == bidir_list(all, n)[q],
    decreases n,
{
    if n > 0 {
        lemma_bidir_canonical(all, n - 1);
        let e = all[n - 1];
        lemma_canon_symmetric(e.vnet_name@, remote_name(e));
        let pre = bidir_list(all, n - 1);
        let cur = bidir_list(all, n);
        assert forall|q: int| 0 <= q < cur.len() implies canon(#[trigger] cur[q].0, cur[q].1) == cur[q] by {
            if q < pre.len() {
                assert(cur[q] == pre[q]);
            }
        }
    }
}

proof fn lemma_pair_adj_ok(names: Seq<Seq<char>>, pairs: Seq<(Seq<char>, Seq<char>)>)
    ensures
        adj_ok(pair_adj(names, pairs)),
{
    let g = pair_adj(names, pairs);
    assert forall|i: int, j: int| 0 <= i < g.len() && 0 <= j < g.len() implies #[trigger] g[i][j] == g[j][i] by {
        lemma_canon_symmetric(names[i], names[j]);
    }
}

/// The topology that `build_topology` gives for these edges and subnet
/// records.
pub open spec fn topology_of(e: Seq<PeeringEdge>, s: Seq<Subnet>) -> TopologyView {
    let g = topology_graph(e, s);
    TopologyView {
        metas: topology_metas(e, s),
        bidir: bidir_list(e, e.len() as int),
        broken: broken_list(e, e.len() as int),
        islands: component_names(meta_names(topology_metas(e, s)), g),
        island_id: Seq::new(g.len(), |k: int| component_index(g, k)),
    }
}

/// Analyses the peerings and subnet records: VNet metadata sorted by name,
/// the fully connected pairs, the broken peerings, and the islands of VNets
/// joined by fully connected peerings (each island sorted by name, islands
/// ordered by their first name).
pub fn build_topology(edges: &[PeeringEdge], subnets: &Data) -> (r: PeeringTopology)
    ensures
        meta_views(r.vnet_meta@) == topology_metas(edges@, subnets.data@),
        pair_views(r.bidir_pairs@) == bidir_list(edges@, edges@.len() as int),
        broken_views(r.broken_edges@) == broken_list(edges@, edges@.len() as int),
        island_views(r.islands@) == component_names(
            meta_names(topology_metas(edges@, subnets.data@)),
            topology_graph(edges@, subnets.data@),
        ),
        r.island_id@.len() == r.vnet_meta@.len(),
        forall|k: int|
            0 <= k < r.island_id@.len() ==> #[trigger] r.island_id@[k] as int == component_index(
                topology_graph(edges@, subnets.data@),
                k,
            ),
        r@ == topology_of(edges@, subnets.data@),
{
    let gathered = gather_metas(edges, subnets);
    let metas = sort_by_name(gathered);
    let ghost ms = meta_views(metas@);
    proof {
        lemma_by_name(meta_views(gathered@));
    }
    let mut names: Vec<String> = Vec::new();
    let mut k: usize = 0;
    while k < metas.len()
        invariant
            k <= metas@.len() == ms.len(),
            ms == meta_views(metas@),
            names@.len() == k,
            forall|i: int| 0 <= i < k ==> (#[trigger] names@[i])@ == ms[i].name,
        decreases metas@.len() - k,
    {
        names.push(metas[k].vnet_name.clone());
        k += 1;
    }
    proof {
        assert(string_views(names@) =~= meta_names(ms));
        assert forall|i: int, j: int| 0 <= i < ms.len() && 0 <= j < ms.len() && i != j implies meta_names(ms)[i]
            != meta_names(ms)[j] by {
            lemma_text_lt_irrefl(ms[i].name);
            if i < j {
                assert(text_lt(ms[i].name, ms[j].name));
            } else {
                assert(text_lt(ms[j].name, ms[i].name));
            }
        }
    }
    let bidir = find_bidir_pairs(edges);
    let broken = find_broken_edges(edges);
    proof {
        lemma_bidir_canonical(edges@, edges@.len() as int);
        lemma_pair_adj_ok(meta_names(ms), pair_views(bidir@));
    }
    let adj = pair_adjacency(&names, &bidir);
    let (comps, ids) = find_components(&adj);
    let ghost g = rows(adj@);
    let mut islands: Vec<Vec<String>> = Vec::new();
    let mut i: usize = 0;
    while i < comps.len()
        invariant
            i <= comps@.len() == components(g).len(),
            g == rows(adj@),
            g.len() == names@.len(),
            string_views(names@) == meta_names(ms),
            forall|q: int| 0 <= q < comps@.len() ==> ints(#[trigger] comps@[q]@) == components(g)[q],
            islands@.len() == i,
            forall|q: int| 0 <= q < i ==> string_views(#[trigger] islands@[q]@) == component_names(meta_names(ms), g)[q],
        decreases comps@.len() - i,
    {
        let c = &comps[i];
        let mut members: Vec<String> = Vec::new();
        let mut m: usize = 0;
        proof {
            lemma_components_in_range(g, i as int);
        }
        while m < c.len()
            invariant
                m <= c@.len(),
                ints(c@) == components(g)[i as int],
                forall|q: int| 0 <= q < c@.len() ==> 0 <= #[trigger] components(g)[i as int][q] < g.len(),
                g.len() == names@.len(),
                members@.len() == m,
                forall|q: int| 0 <= q < m ==> (#[trigger] members@[q])@ == names@[c@[q] as int]@,
            decreases c@.len() - m,
        {
            assert(ints(c@)[m as int] == c@[m as int] as int);
            members.push(names[c[m]].clone());
            m += 1;
        }
        proof {
            let want = component_names(meta_names(ms), g)[i as int];
            assert(want == components(g)[i as int].map_values(|k: int| meta_names(ms)[k]));
            assert forall|q: int| 0 <= q < m implies #[trigger] string_views(members@)[q] == want[q] by {
                assert(ints(c@)[q] == c@[q] as int);
                assert(string_views(names@)[c@[q] as int] == names@[c@[q] as int]@);
            }
            assert(string_views(members@) =~= want);
        }
        islands.push(members);
        i += 1;
    }
    proof {
        assert(island_views(islands@) =~= component_names(meta_names(ms), g));
        assert(ms.len() == meta_names(ms).len());
        assert(ints(ids@) =~= Seq::new(g.len(), |k: int| component_index(g, k)));
    }
    PeeringTopology { vnet_meta: metas, bidir_pairs: bidir, broken_edges: broken, islands, island_id: ids }
}

proof fn lemma_components_in_range(g: Seq<Seq<bool>>, i: int)
    requires
        0 <= i < components(g).len(),
    ensures
        forall|q: int| 0 <= q < components(g)[i].len() ==> 0 <= #[trigger] components(g)[i][q] < g.len(),
{
    let r = crate::components::leaders(g, g.len() as int)[i];
    lemma_component_of_range(g, r, g.len() as int);
}

proof fn lemma_component_of_range(g: Seq<Seq<bool>>, r: int, n: int)
    ensures
        forall|q: int| 0 <= q < crate::components::component_of(g, r, n).len() ==> 0 <= #[trigger] crate::components::component_of(g, r, n)[q] < n,
    decreases n,
{
    if n > 0 {
        lemma_component_of_range(g, r, n - 1);
        let pre = crate::components::component_of(g, r, n - 1);
        let cur = crate::components::component_of(g, r, n);
        assert forall|q: int| 0 <= q < cur.len() implies 0 <= #[trigger] cur[q] < n by {
            if q < pre.len() {
                assert(cur[q] == pre[q]);
            }
        }
    }
}

/// `s` with every character that is not alphanumeric replaced by `_`.
pub open spec fn ident_text(s: Seq<char>) -> Seq<char> {
    s.map_values(|c: char| if alphanumeric(c) { c } else { '_' })
}

/// Sanitises text into a diagram identifier: non-alphanumeric characters
/// become `_`.
pub fn sanitize_id(s: &str) -> (r: String)
    ensures
        r@ == ident_text(s@),
{
    let cs = chars_of(s);
    let mut out: Vec<char> = Vec::new();
    let mut k: usize = 0;
    while k < cs.len()
        invariant
            k <= cs@.len(),
            cs@ == s@,
            out@ == ident_text(s@.subrange(0, k as int)),
        decreases cs@.len() - k,
    {
        let c = cs[k];
        if is_alphanumeric(c) {
            out.push(c);
        } else {
            out.push('_');
        }
        assert(out@ =~= ident_text(s@.subrange(0, k + 1)));
        k += 1;
    }
    assert(s@.subrange(0, s@.len() as int) =~= s@);
    string_from_chars(out.as_slice())
}

/// The node identifier of a VNet in the diagrams: `n_` and its sanitised
/// name.
pub fn node_id(name: &str) -> (r: String)
    ensures
        r@ == "n_"@ + ident_text(name@),
{
    let mut out = chars_of("n_");
    let id = chars_of(sanitize_id(name).as_str());
    crate::text::append_chars(&mut out, &id);
    string_from_chars(out.as_slice())
}

proof fn lemma_with_meta(m: Seq<MetaView>, x: MetaView)
    requires
        names_distinct(m),
    ensures
        names_distinct(with_meta(m, x)),
{
    lemma_meta_pos(m, x.name);
}

proof fn lemma_metas_of_subnets(s: Seq<Subnet>)
    ensures
        names_distinct(metas_of_subnets(s)),
    decreases s.len(),
{
    if s.len() > 0 {
        lemma_metas_of_subnets(s.drop_last());
        let m = with_meta(metas_of_subnets(s.drop_last()), subnet_meta(s.last()));
        lemma_with_meta(metas_of_subnets(s.drop_last()), subnet_meta(s.last()));
        let g = gateway_marked(m, s.last().vnet_name@);
        assert forall|i: int, j: int| 0 <= i < j < g.len() implies (#[trigger] g[i]).name != (#[trigger] g[j]).name by {
            assert(g[i].name == m[i].name && g[j].name == m[j].name);
        }
    }
}

proof fn lemma_metas_with_edges(m: Seq<MetaView>, e: Seq<PeeringEdge>)
    requires
        names_distinct(m),
    ensures
        names_distinct(metas_with_edges(m, e)),
    decreases e.len(),
{
    if e.len() > 0 {
        lemma_metas_with_edges(m, e.drop_last());
        let m1 = with_meta(metas_with_edges(m, e.drop_last()), source_meta(e.last()));
        lemma_with_meta(metas_with_edges(m, e.drop_last()), source_meta(e.last()));
        lemma_with_meta(m1, target_meta(e.last()));
    }
}

/// Law: the topology's VNet entries are sorted strictly by name, so no VNet
/// is listed twice.
pub proof fn lemma_topology_metas_sorted(e: Seq<PeeringEdge>, s: Seq<Subnet>)
    ensures
        names_sorted(topology_metas(e, s)),
        names_distinct(topology_metas(e, s)),
{
    lemma_metas_of_subnets(s);
    lemma_metas_with_edges(metas_of_subnets(s), e);
    lemma_by_name(gathered_metas(s, e));
    let t = topology_metas(e, s);
    assert forall|i: int, j: int| 0 <= i < j < t.len() implies (#[trigger] t[i]).name != (#[trigger] t[j]).name by {
        lemma_text_lt_irrefl(t[i].name);
    }
}

proof fn lemma_topology_graph_ok(e: Seq<PeeringEdge>, s: Seq<Subnet>)
    ensures
        adj_ok(topology_graph(e, s)),
        topology_graph(e, s).len() == topology_metas(e, s).len(),
{
    lemma_pair_adj_ok(meta_names(topology_metas(e, s)), bidir_list(e, e.len() as int));
}

/// Law: every VNet of the topology lies in exactly one island, the one that
/// `island_id` names, and that island lists it.
pub proof fn lemma_islands_partition(e: Seq<PeeringEdge>, s: Seq<Subnet>, k: int)
    requires
        0 <= k < topology_of(e, s).metas.len(),
    ensures
        ({
            let t = topology_of(e, s);
            &&& 0 <= t.island_id[k] < t.islands.len()
            &&& t.islands[t.island_id[k]].contains(t.metas[k].name)
            &&& forall|c: int| 0 <= c < t.islands.len() && (#[trigger] t.islands[c]).contains(t.metas[k].name) ==> c == t.island_id[k]
        }),
{
    let t = topology_of(e, s);
    let g = topology_graph(e, s);
    let names = meta_names(topology_metas(e, s));
    lemma_topology_graph_ok(e, s);
    lemma_topology_metas_sorted(e, s);
    crate::components::lemma_components_partition(g, k);
    let c = component_index(g, k);
    assert(t.island_id[k] == c);
    let comp = components(g)[c];
    let w = choose|w: int| 0 <= w < comp.len() && comp[w] == k;
    assert(t.islands[c] == comp.map_values(|q: int| names[q]));
    assert(t.islands[c][w] == names[k]);
    assert forall|c2: int| 0 <= c2 < t.islands.len() && (#[trigger] t.islands[c2]).contains(t.metas[k].name) implies c2 == t.island_id[k] by {
        let comp2 = components(g)[c2];
        assert(t.islands[c2] == comp2.map_values(|q: int| names[q]));
        let w2 = choose|w2: int| 0 <= w2 < t.islands[c2].len() && t.islands[c2][w2] == t.metas[k].name;
        let x = comp2[w2];
        lemma_components_in_range(g, c2);
        assert(0 <= x < g.len());
        assert(names[x] == names[k]);
        if x != k {
            assert(topology_metas(e, s)[x].name == topology_metas(e, s)[k].name);
            if x < k {
            } else {
            }
        }
        assert(comp2.contains(k));
    }
}

/// Law: every island is non-empty and lists its VNets in increasing name
/// order, and the islands come in increasing order of their first name.
pub proof fn lemma_islands_ordered(e: Seq<PeeringEdge>, s: Seq<Subnet>)
    ensures
        ({
            let isl = topology_of(e, s).islands;
            &&& forall|c: int| 0 <= c < isl.len() ==> (#[trigger] isl[c]).len() > 0
            &&& forall|c: int, a: int, b: int|
                0 <= c < isl.len() && 0 <= a < b < isl[c].len() ==> text_lt(#[trigger] isl[c][a], #[trigger] isl[c][b])
            &&& forall|c: int, d: int| 0 <= c < d < isl.len() ==> text_lt(#[trigger] isl[c][0], #[trigger] isl[d][0])
        }),
{
    let g = topology_graph(e, s);
    let m = topology_metas(e, s);
    let names = meta_names(m);
    let isl = topology_of(e, s).islands;
    let comps = components(g);
    lemma_topology_graph_ok(e, s);
    lemma_topology_metas_sorted(e, s);
    crate::components::lemma_components_ordered(g);
    assert(isl == component_names(names, g));
    assert forall|c: int| 0 <= c < isl.len() implies (#[trigger] isl[c]).len() > 0 by {
        assert(isl[c] == comps[c].map_values(|k: int| names[k]));
        assert(comps[c].len() > 0);
    }
    assert forall|c: int, a: int, b: int| 0 <= c < isl.len() && 0 <= a < b < isl[c].len() implies text_lt(
        #[trigger] isl[c][a],
        #[trigger] isl[c][b],
    ) by {
        lemma_components_in_range(g, c);
        assert(isl[c] == comps[c].map_values(|k: int| names[k]));
        let x = comps[c][a];
        let y = comps[c][b];
        assert(x < y);
        assert(0 <= x < g.len() && 0 <= y < g.len());
        assert(m[x].name == names[x] && m[y].name == names[y]);
        assert(text_lt(m[x].name, m[y].name));
    }
    assert forall|c: int, d: int| 0 <= c < d < isl.len() implies text_lt(#[trigger] isl[c][0], #[trigger] isl[d][0]) by {
        lemma_components_in_range(g, c);
        lemma_components_in_range(g, d);
        assert(isl[c] == comps[c].map_values(|k: int| names[k]));
        assert(isl[d] == comps[d].map_values(|k: int| names[k]));
        assert(comps[c].len() > 0 && comps[d].len() > 0);
        let x = comps[c][0];
        let y = comps[d][0];
        assert(x < y);
        assert(text_lt(m[x].name, m[y].name));
    }
}

/// Law: two VNets of the topology share an island exactly when a chain of
/// fully connected peerings joins them.
pub proof fn lemma_islands_linked(e: Seq<PeeringEdge>, s: Seq<Subnet>, a: int, b: int)
    requires
        0 <= a < topology_of(e, s).metas.len(),
        0 <= b < topology_of(e, s).metas.len(),
    ensures
        (topology_of(e, s).island_id[a] == topology_of(e, s).island_id[b]) <==> crate::components::reaches(
            topology_graph(e, s),
            a,
            b,
        ),
{
    lemma_topology_graph_ok(e, s);
    crate::components::lemma_components_linked(topology_graph(e, s), a, b);
}

proof fn lemma_fully_connected_canon(e: Seq<PeeringEdge>, a: Seq<char>, b: Seq<char>)
    ensures
        fully_connected(e, canon(a, b)) == fully_connected(e, (a, b)),
        fully_connected(e, (a, b)) == fully_connected(e, (b, a)),
{
    lemma_canon_symmetric(a, b);
}

proof fn lemma_connected_witness(e: Seq<PeeringEdge>, p: (Seq<char>, Seq<char>))
    requires
        fully_connected(e, p),
        canon(p.0, p.1) == p,
        p.0 != p.1,
    ensures
        exists|i: int| 0 <= i < e.len() && #[trigger] counts_for(e[i], p),
{
    let i = choose|i: int| 0 <= i < e.len() && connected(#[trigger] e[i]) && e[i].vnet_name@ == p.0 && remote_name(e[i]) == p.1;
    let j = choose|j: int| 0 <= j < e.len() && connected(#[trigger] e[j]) && e[j].vnet_name@ == p.1 && remote_name(e[j]) == p.0;
    lemma_canon_symmetric(p.0, p.1);
    if p.1.len() > 0 {
        assert(counts_for(e[i], p));
    } else {
        assert(p.0.len() > 0);
        assert(edge_pair(e[j]) == canon(p.1, p.0));
        assert(counts_for(e[j], p));
    }
}

proof fn lemma_bidir_prefix(all: Seq<PeeringEdge>, n: int, p: (Seq<char>, Seq<char>))
    requires
        0 <= n <= all.len(),
    ensures
        bidir_list(all, n).contains(p) <==> (fully_connected(all, p) && exists|i: int| 0 <= i < n && #[trigger] counts_for(all[i], p)),
        forall|a: int, b: int| 0 <= a < b < bidir_list(all, n).len() ==> #[trigger] bidir_list(all, n)[a] != #[trigger] bidir_list(all, n)[b],
    decreases n,
{
    if n > 0 {
        lemma_bidir_prefix(all, n - 1, p);
        let pre = bidir_list(all, n - 1);
        let cur = bidir_list(all, n);
        let e = all[n - 1];
        if cur.contains(p) {
            let w = choose|w: int| 0 <= w < cur.len() && cur[w] == p;
            if w < pre.len() {
                assert(cur[w] == pre[w]);
                assert(pre.contains(p));
                let i = choose|i: int| 0 <= i < n - 1 && #[trigger] counts_for(all[i], p);
                assert(counts_for(all[i], p));
            } else {
                assert(counts_for(all[n - 1], p));
            }
        }
        if fully_connected(all, p) && exists|i: int| 0 <= i < n && #[trigger] counts_for(all[i], p) {
            let i = choose|i: int| 0 <= i < n && #[trigger] counts_for(all[i], p);
            if i < n - 1 {
                assert(pre.contains(p));
                let w = choose|w: int| 0 <= w < pre.len() && pre[w] == p;
                assert(cur[w] == p);
            } else {
                if pre.contains(p) {
                    let w = choose|w: int| 0 <= w < pre.len() && pre[w] == p;
                    assert(cur[w] == p);
                } else {
                    assert(cur[cur.len() - 1] == p);
                }
            }
        }
        lemma_bidir_prefix(all, n - 1, edge_pair(e));
        assert forall|a: int, b: int| 0 <= a < b < cur.len() implies #[trigger] cur[a] != #[trigger] cur[b] by {
            if b < pre.len() {
                assert(cur[a] == pre[a] && cur[b] == pre[b]);
            } else {
                assert(cur[a] == pre[a]);
                assert(pre.contains(pre[a]));
            }
        }
    }
}

/// Law: a pair of two different VNets is listed as fully connected exactly
/// when a connected edge runs each way between them, under its ordered
/// name pair; no pair is listed twice.
pub proof fn lemma_bidir_exact(e: Seq<PeeringEdge>, x: Seq<char>, y: Seq<char>)
    requires
        x != y,
    ensures
        bidir_list(e, e.len() as int).contains(canon(x, y)) <==> (conn_dir(e, x, y) && conn_dir(e, y, x)),
        forall|a: int, b: int|
            0 <= a < b < bidir_list(e, e.len() as int).len() ==> #[trigger] bidir_list(e, e.len() as int)[a]
                != #[trigger] bidir_list(e, e.len() as int)[b],
{
    let p = canon(x, y);
    lemma_canon_symmetric(x, y);
    lemma_fully_connected_canon(e, x, y);
    lemma_bidir_prefix(e, e.len() as int, p);
    if fully_connected(e, p) {
        lemma_connected_witness(e, p);
    }
}

/// Each broken entry among the first `n` edges joins a pair that is not
/// fully connected and that some edge with a remote VNet joins, and no
/// connected edge runs from its `to` side back to its `from` side.
pub open spec fn broken_sound(all: Seq<PeeringEdge>, n: int) -> bool {
    forall|q: int|
        0 <= q < broken_list(all, n).len() ==> {
            let c = canon(#[trigger] broken_list(all, n)[q].0, broken_list(all, n)[q].1);
            &&& !fully_connected(all, c)
            &&& !conn_dir(all, broken_list(all, n)[q].1, broken_list(all, n)[q].0)
            &&& exists|i: int| 0 <= i < n && remote_name(#[trigger] all[i]).len() > 0 && edge_pair(all[i]) == c
        }
}

/// No two broken entries among the first `n` edges join the same pair.
pub open spec fn broken_distinct(all: Seq<PeeringEdge>, n: int) -> bool {
    forall|a: int, b: int|
        0 <= a < b < broken_list(all, n).len() ==> canon(#[trigger] broken_list(all, n)[a].0, broken_list(all, n)[a].1)
            != canon(#[trigger] broken_list(all, n)[b].0, broken_list(all, n)[b].1)
}

/// Every pair among the first `n` edges that is not fully connected has a
/// broken entry.
pub open spec fn broken_complete(all: Seq<PeeringEdge>, n: int) -> bool {
    forall|i: int|
        0 <= i < n && remote_name(#[trigger] all[i]).len() > 0 && !fully_connected(all, edge_pair(all[i])) ==> exists|q: int|
            0 <= q < broken_list(all, n).len() && canon(#[trigger] broken_list(all, n)[q].0, broken_list(all, n)[q].1)
                == edge_pair(all[i])
}

proof fn lemma_broken_step_new(all: Seq<PeeringEdge>, n: int)
    requires
        0 < n <= all.len(),
        starts_broken(all, n - 1),
        broken_sound(all, n - 1),
        broken_distinct(all, n - 1),
        broken_complete(all, n - 1),
    ensures
        broken_sound(all, n),
        broken_distinct(all, n),
        broken_complete(all, n),
{
    let pre = broken_list(all, n - 1);
    let cur = broken_list(all, n);
    let e = all[n - 1];
    let d = broken_direction(all, e);
    lemma_canon_symmetric(e.vnet_name@, remote_name(e));
    assert(canon(d.0, d.1) == edge_pair(e));
    assert(cur == pre.push(d));
    lemma_fully_connected_canon(all, e.vnet_name@, remote_name(e));
    assert(!conn_dir(all, d.1, d.0)) by {
        if connected(e) {
            assert(conn_dir(all, e.vnet_name@, remote_name(e))) by {
                assert(all[n - 1] == e);
            }
        }
        if answered(all, e) {
            let j = choose|j: int|
                0 <= j < all.len() && (#[trigger] all[j]).vnet_name@ == remote_name(e) && remote_name(all[j])
                    == e.vnet_name@ && connected(all[j]);
            assert(connected(all[j]));
            assert(conn_dir(all, remote_name(e), e.vnet_name@));
        }
        if conn_dir(all, remote_name(e), e.vnet_name@) {
            let j = choose|j: int|
                0 <= j < all.len() && connected(#[trigger] all[j]) && all[j].vnet_name@ == remote_name(e)
                    && remote_name(all[j]) == e.vnet_name@;
            assert(answered(all, e));
        }
    }
    assert forall|q: int| 0 <= q < cur.len() implies {
        let c = canon(#[trigger] cur[q].0, cur[q].1);
        &&& !fully_connected(all, c)
        &&& !conn_dir(all, cur[q].1, cur[q].0)
        &&& exists|i: int| 0 <= i < n && remote_name(#[trigger] all[i]).len() > 0 && edge_pair(all[i]) == c
    } by {
        if q < pre.len() {
            assert(cur[q] == pre[q]);
            let c = canon(pre[q].0, pre[q].1);
            let i = choose|i: int| 0 <= i < n - 1 && remote_name(#[trigger] all[i]).len() > 0 && edge_pair(all[i]) == c;
            assert(remote_name(all[i]).len() > 0);
        } else {
            assert(cur[q] == d);
            assert(remote_name(all[n - 1]).len() > 0);
        }
    }
    assert forall|a: int, b: int| 0 <= a < b < cur.len() implies canon(#[trigger] cur[a].0, cur[a].1) != canon(
        #[trigger] cur[b].0,
        cur[b].1,
    ) by {
        assert(cur[a] == pre[a]);
        if b < pre.len() {
            assert(cur[b] == pre[b]);
        } else {
            let c = canon(pre[a].0, pre[a].1);
            let i = choose|i: int| 0 <= i < n - 1 && remote_name(#[trigger] all[i]).len() > 0 && edge_pair(all[i]) == c;
            if c == edge_pair(e) {
                assert(pair_seen_before(all, n - 1));
            }
        }
    }
    assert forall|i: int|
        0 <= i < n && remote_name(#[trigger] all[i]).len() > 0 && !fully_connected(all, edge_pair(all[i])) implies exists|q: int|
            0 <= q < cur.len() && canon(#[trigger] cur[q].0, cur[q].1) == edge_pair(all[i]) by {
        if i < n - 1 {
            let q = choose|q: int| 0 <= q < pre.len() && canon(#[trigger] pre[q].0, pre[q].1) == edge_pair(all[i]);
            assert(cur[q] == pre[q]);
        } else {
            assert(cur[pre.len() as int] == d);
        }
    }
}

proof fn lemma_broken_step_same(all: Seq<PeeringEdge>, n: int)
    requires
        0 < n <= all.len(),
        !starts_broken(all, n - 1),
        broken_sound(all, n - 1),
        broken_distinct(all, n - 1),
        broken_complete(all, n - 1),
    ensures
        broken_sound(all, n),
        broken_distinct(all, n),
        broken_complete(all, n),
{
    let pre = broken_list(all, n - 1);
    let cur = broken_list(all, n);
    assert(cur == pre);
    assert forall|i: int|
        0 <= i < n && remote_name(#[trigger] all[i]).len() > 0 && !fully_connected(all, edge_pair(all[i])) implies exists|q: int|
            0 <= q < cur.len() && canon(#[trigger] cur[q].0, cur[q].1) == edge_pair(all[i]) by {
        if i == n - 1 {
            assert(pair_seen_before(all, n - 1));
            let j = choose|j: int|
                0 <= j < n - 1 && remote_name(#[trigger] all[j]).len() > 0 && edge_pair(all[j]) == edge_pair(all[n - 1]);
            assert(remote_name(all[j]).len() > 0 && !fully_connected(all, edge_pair(all[j])));
        }
    }
    assert forall|q: int| 0 <= q < cur.len() implies {
        let c = canon(#[trigger] cur[q].0, cur[q].1);
        &&& !fully_connected(all, c)
        &&& !conn_dir(all, cur[q].1, cur[q].0)
        &&& exists|i: int| 0 <= i < n && remote_name(#[trigger] all[i]).len() > 0 && edge_pair(all[i]) == c
    } by {
        let c = canon(pre[q].0, pre[q].1);
        let i = choose|i: int| 0 <= i < n - 1 && remote_name(#[trigger] all[i]).len() > 0 && edge_pair(all[i]) == c;
        assert(remote_name(all[i]).len() > 0);
    }
}

proof fn lemma_broken_prefix(all: Seq<PeeringEdge>, n: int)
    requires
        0 <= n <= all.len(),
    ensures
        broken_sound(all, n),
        broken_distinct(all, n),
        broken_complete(all, n),
    decreases n,
{
    if n > 0 {
        lemma_broken_prefix(all, n - 1);
        if starts_broken(all, n - 1) {
            lemma_broken_step_new(all, n);
        } else {
            lemma_broken_step_same(all, n);
        }
    }
}

/// Law: every pair of VNets joined by a peering that is not connected from
/// both sides is drawn as exactly one broken peering, no broken peering
/// joins a fully connected pair, and each is drawn from the connected side:
/// no connected edge runs from its `to` VNet back to its `from` VNet.
pub proof fn lemma_broken_exact(e: Seq<PeeringEdge>, p: (Seq<char>, Seq<char>))
    ensures
        (exists|q: int|
            0 <= q < broken_list(e, e.len() as int).len() && canon(
                #[trigger] broken_list(e, e.len() as int)[q].0,
                broken_list(e, e.len() as int)[q].1,
            ) == p) <==> (!fully_connected(e, p) && exists|i: int|
            0 <= i < e.len() && remote_name(#[trigger] e[i]).len() > 0 && edge_pair(e[i]) == p),
        forall|a: int, b: int|
            0 <= a < b < broken_list(e, e.len() as int).len() ==> canon(
                #[trigger] broken_list(e, e.len() as int)[a].0,
                broken_list(e, e.len() as int)[a].1,
            ) != canon(#[trigger] broken_list(e, e.len() as int)[b].0, broken_list(e, e.len() as int)[b].1),
        forall|q: int|
            0 <= q < broken_list(e, e.len() as int).len() ==> !conn_dir(
                e,
                #[trigger] broken_list(e, e.len() as int)[q].1,
                broken_list(e, e.len() as int)[q].0,
            ),
{
    lemma_broken_prefix(e, e.len() as int);
    let bl = broken_list(e, e.len() as int);
    if exists|q: int| 0 <= q < bl.len() && canon(#[trigger] bl[q].0, bl[q].1) == p {
        let q = choose|q: int| 0 <= q < bl.len() && canon(#[trigger] bl[q].0, bl[q].1) == p;
        assert(canon(bl[q].0, bl[q].1) == p);
    }
    if !fully_connected(e, p) && exists|i: int| 0 <= i < e.len() && remote_name(#[trigger] e[i]).len() > 0 && edge_pair(e[i]) == p {
        let i = choose|i: int| 0 <= i < e.len() && remote_name(#[trigger] e[i]).len() > 0 && edge_pair(e[i]) == p;
        assert(remote_name(e[i]).len() > 0);
    }
}

} // verus!
