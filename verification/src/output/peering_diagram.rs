//! Mermaid peering diagram: VNets grouped into island subgraphs, fully
//! connected peerings as two-way arrows, broken ones as red stop arrows.
use crate::azure::graph::Data;
use crate::azure::peering_graph::PeeringEdge;
use crate::components::ints;
use crate::output::peering_topology::{
    build_topology, canon, canonical_pair, find_meta, ident_text, lemma_meta_pos, meta_pos, meta_views, node_id,
    topology_of, MetaView, PeeringTopology, TopologyView, VNetMeta,
};
use crate::text::{append_chars, append_str, chars_of, decimal, join_strings, join_text, str_eq, string_from_chars, string_views};
use vstd::prelude::*;

verus! {

/// The entry named `name`, if any.
pub open spec fn meta_of(ms: Seq<MetaView>, name: Seq<char>) -> Option<MetaView> {
    if meta_pos(ms, name) >= 0 {
        Some(ms[meta_pos(ms, name)])
    } else {
        None
    }
}

/// The named VNet is known only from peering edges.
pub open spec fn is_missing(ms: Seq<MetaView>, name: Seq<char>) -> bool {
    match meta_of(ms, name) {
        Some(m) => m.missing,
        None => false,
    }
}

/// The named VNet has a `GatewaySubnet`.
pub open spec fn is_gateway(ms: Seq<MetaView>, name: Seq<char>) -> bool {
    match meta_of(ms, name) {
        Some(m) => m.has_gateway,
        None => false,
    }
}

/// The named VNet's subscription, or `dflt` when it is unknown.
pub open spec fn sub_or(ms: Seq<MetaView>, name: Seq<char>, dflt: Seq<char>) -> Seq<char> {
    match meta_of(ms, name) {
        Some(m) => m.subscription_name,
        None => dflt,
    }
}

/// The named VNet's address spaces joined with `sep` (empty when unknown).
pub open spec fn cidrs_joined(ms: Seq<MetaView>, name: Seq<char>, sep: Seq<char>) -> Seq<char> {
    match meta_of(ms, name) {
        Some(m) => join_text(m.vnet_cidr, sep),
        None => Seq::empty(),
    }
}

/// The position of the named VNet's island (`usize::MAX` when unknown).
pub open spec fn island_of(t: TopologyView, name: Seq<char>) -> int {
    let p = meta_pos(t.metas, name);
    if 0 <= p < t.island_id.len() {
        t.island_id[p]
    } else {
        usize::MAX as int
    }
}

/// Every VNet of the island is missing.
pub open spec fn all_missing(ms: Seq<MetaView>, vnets: Seq<Seq<char>>) -> bool {
    forall|k: int| 0 <= k < vnets.len() ==> is_missing(ms, #[trigger] vnets[k])
}

/// The subscription of the first VNet of the island that has an entry.
pub open spec fn first_sub(ms: Seq<MetaView>, vnets: Seq<Seq<char>>) -> Option<Seq<char>>
    decreases vnets.len(),
{
    if vnets.len() == 0 {
        None
    } else {
        match meta_of(ms, vnets[0]) {
            Some(m) => Some(m.subscription_name),
            None => first_sub(ms, vnets.drop_first()),
        }
    }
}

/// The label of a subgraph whose VNets are all missing.
pub open spec fn missing_label(ms: Seq<MetaView>, vnets: Seq<Seq<char>>) -> Seq<char> {
    let sub = match first_sub(ms, vnets) {
        Some(s) => s,
        None => "unknown"@,
    };
    if sub.len() == 0 {
        "MISSING"@
    } else {
        "MISSING - SUB:"@ + sub
    }
}

/// The node identifier of a VNet.
pub open spec fn nid(name: Seq<char>) -> Seq<char> {
    "n_"@ + ident_text(name)
}

/// `"Island "` and the island's number, counted from 1.
pub open spec fn island_number(i: int) -> Seq<char> {
    "Island "@ + crate::text::dec((i + 1) as nat)
}

/// The subgraph label of island `i` in the Mermaid diagram.
pub open spec fn mermaid_label(t: TopologyView, i: int) -> Seq<char> {
    if all_missing(t.metas, t.islands[i]) {
        missing_label(t.metas, t.islands[i])
    } else {
        island_number(i)
    }
}

/// The node line of one VNet.
pub open spec fn mermaid_node(ms: Seq<MetaView>, v: Seq<char>) -> Seq<char> {
    if is_missing(ms, v) {
        let sub = sub_or(ms, v, "?"@);
        let shown = if sub.len() == 0 {
            "unknown"@
        } else {
            sub
        };
        "        "@ + nid(v) + "[\"\u{26a0} MISSING\\nSUB:"@ + shown + "\\n"@ + v + "\"]\n"@
    } else {
        "        "@ + nid(v) + "[\""@ + sub_or(ms, v, "?"@) + "/"@ + v + "\\n"@ + cidrs_joined(ms, v, ", "@)
            + "\"]\n"@
    }
}

/// The external node of a gateway VNet and its link (empty otherwise).
pub open spec fn mermaid_gateway(ms: Seq<MetaView>, v: Seq<char>) -> Seq<char> {
    if is_gateway(ms, v) {
        "        "@ + nid(v) + "_ext"@ + "((\"\u{1f310} External / On-Premises\"))\n"@ + "        "@ + nid(v) + " --- "@
            + nid(v) + "_ext"@ + "\n"@
    } else {
        Seq::empty()
    }
}

/// The node lines of the first `m` VNets of an island.
pub open spec fn mermaid_nodes(ms: Seq<MetaView>, vnets: Seq<Seq<char>>, m: int) -> Seq<char>
    decreases m,
{
    if m <= 0 {
        Seq::empty()
    } else {
        mermaid_nodes(ms, vnets, m - 1) + mermaid_node(ms, vnets[m - 1]) + mermaid_gateway(ms, vnets[m - 1])
    }
}

/// How many gateway links the first `m` VNets of an island draw.
pub open spec fn gateway_links(ms: Seq<MetaView>, vnets: Seq<Seq<char>>, m: int) -> nat
    decreases m,
{
    if m <= 0 {
        0
    } else {
        gateway_links(ms, vnets, m - 1) + if is_gateway(ms, vnets[m - 1]) {
            1nat
        } else {
            0nat
        }
    }
}

/// Both VNets of the pair lie in island `i`.
pub open spec fn in_island(t: TopologyView, i: int, p: (Seq<char>, Seq<char>)) -> bool {
    island_of(t, p.0) == i && island_of(t, p.1) == i
}

/// The fully connected pair at position `q` is drawn in island `i`: it lies
/// there and no earlier pair of the island names the same two VNets.
pub open spec fn pair_drawn(t: TopologyView, i: int, q: int) -> bool {
    &&& in_island(t, i, t.bidir[q])
    &&& !exists|w: int|
        0 <= w < q && in_island(t, i, #[trigger] t.bidir[w]) && canon(t.bidir[w].0, t.bidir[w].1) == canon(
            t.bidir[q].0,
            t.bidir[q].1,
        )
}

/// The two-way arrows of island `i` among the first `q` pairs.
pub open spec fn mermaid_pairs(t: TopologyView, i: int, q: int) -> Seq<char>
    decreases q,
{
    if q <= 0 {
        Seq::empty()
    } else if pair_drawn(t, i, q - 1) {
        mermaid_pairs(t, i, q - 1) + "        "@ + nid(t.bidir[q - 1].0) + " <--> "@ + nid(t.bidir[q - 1].1) + "\n"@
    } else {
        mermaid_pairs(t, i, q - 1)
    }
}

/// How many two-way arrows island `i` draws among the first `q` pairs.
pub open spec fn pair_links(t: TopologyView, i: int, q: int) -> nat
    decreases q,
{
    if q <= 0 {
        0
    } else {
        pair_links(t, i, q - 1) + if pair_drawn(t, i, q - 1) {
            1nat
        } else {
            0nat
        }
    }
}

/// The subgraph of island `i`.
pub open spec fn mermaid_island(t: TopologyView, i: int) -> Seq<char> {
    "    subgraph \""@ + mermaid_label(t, i) + "\"\n"@ + mermaid_nodes(t.metas, t.islands[i], t.islands[i].len() as int)
        + mermaid_pairs(t, i, t.bidir.len() as int) + "    end\n"@
}

/// How many links island `i` draws.
pub open spec fn island_links(t: TopologyView, i: int) -> nat {
    gateway_links(t.metas, t.islands[i], t.islands[i].len() as int) + pair_links(t, i, t.bidir.len() as int)
}

/// The subgraphs of the first `n` islands.
pub open spec fn mermaid_islands(t: TopologyView, n: int) -> Seq<char>
    decreases n,
{
    if n <= 0 {
        Seq::empty()
    } else {
        mermaid_islands(t, n - 1) + mermaid_island(t, n - 1)
    }
}

/// How many links the first `n` islands draw.
pub open spec fn links_before(t: TopologyView, n: int) -> nat
    decreases n,
{
    if n <= 0 {
        0
    } else {
        links_before(t, n - 1) + island_links(t, n - 1)
    }
}

/// The stop arrows of the first `k` broken peerings.
pub open spec fn mermaid_broken(t: TopologyView, k: int) -> Seq<char>
    decreases k,
{
    if k <= 0 {
        Seq::empty()
    } else {
        mermaid_broken(t, k - 1) + "    "@ + nid(t.broken[k - 1].0) + " --x "@ + nid(t.broken[k - 1].1) + "\n"@
    }
}

/// Red styling of the links numbered `first` to `first + k - 1`.
pub open spec fn red_links(first: nat, k: int) -> Seq<char>
    decreases k,
{
    if k <= 0 {
        Seq::empty()
    } else {
        red_links(first, k - 1) + "    linkStyle "@ + crate::text::dec(first + (k - 1) as nat) + " stroke:#ff0000,color:#ff0000\n"@
    }
}

/// The head of the Markdown file, up to the start of the graph.
pub open spec fn mermaid_head(date: Seq<char>) -> Seq<char> {
    "# Azure VNet Peering Diagram\n"@ + "\n"@ + "Generated: "@ + date + "\n"@ + "\n"@ + "```mermaid\n"@
        + "%%{init: {'flowchart': {'defaultRenderer': 'elk'}}}%%\n"@ + "graph TD\n"@
}

/// The Markdown file with the Mermaid peering diagram of the topology.
pub open spec fn mermaid_text(t: TopologyView, date: Seq<char>) -> Seq<char> {
    let n = t.islands.len() as int;
    mermaid_head(date) + mermaid_islands(t, n) + mermaid_broken(t, t.broken.len() as int) + red_links(
        links_before(t, n),
        t.broken.len() as int,
    ) + "```\n"@
}

/// Appends the characters of a `String`.
fn push_string(out: &mut Vec<char>, s: &String)
    ensures
        final(out)@ == old(out)@ + s@,
{
    append_str(out, s.as_str());
}

/// The entry of the named VNet, if any.
pub(crate) fn lookup_meta<'a>(ms: &'a Vec<VNetMeta>, name: &str) -> (r: Option<&'a VNetMeta>)
    ensures
        match r {
            Some(m) => meta_of(meta_views(ms@), name@) == Some(m@),
            None => meta_of(meta_views(ms@), name@) is None,
        },
{
    match find_meta(ms, name) {
        Some(p) => {
            proof {
                lemma_meta_pos(meta_views(ms@), name@);
            }
            Some(&ms[p])
        },
        None => None,
    }
}

/// The position of the named VNet's island (`usize::MAX` when unknown).
fn island_of_exec(t: &PeeringTopology, name: &str) -> (r: usize)
    ensures
        r as int == island_of(t@, name@),
{
    match find_meta(&t.vnet_meta, name) {
        Some(p) => {
            if p < t.island_id.len() {
                t.island_id[p]
            } else {
                usize::MAX
            }
        },
        None => usize::MAX,
    }
}

/// Appends the node line of a VNet and, for a gateway VNet, its external
/// node and link; tells whether that link was drawn.
fn push_mermaid_node(out: &mut Vec<char>, ms: &Vec<VNetMeta>, v: &String) -> (gw: bool)
    ensures
        final(out)@ == old(out)@ + mermaid_node(meta_views(ms@), v@) + mermaid_gateway(meta_views(ms@), v@),
        gw == is_gateway(meta_views(ms@), v@),
        final(out)@.len() >= old(out)@.len() + if gw { 1int } else { 0int },
{
    let ghost g = meta_views(ms@);
    let ghost start = out@;
    let id = node_id(v.as_str());
    let meta = lookup_meta(ms, v.as_str());
    let (missing, gw) = match meta {
        Some(m) => (m.missing, m.has_gateway),
        None => (false, false),
    };
    append_str(out, "        ");
    push_string(out, &id);
    if missing {
        let sub = match meta {
            Some(m) => m.subscription_name.clone(),
            None => "?".to_owned(),
        };
        let shown = if chars_of(sub.as_str()).len() == 0 {
            "unknown".to_owned()
        } else {
            sub
        };
        append_str(out, "[\"\u{26a0} MISSING\\nSUB:");
        push_string(out, &shown);
        append_str(out, "\\n");
        push_string(out, v);
        append_str(out, "\"]\n");
        proof {
            assert(out@ =~= start + mermaid_node(g, v@));
        }
    } else {
        let sub = match meta {
            Some(m) => m.subscription_name.clone(),
            None => "?".to_owned(),
        };
        let cidrs = match meta {
            Some(m) => join_strings(m.vnet_cidr.as_slice(), ", "),
            None => String::new(),
        };
        append_str(out, "[\"");
        push_string(out, &sub);
        append_str(out, "/");
        push_string(out, v);
        append_str(out, "\\n");
        push_string(out, &cidrs);
        append_str(out, "\"]\n");
        proof {
            assert(out@ =~= start + mermaid_node(g, v@));
        }
    }
    let ghost mid = out@;
    if gw {
        append_str(out, "        ");
        push_string(out, &id);
        append_str(out, "_ext");
        append_str(out, "((\"\u{1f310} External / On-Premises\"))\n");
        append_str(out, "        ");
        push_string(out, &id);
        append_str(out, " --- ");
        push_string(out, &id);
        append_str(out, "_ext");
        append_str(out, "\n");
        proof {
            assert(out@ =~= mid + mermaid_gateway(g, v@));
            reveal_strlit("        ");
            assert(out@.len() >= mid.len() + 8);
        }
    } else {
        assert(mermaid_gateway(g, v@) =~= Seq::<char>::empty());
        assert(out@ =~= mid + mermaid_gateway(g, v@));
    }
    gw
}

/// Whether every VNet of the island is missing.
pub(crate) fn all_missing_exec(ms: &Vec<VNetMeta>, vnets: &Vec<String>) -> (r: bool)
    ensures
        r == all_missing(meta_views(ms@), string_views(vnets@)),
{
    let ghost g = meta_views(ms@);
    let ghost vs = string_views(vnets@);
    let mut k: usize = 0;
    while k < vnets.len()
        invariant
            k <= vnets@.len() == vs.len(),
            g == meta_views(ms@),
            vs == string_views(vnets@),
            forall|q: int| 0 <= q < k ==> is_missing(g, #[trigger] vs[q]),
        decreases vnets@.len() - k,
    {
        let missing = match lookup_meta(ms, vnets[k].as_str()) {
            Some(m) => m.missing,
            None => false,
        };
        if !missing {
            assert(!is_missing(g, vs[k as int]));
            return false;
        }
        k += 1;
    }
    true
}

/// The subscription of the first VNet of the island that has an entry.
fn first_sub_exec(ms: &Vec<VNetMeta>, vnets: &Vec<String>) -> (r: Option<String>)
    ensures
        match r {
            Some(x) => first_sub(meta_views(ms@), string_views(vnets@)) == Some(x@),
            None => first_sub(meta_views(ms@), string_views(vnets@)) is None,
        },
{
    let ghost g = meta_views(ms@);
    let ghost vs = string_views(vnets@);
    let mut k: usize = 0;
    assert(vs.subrange(0, vs.len() as int) =~= vs);
    while k < vnets.len()
        invariant
            k <= vnets@.len() == vs.len(),
            g == meta_views(ms@),
            vs == string_views(vnets@),
            first_sub(g, vs) == first_sub(g, vs.subrange(k as int, vs.len() as int)),
        decreases vnets@.len() - k,
    {
        let ghost rest = vs.subrange(k as int, vs.len() as int);
        assert(rest[0] == vs[k as int]);
        assert(rest.drop_first() =~= vs.subrange(k + 1, vs.len() as int));
        match lookup_meta(ms, vnets[k].as_str()) {
            Some(m) => {
                return Some(m.subscription_name.clone());
            },
            None => {},
        }
        k += 1;
    }
    assert(vs.subrange(k as int, vs.len() as int) =~= Seq::<Seq<char>>::empty());
    None
}

/// The label of a subgraph whose VNets are all missing.
pub(crate) fn missing_label_exec(ms: &Vec<VNetMeta>, vnets: &Vec<String>) -> (r: String)
    ensures
        r@ == missing_label(meta_views(ms@), string_views(vnets@)),
{
    let sub = match first_sub_exec(ms, vnets) {
        Some(x) => x,
        None => "unknown".to_owned(),
    };
    if chars_of(sub.as_str()).len() == 0 {
        "MISSING".to_owned()
    } else {
        let mut out = chars_of("MISSING - SUB:");
        push_string(&mut out, &sub);
        string_from_chars(out.as_slice())
    }
}

/// `"Island "` and the island's number, counted from 1.
pub(crate) fn island_number_exec(i: usize) -> (r: String)
    requires
        i < usize::MAX,
    ensures
        r@ == island_number(i as int),
{
    let mut out = chars_of("Island ");
    let d = decimal((i + 1) as u64);
    push_string(&mut out, &d);
    string_from_chars(out.as_slice())
}

/// Whether both VNets of the pair lie in island `i`.
fn in_island_exec(t: &PeeringTopology, i: usize, p: &(String, String)) -> (r: bool)
    ensures
        r == in_island(t@, i as int, (p.0@, p.1@)),
{
    island_of_exec(t, p.0.as_str()) == i && island_of_exec(t, p.1.as_str()) == i
}

/// Whether the fully connected pair at position `q` is drawn in island `i`.
fn pair_drawn_exec(t: &PeeringTopology, i: usize, q: usize) -> (r: bool)
    requires
        q < t.bidir_pairs@.len(),
    ensures
        r == pair_drawn(t@, i as int, q as int),
{
    let ghost v = t@;
    let pq = &t.bidir_pairs[q];
    assert(v.bidir[q as int] == (pq.0@, pq.1@));
    if !in_island_exec(t, i, pq) {
        return false;
    }
    let cq = canonical_pair(pq.0.as_str(), pq.1.as_str());
    let mut w: usize = 0;
    while w < q
        invariant
            w <= q < t.bidir_pairs@.len(),
            v == t@,
            (cq.0@, cq.1@) == canon(v.bidir[q as int].0, v.bidir[q as int].1),
            forall|x: int|
                0 <= x < w ==> !(in_island(v, i as int, #[trigger] v.bidir[x]) && canon(v.bidir[x].0, v.bidir[x].1)
                    == canon(v.bidir[q as int].0, v.bidir[q as int].1)),
        decreases q - w,
    {
        let pw = &t.bidir_pairs[w];
        assert(v.bidir[w as int] == (pw.0@, pw.1@));
        if in_island_exec(t, i, pw) {
            let cw = canonical_pair(pw.0.as_str(), pw.1.as_str());
            if str_eq(cw.0.as_str(), cq.0.as_str()) && str_eq(cw.1.as_str(), cq.1.as_str()) {
                return false;
            }
        }
        w += 1;
    }
    true
}

/// Appends island `i`'s subgraph to `out`; `links` counts the links drawn
/// so far and the result counts them after.
fn push_mermaid_island(out: &mut Vec<char>, t: &PeeringTopology, i: usize, links: usize) -> (r: usize)
    requires
        i < t.islands@.len(),
        links <= old(out)@.len(),
    ensures
        final(out)@ == old(out)@ + mermaid_island(t@, i as int),
        r == links + island_links(t@, i as int),
        r <= final(out)@.len(),
{
    let ghost v = t@;
    let ghost start = out@;
    let vnets = &t.islands[i];
    assert(v.islands[i as int] == string_views(vnets@));
    let n_islands = t.islands.len();
    let label = if all_missing_exec(&t.vnet_meta, vnets) {
        missing_label_exec(&t.vnet_meta, vnets)
    } else {
        island_number_exec(i)
    };
    append_str(out, "    subgraph \"");
    push_string(out, &label);
    append_str(out, "\"\n");
    let ghost head = out@;
    let mut count = links;
    let mut m: usize = 0;
    while m < vnets.len()
        invariant
            m <= vnets@.len(),
            v == t@,
            i < v.islands.len(),
            v.islands[i as int] == string_views(vnets@),
            out@ == head + mermaid_nodes(v.metas, v.islands[i as int], m as int),
            count == links + gateway_links(v.metas, v.islands[i as int], m as int),
            count <= out@.len(),
            head.len() >= start.len(),
        decreases vnets@.len() - m,
    {
        assert(string_views(vnets@)[m as int] == vnets@[m as int]@);
        let gw = push_mermaid_node(out, &t.vnet_meta, &vnets[m]);
        let cur = out.len();
        if gw {
            count += 1;
        }
        m += 1;
    }
    let ghost nodes = out@;
    let mut q: usize = 0;
    while q < t.bidir_pairs.len()
        invariant
            q <= t.bidir_pairs@.len(),
            v == t@,
            i < v.islands.len(),
            out@ == nodes + mermaid_pairs(v, i as int, q as int),
            count == links + gateway_links(v.metas, v.islands[i as int], v.islands[i as int].len() as int)
                + pair_links(v, i as int, q as int),
            count <= out@.len(),
        decreases t.bidir_pairs@.len() - q,
    {
        if pair_drawn_exec(t, i, q) {
            let p = &t.bidir_pairs[q];
            assert(v.bidir[q as int] == (p.0@, p.1@));
            let ghost before = out@;
            append_str(out, "        ");
            push_string(out, &node_id(p.0.as_str()));
            append_str(out, " <--> ");
            push_string(out, &node_id(p.1.as_str()));
            append_str(out, "\n");
            proof {
                reveal_strlit("        ");
                assert(out@.len() >= before.len() + 8);
            }
            let cur = out.len();
            count += 1;
        }
        q += 1;
    }
    append_str(out, "    end\n");
    proof {
        assert(out@ =~= start + mermaid_island(v, i as int));
    }
    count
}

/// The Markdown file with the Mermaid peering diagram of an analysed
/// topology, dated `date`.
pub fn mermaid_from_topology(t: &PeeringTopology, date: &str) -> (r: String)
    ensures
        r@ == mermaid_text(t@, date@),
{
    let ghost v = t@;
    let mut out: Vec<char> = Vec::new();
    append_str(&mut out, "# Azure VNet Peering Diagram\n");
    append_str(&mut out, "\n");
    append_str(&mut out, "Generated: ");
    append_str(&mut out, date);
    append_str(&mut out, "\n");
    append_str(&mut out, "\n");
    append_str(&mut out, "```mermaid\n");
    append_str(&mut out, "%%{init: {'flowchart': {'defaultRenderer': 'elk'}}}%%\n");
    append_str(&mut out, "graph TD\n");
    let ghost head = out@;
    assert(head =~= mermaid_head(date@));
    let mut links: usize = 0;
    let mut i: usize = 0;
    while i < t.islands.len()
        invariant
            i <= t.islands@.len(),
            v == t@,
            out@ == head + mermaid_islands(v, i as int),
            links == links_before(v, i as int),
            links <= out@.len(),
        decreases t.islands@.len() - i,
    {
        links = push_mermaid_island(&mut out, t, i, links);
        proof {
            assert(out@ =~= head + mermaid_islands(v, i + 1));
        }
        i += 1;
    }
    let ghost body = out@;
    let mut red: Vec<usize> = Vec::new();
    let mut k: usize = 0;
    while k < t.broken_edges.len()
        invariant
            k <= t.broken_edges@.len(),
            v == t@,
            out@ == body + mermaid_broken(v, k as int),
            links == links_before(v, v.islands.len() as int) + k,
            links <= out@.len(),
            red@.len() == k,
            forall|q: int| 0 <= q < k ==> #[trigger] red@[q] == links_before(v, v.islands.len() as int) + q,
        decreases t.broken_edges@.len() - k,
    {
        let b = &t.broken_edges[k];
        assert(v.broken[k as int] == (b.from@, b.to@));
        let ghost before = out@;
        append_str(&mut out, "    ");
        push_string(&mut out, &node_id(b.from.as_str()));
        append_str(&mut out, " --x ");
        push_string(&mut out, &node_id(b.to.as_str()));
        append_str(&mut out, "\n");
        proof {
            reveal_strlit("    ");
            assert(out@.len() >= before.len() + 4);
            assert(out@ =~= body + mermaid_broken(v, k + 1));
        }
        red.push(links);
        let cur = out.len();
        links += 1;
        k += 1;
    }
    let ghost styled = out@;
    let mut q: usize = 0;
    while q < red.len()
        invariant
            q <= red@.len() == v.broken.len(),
            out@ == styled + red_links(links_before(v, v.islands.len() as int), q as int),
            forall|w: int| 0 <= w < red@.len() ==> #[trigger] red@[w] == links_before(v, v.islands.len() as int) + w,
        decreases red@.len() - q,
    {
        append_str(&mut out, "    linkStyle ");
        push_string(&mut out, &decimal(red[q] as u64));
        append_str(&mut out, " stroke:#ff0000,color:#ff0000\n");
        proof {
            assert(out@ =~= styled + red_links(links_before(v, v.islands.len() as int), q + 1));
        }
        q += 1;
    }
    append_str(&mut out, "```\n");
    string_from_chars(out.as_slice())
}

/// The Markdown file with the Mermaid peering diagram of these peering
/// edges and subnet records, dated `date`.
pub fn peering_diagram_text(edges: &[PeeringEdge], subnets: &Data, date: &str) -> (r: String)
    ensures
        r@ == mermaid_text(topology_of(edges@, subnets.data@), date@),
{
    let topo = build_topology(edges, subnets);
    mermaid_from_topology(&topo, date)
}

} // verus!
