//! Graphviz DOT peering diagram: island clusters with per-subscription
//! boxes, on-premises (Local Network Gateway) nodes, vWAN hubs, fully
//! connected and broken peerings.
use crate::azure::graph::Data;
use crate::azure::local_gateway::LocalGatewayRow;
use crate::azure::peering_graph::{eq_ignore_ascii_case, same_ignoring_ascii_case, PeeringEdge};
use crate::azure::vwan_graph::VWanRow;
use crate::models::ipv4::cidr_text;
use crate::models::subnet::Subnet;
use crate::output::peering_diagram::{
    all_missing, cidrs_joined, first_sub, is_gateway, is_missing, island_number, meta_of, missing_label, nid, sub_or,
};
use crate::output::peering_topology::{
    arm_remote, build_topology, ident_text, meta_views, sanitize_id, node_id, topology_of, MetaView, PeeringTopology,
    TopologyView, VNetMeta,
};
use crate::output::validate_dot::{value_end, ValueEnd};
use crate::subnet_order::text_lt;
use crate::text::{
    append_chars, append_str, chars_of, decimal, has_prefix, join_strings, join_text, str_eq, string_from_chars,
    string_views,
};
use vstd::prelude::*;

verus! {

/// A character escaped for a Graphviz HTML label.
pub open spec fn html_char(c: char) -> Seq<char> {
    if c == '&' {
        "&amp;"@
    } else if c == '<' {
        "&lt;"@
    } else if c == '>' {
        "&gt;"@
    } else if c == '"' {
        "&quot;"@
    } else {
        seq![c]
    }
}

/// Text with `&`, `<`, `>` and `"` escaped for a Graphviz HTML label.
pub open spec fn html_text(s: Seq<char>) -> Seq<char>
    decreases s.len(),
{
    if s.len() == 0 {
        Seq::empty()
    } else {
        html_text(s.drop_last()) + html_char(s.last())
    }
}

/// A character escaped for a quoted DOT string: `"` and `\` get a
/// backslash before them.
pub open spec fn quote_char(c: char) -> Seq<char> {
    if c == '"' {
        seq!['\\', '"']
    } else if c == '\\' {
        seq!['\\', '\\']
    } else {
        seq![c]
    }
}

/// Text escaped for a quoted DOT string.
pub open spec fn dot_quoted(s: Seq<char>) -> Seq<char>
    decreases s.len(),
{
    if s.len() == 0 {
        Seq::empty()
    } else {
        dot_quoted(s.drop_last()) + quote_char(s.last())
    }
}

/// Every character of the text is ASCII.
pub open spec fn all_ascii(s: Seq<char>) -> bool {
    forall|i: int| 0 <= i < s.len() ==> (#[trigger] s[i] as u32) < 128
}

proof fn lemma_dot_quoted_cons(c: char, s: Seq<char>)
    ensures
        dot_quoted(seq![c] + s) == quote_char(c) + dot_quoted(s),
    decreases s.len(),
{
    let t = seq![c] + s;
    if s.len() == 0 {
        assert(t =~= seq![c]);
        assert(t.drop_last() =~= Seq::<char>::empty());
        assert(t.last() == c);
        assert(dot_quoted(Seq::<char>::empty()) == Seq::<char>::empty());
        assert(dot_quoted(s) == Seq::<char>::empty());
        assert(dot_quoted(t) == dot_quoted(t.drop_last()) + quote_char(t.last()));
        assert(dot_quoted(t) =~= quote_char(c) + dot_quoted(s));
    } else {
        assert(t.drop_last() =~= seq![c] + s.drop_last());
        assert(t.last() == s.last());
        lemma_dot_quoted_cons(c, s.drop_last());
        assert(dot_quoted(t) =~= quote_char(c) + dot_quoted(s));
    }
}

proof fn lemma_value_end_skips_quoted(r: Seq<char>, i: int, s: Seq<char>)
    requires
        0 <= i,
        i + dot_quoted(s).len() <= r.len(),
        r.subrange(i, i + dot_quoted(s).len()) == dot_quoted(s),
        all_ascii(s),
    ensures
        value_end(r, i, false) == value_end(r, i + dot_quoted(s).len(), false),
    decreases s.len(),
{
    if s.len() > 0 {
        let c = s[0];
        let rest = s.drop_first();
        assert(s =~= seq![c] + rest);
        lemma_dot_quoted_cons(c, rest);
        let q = quote_char(c);
        let d = dot_quoted(rest);
        let n = dot_quoted(s).len();
        assert(dot_quoted(s) == q + d);
        assert(forall|k: int| 0 <= k < n ==> r[i + k] == #[trigger] dot_quoted(s)[k]) by {
            assert forall|k: int| 0 <= k < n implies r[i + k] == #[trigger] dot_quoted(s)[k] by {
                assert(r.subrange(i, i + n)[k] == r[i + k]);
            }
        }
        assert(all_ascii(rest)) by {
            assert forall|k: int| 0 <= k < rest.len() implies (#[trigger] rest[k] as u32) < 128 by {
                assert(rest[k] == s[k + 1]);
            }
        }
        assert((s[0] as u32) < 128);
        assert(r.subrange(i + q.len(), i + q.len() + d.len()) =~= d) by {
            assert forall|k: int| 0 <= k < d.len() implies r.subrange(i + q.len(), i + q.len() + d.len())[k] == d[k] by {
                assert(dot_quoted(s)[q.len() + k] == d[k]);
            }
        }
        lemma_value_end_skips_quoted(r, i + q.len(), rest);
        if c == '"' || c == '\\' {
            assert(q.len() == 2);
            assert(r[i] == '\\') by {
                assert(dot_quoted(s)[0] == q[0]);
            }
            assert(r[i + 1] == c) by {
                assert(dot_quoted(s)[1] == q[1]);
            }
            assert(value_end(r, i, false) == value_end(r, i + 1, true));
            assert(value_end(r, i + 1, true) == value_end(r, i + 2, false));
        } else {
            assert(q.len() == 1);
            assert(r[i] == c) by {
                assert(dot_quoted(s)[0] == q[0]);
            }
            assert(value_end(r, i, false) == value_end(r, i + 1, false));
        }
    }
}

/// Law: the DOT checker reads a plain label whose value is an ASCII text
/// escaped by `dot_quote`, followed by the closing quote, to exactly that
/// quote, whatever comes after it: escaped quotes and backslashes in the
/// text neither end the value early nor hide its end.
pub proof fn lemma_quoted_label_closes(s: Seq<char>, tail: Seq<char>)
    requires
        all_ascii(s),
    ensures
        value_end(dot_quoted(s) + seq!['"'] + tail, 0, false) == ValueEnd::Closed(dot_quoted(s).len() as int),
{
    let r = dot_quoted(s) + seq!['"'] + tail;
    let n = dot_quoted(s).len() as int;
    assert(r.subrange(0, n) =~= dot_quoted(s));
    lemma_value_end_skips_quoted(r, 0, s);
    assert(r[n] == '"');
}

/// The escaped form of an ASCII text is ASCII, and holds no quote.
proof fn lemma_html_text_facts(s: Seq<char>)
    ensures
        all_ascii(s) ==> all_ascii(html_text(s)),
        forall|k: int| 0 <= k < html_text(s).len() ==> #[trigger] html_text(s)[k] != '"',
        forall|k: int| 0 <= k < html_text(s).len() ==> html_text(s)[k] != '<' && html_text(s)[k] != '>',
    decreases s.len(),
{
    reveal_strlit("&amp;");
    reveal_strlit("&lt;");
    reveal_strlit("&gt;");
    reveal_strlit("&quot;");
    if s.len() > 0 {
        let p = s.drop_last();
        lemma_html_text_facts(p);
        let a = html_text(p);
        let b = html_char(s.last());
        assert(html_text(s) == a + b);
        if all_ascii(s) {
            assert((s[s.len() - 1] as u32) < 128);
            assert(all_ascii(p)) by {
                assert forall|k: int| 0 <= k < p.len() implies (#[trigger] p[k] as u32) < 128 by {
                    assert(p[k] == s[k]);
                }
            }
        }
        assert forall|k: int| 0 <= k < html_text(s).len() implies #[trigger] html_text(s)[k] != '"'
            && html_text(s)[k] != '<' && html_text(s)[k] != '>' && (all_ascii(s) ==> (html_text(s)[k] as u32) < 128) by {
            if k < a.len() {
                assert(html_text(s)[k] == a[k]);
            } else {
                assert(html_text(s)[k] == b[k - a.len()]);
            }
        }
    }
}

/// Law: text escaped for an HTML label holds no `"`, `<` or `>`, so it can
/// neither close the label nor open a quoted string, and the escaped form of
/// an ASCII text is ASCII.
pub proof fn lemma_html_label_text(s: Seq<char>)
    ensures
        all_ascii(s) ==> all_ascii(html_text(s)),
        forall|k: int| 0 <= k < html_text(s).len() ==> #[trigger] html_text(s)[k] != '"' && html_text(s)[k] != '<'
            && html_text(s)[k] != '>',
{
    lemma_html_text_facts(s);
}

/// Each text escaped for a quoted DOT string.
pub open spec fn quoted_lines(v: Seq<Seq<char>>) -> Seq<Seq<char>> {
    v.map_values(|t: Seq<char>| dot_quoted(t))
}

/// Each text escaped for an HTML label.
pub open spec fn html_lines(v: Seq<Seq<char>>) -> Seq<Seq<char>> {
    v.map_values(|t: Seq<char>| html_text(t))
}

/// `s` with `x` added at the end unless it is there.
pub open spec fn push_new(s: Seq<Seq<char>>, x: Seq<char>) -> Seq<Seq<char>> {
    if s.contains(x) {
        s
    } else {
        s.push(x)
    }
}

/// `s` with each of `xs` added in turn unless it is there.
pub open spec fn push_all_new(s: Seq<Seq<char>>, xs: Seq<Seq<char>>) -> Seq<Seq<char>>
    decreases xs.len(),
{
    if xs.len() == 0 {
        s
    } else {
        push_new(push_all_new(s, xs.drop_last()), xs.last())
    }
}

/// The Local Network Gateways of VNet `v` among the first `n` rows, each
/// once, in order.
pub open spec fn lng_names(rows: Seq<LocalGatewayRow>, v: Seq<char>, n: int) -> Seq<Seq<char>>
    decreases n,
{
    if n <= 0 {
        Seq::empty()
    } else if rows[n - 1].vnet_name@ == v {
        push_new(lng_names(rows, v, n - 1), rows[n - 1].local_gw_name@)
    } else {
        lng_names(rows, v, n - 1)
    }
}

/// The on-premises prefixes of VNet `v`'s first `n` rows, each once, in
/// order.
pub open spec fn lng_cidrs(rows: Seq<LocalGatewayRow>, v: Seq<char>, n: int) -> Seq<Seq<char>>
    decreases n,
{
    if n <= 0 {
        Seq::empty()
    } else if rows[n - 1].vnet_name@ == v {
        push_all_new(lng_cidrs(rows, v, n - 1), string_views(rows[n - 1].address_prefixes@))
    } else {
        lng_cidrs(rows, v, n - 1)
    }
}

/// The first row from position `k` on that matches: by gateway VNet when
/// `by_vnet`, else by Local Network Gateway name.
pub open spec fn first_row(rows: Seq<LocalGatewayRow>, name: Seq<char>, by_vnet: bool, k: int) -> Option<
    LocalGatewayRow,
>
    decreases rows.len() - k,
{
    if k < 0 || k >= rows.len() {
        None
    } else if (if by_vnet {
        rows[k].vnet_name@
    } else {
        rows[k].local_gw_name@
    }) == name {
        Some(rows[k])
    } else {
        first_row(rows, name, by_vnet, k + 1)
    }
}

/// The Azure VPN gateway of VNet `v` (from its first row; empty if none).
pub open spec fn vng_of(rows: Seq<LocalGatewayRow>, v: Seq<char>) -> Seq<char> {
    match first_row(rows, v, true, 0) {
        Some(r) => r.vng_name@,
        None => Seq::empty(),
    }
}

/// The BGP ASN of VNet `v`'s Azure VPN gateway (empty if none).
pub open spec fn vng_asn_of(rows: Seq<LocalGatewayRow>, v: Seq<char>) -> Seq<char> {
    match first_row(rows, v, true, 0) {
        Some(r) => r.vng_bgp_asn@,
        None => Seq::empty(),
    }
}

/// The metadata entry at `k` is a gateway VNet with Local Network Gateways.
pub open spec fn has_onprem(ms: Seq<MetaView>, rows: Seq<LocalGatewayRow>, k: int) -> bool {
    ms[k].has_gateway && lng_names(rows, ms[k].name, rows.len() as int).len() > 0
}

/// The sorted Local Network Gateway names of VNet `v`.
pub open spec fn sorted_lngs(rows: Seq<LocalGatewayRow>, v: Seq<char>) -> Seq<Seq<char>> {
    crate::output::dup_report::sorted_texts(lng_names(rows, v, rows.len() as int))
}

/// The key of VNet `v`'s on-premises node: its sorted gateway names joined
/// with `|`.
pub open spec fn onprem_key(rows: Seq<LocalGatewayRow>, v: Seq<char>) -> Seq<char> {
    join_text(sorted_lngs(rows, v), "|"@)
}

/// One on-premises node: its key, gateway names, merged prefixes and
/// gateway VNets.
pub struct OnPremView {
    pub key: Seq<char>,
    pub names: Seq<Seq<char>>,
    pub cidrs: Seq<Seq<char>>,
    pub vnets: Seq<Seq<char>>,
}

/// Where the node with `key` stands, or would be inserted, in key order.
pub open spec fn onprem_pos(s: Seq<OnPremView>, key: Seq<char>) -> nat
    decreases s.len(),
{
    if s.len() == 0 || !text_lt(s[0].key, key) {
        0
    } else {
        1 + onprem_pos(s.drop_first(), key)
    }
}

/// `s` with gateway VNet `v` merged into the node of its key.
pub open spec fn onprem_add(s: Seq<OnPremView>, rows: Seq<LocalGatewayRow>, v: Seq<char>) -> Seq<OnPremView> {
    let key = onprem_key(rows, v);
    let p = onprem_pos(s, key) as int;
    let cidrs = lng_cidrs(rows, v, rows.len() as int);
    if p < s.len() && s[p].key == key {
        s.update(
            p,
            OnPremView { cidrs: push_all_new(s[p].cidrs, cidrs), vnets: push_new(s[p].vnets, v), ..s[p] },
        )
    } else {
        s.insert(
            p,
            OnPremView { key, names: sorted_lngs(rows, v), cidrs: push_all_new(Seq::empty(), cidrs), vnets: seq![v] },
        )
    }
}

/// The on-premises nodes of the first `n` VNet entries, in key order.
pub open spec fn onprem_nodes(ms: Seq<MetaView>, rows: Seq<LocalGatewayRow>, n: int) -> Seq<OnPremView>
    decreases n,
{
    if n <= 0 {
        Seq::empty()
    } else if has_onprem(ms, rows, n - 1) {
        onprem_add(onprem_nodes(ms, rows, n - 1), rows, ms[n - 1].name)
    } else {
        onprem_nodes(ms, rows, n - 1)
    }
}

/// The identifier of an on-premises node.
pub open spec fn ext_id(key: Seq<char>) -> Seq<char> {
    "ext_"@ + ident_text(key)
}

/// The non-empty texts of `s`, in order.
pub open spec fn nonempty_texts(s: Seq<Seq<char>>) -> Seq<Seq<char>>
    decreases s.len(),
{
    if s.len() == 0 {
        s
    } else if s.last().len() > 0 {
        nonempty_texts(s.drop_last()).push(s.last())
    } else {
        nonempty_texts(s.drop_last())
    }
}

/// The public IP shown for an on-premises device.
pub open spec fn public_ip(r: LocalGatewayRow) -> Seq<char> {
    if r.gateway_ip@.len() > 0 {
        r.gateway_ip@
    } else if r.gateway_ips@.len() > 0 {
        join_text(string_views(r.gateway_ips@), ","@)
    } else {
        Seq::empty()
    }
}

/// The lines describing one Local Network Gateway of a node.
pub open spec fn lng_lines(rows: Seq<LocalGatewayRow>, node: OnPremView, name: Seq<char>) -> Seq<Seq<char>> {
    let head = seq!["LNG:"@ + name];
    match first_row(rows, name, false, 0) {
        Some(r) => {
            let ip = public_ip(r);
            let with_ip = if ip.len() > 0 {
                head.push("PubIP:"@ + ip)
            } else {
                head
            };
            let with_bgp = if r.bgp_asn@.len() > 0 {
                with_ip.push(
                    if r.bgp_peer_ip@.len() == 0 {
                        "BGP ASN:"@ + r.bgp_asn@
                    } else {
                        "BGP ASN:"@ + r.bgp_asn@ + " Peer:"@ + r.bgp_peer_ip@
                    },
                )
            } else {
                with_ip
            };
            with_bgp + nonempty_texts(string_views(r.address_prefixes@))
        },
        None => head + nonempty_texts(node.cidrs),
    }
}

/// The label of an on-premises node: one section per gateway name.
pub open spec fn onprem_label(rows: Seq<LocalGatewayRow>, node: OnPremView) -> Seq<char> {
    join_text(
        node.names.map_values(|name: Seq<char>| join_text(quoted_lines(lng_lines(rows, node, name)), "\\n"@)),
        "\\n---\\n"@,
    )
}

/// The line of an on-premises node.
pub open spec fn onprem_line(rows: Seq<LocalGatewayRow>, node: OnPremView) -> Seq<char> {
    "    "@ + ext_id(node.key) + " [label=\""@ + onprem_label(rows, node)
        + "\" shape=ellipse style=\"filled\" fillcolor=\"#b3d9f7\"]\n"@
}

/// The lines of the first `k` on-premises nodes.
pub open spec fn onprem_lines(rows: Seq<LocalGatewayRow>, nodes: Seq<OnPremView>, k: int) -> Seq<char>
    decreases k,
{
    if k <= 0 {
        Seq::empty()
    } else {
        onprem_lines(rows, nodes, k - 1) + onprem_line(rows, nodes[k - 1])
    }
}

/// The block of on-premises nodes (empty when there are none).
pub open spec fn onprem_block(rows: Seq<LocalGatewayRow>, nodes: Seq<OnPremView>) -> Seq<char> {
    if nodes.len() == 0 {
        Seq::empty()
    } else {
        "    // On-Premises nodes (outside all Islands)\n"@ + onprem_lines(rows, nodes, nodes.len() as int) + "\n"@
    }
}

/// Background colours cycled per island.
pub open spec fn island_colour(i: int) -> Seq<char> {
    let k = i % 7;
    if k == 0 {
        "#f0f4ff"@
    } else if k == 1 {
        "#fff8f0"@
    } else if k == 2 {
        "#f0fff4"@
    } else if k == 3 {
        "#fff0f4"@
    } else if k == 4 {
        "#f4f0ff"@
    } else if k == 5 {
        "#f0ffff"@
    } else {
        "#fffff0"@
    }
}

/// Some VNet of the island is missing.
pub open spec fn any_missing(ms: Seq<MetaView>, vnets: Seq<Seq<char>>) -> bool {
    exists|k: int| 0 <= k < vnets.len() && is_missing(ms, #[trigger] vnets[k])
}

/// Fill colour, font colour and label of island `i`'s cluster.
pub open spec fn cluster_style(t: TopologyView, i: int) -> (Seq<char>, Seq<char>, Seq<char>) {
    let vnets = t.islands[i];
    if all_missing(t.metas, vnets) {
        ("#8b0000"@, "white"@, "\""@ + dot_quoted(missing_label(t.metas, vnets)) + "\""@)
    } else if any_missing(t.metas, vnets) {
        ("#ffe0e0"@, "black"@, "<"@ + island_number(i) + " [&#x26A0; missing peers]>"@)
    } else {
        (island_colour(i), "black"@, "\""@ + island_number(i) + "\""@)
    }
}

/// The subscription a VNet is grouped under (empty when unknown).
pub open spec fn sub_key(ms: Seq<MetaView>, v: Seq<char>) -> Seq<char> {
    sub_or(ms, v, Seq::empty())
}

/// The distinct subscriptions of the first `n` VNets, in order of first
/// sight.
pub open spec fn subs_seen(ms: Seq<MetaView>, vnets: Seq<Seq<char>>, n: int) -> Seq<Seq<char>>
    decreases n,
{
    if n <= 0 {
        Seq::empty()
    } else {
        push_new(subs_seen(ms, vnets, n - 1), sub_key(ms, vnets[n - 1]))
    }
}

/// The subscriptions of an island's VNets, sorted.
pub open spec fn island_subs(ms: Seq<MetaView>, vnets: Seq<Seq<char>>) -> Seq<Seq<char>> {
    crate::output::dup_report::sorted_texts(subs_seen(ms, vnets, vnets.len() as int))
}

/// The first `n` VNets of the island that belong to subscription `sub`.
pub open spec fn vnets_of_sub(ms: Seq<MetaView>, vnets: Seq<Seq<char>>, sub: Seq<char>, n: int) -> Seq<Seq<char>>
    decreases n,
{
    if n <= 0 {
        Seq::empty()
    } else if sub_key(ms, vnets[n - 1]) == sub {
        vnets_of_sub(ms, vnets, sub, n - 1).push(vnets[n - 1])
    } else {
        vnets_of_sub(ms, vnets, sub, n - 1)
    }
}

/// The extra node attributes that colour a VNet.
pub open spec fn node_fill(ms: Seq<MetaView>, v: Seq<char>) -> Seq<char> {
    if is_missing(ms, v) {
        " fillcolor=\"#cc3333\" fontcolor=\"white\""@
    } else if is_gateway(ms, v) {
        " fillcolor=\"#fff3b0\""@
    } else {
        Seq::empty()
    }
}

/// The sort key of a subnet: its address, unset blocks last.
pub open spec fn addr_key(s: Subnet) -> int {
    match s.subnet_cidr {
        Some(c) => c.addr as int,
        None => u32::MAX as int,
    }
}

/// The active subnets of VNet `v` among the first `n` records, in order.
pub open spec fn vnet_subnets(subs: Seq<Subnet>, v: Seq<char>, n: int) -> Seq<Subnet>
    decreases n,
{
    if n <= 0 {
        Seq::empty()
    } else if subs[n - 1].vnet_name@ == v && subs[n - 1].excluded_by is None {
        vnet_subnets(subs, v, n - 1).push(subs[n - 1])
    } else {
        vnet_subnets(subs, v, n - 1)
    }
}

/// Where a stable insertion by address puts `x`.
pub open spec fn addr_pos(s: Seq<Subnet>, x: Subnet) -> nat
    decreases s.len(),
{
    if s.len() == 0 || !(addr_key(s[0]) < addr_key(x)) {
        0
    } else {
        1 + addr_pos(s.drop_first(), x)
    }
}

/// The subnets stably sorted by address (`sort_by_key`).
pub open spec fn by_addr(s: Seq<Subnet>) -> Seq<Subnet>
    decreases s.len(),
{
    if s.len() == 0 {
        s
    } else {
        let t = by_addr(s.drop_first());
        t.insert(addr_pos(t, s[0]) as int, s[0])
    }
}

/// The line of a subnet in a VNet label.
pub open spec fn subnet_part(s: Subnet) -> Seq<char> {
    match s.subnet_cidr {
        Some(c) => "Subnet:"@ + s.subnet_name@ + " CIDR:"@ + cidr_text(c),
        None => "Subnet:"@ + s.subnet_name@,
    }
}

/// The bold red line of a gateway subnet's Azure VPN gateway.
pub open spec fn vng_part(vng: Seq<char>, asn: Seq<char>) -> Seq<char> {
    let line = if asn.len() > 0 {
        "  &#x2514; VNG:"@ + html_text(vng) + " BGP:ASN:"@ + html_text(asn)
    } else {
        "  &#x2514; VNG:"@ + html_text(vng)
    };
    "<B><FONT COLOR=\"darkred\">"@ + line + "</FONT></B>"@
}

/// The label parts of the first `n` subnets.
pub open spec fn subnet_parts(subs: Seq<Subnet>, vng: Seq<char>, asn: Seq<char>, n: int) -> Seq<Seq<char>>
    decreases n,
{
    if n <= 0 {
        Seq::empty()
    } else {
        let s = subs[n - 1];
        let pre = subnet_parts(subs, vng, asn, n - 1).push(html_text(subnet_part(s)));
        if same_ignoring_ascii_case(s.subnet_name@, "GatewaySubnet"@) && vng.len() > 0 {
            pre.push(vng_part(vng, asn))
        } else {
            pre
        }
    }
}

/// How many of the first `n` subnets are named `GatewaySubnet`, in any
/// ASCII case.
pub open spec fn gateway_subnet_count(subs: Seq<Subnet>, n: int) -> nat
    decreases n,
{
    if n <= 0 {
        0
    } else {
        gateway_subnet_count(subs, n - 1) + if same_ignoring_ascii_case(subs[n - 1].subnet_name@, "GatewaySubnet"@) {
            1nat
        } else {
            0nat
        }
    }
}

/// Law (VPN gateway line): in a VNet's label the bold gateway line appears
/// once per subnet named `GatewaySubnet` (in any ASCII case) when the VNet
/// has an Azure VPN gateway, and never otherwise; each such line comes right
/// after the line of a subnet named `GatewaySubnet`.
pub proof fn lemma_vng_line_follows_gateway_subnet(subs: Seq<Subnet>, vng: Seq<char>, asn: Seq<char>, n: int)
    requires
        0 <= n <= subs.len(),
    ensures
        subnet_parts(subs, vng, asn, n).len() == n + if vng.len() > 0 {
            gateway_subnet_count(subs, n)
        } else {
            0
        },
        forall|p: int|
            0 <= p < subnet_parts(subs, vng, asn, n).len() && #[trigger] subnet_parts(subs, vng, asn, n)[p]
                == vng_part(vng, asn) ==> {
                &&& vng.len() > 0
                &&& p > 0
                &&& exists|k: int|
                    0 <= k < n && same_ignoring_ascii_case(subs[k].subnet_name@, "GatewaySubnet"@)
                        && subnet_parts(subs, vng, asn, n)[p - 1] == html_text(#[trigger] subnet_part(subs[k]))
            },
    decreases n,
{
    if n > 0 {
        lemma_vng_line_follows_gateway_subnet(subs, vng, asn, n - 1);
        let prev = subnet_parts(subs, vng, asn, n - 1);
        let s = subs[n - 1];
        let h = html_text(subnet_part(s));
        let parts = subnet_parts(subs, vng, asn, n);
        reveal_strlit("<B><FONT COLOR=\"darkred\">");
        lemma_html_text_facts(subnet_part(s));
        assert(vng_part(vng, asn)[0] == '<');
        assert(h != vng_part(vng, asn)) by {
            if h == vng_part(vng, asn) {
                assert(h[0] == '<');
            }
        }
        assert forall|p: int| 0 <= p < parts.len() && #[trigger] parts[p] == vng_part(vng, asn) implies {
            &&& vng.len() > 0
            &&& p > 0
            &&& exists|k: int|
                0 <= k < n && same_ignoring_ascii_case(subs[k].subnet_name@, "GatewaySubnet"@) && parts[p - 1]
                    == html_text(#[trigger] subnet_part(subs[k]))
        } by {
            if p < prev.len() {
                assert(parts[p] == prev[p]);
                assert(parts[p - 1] == prev[p - 1]);
                let k = choose|k: int|
                    0 <= k < n - 1 && same_ignoring_ascii_case(subs[k].subnet_name@, "GatewaySubnet"@) && prev[p
                        - 1] == html_text(#[trigger] subnet_part(subs[k]));
                assert(parts[p - 1] == html_text(subnet_part(subs[k])));
            } else if p == prev.len() {
                assert(parts[p] == h);
            } else {
                assert(p == prev.len() + 1);
                assert(parts[p - 1] == h);
                assert(same_ignoring_ascii_case(subs[n - 1].subnet_name@, "GatewaySubnet"@));
            }
        }
    }
}

/// The line break of an HTML label.
pub open spec fn html_br() -> Seq<char> {
    "<BR ALIGN=\"LEFT\"/>"@
}

/// The address spaces of a VNet, each escaped for an HTML label, one per
/// line.
pub open spec fn missing_cidrs_html(ms: Seq<MetaView>, v: Seq<char>) -> Seq<char> {
    match meta_of(ms, v) {
        Some(m) => join_text(html_lines(m.vnet_cidr), "<BR/>"@),
        None => Seq::empty(),
    }
}

/// The HTML label of a missing VNet: a warning sign (as an HTML entity),
/// its subscription, its name and its address spaces, one per line.
pub open spec fn missing_node_label(shown: Seq<char>, v: Seq<char>, cidrs: Seq<char>) -> Seq<char> {
    "&#x26A0; MISSING<BR/>SUB:"@ + html_text(shown) + "<BR/>"@ + html_text(v) + (if cidrs.len() == 0 {
        Seq::empty()
    } else {
        "<BR/>"@ + cidrs
    })
}

/// The node line of a VNet in the DOT diagram.
#[verifier::opaque]
pub open spec fn dot_node(
    ms: Seq<MetaView>,
    subs: Seq<Subnet>,
    rows: Seq<LocalGatewayRow>,
    v: Seq<char>,
) -> Seq<char> {
    let fill = node_fill(ms, v);
    if is_missing(ms, v) {
        let sub = sub_or(ms, v, "?"@);
        let shown = if sub.len() == 0 {
            "unknown"@
        } else {
            sub
        };
        let cidrs = missing_cidrs_html(ms, v);
        "            "@ + nid(v) + " [label=<"@ + missing_node_label(shown, v, cidrs) + ">"@ + fill + "]\n"@
    } else {
        let cidrs = cidrs_joined(ms, v, ", "@);
        let head = seq![html_text("VNET:"@ + v)];
        let with_cidr = if cidrs.len() > 0 {
            head.push(html_text("CIDR:"@ + cidrs))
        } else {
            head
        };
        let listed = by_addr(vnet_subnets(subs, v, subs.len() as int));
        let parts = with_cidr + subnet_parts(listed, vng_of(rows, v), vng_asn_of(rows, v), listed.len() as int);
        "            "@ + nid(v) + " [label=<"@ + join_text(parts, html_br()) + html_br() + ">"@ + fill + "]\n"@
    }
}

/// The node lines of the first `n` VNets of a subscription box.
pub open spec fn dot_nodes(
    ms: Seq<MetaView>,
    subs: Seq<Subnet>,
    rows: Seq<LocalGatewayRow>,
    vnets: Seq<Seq<char>>,
    n: int,
) -> Seq<char>
    decreases n,
{
    if n <= 0 {
        Seq::empty()
    } else {
        dot_nodes(ms, subs, rows, vnets, n - 1) + dot_node(ms, subs, rows, vnets[n - 1])
    }
}

/// The subscription box `j` of island `i`.
pub open spec fn sub_box(t: TopologyView, subs: Seq<Subnet>, rows: Seq<LocalGatewayRow>, i: int, j: int) -> Seq<char> {
    let vnets = t.islands[i];
    let sub = island_subs(t.metas, vnets)[j];
    let members = vnets_of_sub(t.metas, vnets, sub, vnets.len() as int);
    "        subgraph cluster_sub_"@ + crate::text::dec(i as nat) + "_"@ + crate::text::dec(j as nat) + " {\n"@
        + "            label=\""@ + (if sub.len() == 0 {
        "unknown"@
    } else {
        dot_quoted(sub)
    }) + "\"\n"@ + "            style=\"filled,dashed\" fillcolor=\"white\" color=\"#666666\"\n"@
        + "            fontname=\"Helvetica\" fontsize=11\n"@ + dot_nodes(t.metas, subs, rows, members, members.len() as int)
        + "        }\n"@
}

/// The first `k` subscription boxes of island `i`.
pub open spec fn sub_boxes(t: TopologyView, subs: Seq<Subnet>, rows: Seq<LocalGatewayRow>, i: int, k: int) -> Seq<char>
    decreases k,
{
    if k <= 0 {
        Seq::empty()
    } else {
        sub_boxes(t, subs, rows, i, k - 1) + sub_box(t, subs, rows, i, k - 1)
    }
}

/// The cluster of island `i`.
pub open spec fn dot_cluster(t: TopologyView, subs: Seq<Subnet>, rows: Seq<LocalGatewayRow>, i: int) -> Seq<char> {
    let (fill, font, label) = cluster_style(t, i);
    "    subgraph cluster_"@ + crate::text::dec(i as nat) + " {\n"@ + "        label="@ + label + "\n"@
        + "        style=filled fillcolor=\""@ + fill + "\" fontcolor=\""@ + font + "\"\n"@
        + "        fontname=\"Helvetica\" fontsize=12\n"@ + sub_boxes(
        t,
        subs,
        rows,
        i,
        island_subs(t.metas, t.islands[i]).len() as int,
    ) + "    }\n"@ + "\n"@
}

/// The clusters of the first `n` islands.
pub open spec fn dot_clusters(t: TopologyView, subs: Seq<Subnet>, rows: Seq<LocalGatewayRow>, n: int) -> Seq<char>
    decreases n,
{
    if n <= 0 {
        Seq::empty()
    } else {
        dot_clusters(t, subs, rows, n - 1) + dot_cluster(t, subs, rows, n - 1)
    }
}

/// The VNets that are spokes of vWAN hub `hub` among the first `n` edges:
/// sources of edges to a fabric VNet named `HV_<hub>_...`, each once.
pub open spec fn hub_spokes(edges: Seq<PeeringEdge>, hub: Seq<char>, n: int) -> Seq<Seq<char>>
    decreases n,
{
    if n <= 0 {
        Seq::empty()
    } else if has_prefix(arm_remote(edges[n - 1]), "HV_"@ + hub + "_"@) {
        push_new(hub_spokes(edges, hub, n - 1), edges[n - 1].vnet_name@)
    } else {
        hub_spokes(edges, hub, n - 1)
    }
}

/// The identifier of a vWAN hub node.
pub open spec fn hub_id(hub: Seq<char>) -> Seq<char> {
    "vwan_"@ + ident_text(hub)
}

/// The label lines of a vWAN hub.
pub open spec fn hub_label(h: VWanRow) -> Seq<char> {
    let head = seq!["vWAN Hub:"@ + h.hub_name@];
    let with_cidr = if h.hub_address_prefix@.len() > 0 {
        head.push("CIDR:"@ + h.hub_address_prefix@)
    } else {
        head
    };
    let lines = if h.virtual_wan_name@.len() > 0 {
        with_cidr.push("vWAN:"@ + h.virtual_wan_name@)
    } else {
        with_cidr
    };
    join_text(quoted_lines(lines), "\\n"@)
}

/// The node lines of the first `k` hubs.
pub open spec fn hub_lines(hubs: Seq<VWanRow>, k: int) -> Seq<char>
    decreases k,
{
    if k <= 0 {
        Seq::empty()
    } else {
        hub_lines(hubs, k - 1) + "    "@ + hub_id(hubs[k - 1].hub_name@) + " [label=\""@ + hub_label(hubs[k - 1])
            + "\" shape=diamond style=\"filled\" fillcolor=\"#e8d5f5\" color=\"#6a0dad\" penwidth=2]\n"@
    }
}

/// The spoke edges of the first `m` sorted spokes of a hub that appear in
/// the diagram.
pub open spec fn spoke_lines(ms: Seq<MetaView>, hub: Seq<char>, spokes: Seq<Seq<char>>, m: int) -> Seq<char>
    decreases m,
{
    if m <= 0 {
        Seq::empty()
    } else if meta_of(ms, spokes[m - 1]) is Some {
        spoke_lines(ms, hub, spokes, m - 1) + "    "@ + nid(spokes[m - 1]) + " -> "@ + hub_id(hub)
            + " [dir=none color=\"#6a0dad\" penwidth=1.5]\n"@
    } else {
        spoke_lines(ms, hub, spokes, m - 1)
    }
}

/// The spoke edges of the first `k` hubs.
pub open spec fn hubs_spokes(ms: Seq<MetaView>, edges: Seq<PeeringEdge>, hubs: Seq<VWanRow>, k: int) -> Seq<char>
    decreases k,
{
    if k <= 0 {
        Seq::empty()
    } else {
        let hub = hubs[k - 1].hub_name@;
        let spokes = crate::output::dup_report::sorted_texts(hub_spokes(edges, hub, edges.len() as int));
        hubs_spokes(ms, edges, hubs, k - 1) + spoke_lines(ms, hub, spokes, spokes.len() as int)
    }
}

/// The vWAN block (empty when there are no hubs).
pub open spec fn vwan_block(ms: Seq<MetaView>, edges: Seq<PeeringEdge>, hubs: Seq<VWanRow>) -> Seq<char> {
    if hubs.len() == 0 {
        Seq::empty()
    } else {
        "    // vWAN Hub nodes\n"@ + hub_lines(hubs, hubs.len() as int) + "\n"@
            + "    // Spoke VNet \u{2192} vWAN Hub connections\n"@ + hubs_spokes(ms, edges, hubs, hubs.len() as int)
            + "\n"@
    }
}

/// The edges from the first `n` gateway VNets to their on-premises nodes.
pub open spec fn gateway_edges(ms: Seq<MetaView>, rows: Seq<LocalGatewayRow>, n: int) -> Seq<char>
    decreases n,
{
    if n <= 0 {
        Seq::empty()
    } else if has_onprem(ms, rows, n - 1) {
        gateway_edges(ms, rows, n - 1) + "    "@ + nid(ms[n - 1].name) + " -> "@ + ext_id(onprem_key(rows, ms[n - 1].name))
            + " [dir=none color=\"#1a5fa8\" penwidth=2]\n"@
    } else {
        gateway_edges(ms, rows, n - 1)
    }
}

/// Some VNet entry has on-premises gateways.
pub open spec fn any_onprem(ms: Seq<MetaView>, rows: Seq<LocalGatewayRow>) -> bool {
    exists|k: int| 0 <= k < ms.len() && #[trigger] has_onprem(ms, rows, k)
}

/// The block of gateway edges (empty when there are none).
pub open spec fn gateway_block(ms: Seq<MetaView>, rows: Seq<LocalGatewayRow>) -> Seq<char> {
    if any_onprem(ms, rows) {
        "    // Gateway VNet \u{2192} On-Premises connections\n"@ + gateway_edges(ms, rows, ms.len() as int) + "\n"@
    } else {
        Seq::empty()
    }
}

/// Pair order: by first name, then by second.
pub open spec fn pair_lt(a: (Seq<char>, Seq<char>), b: (Seq<char>, Seq<char>)) -> bool {
    text_lt(a.0, b.0) || (a.0 == b.0 && text_lt(a.1, b.1))
}

/// Where an insertion in pair order puts `x`.
pub open spec fn pair_pos(s: Seq<(Seq<char>, Seq<char>)>, x: (Seq<char>, Seq<char>)) -> nat
    decreases s.len(),
{
    if s.len() == 0 || !pair_lt(s[0], x) {
        0
    } else {
        1 + pair_pos(s.drop_first(), x)
    }
}

/// The pairs sorted (by insertion, in pair order).
pub open spec fn sorted_pairs(s: Seq<(Seq<char>, Seq<char>)>) -> Seq<(Seq<char>, Seq<char>)>
    decreases s.len(),
{
    if s.len() == 0 {
        s
    } else {
        let t = sorted_pairs(s.drop_first());
        t.insert(pair_pos(t, s[0]) as int, s[0])
    }
}

/// The two-way edges of the first `k` pairs.
pub open spec fn bidir_lines(ps: Seq<(Seq<char>, Seq<char>)>, k: int) -> Seq<char>
    decreases k,
{
    if k <= 0 {
        Seq::empty()
    } else {
        bidir_lines(ps, k - 1) + "    "@ + nid(ps[k - 1].0) + " -> "@ + nid(ps[k - 1].1) + " [dir=both]\n"@
    }
}

/// The broken edges of the first `k` broken peerings.
pub open spec fn broken_lines(bs: Seq<(Seq<char>, Seq<char>)>, k: int) -> Seq<char>
    decreases k,
{
    if k <= 0 {
        Seq::empty()
    } else {
        broken_lines(bs, k - 1) + "    "@ + nid(bs[k - 1].0) + " -> "@ + nid(bs[k - 1].1)
            + " [color=red style=dashed penwidth=2 label=\"broken\"]\n"@
    }
}

/// The peering edges: fully connected pairs in pair order, then broken
/// peerings (each block only when it has lines).
pub open spec fn peering_blocks(t: TopologyView) -> Seq<char> {
    let ps = sorted_pairs(t.bidir);
    (if t.bidir.len() > 0 {
        "    // Fully connected (bidirectional) peerings\n"@ + bidir_lines(ps, ps.len() as int) + "\n"@
    } else {
        Seq::empty()
    }) + (if t.broken.len() > 0 {
        "    // Broken / asymmetric peerings\n"@ + broken_lines(t.broken, t.broken.len() as int) + "\n"@
    } else {
        Seq::empty()
    })
}

/// The head of the DOT file.
pub open spec fn dot_head(date: Seq<char>, filename: Seq<char>) -> Seq<char> {
    "// Azure VNet Peering Diagram \u{2014} generated "@ + date + "\n"@ + "// Render: dot -Kfdp -Tsvg "@ + filename
        + " -o peering.svg\n"@ + "digraph azure_vnet_peering {\n"@
        + "    graph [layout=fdp overlap=false splines=true fontname=\"Helvetica\"]\n"@
        + "    node  [shape=box style=\"filled,rounded\" fillcolor=\"#ddeeff\" fontname=\"Helvetica\" margin=\"0.3,0.1\"]\n"@
        + "    edge  [fontname=\"Helvetica\" fontsize=10]\n"@ + "\n"@
}

/// The DOT file of the topology, with its subnet records, local gateway
/// rows, vWAN hubs and the peering edges (for the hubs' spokes).
pub open spec fn dot_text(
    t: TopologyView,
    subs: Seq<Subnet>,
    rows: Seq<LocalGatewayRow>,
    hubs: Seq<VWanRow>,
    edges: Seq<PeeringEdge>,
    date: Seq<char>,
    filename: Seq<char>,
) -> Seq<char> {
    dot_head(date, filename) + onprem_block(rows, onprem_nodes(t.metas, rows, t.metas.len() as int)) + dot_clusters(
        t,
        subs,
        rows,
        t.islands.len() as int,
    ) + vwan_block(t.metas, edges, hubs) + gateway_block(t.metas, rows) + peering_blocks(t) + "}\n"@
}

/// Appends the characters of a `String`.
fn push_string(out: &mut Vec<char>, s: &String)
    ensures
        final(out)@ == old(out)@ + s@,
{
    append_str(out, s.as_str());
}

/// Escapes `&`, `<`, `>` and `"` for a Graphviz HTML label.
pub fn html_escape(s: &str) -> (r: String)
    ensures
        r@ == html_text(s@),
{
    let cs = chars_of(s);
    let mut out: Vec<char> = Vec::new();
    let mut k: usize = 0;
    while k < cs.len()
        invariant
            k <= cs@.len(),
            cs@ == s@,
            out@ == html_text(s@.subrange(0, k as int)),
        decreases cs@.len() - k,
    {
        let c = cs[k];
        let ghost before = out@;
        if c == '&' {
            append_str(&mut out, "&amp;");
        } else if c == '<' {
            append_str(&mut out, "&lt;");
        } else if c == '>' {
            append_str(&mut out, "&gt;");
        } else if c == '"' {
            append_str(&mut out, "&quot;");
        } else {
            out.push(c);
        }
        proof {
            let t = s@.subrange(0, k + 1);
            assert(t.drop_last() =~= s@.subrange(0, k as int));
            assert(t.last() == c);
            assert(out@ =~= before + html_char(c));
        }
        k += 1;
    }
    assert(s@.subrange(0, s@.len() as int) =~= s@);
    string_from_chars(out.as_slice())
}

/// Escapes `"` and `\` for a quoted DOT string.
pub fn dot_quote(s: &str) -> (r: String)
    ensures
        r@ == dot_quoted(s@),
{
    let cs = chars_of(s);
    let mut out: Vec<char> = Vec::new();
    let mut k: usize = 0;
    while k < cs.len()
        invariant
            k <= cs@.len(),
            cs@ == s@,
            out@ == dot_quoted(s@.subrange(0, k as int)),
        decreases cs@.len() - k,
    {
        let c = cs[k];
        let ghost before = out@;
        if c == '"' || c == '\\' {
            out.push('\\');
        }
        out.push(c);
        proof {
            let t = s@.subrange(0, k + 1);
            assert(t.drop_last() =~= s@.subrange(0, k as int));
            assert(t.last() == c);
            assert(out@ =~= before + quote_char(c));
        }
        k += 1;
    }
    assert(s@.subrange(0, s@.len() as int) =~= s@);
    string_from_chars(out.as_slice())
}

/// Each string escaped for a quoted DOT string.
fn quote_all(v: &Vec<String>) -> (r: Vec<String>)
    ensures
        string_views(r@) == quoted_lines(string_views(v@)),
{
    let mut out: Vec<String> = Vec::new();
    let mut k: usize = 0;
    while k < v.len()
        invariant
            k <= v@.len(),
            out@.len() == k,
            forall|q: int| 0 <= q < k ==> (#[trigger] out@[q])@ == dot_quoted(v@[q]@),
        decreases v@.len() - k,
    {
        out.push(dot_quote(v[k].as_str()));
        k += 1;
    }
    assert(string_views(out@) =~= quoted_lines(string_views(v@)));
    out
}

/// Each string escaped for an HTML label.
fn html_all(v: &Vec<String>) -> (r: Vec<String>)
    ensures
        string_views(r@) == html_lines(string_views(v@)),
{
    let mut out: Vec<String> = Vec::new();
    let mut k: usize = 0;
    while k < v.len()
        invariant
            k <= v@.len(),
            out@.len() == k,
            forall|q: int| 0 <= q < k ==> (#[trigger] out@[q])@ == html_text(v@[q]@),
        decreases v@.len() - k,
    {
        out.push(html_escape(v[k].as_str()));
        k += 1;
    }
    assert(string_views(out@) =~= html_lines(string_views(v@)));
    out
}

/// Whether `x` is one of the strings.
fn contains_string(v: &Vec<String>, x: &str) -> (r: bool)
    ensures
        r == string_views(v@).contains(x@),
{
    let mut k: usize = 0;
    while k < v.len()
        invariant
            k <= v@.len(),
            forall|i: int| 0 <= i < k ==> string_views(v@)[i] != x@,
        decreases v@.len() - k,
    {
        if str_eq(v[k].as_str(), x) {
            assert(string_views(v@)[k as int] == x@);
            return true;
        }
        k += 1;
    }
    false
}

/// Adds `x` at the end unless it is there.
fn push_new_exec(v: &mut Vec<String>, x: String)
    ensures
        string_views(final(v)@) == push_new(string_views(old(v)@), x@),
{
    if !contains_string(v, x.as_str()) {
        let ghost before = v@;
        v.push(x);
        assert(string_views(v@) =~= string_views(before).push(x@));
    }
}

/// Adds each of `xs` in turn unless it is there.
fn push_all_new_exec(v: &mut Vec<String>, xs: &Vec<String>)
    ensures
        string_views(final(v)@) == push_all_new(string_views(old(v)@), string_views(xs@)),
{
    let ghost start = string_views(v@);
    let mut k: usize = 0;
    while k < xs.len()
        invariant
            k <= xs@.len(),
            string_views(v@) == push_all_new(start, string_views(xs@.subrange(0, k as int))),
        decreases xs@.len() - k,
    {
        push_new_exec(v, xs[k].clone());
        proof {
            let t = string_views(xs@.subrange(0, k + 1));
            assert(t.drop_last() =~= string_views(xs@.subrange(0, k as int)));
            assert(t.last() == xs@[k as int]@);
        }
        k += 1;
    }
    assert(xs@.subrange(0, xs@.len() as int) =~= xs@);
}

/// The Local Network Gateways of VNet `v`, each once, in order.
fn lng_names_exec(rows: &[LocalGatewayRow], v: &str) -> (r: Vec<String>)
    ensures
        string_views(r@) == lng_names(rows@, v@, rows@.len() as int),
{
    let mut out: Vec<String> = Vec::new();
    let mut k: usize = 0;
    while k < rows.len()
        invariant
            k <= rows@.len(),
            string_views(out@) == lng_names(rows@, v@, k as int),
        decreases rows@.len() - k,
    {
        if str_eq(rows[k].vnet_name.as_str(), v) {
            push_new_exec(&mut out, rows[k].local_gw_name.clone());
        }
        k += 1;
    }
    out
}

/// The on-premises prefixes of VNet `v`'s rows, each once, in order.
fn lng_cidrs_exec(rows: &[LocalGatewayRow], v: &str) -> (r: Vec<String>)
    ensures
        string_views(r@) == lng_cidrs(rows@, v@, rows@.len() as int),
{
    let mut out: Vec<String> = Vec::new();
    let mut k: usize = 0;
    while k < rows.len()
        invariant
            k <= rows@.len(),
            string_views(out@) == lng_cidrs(rows@, v@, k as int),
        decreases rows@.len() - k,
    {
        if str_eq(rows[k].vnet_name.as_str(), v) {
            push_all_new_exec(&mut out, &rows[k].address_prefixes);
        }
        k += 1;
    }
    out
}

/// The position of the first matching row: by gateway VNet when `by_vnet`,
/// else by Local Network Gateway name.
fn first_row_exec(rows: &[LocalGatewayRow], name: &str, by_vnet: bool) -> (r: Option<usize>)
    ensures
        match r {
            Some(p) => p < rows@.len() && first_row(rows@, name@, by_vnet, 0) == Some(rows@[p as int]),
            None => first_row(rows@, name@, by_vnet, 0) is None,
        },
{
    let mut k: usize = 0;
    while k < rows.len()
        invariant
            k <= rows@.len(),
            first_row(rows@, name@, by_vnet, 0) == first_row(rows@, name@, by_vnet, k as int),
        decreases rows@.len() - k,
    {
        let hit = if by_vnet {
            str_eq(rows[k].vnet_name.as_str(), name)
        } else {
            str_eq(rows[k].local_gw_name.as_str(), name)
        };
        if hit {
            return Some(k);
        }
        k += 1;
    }
    None
}

/// An on-premises node of the diagram.
pub struct OnPremNode {
    pub key: String,
    pub names: Vec<String>,
    pub cidrs: Vec<String>,
    pub vnets: Vec<String>,
}

impl View for OnPremNode {
    type V = OnPremView;

    open spec fn view(&self) -> OnPremView {
        OnPremView {
            key: self.key@,
            names: string_views(self.names@),
            cidrs: string_views(self.cidrs@),
            vnets: string_views(self.vnets@),
        }
    }
}

/// The views of on-premises nodes.
pub open spec fn onprem_views(v: Seq<OnPremNode>) -> Seq<OnPremView> {
    v.map_values(|n: OnPremNode| n@)
}

proof fn lemma_onprem_pos(t: Seq<OnPremView>, key: Seq<char>, p: int)
    requires
        0 <= p <= t.len(),
        forall|q: int| 0 <= q < p ==> #[trigger] text_lt(t[q].key, key),
        p < t.len() ==> !text_lt(t[p].key, key),
    ensures
        onprem_pos(t, key) == p,
    decreases t.len(),
{
    if p > 0 {
        let u = t.drop_first();
        assert forall|q: int| 0 <= q < p - 1 implies #[trigger] text_lt(u[q].key, key) by {
            assert(u[q] == t[q + 1]);
        }
        if p - 1 < u.len() {
            assert(u[p - 1] == t[p]);
        }
        lemma_onprem_pos(u, key, p - 1);
    }
}

/// Merges gateway VNet `v` into the node of its key.
fn onprem_add_exec(nodes: &mut Vec<OnPremNode>, rows: &[LocalGatewayRow], v: &String)
    ensures
        onprem_views(final(nodes)@) == onprem_add(onprem_views(old(nodes)@), rows@, v@),
{
    let ghost start = onprem_views(nodes@);
    let names = crate::output::dup_report::sort_texts(lng_names_exec(rows, v.as_str()));
    let key = join_strings(names.as_slice(), "|");
    let cidrs = lng_cidrs_exec(rows, v.as_str());
    let mut p: usize = 0;
    while p < nodes.len() && crate::subnet_order::text_less(nodes[p].key.as_str(), key.as_str())
        invariant
            p <= nodes@.len(),
            start == onprem_views(nodes@),
            forall|q: int| 0 <= q < p ==> #[trigger] text_lt(start[q].key, key@),
        decreases nodes@.len() - p,
    {
        p += 1;
    }
    proof {
        lemma_onprem_pos(start, key@, p as int);
    }
    if p < nodes.len() && str_eq(nodes[p].key.as_str(), key.as_str()) {
        let mut node = nodes.remove(p);
        assert(node@ == start[p as int]);
        push_all_new_exec(&mut node.cidrs, &cidrs);
        push_new_exec(&mut node.vnets, v.clone());
        nodes.insert(p, node);
        assert(onprem_views(nodes@) =~= onprem_add(start, rows@, v@));
    } else {
        let mut c: Vec<String> = Vec::new();
        assert(string_views(c@) =~= Seq::<Seq<char>>::empty());
        push_all_new_exec(&mut c, &cidrs);
        let mut vs: Vec<String> = Vec::new();
        vs.push(v.clone());
        assert(string_views(vs@) =~= seq![v@]);
        assert(string_views(c@) == push_all_new(Seq::empty(), string_views(cidrs@)));
        let node = OnPremNode { key, names, cidrs: c, vnets: vs };
        nodes.insert(p, node);
        assert(onprem_views(nodes@) =~= onprem_add(start, rows@, v@));
    }
}

/// Whether the VNet entry is a gateway VNet with Local Network Gateways.
fn has_onprem_exec(ms: &Vec<VNetMeta>, rows: &[LocalGatewayRow], k: usize) -> (r: bool)
    requires
        k < ms@.len(),
    ensures
        r == has_onprem(meta_views(ms@), rows@, k as int),
{
    ms[k].has_gateway && lng_names_exec(rows, ms[k].vnet_name.as_str()).len() > 0
}

/// The on-premises nodes of the diagram, in key order.
fn onprem_nodes_exec(ms: &Vec<VNetMeta>, rows: &[LocalGatewayRow]) -> (r: Vec<OnPremNode>)
    ensures
        onprem_views(r@) == onprem_nodes(meta_views(ms@), rows@, ms@.len() as int),
{
    let ghost g = meta_views(ms@);
    let mut nodes: Vec<OnPremNode> = Vec::new();
    let mut k: usize = 0;
    while k < ms.len()
        invariant
            k <= ms@.len(),
            g == meta_views(ms@),
            onprem_views(nodes@) == onprem_nodes(g, rows@, k as int),
        decreases ms@.len() - k,
    {
        if has_onprem_exec(ms, rows, k) {
            onprem_add_exec(&mut nodes, rows, &ms[k].vnet_name);
        }
        k += 1;
    }
    nodes
}

/// The non-empty strings, in order.
fn nonempty_exec(v: &Vec<String>) -> (r: Vec<String>)
    ensures
        string_views(r@) == nonempty_texts(string_views(v@)),
{
    let mut out: Vec<String> = Vec::new();
    let mut k: usize = 0;
    while k < v.len()
        invariant
            k <= v@.len(),
            string_views(out@) == nonempty_texts(string_views(v@.subrange(0, k as int))),
        decreases v@.len() - k,
    {
        let ghost before = out@;
        if chars_of(v[k].as_str()).len() > 0 {
            out.push(v[k].clone());
        }
        proof {
            let t = string_views(v@.subrange(0, k + 1));
            assert(t.drop_last() =~= string_views(v@.subrange(0, k as int)));
            assert(t.last() == v@[k as int]@);
            assert(string_views(out@) =~= nonempty_texts(t));
        }
        k += 1;
    }
    assert(v@.subrange(0, v@.len() as int) =~= v@);
    out
}

/// Concatenates two texts into a `String`.
fn concat2(a: &str, b: &str) -> (r: String)
    ensures
        r@ == a@ + b@,
{
    let mut out = chars_of(a);
    append_str(&mut out, b);
    string_from_chars(out.as_slice())
}

/// Appends copies of the strings of `rest`.
fn append_strings(out: &mut Vec<String>, rest: &Vec<String>)
    ensures
        string_views(final(out)@) == string_views(old(out)@) + string_views(rest@),
{
    let ghost start = out@;
    let mut k: usize = 0;
    while k < rest.len()
        invariant
            k <= rest@.len(),
            out@.len() == start.len() + k,
            string_views(out@) == string_views(start) + string_views(rest@.subrange(0, k as int)),
        decreases rest@.len() - k,
    {
        let ghost before = out@;
        let c = rest[k].clone();
        out.push(c);
        proof {
            assert(out@ == before.push(rest@[k as int]));
            let want = string_views(start) + string_views(rest@.subrange(0, k + 1));
            assert forall|i: int| 0 <= i < out@.len() implies #[trigger] string_views(out@)[i] == want[i] by {
                if i < before.len() {
                    assert(string_views(before)[i] == (string_views(start) + string_views(rest@.subrange(0, k as int)))[i]);
                }
            }
            assert(string_views(out@) =~= want);
        }
        k += 1;
    }
    assert(rest@.subrange(0, rest@.len() as int) =~= rest@);
}

/// The lines describing Local Network Gateway `name` of a node.
fn lng_lines_exec(rows: &[LocalGatewayRow], node: &OnPremNode, name: &String) -> (r: Vec<String>)
    ensures
        string_views(r@) == lng_lines(rows@, node@, name@),
{
    let mut out: Vec<String> = Vec::new();
    out.push(concat2("LNG:", name.as_str()));
    assert(string_views(out@) =~= seq!["LNG:"@ + name@]);
    match first_row_exec(rows, name.as_str(), false) {
        Some(p) => {
            let r = &rows[p];
            let ip = if chars_of(r.gateway_ip.as_str()).len() > 0 {
                r.gateway_ip.clone()
            } else if r.gateway_ips.len() > 0 {
                join_strings(r.gateway_ips.as_slice(), ",")
            } else {
                String::new()
            };
            assert(ip@ == public_ip(*r));
            if chars_of(ip.as_str()).len() > 0 {
                let ghost before = out@;
                out.push(concat2("PubIP:", ip.as_str()));
                assert(string_views(out@) =~= string_views(before).push("PubIP:"@ + ip@));
            }
            if chars_of(r.bgp_asn.as_str()).len() > 0 {
                let line = if chars_of(r.bgp_peer_ip.as_str()).len() == 0 {
                    concat2("BGP ASN:", r.bgp_asn.as_str())
                } else {
                    let a = concat2("BGP ASN:", r.bgp_asn.as_str());
                    let b = concat2(a.as_str(), " Peer:");
                    concat2(b.as_str(), r.bgp_peer_ip.as_str())
                };
                let ghost before = out@;
                out.push(line);
                assert(string_views(out@) =~= string_views(before).push(line@));
            }
            let ghost before = out@;
            let rest = nonempty_exec(&r.address_prefixes);
            append_strings(&mut out, &rest);
        },
        None => {
            let ghost before = out@;
            let rest = nonempty_exec(&node.cidrs);
            append_strings(&mut out, &rest);
        },
    }
    out
}

/// The label of an on-premises node.
fn onprem_label_exec(rows: &[LocalGatewayRow], node: &OnPremNode) -> (r: String)
    ensures
        r@ == onprem_label(rows@, node@),
{
    let mut sections: Vec<String> = Vec::new();
    let mut k: usize = 0;
    while k < node.names.len()
        invariant
            k <= node.names@.len(),
            sections@.len() == k,
            forall|q: int|
                0 <= q < k ==> (#[trigger] sections@[q])@ == join_text(
                    quoted_lines(lng_lines(rows@, node@, node.names@[q]@)),
                    "\\n"@,
                ),
        decreases node.names@.len() - k,
    {
        let lines = quote_all(&lng_lines_exec(rows, node, &node.names[k]));
        sections.push(join_strings(lines.as_slice(), "\\n"));
        k += 1;
    }
    let ghost want = node@.names.map_values(|name: Seq<char>| join_text(quoted_lines(lng_lines(rows@, node@, name)), "\\n"@));
    assert(string_views(sections@) =~= want);
    join_strings(sections.as_slice(), "\\n---\\n")
}

/// Appends the block of on-premises nodes.
fn push_onprem_block(out: &mut Vec<char>, rows: &[LocalGatewayRow], nodes: &Vec<OnPremNode>)
    ensures
        final(out)@ == old(out)@ + onprem_block(rows@, onprem_views(nodes@)),
{
    let ghost ns = onprem_views(nodes@);
    if nodes.len() == 0 {
        assert(onprem_block(rows@, ns) =~= Seq::<char>::empty());
        assert(out@ =~= old(out)@ + onprem_block(rows@, ns));
        return;
    }
    let ghost start = out@;
    append_str(out, "    // On-Premises nodes (outside all Islands)\n");
    let ghost head = out@;
    let mut k: usize = 0;
    while k < nodes.len()
        invariant
            k <= nodes@.len(),
            ns == onprem_views(nodes@),
            out@ == head + onprem_lines(rows@, ns, k as int),
        decreases nodes@.len() - k,
    {
        let node = &nodes[k];
        assert(ns[k as int] == node@);
        append_str(out, "    ");
        push_string(out, &concat2("ext_", sanitize_id(node.key.as_str()).as_str()));
        append_str(out, " [label=\"");
        push_string(out, &onprem_label_exec(rows, node));
        append_str(out, "\" shape=ellipse style=\"filled\" fillcolor=\"#b3d9f7\"]\n");
        assert(out@ =~= head + onprem_lines(rows@, ns, k + 1));
        k += 1;
    }
    append_str(out, "\n");
    assert(out@ =~= start + onprem_block(rows@, ns));
}

/// The subnets at the given positions.
pub open spec fn pick(subs: Seq<Subnet>, idx: Seq<usize>) -> Seq<Subnet> {
    idx.map_values(|i: usize| subs[i as int])
}

/// Positions of the active subnets of VNet `v`, in order.
fn vnet_subnet_positions(subs: &Vec<Subnet>, v: &str) -> (r: Vec<usize>)
    ensures
        forall|q: int| 0 <= q < r@.len() ==> #[trigger] r@[q] < subs@.len(),
        pick(subs@, r@) == vnet_subnets(subs@, v@, subs@.len() as int),
{
    let mut out: Vec<usize> = Vec::new();
    let mut k: usize = 0;
    while k < subs.len()
        invariant
            k <= subs@.len(),
            forall|q: int| 0 <= q < out@.len() ==> #[trigger] out@[q] < subs@.len(),
            pick(subs@, out@) == vnet_subnets(subs@, v@, k as int),
        decreases subs@.len() - k,
    {
        let s = &subs[k];
        if str_eq(s.vnet_name.as_str(), v) && s.excluded_by.is_none() {
            let ghost before = out@;
            out.push(k);
            assert(pick(subs@, out@) =~= pick(subs@, before).push(subs@[k as int]));
        }
        k += 1;
    }
    out
}

/// The sort key of a subnet.
fn addr_key_exec(s: &Subnet) -> (r: u32)
    ensures
        r as int == addr_key(*s),
{
    match s.subnet_cidr {
        Some(c) => c.addr,
        None => u32::MAX,
    }
}

proof fn lemma_addr_pos(t: Seq<Subnet>, x: Subnet, p: int)
    requires
        0 <= p <= t.len(),
        forall|q: int| 0 <= q < p ==> #[trigger] addr_key(t[q]) < addr_key(x),
        p < t.len() ==> !(addr_key(t[p]) < addr_key(x)),
    ensures
        addr_pos(t, x) == p,
    decreases t.len(),
{
    if p > 0 {
        let u = t.drop_first();
        assert forall|q: int| 0 <= q < p - 1 implies #[trigger] addr_key(u[q]) < addr_key(x) by {
            assert(u[q] == t[q + 1]);
        }
        if p - 1 < u.len() {
            assert(u[p - 1] == t[p]);
        }
        lemma_addr_pos(u, x, p - 1);
    }
}

/// The positions reordered so that their subnets are stably sorted by
/// address.
fn sort_positions_by_addr(subs: &Vec<Subnet>, idx: Vec<usize>) -> (r: Vec<usize>)
    requires
        forall|q: int| 0 <= q < idx@.len() ==> #[trigger] idx@[q] < subs@.len(),
    ensures
        forall|q: int| 0 <= q < r@.len() ==> #[trigger] r@[q] < subs@.len(),
        pick(subs@, r@) == by_addr(pick(subs@, idx@)),
{
    let ghost s = pick(subs@, idx@);
    let mut src = idx;
    let mut out: Vec<usize> = Vec::new();
    assert(s.subrange(s.len() as int, s.len() as int) =~= Seq::<Subnet>::empty());
    assert(pick(subs@, out@) =~= by_addr(s.subrange(s.len() as int, s.len() as int)));
    while src.len() > 0
        invariant
            src@.len() <= s.len(),
            forall|q: int| 0 <= q < src@.len() ==> #[trigger] src@[q] < subs@.len(),
            forall|q: int| 0 <= q < out@.len() ==> #[trigger] out@[q] < subs@.len(),
            pick(subs@, src@) == s.subrange(0, src@.len() as int),
            pick(subs@, out@) == by_addr(s.subrange(src@.len() as int, s.len() as int)),
        decreases src@.len(),
    {
        let ghost k = src@.len() - 1;
        let ghost before_src = src@;
        let x = src.pop().unwrap();
        assert(src@ == before_src.drop_last());
        assert(subs@[x as int] == s[k]) by {
            assert(pick(subs@, before_src)[k] == s.subrange(0, k + 1)[k]);
        }
        let kx = addr_key_exec(&subs[x]);
        let mut p: usize = 0;
        while p < out.len() && addr_key_exec(&subs[out[p]]) < kx
            invariant
                p <= out@.len(),
                forall|q: int| 0 <= q < out@.len() ==> #[trigger] out@[q] < subs@.len(),
                kx as int == addr_key(subs@[x as int]),
                forall|q: int| 0 <= q < p ==> #[trigger] addr_key(pick(subs@, out@)[q]) < addr_key(subs@[x as int]),
            decreases out@.len() - p,
        {
            p += 1;
        }
        let ghost t = pick(subs@, out@);
        proof {
            lemma_addr_pos(t, subs@[x as int], p as int);
            let whole = s.subrange(k, s.len() as int);
            assert(whole.drop_first() =~= s.subrange(k + 1, s.len() as int));
            assert(whole[0] == subs@[x as int]);
        }
        out.insert(p, x);
        assert(pick(subs@, out@) =~= t.insert(p as int, subs@[x as int]));
        assert(pick(subs@, src@) =~= s.subrange(0, src@.len() as int)) by {
            assert forall|i: int| 0 <= i < src@.len() implies #[trigger] pick(subs@, src@)[i] == s.subrange(0, src@.len() as int)[i] by {
                assert(pick(subs@, before_src)[i] == s.subrange(0, k + 1)[i]);
            }
        }
    }
    assert(s.subrange(0, s.len() as int) =~= s);
    out
}

/// The label line of a subnet.
fn subnet_part_exec(s: &Subnet) -> (r: String)
    ensures
        r@ == subnet_part(*s),
{
    let a = concat2("Subnet:", s.subnet_name.as_str());
    match s.subnet_cidr {
        Some(c) => {
            let b = concat2(a.as_str(), " CIDR:");
            concat2(b.as_str(), c.to_string().as_str())
        },
        None => a,
    }
}

/// The bold red line of a gateway subnet's Azure VPN gateway.
fn vng_part_exec(vng: &String, asn: &String) -> (r: String)
    ensures
        r@ == vng_part(vng@, asn@),
{
    let a = concat2("  &#x2514; VNG:", html_escape(vng.as_str()).as_str());
    let line = if chars_of(asn.as_str()).len() > 0 {
        let b = concat2(a.as_str(), " BGP:ASN:");
        concat2(b.as_str(), html_escape(asn.as_str()).as_str())
    } else {
        a
    };
    let c = concat2("<B><FONT COLOR=\"darkred\">", line.as_str());
    concat2(c.as_str(), "</FONT></B>")
}

/// The Azure VPN gateway name and BGP ASN of VNet `v` (empty if none).
fn vng_exec(rows: &[LocalGatewayRow], v: &str) -> (r: (String, String))
    ensures
        r.0@ == vng_of(rows@, v@),
        r.1@ == vng_asn_of(rows@, v@),
{
    match first_row_exec(rows, v, true) {
        Some(p) => (rows[p].vng_name.clone(), rows[p].vng_bgp_asn.clone()),
        None => (String::new(), String::new()),
    }
}

/// The label parts of the subnets at the given positions.
fn subnet_parts_exec(subs: &Vec<Subnet>, idx: &Vec<usize>, vng: &String, asn: &String) -> (r: Vec<String>)
    requires
        forall|q: int| 0 <= q < idx@.len() ==> #[trigger] idx@[q] < subs@.len(),
    ensures
        string_views(r@) == subnet_parts(pick(subs@, idx@), vng@, asn@, idx@.len() as int),
{
    let ghost ps = pick(subs@, idx@);
    let gateway_word = chars_of("GatewaySubnet");
    let mut out: Vec<String> = Vec::new();
    let mut k: usize = 0;
    while k < idx.len()
        invariant
            k <= idx@.len(),
            ps == pick(subs@, idx@),
            gateway_word@ == "GatewaySubnet"@,
            forall|q: int| 0 <= q < idx@.len() ==> #[trigger] idx@[q] < subs@.len(),
            string_views(out@) == subnet_parts(ps, vng@, asn@, k as int),
        decreases idx@.len() - k,
    {
        let s = &subs[idx[k]];
        assert(ps[k as int] == *s);
        let ghost before = out@;
        out.push(html_escape(subnet_part_exec(s).as_str()));
        assert(string_views(out@) =~= string_views(before).push(html_text(subnet_part(*s))));
        let name = chars_of(s.subnet_name.as_str());
        if eq_ignore_ascii_case(&name, &gateway_word) && chars_of(vng.as_str()).len() > 0 {
            let ghost mid = out@;
            out.push(vng_part_exec(vng, asn));
            assert(string_views(out@) =~= string_views(mid).push(vng_part(vng@, asn@)));
        }
        k += 1;
    }
    out
}

/// The extra node attributes that colour a VNet.
fn node_fill_exec(ms: &Vec<VNetMeta>, v: &str) -> (r: &'static str)
    ensures
        r@ == node_fill(meta_views(ms@), v@),
{
    let meta = crate::output::peering_diagram::lookup_meta(ms, v);
    let (missing, gw) = match meta {
        Some(m) => (m.missing, m.has_gateway),
        None => (false, false),
    };
    if missing {
        " fillcolor=\"#cc3333\" fontcolor=\"white\""
    } else if gw {
        " fillcolor=\"#fff3b0\""
    } else {
        proof {
            reveal_strlit("");
        }
        ""
    }
}

/// Appends the node line of a missing VNet after its identifier.
fn push_missing_label(out: &mut Vec<char>, m: Option<&VNetMeta>, v: &String)
    ensures
        ({
            let sub = match m {
                Some(x) => x.subscription_name@,
                None => "?"@,
            };
            let shown = if sub.len() == 0 {
                "unknown"@
            } else {
                sub
            };
            let cidrs = match m {
                Some(x) => join_text(html_lines(string_views(x.vnet_cidr@)), "<BR/>"@),
                None => Seq::empty(),
            };
            final(out)@ == old(out)@ + " [label=<"@ + missing_node_label(shown, v@, cidrs) + ">"@
        }),
{
    let sub = match m {
        Some(x) => x.subscription_name.clone(),
        None => "?".to_owned(),
    };
    let shown = if chars_of(sub.as_str()).len() == 0 {
        "unknown".to_owned()
    } else {
        sub
    };
    let cidrs = match m {
        Some(x) => join_strings(html_all(&x.vnet_cidr).as_slice(), "<BR/>"),
        None => String::new(),
    };
    append_str(out, " [label=<");
    append_str(out, "&#x26A0; MISSING<BR/>SUB:");
    push_string(out, &html_escape(shown.as_str()));
    append_str(out, "<BR/>");
    push_string(out, &html_escape(v.as_str()));
    if chars_of(cidrs.as_str()).len() > 0 {
        append_str(out, "<BR/>");
        push_string(out, &cidrs);
    }
    append_str(out, ">");
    proof {
        reveal_strlit("");
    }
}

/// The label parts of a present VNet.
fn present_parts(
    ms: &Vec<VNetMeta>,
    subs: &Vec<Subnet>,
    rows: &[LocalGatewayRow],
    v: &String,
) -> (r: Vec<String>)
    requires
        !is_missing(meta_views(ms@), v@),
    ensures
        ({
            let g = meta_views(ms@);
            let cidrs = cidrs_joined(g, v@, ", "@);
            let head = seq![html_text("VNET:"@ + v@)];
            let with_cidr = if cidrs.len() > 0 {
                head.push(html_text("CIDR:"@ + cidrs))
            } else {
                head
            };
            let listed = by_addr(vnet_subnets(subs@, v@, subs@.len() as int));
            string_views(r@) == with_cidr + subnet_parts(listed, vng_of(rows@, v@), vng_asn_of(rows@, v@), listed.len() as int)
        }),
{
    let meta = crate::output::peering_diagram::lookup_meta(ms, v.as_str());
    let cidrs = match meta {
        Some(m) => join_strings(m.vnet_cidr.as_slice(), ", "),
        None => String::new(),
    };
    proof {
        reveal_strlit("");
    }
    let mut parts: Vec<String> = Vec::new();
    parts.push(html_escape(concat2("VNET:", v.as_str()).as_str()));
    assert(string_views(parts@) =~= seq![html_text("VNET:"@ + v@)]);
    if chars_of(cidrs.as_str()).len() > 0 {
        let ghost before = parts@;
        parts.push(html_escape(concat2("CIDR:", cidrs.as_str()).as_str()));
        assert(string_views(parts@) =~= string_views(before).push(html_text("CIDR:"@ + cidrs@)));
    }
    let positions = vnet_subnet_positions(subs, v.as_str());
    let sorted = sort_positions_by_addr(subs, positions);
    let (vng, asn) = vng_exec(rows, v.as_str());
    let more = subnet_parts_exec(subs, &sorted, &vng, &asn);
    append_strings(&mut parts, &more);
    parts
}

/// Appends the node line of VNet `v`.
fn push_dot_node(
    out: &mut Vec<char>,
    ms: &Vec<VNetMeta>,
    subs: &Vec<Subnet>,
    rows: &[LocalGatewayRow],
    v: &String,
)
    ensures
        final(out)@ == old(out)@ + dot_node(meta_views(ms@), subs@, rows@, v@),
{
    reveal(dot_node);
    let ghost g = meta_views(ms@);
    let ghost start = out@;
    let meta = crate::output::peering_diagram::lookup_meta(ms, v.as_str());
    let missing = match meta {
        Some(m) => m.missing,
        None => false,
    };
    let fill = node_fill_exec(ms, v.as_str());
    let id = node_id(v.as_str());
    append_str(out, "            ");
    push_string(out, &id);
    if missing {
        push_missing_label(out, meta, v);
        append_str(out, fill);
        append_str(out, "]\n");
        assert(out@ =~= start + dot_node(g, subs@, rows@, v@));
    } else {
        let parts = present_parts(ms, subs, rows, v);
        let br = "<BR ALIGN=\"LEFT\"/>";
        let inner = join_strings(parts.as_slice(), br);
        append_str(out, " [label=<");
        push_string(out, &inner);
        append_str(out, br);
        append_str(out, ">");
        append_str(out, fill);
        append_str(out, "]\n");
        assert(out@ =~= start + dot_node(g, subs@, rows@, v@));
    }
}
/// The background colour of island `i`.
fn island_colour_exec(i: usize) -> (r: &'static str)
    ensures
        r@ == island_colour(i as int),
{
    let k = i % 7;
    if k == 0 {
        "#f0f4ff"
    } else if k == 1 {
        "#fff8f0"
    } else if k == 2 {
        "#f0fff4"
    } else if k == 3 {
        "#fff0f4"
    } else if k == 4 {
        "#f4f0ff"
    } else if k == 5 {
        "#f0ffff"
    } else {
        "#fffff0"
    }
}

/// Whether some VNet of the island is missing.
fn any_missing_exec(ms: &Vec<VNetMeta>, vnets: &Vec<String>) -> (r: bool)
    ensures
        r == any_missing(meta_views(ms@), string_views(vnets@)),
{
    let ghost g = meta_views(ms@);
    let ghost vs = string_views(vnets@);
    let mut k: usize = 0;
    while k < vnets.len()
        invariant
            k <= vnets@.len() == vs.len(),
            g == meta_views(ms@),
            vs == string_views(vnets@),
            forall|q: int| 0 <= q < k ==> !is_missing(g, #[trigger] vs[q]),
        decreases vnets@.len() - k,
    {
        let missing = match crate::output::peering_diagram::lookup_meta(ms, vnets[k].as_str()) {
            Some(m) => m.missing,
            None => false,
        };
        if missing {
            assert(is_missing(g, vs[k as int]));
            return true;
        }
        k += 1;
    }
    false
}

/// Fill colour, font colour and label of island `i`'s cluster.
fn cluster_style_exec(t: &PeeringTopology, i: usize) -> (r: (&'static str, &'static str, String))
    requires
        i < t.islands@.len(),
    ensures
        (r.0@, r.1@, r.2@) == cluster_style(t@, i as int),
{
    let n = t.islands.len();
    let vnets = &t.islands[i];
    assert(t@.islands[i as int] == string_views(vnets@));
    if crate::output::peering_diagram::all_missing_exec(&t.vnet_meta, vnets) {
        let label = dot_quote(crate::output::peering_diagram::missing_label_exec(&t.vnet_meta, vnets).as_str());
        let a = concat2("\"", label.as_str());
        ("#8b0000", "white", concat2(a.as_str(), "\""))
    } else if any_missing_exec(&t.vnet_meta, vnets) {
        let num = crate::output::peering_diagram::island_number_exec(i);
        let a = concat2("<", num.as_str());
        ("#ffe0e0", "black", concat2(a.as_str(), " [&#x26A0; missing peers]>"))
    } else {
        let num = crate::output::peering_diagram::island_number_exec(i);
        let a = concat2("\"", num.as_str());
        (island_colour_exec(i), "black", concat2(a.as_str(), "\""))
    }
}

/// The subscription a VNet is grouped under.
fn sub_key_exec(ms: &Vec<VNetMeta>, v: &str) -> (r: String)
    ensures
        r@ == sub_key(meta_views(ms@), v@),
{
    match crate::output::peering_diagram::lookup_meta(ms, v) {
        Some(m) => m.subscription_name.clone(),
        None => String::new(),
    }
}

/// The subscriptions of an island's VNets, sorted.
fn island_subs_exec(ms: &Vec<VNetMeta>, vnets: &Vec<String>) -> (r: Vec<String>)
    ensures
        string_views(r@) == island_subs(meta_views(ms@), string_views(vnets@)),
{
    let ghost g = meta_views(ms@);
    let ghost vs = string_views(vnets@);
    let mut seen: Vec<String> = Vec::new();
    let mut k: usize = 0;
    while k < vnets.len()
        invariant
            k <= vnets@.len() == vs.len(),
            g == meta_views(ms@),
            vs == string_views(vnets@),
            string_views(seen@) == subs_seen(g, vs, k as int),
        decreases vnets@.len() - k,
    {
        push_new_exec(&mut seen, sub_key_exec(ms, vnets[k].as_str()));
        k += 1;
    }
    crate::output::dup_report::sort_texts(seen)
}

/// The island's VNets that belong to subscription `sub`.
fn vnets_of_sub_exec(ms: &Vec<VNetMeta>, vnets: &Vec<String>, sub: &String) -> (r: Vec<String>)
    ensures
        string_views(r@) == vnets_of_sub(meta_views(ms@), string_views(vnets@), sub@, vnets@.len() as int),
{
    let ghost g = meta_views(ms@);
    let ghost vs = string_views(vnets@);
    let mut out: Vec<String> = Vec::new();
    let mut k: usize = 0;
    while k < vnets.len()
        invariant
            k <= vnets@.len() == vs.len(),
            g == meta_views(ms@),
            vs == string_views(vnets@),
            string_views(out@) == vnets_of_sub(g, vs, sub@, k as int),
        decreases vnets@.len() - k,
    {
        let key = sub_key_exec(ms, vnets[k].as_str());
        if str_eq(key.as_str(), sub.as_str()) {
            let ghost before = out@;
            out.push(vnets[k].clone());
            assert(string_views(out@) =~= string_views(before).push(vs[k as int]));
        }
        k += 1;
    }
    out
}

/// Appends subscription box `j` of island `i`.
#[verifier::spinoff_prover]
#[verifier::rlimit(40)]
fn push_sub_box(
    out: &mut Vec<char>,
    t: &PeeringTopology,
    subs: &Vec<Subnet>,
    rows: &[LocalGatewayRow],
    i: usize,
    j: usize,
    island_subs_v: &Vec<String>,
)
    requires
        i < t.islands@.len(),
        string_views(island_subs_v@) == island_subs(t@.metas, t@.islands[i as int]),
        j < island_subs_v@.len(),
    ensures
        final(out)@ == old(out)@ + sub_box(t@, subs@, rows@, i as int, j as int),
{
    let ghost v = t@;
    let ghost start = out@;
    let vnets = &t.islands[i];
    assert(v.islands[i as int] == string_views(vnets@));
    let sub = &island_subs_v[j];
    assert(string_views(island_subs_v@)[j as int] == sub@);
    let members = vnets_of_sub_exec(&t.vnet_meta, vnets, sub);
    append_str(out, "        subgraph cluster_sub_");
    push_string(out, &decimal(i as u64));
    append_str(out, "_");
    push_string(out, &decimal(j as u64));
    append_str(out, " {\n");
    append_str(out, "            label=\"");
    if chars_of(sub.as_str()).len() == 0 {
        append_str(out, "unknown");
    } else {
        push_string(out, &dot_quote(sub.as_str()));
    }
    append_str(out, "\"\n");
    append_str(out, "            style=\"filled,dashed\" fillcolor=\"white\" color=\"#666666\"\n");
    append_str(out, "            fontname=\"Helvetica\" fontsize=11\n");
    let ghost head = out@;
    let mut k: usize = 0;
    while k < members.len()
        invariant
            k <= members@.len(),
            v == t@,
            out@ == head + dot_nodes(v.metas, subs@, rows@, string_views(members@), k as int),
        decreases members@.len() - k,
    {
        assert(string_views(members@)[k as int] == members@[k as int]@);
        push_dot_node(out, &t.vnet_meta, subs, rows, &members[k]);
        k += 1;
    }
    append_str(out, "        }\n");
    assert(out@ =~= start + sub_box(v, subs@, rows@, i as int, j as int));
}

/// Appends the cluster of island `i`.
#[verifier::spinoff_prover]
#[verifier::rlimit(40)]
fn push_cluster(out: &mut Vec<char>, t: &PeeringTopology, subs: &Vec<Subnet>, rows: &[LocalGatewayRow], i: usize)
    requires
        i < t.islands@.len(),
    ensures
        final(out)@ == old(out)@ + dot_cluster(t@, subs@, rows@, i as int),
{
    let ghost v = t@;
    let ghost start = out@;
    let (fill, font, label) = cluster_style_exec(t, i);
    let vnets = &t.islands[i];
    assert(v.islands[i as int] == string_views(vnets@));
    let subs_v = island_subs_exec(&t.vnet_meta, vnets);
    append_str(out, "    subgraph cluster_");
    push_string(out, &decimal(i as u64));
    append_str(out, " {\n");
    append_str(out, "        label=");
    push_string(out, &label);
    append_str(out, "\n");
    append_str(out, "        style=filled fillcolor=\"");
    append_str(out, fill);
    append_str(out, "\" fontcolor=\"");
    append_str(out, font);
    append_str(out, "\"\n");
    append_str(out, "        fontname=\"Helvetica\" fontsize=12\n");
    let ghost head = out@;
    let mut j: usize = 0;
    while j < subs_v.len()
        invariant
            j <= subs_v@.len(),
            i < v.islands.len(),
            v == t@,
            string_views(subs_v@) == island_subs(v.metas, v.islands[i as int]),
            out@ == head + sub_boxes(v, subs@, rows@, i as int, j as int),
        decreases subs_v@.len() - j,
    {
        push_sub_box(out, t, subs, rows, i, j, &subs_v);
        j += 1;
    }
    append_str(out, "    }\n");
    append_str(out, "\n");
    assert(out@ =~= start + dot_cluster(v, subs@, rows@, i as int));
}

/// The spokes of vWAN hub `hub`, each once, in order.
fn hub_spokes_exec(edges: &[PeeringEdge], hub: &String) -> (r: Vec<String>)
    ensures
        string_views(r@) == hub_spokes(edges@, hub@, edges@.len() as int),
{
    let a = concat2("HV_", hub.as_str());
    let prefix = chars_of(concat2(a.as_str(), "_").as_str());
    let mut out: Vec<String> = Vec::new();
    let mut k: usize = 0;
    while k < edges.len()
        invariant
            k <= edges@.len(),
            prefix@ == "HV_"@ + hub@ + "_"@,
            string_views(out@) == hub_spokes(edges@, hub@, k as int),
        decreases edges@.len() - k,
    {
        let remote = chars_of(edges[k].remote_vnet_name().as_str());
        if crate::text::starts_with_chars(&remote, &prefix) {
            push_new_exec(&mut out, edges[k].vnet_name.clone());
        }
        k += 1;
    }
    out
}

/// The label of a vWAN hub.
fn hub_label_exec(h: &VWanRow) -> (r: String)
    ensures
        r@ == hub_label(*h),
{
    let mut lines: Vec<String> = Vec::new();
    lines.push(concat2("vWAN Hub:", h.hub_name.as_str()));
    assert(string_views(lines@) =~= seq!["vWAN Hub:"@ + h.hub_name@]);
    if chars_of(h.hub_address_prefix.as_str()).len() > 0 {
        let ghost before = lines@;
        lines.push(concat2("CIDR:", h.hub_address_prefix.as_str()));
        assert(string_views(lines@) =~= string_views(before).push("CIDR:"@ + h.hub_address_prefix@));
    }
    if chars_of(h.virtual_wan_name.as_str()).len() > 0 {
        let ghost before = lines@;
        lines.push(concat2("vWAN:", h.virtual_wan_name.as_str()));
        assert(string_views(lines@) =~= string_views(before).push("vWAN:"@ + h.virtual_wan_name@));
    }
    join_strings(quote_all(&lines).as_slice(), "\\n")
}

/// Appends the vWAN block.
fn push_vwan_block(out: &mut Vec<char>, ms: &Vec<VNetMeta>, edges: &[PeeringEdge], hubs: &[VWanRow])
    ensures
        final(out)@ == old(out)@ + vwan_block(meta_views(ms@), edges@, hubs@),
{
    let ghost g = meta_views(ms@);
    let ghost start = out@;
    if hubs.len() == 0 {
        assert(out@ =~= start + vwan_block(g, edges@, hubs@));
        return;
    }
    append_str(out, "    // vWAN Hub nodes\n");
    let ghost head = out@;
    let mut k: usize = 0;
    while k < hubs.len()
        invariant
            k <= hubs@.len(),
            out@ == head + hub_lines(hubs@, k as int),
        decreases hubs@.len() - k,
    {
        let h = &hubs[k];
        append_str(out, "    ");
        push_string(out, &concat2("vwan_", sanitize_id(h.hub_name.as_str()).as_str()));
        append_str(out, " [label=\"");
        push_string(out, &hub_label_exec(h));
        append_str(out, "\" shape=diamond style=\"filled\" fillcolor=\"#e8d5f5\" color=\"#6a0dad\" penwidth=2]\n");
        assert(out@ =~= head + hub_lines(hubs@, k + 1));
        k += 1;
    }
    append_str(out, "\n");
    append_str(out, "    // Spoke VNet \u{2192} vWAN Hub connections\n");
    let ghost mid = out@;
    let mut k: usize = 0;
    while k < hubs.len()
        invariant
            k <= hubs@.len(),
            g == meta_views(ms@),
            out@ == mid + hubs_spokes(g, edges@, hubs@, k as int),
        decreases hubs@.len() - k,
    {
        let h = &hubs[k];
        let hid = concat2("vwan_", sanitize_id(h.hub_name.as_str()).as_str());
        let spokes = crate::output::dup_report::sort_texts(hub_spokes_exec(edges, &h.hub_name));
        let ghost sp = string_views(spokes@);
        let ghost before = out@;
        let mut m: usize = 0;
        while m < spokes.len()
            invariant
                m <= spokes@.len(),
                sp == string_views(spokes@),
                g == meta_views(ms@),
                hid@ == hub_id(h.hub_name@),
                out@ == before + spoke_lines(g, h.hub_name@, sp, m as int),
            decreases spokes@.len() - m,
        {
            assert(sp[m as int] == spokes@[m as int]@);
            if crate::output::peering_diagram::lookup_meta(ms, spokes[m].as_str()).is_some() {
                append_str(out, "    ");
                push_string(out, &node_id(spokes[m].as_str()));
                append_str(out, " -> ");
                push_string(out, &hid);
                append_str(out, " [dir=none color=\"#6a0dad\" penwidth=1.5]\n");
            }
            assert(out@ =~= before + spoke_lines(g, h.hub_name@, sp, m + 1));
            m += 1;
        }
        assert(out@ =~= mid + hubs_spokes(g, edges@, hubs@, k + 1));
        k += 1;
    }
    append_str(out, "\n");
    assert(out@ =~= start + vwan_block(g, edges@, hubs@));
}

/// Appends the block of gateway edges.
fn push_gateway_block(out: &mut Vec<char>, ms: &Vec<VNetMeta>, rows: &[LocalGatewayRow])
    ensures
        final(out)@ == old(out)@ + gateway_block(meta_views(ms@), rows@),
{
    let ghost g = meta_views(ms@);
    let ghost start = out@;
    let mut lines: Vec<char> = Vec::new();
    let mut any = false;
    let mut k: usize = 0;
    while k < ms.len()
        invariant
            k <= ms@.len(),
            g == meta_views(ms@),
            lines@ == gateway_edges(g, rows@, k as int),
            any == exists|q: int| 0 <= q < k && #[trigger] has_onprem(g, rows@, q),
        decreases ms@.len() - k,
    {
        if has_onprem_exec(ms, rows, k) {
            let names = crate::output::dup_report::sort_texts(lng_names_exec(rows, ms[k].vnet_name.as_str()));
            let key = join_strings(names.as_slice(), "|");
            append_str(&mut lines, "    ");
            push_string(&mut lines, &node_id(ms[k].vnet_name.as_str()));
            append_str(&mut lines, " -> ");
            push_string(&mut lines, &concat2("ext_", sanitize_id(key.as_str()).as_str()));
            append_str(&mut lines, " [dir=none color=\"#1a5fa8\" penwidth=2]\n");
            any = true;
        }
        k += 1;
    }
    if any {
        append_str(out, "    // Gateway VNet \u{2192} On-Premises connections\n");
        append_chars(out, &lines);
        append_str(out, "\n");
    }
    assert(out@ =~= start + gateway_block(g, rows@));
}

/// Pair order.
fn pair_less(a: &(String, String), b: &(String, String)) -> (r: bool)
    ensures
        r == pair_lt((a.0@, a.1@), (b.0@, b.1@)),
{
    crate::subnet_order::text_less(a.0.as_str(), b.0.as_str()) || (str_eq(a.0.as_str(), b.0.as_str())
        && crate::subnet_order::text_less(a.1.as_str(), b.1.as_str()))
}

proof fn lemma_pair_pos(t: Seq<(Seq<char>, Seq<char>)>, x: (Seq<char>, Seq<char>), p: int)
    requires
        0 <= p <= t.len(),
        forall|q: int| 0 <= q < p ==> #[trigger] pair_lt(t[q], x),
        p < t.len() ==> !pair_lt(t[p], x),
    ensures
        pair_pos(t, x) == p,
    decreases t.len(),
{
    if p > 0 {
        let u = t.drop_first();
        assert forall|q: int| 0 <= q < p - 1 implies #[trigger] pair_lt(u[q], x) by {
            assert(u[q] == t[q + 1]);
        }
        if p - 1 < u.len() {
            assert(u[p - 1] == t[p]);
        }
        lemma_pair_pos(u, x, p - 1);
    }
}

/// The pairs sorted in pair order.
fn sort_pairs(v: &Vec<(String, String)>) -> (r: Vec<(String, String)>)
    ensures
        crate::output::peering_topology::pair_views(r@) == sorted_pairs(crate::output::peering_topology::pair_views(v@)),
{
    let ghost s = crate::output::peering_topology::pair_views(v@);
    let mut out: Vec<(String, String)> = Vec::new();
    let mut k: usize = v.len();
    assert(s.subrange(s.len() as int, s.len() as int) =~= Seq::<(Seq<char>, Seq<char>)>::empty());
    assert(crate::output::peering_topology::pair_views(out@) =~= sorted_pairs(s.subrange(k as int, s.len() as int)));
    while k > 0
        invariant
            k <= v@.len() == s.len(),
            s == crate::output::peering_topology::pair_views(v@),
            crate::output::peering_topology::pair_views(out@) == sorted_pairs(s.subrange(k as int, s.len() as int)),
        decreases k,
    {
        k -= 1;
        let x = (v[k].0.clone(), v[k].1.clone());
        assert((x.0@, x.1@) == s[k as int]);
        let ghost t = crate::output::peering_topology::pair_views(out@);
        let mut p: usize = 0;
        while p < out.len() && pair_less(&out[p], &x)
            invariant
                p <= out@.len(),
                t == crate::output::peering_topology::pair_views(out@),
                forall|q: int| 0 <= q < p ==> #[trigger] pair_lt(t[q], (x.0@, x.1@)),
            decreases out@.len() - p,
        {
            assert(t[p as int] == (out@[p as int].0@, out@[p as int].1@));
            p += 1;
        }
        proof {
            if p < out@.len() {
                assert(t[p as int] == (out@[p as int].0@, out@[p as int].1@));
            }
            lemma_pair_pos(t, (x.0@, x.1@), p as int);
            let whole = s.subrange(k as int, s.len() as int);
            assert(whole.drop_first() =~= s.subrange(k + 1, s.len() as int));
            assert(whole[0] == s[k as int]);
        }
        out.insert(p, x);
        assert(crate::output::peering_topology::pair_views(out@) =~= t.insert(p as int, s[k as int]));
    }
    assert(s.subrange(0, s.len() as int) =~= s);
    out
}

/// Appends the blocks of peering edges.
fn push_peering_blocks(out: &mut Vec<char>, t: &PeeringTopology)
    ensures
        final(out)@ == old(out)@ + peering_blocks(t@),
{
    let ghost v = t@;
    let ghost start = out@;
    if t.bidir_pairs.len() > 0 {
        append_str(out, "    // Fully connected (bidirectional) peerings\n");
        let sorted = sort_pairs(&t.bidir_pairs);
        let ghost ps = crate::output::peering_topology::pair_views(sorted@);
        let ghost head = out@;
        let mut k: usize = 0;
        while k < sorted.len()
            invariant
                k <= sorted@.len(),
                ps == crate::output::peering_topology::pair_views(sorted@),
                out@ == head + bidir_lines(ps, k as int),
            decreases sorted@.len() - k,
        {
            assert(ps[k as int] == (sorted@[k as int].0@, sorted@[k as int].1@));
            append_str(out, "    ");
            push_string(out, &node_id(sorted[k].0.as_str()));
            append_str(out, " -> ");
            push_string(out, &node_id(sorted[k].1.as_str()));
            append_str(out, " [dir=both]\n");
            assert(out@ =~= head + bidir_lines(ps, k + 1));
            k += 1;
        }
        append_str(out, "\n");
    }
    let ghost mid = out@;
    if t.broken_edges.len() > 0 {
        append_str(out, "    // Broken / asymmetric peerings\n");
        let ghost head = out@;
        let mut k: usize = 0;
        while k < t.broken_edges.len()
            invariant
                k <= t.broken_edges@.len(),
                v == t@,
                out@ == head + broken_lines(v.broken, k as int),
            decreases t.broken_edges@.len() - k,
        {
            let b = &t.broken_edges[k];
            assert(v.broken[k as int] == (b.from@, b.to@));
            append_str(out, "    ");
            push_string(out, &node_id(b.from.as_str()));
            append_str(out, " -> ");
            push_string(out, &node_id(b.to.as_str()));
            append_str(out, " [color=red style=dashed penwidth=2 label=\"broken\"]\n");
            assert(out@ =~= head + broken_lines(v.broken, k + 1));
            k += 1;
        }
        append_str(out, "\n");
    }
    assert(out@ =~= start + peering_blocks(v));
}

/// The DOT file of an analysed topology, with the subnet records, local
/// gateway rows, vWAN hubs and peering edges it was built from.
pub fn dot_from_topology(
    t: &PeeringTopology,
    subnets: &Data,
    local_gateways: &[LocalGatewayRow],
    vwan: &[VWanRow],
    edges: &[PeeringEdge],
    date: &str,
    filename: &str,
) -> (r: String)
    ensures
        r@ == dot_text(t@, subnets.data@, local_gateways@, vwan@, edges@, date@, filename@),
{
    let ghost v = t@;
    let mut out: Vec<char> = Vec::new();
    append_str(&mut out, "// Azure VNet Peering Diagram \u{2014} generated ");
    append_str(&mut out, date);
    append_str(&mut out, "\n");
    append_str(&mut out, "// Render: dot -Kfdp -Tsvg ");
    append_str(&mut out, filename);
    append_str(&mut out, " -o peering.svg\n");
    append_str(&mut out, "digraph azure_vnet_peering {\n");
    append_str(&mut out, "    graph [layout=fdp overlap=false splines=true fontname=\"Helvetica\"]\n");
    append_str(
        &mut out,
        "    node  [shape=box style=\"filled,rounded\" fillcolor=\"#ddeeff\" fontname=\"Helvetica\" margin=\"0.3,0.1\"]\n",
    );
    append_str(&mut out, "    edge  [fontname=\"Helvetica\" fontsize=10]\n");
    append_str(&mut out, "\n");
    let ghost head = out@;
    assert(head =~= dot_head(date@, filename@));
    let nodes = onprem_nodes_exec(&t.vnet_meta, local_gateways);
    push_onprem_block(&mut out, local_gateways, &nodes);
    let ghost mid = out@;
    let mut i: usize = 0;
    while i < t.islands.len()
        invariant
            i <= t.islands@.len(),
            v == t@,
            out@ == mid + dot_clusters(v, subnets.data@, local_gateways@, i as int),
        decreases t.islands@.len() - i,
    {
        push_cluster(&mut out, t, &subnets.data, local_gateways, i);
        i += 1;
    }
    push_vwan_block(&mut out, &t.vnet_meta, edges, vwan);
    push_gateway_block(&mut out, &t.vnet_meta, local_gateways);
    push_peering_blocks(&mut out, t);
    append_str(&mut out, "}\n");
    assert(out@ =~= dot_text(v, subnets.data@, local_gateways@, vwan@, edges@, date@, filename@));
    string_from_chars(out.as_slice())
}

/// The Graphviz DOT peering diagram of these peering edges, subnet records,
/// local gateway rows and vWAN hubs, dated `date`, to be saved as
/// `filename`.
pub fn peering_dot_text(
    edges: &[PeeringEdge],
    subnets: &Data,
    local_gateways: &[LocalGatewayRow],
    vwan: &[VWanRow],
    date: &str,
    filename: &str,
) -> (r: String)
    ensures
        r@ == dot_text(
            topology_of(edges@, subnets.data@),
            subnets.data@,
            local_gateways@,
            vwan@,
            edges@,
            date@,
            filename@,
        ),
{
    let topo = build_topology(edges, subnets);
    dot_from_topology(&topo, subnets, local_gateways, vwan, edges, date, filename)
}

} // verus!
