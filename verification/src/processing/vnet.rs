//! VNet aggregation and the terminal summary of VNets, with the VNets
//! excluded by overlap resolution listed under their winners.
use crate::azure::graph::Data;
use crate::models::ipv4::{cidr_text, Ipv4};
use crate::models::subnet::Subnet;
use crate::models::vnet::{find_vnet, lemma_vnet_pos, vnet_of, vnet_pos, vnet_views, with_subnet, Vnet, VnetList, VnetView};
use crate::output::dup_report::{sort_texts, sorted_texts};
use crate::output::peering_dot::{push_new, pair_lt};
use crate::processing::overlap::{excluded_views, ExcludedSubnet};
use crate::subnet_order::{text_less, text_lt};
use crate::text::{append_str, chars_of, dec, decimal, join_strings, join_text, str_eq, string_from_chars, string_views, text_contains};
use colored::Colorize;
use vstd::prelude::*;

verus! {

/// The VNets of the subnet records, keyed by VNet name and subscription
/// name, in order of first sight.
pub open spec fn grouped(s: Seq<Subnet>) -> Seq<VnetView>
    decreases s.len(),
{
    if s.len() == 0 {
        Seq::empty()
    } else {
        let g = grouped(s.drop_last());
        let x = s.last();
        let p = vnet_pos(g, x.vnet_name@, x.subscription_name@);
        if p >= 0 {
            g.update(p, with_subnet(g[p], x))
        } else {
            g.push(vnet_of(x))
        }
    }
}

/// Groups the subnet records into their VNets.
pub fn get_vnets(data: &Data) -> (r: VnetList<'_>)
    ensures
        vnet_views(r.vnets@) == grouped(data.data@),
{
    let mut list = VnetList::new();
    let ghost s = data.data@;
    let mut k: usize = 0;
    assert(vnet_views(list.vnets@) =~= grouped(s.subrange(0, 0)));
    while k < data.data.len()
        invariant
            k <= s.len(),
            s == data.data@,
            vnet_views(list.vnets@) == grouped(s.subrange(0, k as int)),
        decreases s.len() - k,
    {
        let subnet = &data.data[k];
        let ghost g = vnet_views(list.vnets@);
        proof {
            let t = s.subrange(0, k + 1);
            assert(t.drop_last() =~= s.subrange(0, k as int));
            assert(t.last() == *subnet);
            lemma_vnet_pos(g, subnet.vnet_name@, subnet.subscription_name@);
        }
        match find_vnet(&list.vnets, subnet.vnet_name.as_str(), subnet.subscription_name.as_str()) {
            Some(p) => {
                let mut v = list.vnets.remove(p);
                v.add_subnet(subnet);
                list.vnets.insert(p, v);
                assert(vnet_views(list.vnets@) =~= g.update(p as int, with_subnet(g[p as int], *subnet)));
            },
            None => {
                list.vnets.push(Vnet::new(subnet));
                assert(vnet_views(list.vnets@) =~= g.push(vnet_of(*subnet)));
            },
        }
        k += 1;
    }
    assert(s.subrange(0, s.len() as int) =~= s);
    list
}

/// The colour a summary line is printed in.
#[derive(Debug, Clone, Copy, PartialEq, Eq)]
pub enum Paint {
    Green,
    Red,
}

/// The ANSI reset sequence.
pub open spec fn ansi_reset() -> Seq<char> {
    "\u{1b}[0m"@
}

/// The ANSI sequence that starts a colour.
pub open spec fn ansi_start(c: Paint) -> Seq<char> {
    match c {
        Paint::Green => "\u{1b}[32m"@,
        Paint::Red => "\u{1b}[31m"@,
    }
}

/// `p` is what `colored` may print for line `l` in colour `c`: the line
/// itself when colouring is off, or the line between the colour's start
/// and reset sequences (for a line holding no reset sequence).
pub open spec fn painted_as(l: Seq<char>, c: Option<Paint>, p: Seq<char>) -> bool {
    match c {
        None => p == l,
        Some(col) => !text_contains(l, ansi_reset()) ==> (p == l || p == ansi_start(col) + l + ansi_reset()),
    }
}

/// `colored`'s `green()` of `s`, printed.  Whether colour is emitted
/// depends on the process's environment and terminal, so the contract
/// states what holds either way (for text without a reset sequence).
#[verifier::external_body]
fn paint_green(s: &str) -> (r: String)
    ensures
        painted_as(s@, Some(Paint::Green), r@),
{
    s.green().to_string()
}

/// `colored`'s `red()` of `s`, printed; as for `paint_green`.
#[verifier::external_body]
fn paint_red(s: &str) -> (r: String)
    ensures
        painted_as(s@, Some(Paint::Red), r@),
{
    s.red().to_string()
}

/// One excluded VNet under its winner: name, subscription, VNet_CIDRs and
/// number of excluded subnets.
pub struct ExclView {
    pub name: Seq<char>,
    pub sub: Seq<char>,
    pub cidrs: Seq<Seq<char>>,
    pub count: nat,
}

/// Position of the entry named `name`, or -1.
pub open spec fn excl_pos(s: Seq<ExclView>, name: Seq<char>) -> int
    decreases s.len(),
{
    if s.len() == 0 {
        -1
    } else if excl_pos(s.drop_last(), name) >= 0 {
        excl_pos(s.drop_last(), name)
    } else if s.last().name == name {
        s.len() - 1
    } else {
        -1
    }
}

/// The VNets excluded in favour of `w` among the first `n` excluded
/// subnets, in order of first sight.
pub open spec fn excl_group(ex: Seq<(Subnet, Seq<char>)>, w: Seq<char>, n: int) -> Seq<ExclView>
    decreases n,
{
    if n <= 0 {
        Seq::empty()
    } else {
        let g = excl_group(ex, w, n - 1);
        let e = ex[n - 1];
        if e.1 != w {
            g
        } else {
            let p = excl_pos(g, e.0.vnet_name@);
            let c = cidr_text(e.0.vnet_cidr);
            if p >= 0 {
                g.update(p, ExclView { cidrs: push_new(g[p].cidrs, c), count: g[p].count + 1, ..g[p] })
            } else {
                g.push(ExclView { name: e.0.vnet_name@, sub: e.0.subscription_name@, cidrs: seq![c], count: 1 })
            }
        }
    }
}

/// Where an insertion by name puts `x`.
pub open spec fn excl_insert_pos(s: Seq<ExclView>, x: ExclView) -> nat
    decreases s.len(),
{
    if s.len() == 0 || !text_lt(s[0].name, x.name) {
        0
    } else {
        1 + excl_insert_pos(s.drop_first(), x)
    }
}

/// The entries sorted by name.
pub open spec fn excl_sorted(s: Seq<ExclView>) -> Seq<ExclView>
    decreases s.len(),
{
    if s.len() == 0 {
        s
    } else {
        let t = excl_sorted(s.drop_first());
        t.insert(excl_insert_pos(t, s[0]) as int, s[0])
    }
}

/// Some subnet was excluded in favour of the VNet named `w`.
pub open spec fn is_winner(ex: Seq<(Subnet, Seq<char>)>, w: Seq<char>) -> bool {
    exists|i: int| 0 <= i < ex.len() && (#[trigger] ex[i]).1 == w
}

/// The summary line of a VNet.
pub open spec fn vnet_line(v: VnetView) -> Seq<char> {
    "VNET: '"@ + v.vnet_name + "' '"@ + v.subscription_name + "' - "@ + join_text(
        v.vnet_cidr.map_values(|c: Ipv4| cidr_text(c)),
        ", "@,
    ) + " ["@ + dec(v.subnets.len()) + " subnet(s)]"@
}

/// The line of a VNet excluded in favour of `w`.
pub open spec fn excl_line(e: ExclView, w: Seq<char>) -> Seq<char> {
    "  EXCL: '"@ + e.name + "' '"@ + e.sub + "' - "@ + join_text(e.cidrs, ", "@) + " ["@ + dec(e.count)
        + " subnet(s)] [DUP of '"@ + w + "']"@
}

/// Where an insertion by subscription, then VNet name, puts `x`.
pub open spec fn vnet_insert_pos(s: Seq<VnetView>, x: VnetView) -> nat
    decreases s.len(),
{
    if s.len() == 0 || !pair_lt((s[0].subscription_name, s[0].vnet_name), (x.subscription_name, x.vnet_name)) {
        0
    } else {
        1 + vnet_insert_pos(s.drop_first(), x)
    }
}

/// The VNets sorted by subscription, then name.
pub open spec fn vnets_sorted(s: Seq<VnetView>) -> Seq<VnetView>
    decreases s.len(),
{
    if s.len() == 0 {
        s
    } else {
        let t = vnets_sorted(s.drop_first());
        t.insert(vnet_insert_pos(t, s[0]) as int, s[0])
    }
}

/// The lines of one VNet: its summary line, green when it won an overlap,
/// followed by the red lines of the VNets it won against.
pub open spec fn lines_of_vnet(v: VnetView, ex: Seq<(Subnet, Seq<char>)>) -> Seq<(Seq<char>, Option<Paint>)> {
    if is_winner(ex, v.vnet_name) {
        let entries = excl_sorted(excl_group(ex, v.vnet_name, ex.len() as int));
        seq![(vnet_line(v), Some(Paint::Green))] + entries.map_values(
            |e: ExclView| (excl_line(e, v.vnet_name), Some(Paint::Red)),
        )
    } else {
        seq![(vnet_line(v), None)]
    }
}

/// The lines of the first `n` VNets.
pub open spec fn summary_lines(vs: Seq<VnetView>, ex: Seq<(Subnet, Seq<char>)>, n: int) -> Seq<(Seq<char>, Option<Paint>)>
    decreases n,
{
    if n <= 0 {
        Seq::empty()
    } else {
        summary_lines(vs, ex, n - 1) + lines_of_vnet(vs[n - 1], ex)
    }
}

/// `ps` are the lines `ls` as `colored` may print them.
pub open spec fn painted_lines(ls: Seq<(Seq<char>, Option<Paint>)>, ps: Seq<Seq<char>>) -> bool {
    ps.len() == ls.len() && forall|i: int| 0 <= i < ls.len() ==> painted_as(#[trigger] ls[i].0, ls[i].1, ps[i])
}

/// The distinct VNet names of the first `n` excluded subnets, in order.
pub open spec fn excluded_names(ex: Seq<(Subnet, Seq<char>)>, n: int) -> Seq<Seq<char>>
    decreases n,
{
    if n <= 0 {
        Seq::empty()
    } else {
        push_new(excluded_names(ex, n - 1), ex[n - 1].0.vnet_name@)
    }
}

/// The summary lines of the VNets, sorted by subscription and name, with
/// their colours.
pub open spec fn vnet_summary(vs: Seq<VnetView>, ex: Seq<(Subnet, Seq<char>)>) -> Seq<(Seq<char>, Option<Paint>)> {
    let sorted = vnets_sorted(vs);
    summary_lines(sorted, ex, sorted.len() as int)
}

/// One excluded VNet under its winner.
pub struct ExclEntry {
    pub name: String,
    pub sub: String,
    pub cidrs: Vec<String>,
    pub count: usize,
}

impl View for ExclEntry {
    type V = ExclView;

    open spec fn view(&self) -> ExclView {
        ExclView { name: self.name@, sub: self.sub@, cidrs: string_views(self.cidrs@), count: self.count as nat }
    }
}

/// The views of excluded-VNet entries.
pub open spec fn excl_views(v: Seq<ExclEntry>) -> Seq<ExclView> {
    v.map_values(|e: ExclEntry| e@)
}

proof fn lemma_excl_pos(s: Seq<ExclView>, name: Seq<char>)
    ensures
        -1 <= excl_pos(s, name) < s.len(),
        excl_pos(s, name) >= 0 ==> s[excl_pos(s, name)].name == name,
        forall|i: int| 0 <= i < s.len() && (excl_pos(s, name) < 0 || i < excl_pos(s, name)) ==> #[trigger] s[i].name != name,
    decreases s.len(),
{
    if s.len() > 0 {
        lemma_excl_pos(s.drop_last(), name);
        let p = excl_pos(s, name);
        assert forall|i: int| 0 <= i < s.len() && (p < 0 || i < p) implies #[trigger] s[i].name != name by {
            if i < s.len() - 1 {
                assert(s.drop_last()[i] == s[i]);
            }
        }
    }
}

/// Whether `x` is one of the strings.
fn has_string(v: &Vec<String>, x: &str) -> (r: bool)
    ensures
        r == string_views(v@).contains(x@),
{
    let mut k: usize = 0;
    while k < v.len()
        invariant
            k <= v@.len(),
            forall|i: int| 0 <= i < k ==> string_views(v@)[i] != x@,
        decreases v@.len() - k,
    {
        if str_eq(v[k].as_str(), x) {
            assert(string_views(v@)[k as int] == x@);
            return true;
        }
        k += 1;
    }
    false
}

/// The VNets excluded in favour of `w`, in order of first sight.
fn excl_group_exec(excluded: &[ExcludedSubnet], w: &str) -> (r: Vec<ExclEntry>)
    ensures
        excl_views(r@) == excl_group(excluded_views(excluded@), w@, excluded@.len() as int),
{
    let ghost ex = excluded_views(excluded@);
    let mut out: Vec<ExclEntry> = Vec::new();
    let mut k: usize = 0;
    while k < excluded.len()
        invariant
            k <= excluded@.len(),
            ex == excluded_views(excluded@),
            excl_views(out@) == excl_group(ex, w@, k as int),
            forall|q: int| 0 <= q < out@.len() ==> (#[trigger] out@[q]).count <= k,
        decreases excluded@.len() - k,
    {
        let e = &excluded[k];
        assert(ex[k as int] == (e.subnet, e.winner_vnet_name@));
        if str_eq(e.winner_vnet_name.as_str(), w) {
            let ghost g = excl_views(out@);
            proof {
                lemma_excl_pos(g, e.subnet.vnet_name@);
            }
            let c = e.subnet.vnet_cidr.to_string();
            let mut p: usize = 0;
            while p < out.len() && !str_eq(out[p].name.as_str(), e.subnet.vnet_name.as_str())
                invariant
                    p <= out@.len(),
                    g == excl_views(out@),
                    forall|q: int| 0 <= q < p ==> #[trigger] g[q].name != e.subnet.vnet_name@,
                decreases out@.len() - p,
            {
                p += 1;
            }
            if p < out.len() {
                assert(excl_pos(g, e.subnet.vnet_name@) == p as int) by {
                    let x = excl_pos(g, e.subnet.vnet_name@);
                    if x < 0 || x > p {
                        assert(g[p as int].name == e.subnet.vnet_name@);
                    }
                }
                let mut entry = out.remove(p);
                if !has_string(&entry.cidrs, c.as_str()) {
                    let ghost before = entry.cidrs@;
                    entry.cidrs.push(c);
                    assert(string_views(entry.cidrs@) =~= string_views(before).push(cidr_text(e.subnet.vnet_cidr)));
                }
                entry.count = entry.count + 1;
                out.insert(p, entry);
                assert(excl_views(out@) =~= excl_group(ex, w@, k + 1));
            } else {
                let mut cidrs: Vec<String> = Vec::new();
                cidrs.push(c);
                assert(string_views(cidrs@) =~= seq![cidr_text(e.subnet.vnet_cidr)]);
                out.push(
                    ExclEntry {
                        name: e.subnet.vnet_name.clone(),
                        sub: e.subnet.subscription_name.clone(),
                        cidrs,
                        count: 1,
                    },
                );
                assert(excl_views(out@) =~= excl_group(ex, w@, k + 1));
            }
        } else {
            assert(excl_group(ex, w@, k + 1) == excl_group(ex, w@, k as int));
        }
        k += 1;
    }
    out
}

proof fn lemma_excl_insert_pos(t: Seq<ExclView>, x: ExclView, p: int)
    requires
        0 <= p <= t.len(),
        forall|q: int| 0 <= q < p ==> #[trigger] text_lt(t[q].name, x.name),
        p < t.len() ==> !text_lt(t[p].name, x.name),
    ensures
        excl_insert_pos(t, x) == p,
    decreases t.len(),
{
    if p > 0 {
        let u = t.drop_first();
        assert forall|q: int| 0 <= q < p - 1 implies #[trigger] text_lt(u[q].name, x.name) by {
            assert(u[q] == t[q + 1]);
        }
        if p - 1 < u.len() {
            assert(u[p - 1] == t[p]);
        }
        lemma_excl_insert_pos(u, x, p - 1);
    }
}

/// The entries sorted by name.
fn sort_excl(v: Vec<ExclEntry>) -> (r: Vec<ExclEntry>)
    ensures
        excl_views(r@) == excl_sorted(excl_views(v@)),
{
    let ghost s = excl_views(v@);
    let mut src = v;
    let mut out: Vec<ExclEntry> = Vec::new();
    assert(s.subrange(s.len() as int, s.len() as int) =~= Seq::<ExclView>::empty());
    assert(excl_views(out@) =~= excl_sorted(s.subrange(s.len() as int, s.len() as int)));
    while src.len() > 0
        invariant
            src@.len() <= s.len(),
            excl_views(src@) == s.subrange(0, src@.len() as int),
            excl_views(out@) == excl_sorted(s.subrange(src@.len() as int, s.len() as int)),
        decreases src@.len(),
    {
        let ghost k = src@.len() - 1;
        let ghost before_src = src@;
        let x = src.pop().unwrap();
        assert(src@ == before_src.drop_last());
        assert(x@ == s[k]) by {
            assert(excl_views(before_src)[k] == s.subrange(0, k + 1)[k]);
        }
        let mut p: usize = 0;
        while p < out.len() && text_less(out[p].name.as_str(), x.name.as_str())
            invariant
                p <= out@.len(),
                forall|q: int| 0 <= q < p ==> #[trigger] text_lt(excl_views(out@)[q].name, x@.name),
            decreases out@.len() - p,
        {
            p += 1;
        }
        let ghost t = excl_views(out@);
        proof {
            lemma_excl_insert_pos(t, x@, p as int);
            let whole = s.subrange(k, s.len() as int);
            assert(whole.drop_first() =~= s.subrange(k + 1, s.len() as int));
            assert(whole[0] == x@);
        }
        out.insert(p, x);
        assert(excl_views(out@) =~= t.insert(p as int, x@));
        assert(excl_views(src@) =~= s.subrange(0, src@.len() as int)) by {
            assert forall|i: int| 0 <= i < src@.len() implies #[trigger] excl_views(src@)[i] == s.subrange(0, src@.len() as int)[i] by {
                assert(excl_views(before_src)[i] == s.subrange(0, k + 1)[i]);
            }
        }
    }
    assert(s.subrange(0, s.len() as int) =~= s);
    out
}

/// Whether some subnet was excluded in favour of the VNet named `w`.
fn is_winner_exec(excluded: &[ExcludedSubnet], w: &str) -> (r: bool)
    ensures
        r == is_winner(excluded_views(excluded@), w@),
{
    let ghost ex = excluded_views(excluded@);
    let mut k: usize = 0;
    while k < excluded.len()
        invariant
            k <= excluded@.len(),
            ex == excluded_views(excluded@),
            forall|i: int| 0 <= i < k ==> (#[trigger] ex[i]).1 != w@,
        decreases excluded@.len() - k,
    {
        assert(ex[k as int].1 == excluded@[k as int].winner_vnet_name@);
        if str_eq(excluded[k].winner_vnet_name.as_str(), w) {
            return true;
        }
        k += 1;
    }
    false
}

/// The VNets at the given positions.
pub open spec fn pick_vnets(vs: Seq<VnetView>, idx: Seq<usize>) -> Seq<VnetView> {
    idx.map_values(|i: usize| vs[i as int])
}

proof fn lemma_vnet_insert_pos(t: Seq<VnetView>, x: VnetView, p: int)
    requires
        0 <= p <= t.len(),
        forall|q: int|
            0 <= q < p ==> #[trigger] pair_lt((t[q].subscription_name, t[q].vnet_name), (x.subscription_name, x.vnet_name)),
        p < t.len() ==> !pair_lt((t[p].subscription_name, t[p].vnet_name), (x.subscription_name, x.vnet_name)),
    ensures
        vnet_insert_pos(t, x) == p,
    decreases t.len(),
{
    if p > 0 {
        let u = t.drop_first();
        assert forall|q: int| 0 <= q < p - 1 implies #[trigger] pair_lt(
            (u[q].subscription_name, u[q].vnet_name),
            (x.subscription_name, x.vnet_name),
        ) by {
            assert(u[q] == t[q + 1]);
        }
        if p - 1 < u.len() {
            assert(u[p - 1] == t[p]);
        }
        lemma_vnet_insert_pos(u, x, p - 1);
    }
}

/// Subscription-then-name order of two VNets.
fn vnet_less(a: &Vnet, b: &Vnet) -> (r: bool)
    ensures
        r == pair_lt((a@.subscription_name, a@.vnet_name), (b@.subscription_name, b@.vnet_name)),
{
    text_less(a.subscription_name, b.subscription_name) || (str_eq(a.subscription_name, b.subscription_name)
        && text_less(a.vnet_name, b.vnet_name))
}

/// The positions of the VNets in subscription-then-name order.
fn sorted_vnet_positions(vs: &Vec<Vnet>) -> (r: Vec<usize>)
    ensures
        forall|q: int| 0 <= q < r@.len() ==> #[trigger] r@[q] < vs@.len(),
        pick_vnets(vnet_views(vs@), r@) == vnets_sorted(vnet_views(vs@)),
{
    let ghost g = vnet_views(vs@);
    let mut out: Vec<usize> = Vec::new();
    let mut k: usize = vs.len();
    assert(g.subrange(g.len() as int, g.len() as int) =~= Seq::<VnetView>::empty());
    assert(pick_vnets(g, out@) =~= vnets_sorted(g.subrange(k as int, g.len() as int)));
    while k > 0
        invariant
            k <= vs@.len() == g.len(),
            g == vnet_views(vs@),
            forall|q: int| 0 <= q < out@.len() ==> #[trigger] out@[q] < vs@.len(),
            pick_vnets(g, out@) == vnets_sorted(g.subrange(k as int, g.len() as int)),
        decreases k,
    {
        k -= 1;
        let ghost t = pick_vnets(g, out@);
        let mut p: usize = 0;
        while p < out.len() && vnet_less(&vs[out[p]], &vs[k])
            invariant
                p <= out@.len(),
                k < vs@.len(),
                g == vnet_views(vs@),
                t == pick_vnets(g, out@),
                forall|q: int| 0 <= q < out@.len() ==> #[trigger] out@[q] < vs@.len(),
                forall|q: int|
                    0 <= q < p ==> #[trigger] pair_lt(
                        (t[q].subscription_name, t[q].vnet_name),
                        (g[k as int].subscription_name, g[k as int].vnet_name),
                    ),
            decreases out@.len() - p,
        {
            p += 1;
        }
        proof {
            lemma_vnet_insert_pos(t, g[k as int], p as int);
            let whole = g.subrange(k as int, g.len() as int);
            assert(whole.drop_first() =~= g.subrange(k + 1, g.len() as int));
            assert(whole[0] == g[k as int]);
        }
        out.insert(p, k);
        assert(pick_vnets(g, out@) =~= t.insert(p as int, g[k as int]));
    }
    assert(g.subrange(0, g.len() as int) =~= g);
    out
}

/// The summary line of a VNet.
fn vnet_line_exec(v: &Vnet) -> (r: String)
    ensures
        r@ == vnet_line(v@),
{
    let mut cidrs: Vec<String> = Vec::new();
    let mut k: usize = 0;
    while k < v.vnet_cidr.len()
        invariant
            k <= v.vnet_cidr@.len(),
            cidrs@.len() == k,
            forall|q: int| 0 <= q < k ==> (#[trigger] cidrs@[q])@ == cidr_text(v.vnet_cidr@[q]),
        decreases v.vnet_cidr@.len() - k,
    {
        cidrs.push(v.vnet_cidr[k].to_string());
        k += 1;
    }
    assert(string_views(cidrs@) =~= v@.vnet_cidr.map_values(|c: Ipv4| cidr_text(c)));
    let mut out = chars_of("VNET: '");
    append_str(&mut out, v.vnet_name);
    append_str(&mut out, "' '");
    append_str(&mut out, v.subscription_name);
    append_str(&mut out, "' - ");
    append_str(&mut out, join_strings(cidrs.as_slice(), ", ").as_str());
    append_str(&mut out, " [");
    append_str(&mut out, decimal(v.subnets.len() as u64).as_str());
    append_str(&mut out, " subnet(s)]");
    string_from_chars(out.as_slice())
}

/// The line of a VNet excluded in favour of `w`.
fn excl_line_exec(e: &ExclEntry, w: &str) -> (r: String)
    ensures
        r@ == excl_line(e@, w@),
{
    let mut out = chars_of("  EXCL: '");
    append_str(&mut out, e.name.as_str());
    append_str(&mut out, "' '");
    append_str(&mut out, e.sub.as_str());
    append_str(&mut out, "' - ");
    append_str(&mut out, join_strings(e.cidrs.as_slice(), ", ").as_str());
    append_str(&mut out, " [");
    append_str(&mut out, decimal(e.count as u64).as_str());
    append_str(&mut out, " subnet(s)] [DUP of '");
    append_str(&mut out, w);
    append_str(&mut out, "']");
    string_from_chars(out.as_slice())
}

/// The views of summary lines.
pub open spec fn line_views(v: Seq<(String, Option<Paint>)>) -> Seq<(Seq<char>, Option<Paint>)> {
    v.map_values(|l: (String, Option<Paint>)| (l.0@, l.1))
}

/// The VNet summary lines, sorted by subscription and VNet name, each with
/// the colour it is printed in: winners of an overlap green, followed by
/// the VNets they won against in red.
pub fn vnet_lines(vnets: &VnetList<'_>, excluded: &[ExcludedSubnet]) -> (r: Vec<(String, Option<Paint>)>)
    ensures
        line_views(r@) == vnet_summary(vnet_views(vnets.vnets@), excluded_views(excluded@)),
{
    let ghost g = vnet_views(vnets.vnets@);
    let ghost ex = excluded_views(excluded@);
    let order = sorted_vnet_positions(&vnets.vnets);
    let ghost sorted = pick_vnets(g, order@);
    let mut out: Vec<(String, Option<Paint>)> = Vec::new();
    let mut k: usize = 0;
    while k < order.len()
        invariant
            k <= order@.len(),
            g == vnet_views(vnets.vnets@),
            ex == excluded_views(excluded@),
            sorted == pick_vnets(g, order@),
            sorted == vnets_sorted(g),
            forall|q: int| 0 <= q < order@.len() ==> #[trigger] order@[q] < vnets.vnets@.len(),
            line_views(out@) == summary_lines(sorted, ex, k as int),
        decreases order@.len() - k,
    {
        let v = &vnets.vnets[order[k]];
        assert(sorted[k as int] == v@);
        let ghost before = line_views(out@);
        let line = vnet_line_exec(v);
        if is_winner_exec(excluded, v.vnet_name) {
            out.push((line, Some(Paint::Green)));
            let entries = sort_excl(excl_group_exec(excluded, v.vnet_name));
            let ghost es = excl_views(entries@);
            let ghost mid = line_views(out@);
            let mut m: usize = 0;
            while m < entries.len()
                invariant
                    m <= entries@.len(),
                    es == excl_views(entries@),
                    line_views(out@) == mid + es.subrange(0, m as int).map_values(
                        |e: ExclView| (excl_line(e, v@.vnet_name), Some(Paint::Red)),
                    ),
                decreases entries@.len() - m,
            {
                let ghost lv = line_views(out@);
                let l = excl_line_exec(&entries[m], v.vnet_name);
                assert(es[m as int] == entries@[m as int]@);
                out.push((l, Some(Paint::Red)));
                assert(line_views(out@) =~= lv.push((excl_line(es[m as int], v@.vnet_name), Some(Paint::Red))));
                assert(es.subrange(0, m + 1) =~= es.subrange(0, m as int).push(es[m as int]));
                assert(es.subrange(0, m + 1).map_values(|e: ExclView| (excl_line(e, v@.vnet_name), Some(Paint::Red)))
                    =~= es.subrange(0, m as int).map_values(|e: ExclView| (excl_line(e, v@.vnet_name), Some(Paint::Red))).push(
                    (excl_line(es[m as int], v@.vnet_name), Some(Paint::Red)),
                ));
                assert(line_views(out@) =~= mid + es.subrange(0, m + 1).map_values(
                    |e: ExclView| (excl_line(e, v@.vnet_name), Some(Paint::Red)),
                ));
                m += 1;
            }
            assert(es.subrange(0, es.len() as int) =~= es);
            assert(line_views(out@) =~= before + lines_of_vnet(v@, ex));
        } else {
            out.push((line, None));
            assert(line_views(out@) =~= before + lines_of_vnet(v@, ex));
        }
        k += 1;
    }
    out
}

/// The VNet summary as printed: the lines of `vnet_lines`, each as
/// `colored` prints it in its colour, joined with newlines.
pub fn format_vnets(vnets: &VnetList<'_>, excluded: &[ExcludedSubnet]) -> (r: String)
    ensures
        exists|ps: Seq<Seq<char>>|
            #[trigger] painted_lines(vnet_summary(vnet_views(vnets.vnets@), excluded_views(excluded@)), ps) && r@
                == join_text(ps, "\n"@),
{
    let lines = vnet_lines(vnets, excluded);
    let ghost ls = line_views(lines@);
    let mut painted: Vec<String> = Vec::new();
    let mut k: usize = 0;
    while k < lines.len()
        invariant
            k <= lines@.len(),
            ls == line_views(lines@),
            painted@.len() == k,
            forall|i: int| 0 <= i < k ==> painted_as(#[trigger] ls[i].0, ls[i].1, painted@[i]@),
        decreases lines@.len() - k,
    {
        let (text, colour) = (&lines[k].0, lines[k].1);
        let p = match colour {
            Some(Paint::Green) => paint_green(text.as_str()),
            Some(Paint::Red) => paint_red(text.as_str()),
            None => text.clone(),
        };
        painted.push(p);
        k += 1;
    }
    let r = join_strings(painted.as_slice(), "\n");
    assert(string_views(painted@).len() == ls.len());
    assert forall|i: int| 0 <= i < ls.len() implies painted_as(#[trigger] ls[i].0, ls[i].1, string_views(painted@)[i]) by {
        assert(string_views(painted@)[i] == painted@[i]@);
    }
    assert(painted_lines(ls, string_views(painted@)));
    r
}

/// How many distinct VNets the excluded subnets belong to.
pub fn count_excluded_vnets(excluded: &[ExcludedSubnet]) -> (r: usize)
    ensures
        r == excluded_names(excluded_views(excluded@), excluded@.len() as int).len(),
{
    let ghost ex = excluded_views(excluded@);
    let mut names: Vec<String> = Vec::new();
    let mut k: usize = 0;
    while k < excluded.len()
        invariant
            k <= excluded@.len(),
            ex == excluded_views(excluded@),
            string_views(names@) == excluded_names(ex, k as int),
        decreases excluded@.len() - k,
    {
        assert(ex[k as int].0 == excluded@[k as int].subnet);
        if !has_string(&names, excluded[k].subnet.vnet_name.as_str()) {
            let ghost before = names@;
            names.push(excluded[k].subnet.vnet_name.clone());
            assert(string_views(names@) =~= string_views(before).push(excluded@[k as int].subnet.vnet_name@));
        }
        k += 1;
    }
    names.len()
}

} // verus!
