//! Markdown report of the VNets excluded by overlap resolution.
use crate::models::ipv4::cidr_text;
use crate::models::subnet::Subnet;
use crate::azure::graph::Data;
use crate::output::csv::{dup_groups, winner_of, winners};
use crate::subnet_order::{text_less, text_lt};
use crate::text::{append_str, chars_of, str_eq, string_from_chars, string_views};
use vstd::prelude::*;

verus! {

/// `s` without all leading copies of `p` (`str::trim_start_matches`).
pub open spec fn strip_leading(s: Seq<char>, p: Seq<char>) -> Seq<char>
    decreases s.len(),
{
    if p.len() > 0 && p.len() <= s.len() && s.subrange(0, p.len() as int) == p {
        strip_leading(s.subrange(p.len() as int, s.len() as int), p)
    } else {
        s
    }
}

/// `s` without all trailing copies of `p` (`str::trim_end_matches`).
pub open spec fn strip_trailing(s: Seq<char>, p: Seq<char>) -> Seq<char>
    decreases s.len(),
{
    if p.len() > 0 && p.len() <= s.len() && s.subrange(s.len() - p.len(), s.len() as int) == p {
        strip_trailing(s.subrange(0, s.len() - p.len()), p)
    } else {
        s
    }
}

fn starts_with_at(s: &Vec<char>, from: usize, to: usize, p: &Vec<char>) -> (r: bool)
    requires
        from <= to <= s@.len(),
    ensures
        r == (p@.len() <= to - from && s@.subrange(from as int, from + p@.len()) == p@),
{
    if p.len() > to - from {
        return false;
    }
    let mut k: usize = 0;
    while k < p.len()
        invariant
            p@.len() <= to - from,
            to <= s@.len(),
            k <= p@.len(),
            forall|q: int| 0 <= q < k ==> s@[from + q] == p@[q],
        decreases p@.len() - k,
    {
        if s[from + k] != p[k] {
            assert(s@.subrange(from as int, from + p@.len())[k as int] != p@[k as int]);
            return false;
        }
        k += 1;
    }
    assert(s@.subrange(from as int, from + p@.len()) =~= p@);
    true
}

/// The part of a report file name between `net_` and `_duplicates.md`.
pub fn report_date_part(filename: &str) -> (r: String)
    ensures
        r@ == strip_trailing(strip_leading(filename@, "net_"@), "_duplicates.md"@),
{
    let s = chars_of(filename);
    let p = chars_of("net_");
    let q = chars_of("_duplicates.md");
    let mut from: usize = 0;
    let n = s.len();
    assert(s@.subrange(0, n as int) =~= s@);
    while p.len() > 0 && starts_with_at(&s, from, n, &p)
        invariant
            from <= n == s@.len(),
            p@ == "net_"@,
            strip_leading(filename@, "net_"@) == strip_leading(s@.subrange(from as int, n as int), "net_"@),
        decreases n - from,
    {
        let ghost t = s@.subrange(from as int, n as int);
        assert(t.subrange(0, p@.len() as int) =~= s@.subrange(from as int, from + p@.len()));
        assert(t.subrange(p@.len() as int, t.len() as int) =~= s@.subrange(from + p@.len(), n as int));
        from = from + p.len();
    }
    proof {
        let t = s@.subrange(from as int, n as int);
        if p@.len() > 0 && p@.len() <= t.len() {
            assert(t.subrange(0, p@.len() as int) =~= s@.subrange(from as int, from + p@.len()));
        }
        assert(strip_leading(t, "net_"@) == t);
    }
    let mut to: usize = n;
    while to - from >= q.len() && q.len() > 0 && starts_with_at(&s, to - q.len(), to, &q)
        invariant
            from <= to <= n == s@.len(),
            q@ == "_duplicates.md"@,
            strip_trailing(strip_leading(filename@, "net_"@), "_duplicates.md"@) == strip_trailing(
                s@.subrange(from as int, to as int),
                "_duplicates.md"@,
            ),
        decreases to - from,
    {
        let ghost t = s@.subrange(from as int, to as int);
        assert(t.subrange(t.len() - q@.len(), t.len() as int) =~= s@.subrange(to - q@.len(), to as int));
        assert(t.subrange(0, t.len() - q@.len()) =~= s@.subrange(from as int, to - q@.len()));
        to = to - q.len();
    }
    proof {
        let t = s@.subrange(from as int, to as int);
        if q@.len() > 0 && q@.len() <= t.len() {
            assert(t.subrange(t.len() - q@.len(), t.len() as int) =~= s@.subrange(to - q@.len(), to as int));
        }
        assert(strip_trailing(t, "_duplicates.md"@) == t);
    }
    string_from_chars(sub_slice(&s, from, to).as_slice())
}

fn sub_slice(v: &Vec<char>, from: usize, to: usize) -> (r: Vec<char>)
    requires
        from <= to <= v@.len(),
    ensures
        r@ == v@.subrange(from as int, to as int),
{
    crate::text::sub_chars(v, from, to)
}

/// The subnets excluded in favour of `w` that belong to VNet `e`, in order.
pub open spec fn excl_members(subs: Seq<Subnet>, w: Seq<char>, e: Seq<char>) -> Seq<Subnet>
    decreases subs.len(),
{
    if subs.len() == 0 {
        Seq::empty()
    } else {
        let pre = excl_members(subs.drop_last(), w, e);
        let x = subs.last();
        if x.excluded_by is Some && winner_of(x) == w && x.vnet_name@ == e {
            pre.push(x)
        } else {
            pre
        }
    }
}

/// The VNets excluded in favour of `w`, each once, in order of first
/// appearance.
pub open spec fn excl_vnets(subs: Seq<Subnet>, w: Seq<char>) -> Seq<Seq<char>>
    decreases subs.len(),
{
    if subs.len() == 0 {
        Seq::empty()
    } else {
        let pre = excl_vnets(subs.drop_last(), w);
        let x = subs.last();
        if x.excluded_by is Some && winner_of(x) == w && !pre.contains(x.vnet_name@) {
            pre.push(x.vnet_name@)
        } else {
            pre
        }
    }
}

/// Where an insertion in text order puts `x`.
pub open spec fn text_insert_pos(s: Seq<Seq<char>>, x: Seq<char>) -> nat
    decreases s.len(),
{
    if s.len() == 0 || !text_lt(s[0], x) {
        0
    } else {
        1 + text_insert_pos(s.drop_first(), x)
    }
}

/// The texts sorted (by insertion, in text order).
pub open spec fn sorted_texts(s: Seq<Seq<char>>) -> Seq<Seq<char>>
    decreases s.len(),
{
    if s.len() == 0 {
        s
    } else {
        let t = sorted_texts(s.drop_first());
        t.insert(text_insert_pos(t, s[0]) as int, s[0])
    }
}

/// The block text and subscription of the first active subnet of VNet `w`
/// (empty texts when there is none).
pub open spec fn winner_info(subs: Seq<Subnet>, w: Seq<char>) -> (Seq<char>, Seq<char>)
    decreases subs.len(),
{
    if subs.len() == 0 {
        (Seq::empty(), Seq::empty())
    } else if subs[0].excluded_by is None && subs[0].vnet_name@ == w {
        (cidr_text(subs[0].vnet_cidr), subs[0].subscription_name@)
    } else {
        winner_info(subs.drop_first(), w)
    }
}

/// The table line of an excluded subnet.
pub open spec fn subnet_line(s: Subnet) -> Seq<char> {
    "| `"@ + s.subnet_name@ + "` | "@ + match s.subnet_cidr {
        Some(c) => cidr_text(c),
        None => Seq::empty(),
    } + " |\n"@
}

/// The table lines of the subnets.
pub open spec fn subnet_lines(ms: Seq<Subnet>) -> Seq<char>
    decreases ms.len(),
{
    if ms.len() == 0 {
        Seq::empty()
    } else {
        subnet_lines(ms.drop_last()) + subnet_line(ms.last())
    }
}

/// The section of excluded VNet `e` under winner `w`.
pub open spec fn excl_section(subs: Seq<Subnet>, w: Seq<char>, e: Seq<char>) -> Seq<char> {
    let ms = excl_members(subs, w, e);
    "\n### Duplicate VNET: `"@ + e + "` ("@ + cidr_text(ms[0].vnet_cidr) + ") — "@
        + ms[0].subscription_name@ + "\n| Subnet | CIDR |\n|--------|------|\n"@ + subnet_lines(ms)
}

/// The sections of the excluded VNets `es` under winner `w`.
pub open spec fn excl_sections(subs: Seq<Subnet>, w: Seq<char>, es: Seq<Seq<char>>) -> Seq<char>
    decreases es.len(),
{
    if es.len() == 0 {
        Seq::empty()
    } else {
        excl_sections(subs, w, es.drop_last()) + excl_section(subs, w, es.last())
    }
}

/// The section of winner `w`: its heading, then its excluded VNets in name
/// order.
pub open spec fn winner_section(subs: Seq<Subnet>, w: Seq<char>) -> Seq<char> {
    let info = winner_info(subs, w);
    "\n## Winner VNET: `"@ + w + "` ("@ + info.0 + ") — "@ + info.1 + "\n"@ + excl_sections(
        subs,
        w,
        sorted_texts(excl_vnets(subs, w)),
    )
}

/// The sections of the winners `ws`.
pub open spec fn winner_sections(subs: Seq<Subnet>, ws: Seq<Seq<char>>) -> Seq<char>
    decreases ws.len(),
{
    if ws.len() == 0 {
        Seq::empty()
    } else {
        winner_sections(subs, ws.drop_last()) + winner_section(subs, ws.last())
    }
}

/// The report: a heading with the date, then a section per winner (in
/// order of first appearance), or a note that there are no duplicates.
pub open spec fn duplicates_md(subs: Seq<Subnet>, date: Seq<char>) -> Seq<char> {
    "# Duplicate VNet Summary — "@ + date + "\n"@ + if winners(subs).len() == 0 {
        "\n_No duplicate VNets found._\n"@
    } else {
        winner_sections(subs, winners(subs))
    }
}

proof fn lemma_excl_vnets_members(subs: Seq<Subnet>, w: Seq<char>, e: Seq<char>)
    requires
        excl_vnets(subs, w).contains(e),
    ensures
        excl_members(subs, w, e).len() > 0,
    decreases subs.len(),
{
    if subs.len() > 0 {
        let pre = subs.drop_last();
        let x = subs.last();
        if excl_vnets(pre, w).contains(e) {
            lemma_excl_vnets_members(pre, w, e);
        } else {
            let k = choose|k: int| 0 <= k < excl_vnets(subs, w).len() && excl_vnets(subs, w)[k] == e;
            if !(x.excluded_by is Some && winner_of(x) == w && !excl_vnets(pre, w).contains(x.vnet_name@)) {
                assert(excl_vnets(subs, w) == excl_vnets(pre, w));
                assert(excl_vnets(pre, w)[k] == e);
            } else {
                if k < excl_vnets(pre, w).len() {
                    assert(excl_vnets(pre, w)[k] == e);
                }
            }
        }
    }
}

proof fn lemma_sorted_texts_members(s: Seq<Seq<char>>)
    ensures
        sorted_texts(s).len() == s.len(),
        forall|k: int| 0 <= k < s.len() ==> s.contains(#[trigger] sorted_texts(s)[k]),
    decreases s.len(),
{
    if s.len() > 0 {
        let rest = s.drop_first();
        lemma_sorted_texts_members(rest);
        let t = sorted_texts(rest);
        lemma_text_insert_pos_bound(t, s[0]);
        let p = text_insert_pos(t, s[0]) as int;
        t.insert_ensures(p, s[0]);
        assert forall|k: int| 0 <= k < s.len() implies s.contains(#[trigger] sorted_texts(s)[k]) by {
            if k < p {
                assert(rest.contains(t[k]));
                let j = choose|j: int| 0 <= j < rest.len() && rest[j] == t[k];
                assert(s[j + 1] == rest[j]);
            } else if k == p {
                assert(s[0] == sorted_texts(s)[k]);
            } else {
                assert(sorted_texts(s)[k] == t[k - 1]);
                assert(rest.contains(t[k - 1]));
                let j = choose|j: int| 0 <= j < rest.len() && rest[j] == t[k - 1];
                assert(s[j + 1] == rest[j]);
            }
        }
    }
}

proof fn lemma_text_insert_pos_bound(t: Seq<Seq<char>>, x: Seq<char>)
    ensures
        text_insert_pos(t, x) <= t.len(),
    decreases t.len(),
{
    if t.len() > 0 && text_lt(t[0], x) {
        lemma_text_insert_pos_bound(t.drop_first(), x);
    }
}

proof fn lemma_text_insert_pos(t: Seq<Seq<char>>, x: Seq<char>, p: int)
    requires
        0 <= p <= t.len(),
        forall|q: int| 0 <= q < p ==> text_lt(#[trigger] t[q], x),
        p == t.len() || !text_lt(t[p], x),
    ensures
        text_insert_pos(t, x) == p,
    decreases p,
{
    if p > 0 {
        let u = t.drop_first();
        assert(text_lt(t[0], x));
        assert forall|q: int| 0 <= q < p - 1 implies text_lt(#[trigger] u[q], x) by {
            assert(u[q] == t[q + 1]);
            assert(text_lt(t[q + 1], x));
        }
        if p < t.len() {
            assert(u[p - 1] == t[p]);
        }
        lemma_text_insert_pos(u, x, p - 1);
    }
}

/// The texts sorted in text order.
pub(crate) fn sort_texts(v: Vec<String>) -> (r: Vec<String>)
    ensures
        string_views(r@) == sorted_texts(string_views(v@)),
{
    let ghost s = string_views(v@);
    let mut src = v;
    let mut out: Vec<String> = Vec::new();
    assert(s.subrange(s.len() as int, s.len() as int) =~= Seq::<Seq<char>>::empty());
    while src.len() > 0
        invariant
            src@.len() <= s.len(),
            string_views(src@) == s.subrange(0, src@.len() as int),
            string_views(out@) == sorted_texts(s.subrange(src@.len() as int, s.len() as int)),
        decreases src@.len(),
    {
        let ghost k = src@.len() - 1;
        let ghost before = src@;
        let x = src.pop().unwrap();
        assert(string_views(before)[k] == s[k]);
        assert(string_views(src@) =~= s.subrange(0, src@.len() as int)) by {
            assert(src@ =~= before.subrange(0, k));
        }
        let ghost ov = string_views(out@);
        let mut p: usize = 0;
        while p < out.len() && text_less(out[p].as_str(), x.as_str())
            invariant
                p <= out@.len(),
                ov == string_views(out@),
                forall|q: int| 0 <= q < p ==> text_lt(#[trigger] ov[q], x@),
            decreases out@.len() - p,
        {
            p += 1;
        }
        proof {
            lemma_text_insert_pos(ov, x@, p as int);
            let whole = s.subrange(k, s.len() as int);
            assert(whole.drop_first() =~= s.subrange(k + 1, s.len() as int));
            assert(whole[0] == x@);
        }
        let ghost xv = x@;
        out.insert(p, x);
        assert(string_views(out@) =~= ov.insert(p as int, xv));
    }
    assert(s.subrange(0, s.len() as int) =~= s);
    out
}

/// The VNets excluded in favour of `w`, each once, in order of first
/// appearance.
fn excluded_vnets_of(subs: &Vec<Subnet>, w: &str) -> (r: Vec<String>)
    ensures
        string_views(r@) == excl_vnets(subs@, w@),
{
    let mut out: Vec<String> = Vec::new();
    let mut k: usize = 0;
    assert(subs@.subrange(0, 0) =~= Seq::<Subnet>::empty());
    while k < subs.len()
        invariant
            k <= subs@.len(),
            string_views(out@) == excl_vnets(subs@.subrange(0, k as int), w@),
        decreases subs@.len() - k,
    {
        let x = &subs[k];
        let ghost now = subs@.subrange(0, k + 1);
        assert(now.drop_last() =~= subs@.subrange(0, k as int));
        assert(now.last() == *x);
        let is_w = match &x.excluded_by {
            Some(name) => str_eq(name.as_str(), w),
            None => false,
        };
        if is_w {
            let mut p: usize = 0;
            let ghost ov = string_views(out@);
            while p < out.len() && !str_eq(out[p].as_str(), x.vnet_name.as_str())
                invariant
                    p <= out@.len(),
                    ov == string_views(out@),
                    forall|q: int| 0 <= q < p ==> ov[q] != x.vnet_name@,
                decreases out@.len() - p,
            {
                p += 1;
            }
            if p == out.len() {
                assert(!ov.contains(x.vnet_name@));
                out.push(x.vnet_name.clone());
                assert(string_views(out@) =~= ov.push(x.vnet_name@));
            } else {
                assert(ov[p as int] == x.vnet_name@);
                assert(ov.contains(x.vnet_name@));
            }
        }
        k += 1;
    }
    assert(subs@.subrange(0, subs@.len() as int) =~= subs@);
    out
}

/// Appends the table lines of the subnets excluded in favour of `w` that
/// belong to VNet `e`; returns the first of them, if any.
fn append_excl_lines(out: &mut Vec<char>, subs: &Vec<Subnet>, w: &str, e: &str) -> (first: Option<usize>)
    ensures
        final(out)@ == old(out)@ + subnet_lines(excl_members(subs@, w@, e@)),
        match first {
            Some(i) => i < subs@.len() && excl_members(subs@, w@, e@).len() > 0 && excl_members(subs@, w@, e@)[0] == subs@[i as int],
            None => excl_members(subs@, w@, e@).len() == 0,
        },
{
    let ghost start = out@;
    let mut first: Option<usize> = None;
    let mut k: usize = 0;
    assert(subs@.subrange(0, 0) =~= Seq::<Subnet>::empty());
    while k < subs.len()
        invariant
            k <= subs@.len(),
            out@ == start + subnet_lines(excl_members(subs@.subrange(0, k as int), w@, e@)),
            match first {
                Some(i) => i < k && excl_members(subs@.subrange(0, k as int), w@, e@).len() > 0 && excl_members(subs@.subrange(0, k as int), w@, e@)[0] == subs@[i as int],
                None => excl_members(subs@.subrange(0, k as int), w@, e@).len() == 0,
            },
        decreases subs@.len() - k,
    {
        let x = &subs[k];
        let ghost now = subs@.subrange(0, k + 1);
        let ghost pre_members = excl_members(subs@.subrange(0, k as int), w@, e@);
        assert(now.drop_last() =~= subs@.subrange(0, k as int));
        assert(now.last() == *x);
        let is_member = match &x.excluded_by {
            Some(name) => str_eq(name.as_str(), w) && str_eq(x.vnet_name.as_str(), e),
            None => false,
        };
        if is_member {
            let ghost before = out@;
            append_str(out, "| `");
            append_str(out, x.subnet_name.as_str());
            append_str(out, "` | ");
            match x.subnet_cidr {
                Some(c) => {
                    let t = c.to_string();
                    append_str(out, t.as_str());
                },
                None => {},
            }
            append_str(out, " |\n");
            assert(out@ =~= before + subnet_line(*x));
            assert(excl_members(now, w@, e@) == pre_members.push(*x));
            assert(subnet_lines(pre_members.push(*x)).len() >= 0);
            assert(pre_members.push(*x).drop_last() =~= pre_members);
            if first.is_none() {
                first = Some(k);
                assert(pre_members.push(*x)[0] == *x);
            } else {
                assert(pre_members.push(*x)[0] == pre_members[0]);
            }
        }
        k += 1;
    }
    assert(subs@.subrange(0, subs@.len() as int) =~= subs@);
    first
}

/// The block text and subscription of the first active subnet of VNet `w`.
fn winner_info_exec(subs: &Vec<Subnet>, w: &str) -> (r: (String, String))
    ensures
        r.0@ == winner_info(subs@, w@).0,
        r.1@ == winner_info(subs@, w@).1,
{
    let mut k: usize = 0;
    assert(subs@.subrange(0, subs@.len() as int) =~= subs@);
    while k < subs.len()
        invariant
            k <= subs@.len(),
            winner_info(subs@, w@) == winner_info(subs@.subrange(k as int, subs@.len() as int), w@),
        decreases subs@.len() - k,
    {
        let x = &subs[k];
        let ghost rest = subs@.subrange(k as int, subs@.len() as int);
        assert(rest[0] == *x);
        assert(rest.drop_first() =~= subs@.subrange(k + 1, subs@.len() as int));
        if x.excluded_by.is_none() && str_eq(x.vnet_name.as_str(), w) {
            return (x.vnet_cidr.to_string(), x.subscription_name.clone());
        }
        k += 1;
    }
    (String::new(), String::new())
}

/// The text of the duplicates report for a report file name
/// `net_<date>_duplicates.md`.
pub fn duplicates_md_text(data: &Data, filename: &str) -> (r: String)
    ensures
        r@ == duplicates_md(data.data@, strip_trailing(strip_leading(filename@, "net_"@), "_duplicates.md"@)),
{
    let subs = &data.data;
    let date = report_date_part(filename);
    let mut out = chars_of("# Duplicate VNet Summary — ");
    append_str(&mut out, date.as_str());
    append_str(&mut out, "\n");
    let (names, _groups) = dup_groups(subs);
    let ghost ws = string_views(names@);
    if names.len() == 0 {
        append_str(&mut out, "\n_No duplicate VNets found._\n");
        return string_from_chars(out.as_slice());
    }
    let ghost head = out@;
    let mut i: usize = 0;
    assert(ws.subrange(0, 0) =~= Seq::<Seq<char>>::empty());
    while i < names.len()
        invariant
            i <= names@.len(),
            ws == string_views(names@),
            ws == winners(subs@),
            out@ == head + winner_sections(subs@, ws.subrange(0, i as int)),
        decreases names@.len() - i,
    {
        let w = names[i].as_str();
        let ghost before = out@;
        let (wc, wsub) = winner_info_exec(subs, w);
        append_str(&mut out, "\n## Winner VNET: `");
        append_str(&mut out, w);
        append_str(&mut out, "` (");
        append_str(&mut out, wc.as_str());
        append_str(&mut out, ") — ");
        append_str(&mut out, wsub.as_str());
        append_str(&mut out, "\n");
        let ghost mid = out@;
        let es = sort_texts(excluded_vnets_of(subs, w));
        let ghost esv = string_views(es@);
        proof {
            lemma_sorted_texts_members(excl_vnets(subs@, w@));
        }
        let mut j: usize = 0;
        assert(esv.subrange(0, 0) =~= Seq::<Seq<char>>::empty());
        while j < es.len()
            invariant
                j <= es@.len(),
                esv == string_views(es@),
                esv == sorted_texts(excl_vnets(subs@, w@)),
                forall|k: int| 0 <= k < esv.len() ==> excl_vnets(subs@, w@).contains(#[trigger] esv[k]),
                out@ == mid + excl_sections(subs@, w@, esv.subrange(0, j as int)),
            decreases es@.len() - j,
        {
            let e = es[j].as_str();
            let ghost before_e = out@;
            assert(esv[j as int] == e@);
            proof {
                lemma_excl_vnets_members(subs@, w@, e@);
            }
            let mut lines: Vec<char> = Vec::new();
            let first = append_excl_lines(&mut lines, subs, w, e);
            let i0 = match first {
                Some(i0) => i0,
                None => {
                    assert(false);
                    0
                },
            };
            append_str(&mut out, "\n### Duplicate VNET: `");
            append_str(&mut out, e);
            append_str(&mut out, "` (");
            let ec = subs[i0].vnet_cidr.to_string();
            append_str(&mut out, ec.as_str());
            append_str(&mut out, ") — ");
            append_str(&mut out, subs[i0].subscription_name.as_str());
            append_str(&mut out, "\n| Subnet | CIDR |\n|--------|------|\n");
            crate::text::append_chars(&mut out, &lines);
            assert(out@ =~= before_e + excl_section(subs@, w@, e@));
            assert(esv.subrange(0, j + 1).drop_last() =~= esv.subrange(0, j as int));
            j += 1;
        }
        assert(esv.subrange(0, esv.len() as int) =~= esv);
        assert(out@ =~= before + winner_section(subs@, w@));
        assert(ws.subrange(0, i + 1).drop_last() =~= ws.subrange(0, i as int));
        assert(ws[i as int] == w@);
        i += 1;
    }
    assert(ws.subrange(0, ws.len() as int) =~= ws);
    string_from_chars(out.as_slice())
}

} // verus!
