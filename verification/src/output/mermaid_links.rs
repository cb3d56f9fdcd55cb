//! The links of the Mermaid peering diagram, counted in its text: Mermaid
//! numbers every drawn link (`---`, `<-->`, `--x`) in drawing order, and the
//! red `linkStyle` lines name stop arrows by that number.
use crate::output::peering_diagram::{
    cidrs_joined, first_sub, gateway_links, is_gateway, is_missing, island_links, island_number, links_before,
    meta_of, mermaid_broken, mermaid_gateway, mermaid_head, mermaid_island, mermaid_islands, mermaid_label,
    mermaid_node, mermaid_nodes, mermaid_pairs, mermaid_text, missing_label, nid, pair_drawn, pair_links, red_links,
    sub_or,
};
use crate::output::peering_topology::{ident_text, lemma_meta_pos, meta_pos, MetaView, TopologyView};
use crate::text::{dec, join_text, lemma_dec_facts};
use vstd::prelude::*;

verus! {

/// A character Azure allows in a VNet name: an ASCII letter or digit, `-`,
/// `_` or `.`.
pub open spec fn azure_name_char(c: char) -> bool {
    let u = c as u32;
    (97 <= u && u <= 122) || (65 <= u && u <= 90) || (48 <= u && u <= 57) || c == '-' || c == '_' || c == '.'
}

/// Every character is one Azure allows in a VNet name.
pub open spec fn azure_name(v: Seq<char>) -> bool {
    forall|i: int| 0 <= i < v.len() ==> azure_name_char(#[trigger] v[i])
}

/// The text holds no line break.
pub open spec fn one_line(s: Seq<char>) -> bool {
    forall|i: int| 0 <= i < s.len() ==> #[trigger] s[i] != '\n'
}

/// The length of the first line of `s`, up to its first line break.
pub open spec fn line_len(s: Seq<char>) -> nat
    decreases s.len(),
{
    if s.len() == 0 {
        0
    } else if s[0] == '\n' {
        0
    } else {
        1 + line_len(s.drop_first())
    }
}

/// `u` starts with a node identifier (characters of a VNet name) followed by
/// a space.
pub open spec fn id_then_space(u: Seq<char>) -> bool
    decreases u.len(),
{
    u.len() > 0 && (u[0] == ' ' || (azure_name_char(u[0]) && id_then_space(u.drop_first())))
}

/// A line of an island that draws a link: eight spaces, `n_`, a node
/// identifier, then a space before the arrow (node lines have `[` or `(`
/// there).
pub open spec fn is_link_line(l: Seq<char>) -> bool {
    l.len() >= 10 && l.subrange(0, 10) == "        n_"@ && id_then_space(l.subrange(10, l.len() as int))
}

/// The number of lines of `s` that draw a link.
pub open spec fn link_line_count(s: Seq<char>) -> nat
    decreases s.len(),
{
    if s.len() == 0 {
        0
    } else {
        let n = line_len(s);
        (if is_link_line(s.subrange(0, n as int)) {
            1nat
        } else {
            0nat
        }) + if n < s.len() {
            link_line_count(s.subrange(n as int + 1, s.len() as int))
        } else {
            0
        }
    }
}

proof fn lemma_line_len_bound(s: Seq<char>)
    ensures
        line_len(s) <= s.len(),
        line_len(s) < s.len() ==> s[line_len(s) as int] == '\n',
        forall|i: int| 0 <= i < line_len(s) ==> #[trigger] s[i] != '\n',
    decreases s.len(),
{
    if s.len() > 0 && s[0] != '\n' {
        let t = s.drop_first();
        lemma_line_len_bound(t);
        assert forall|i: int| 0 <= i < line_len(s) implies #[trigger] s[i] != '\n' by {
            if i > 0 {
                assert(s[i] == t[i - 1]);
            }
        }
    }
}

proof fn lemma_line_len_prefix(a: Seq<char>, b: Seq<char>)
    requires
        a.len() > 0,
        a.last() == '\n',
    ensures
        line_len(a + b) == line_len(a),
        line_len(a) < a.len(),
    decreases a.len(),
{
    if a[0] != '\n' {
        assert(a.len() > 1);
        assert((a + b).drop_first() =~= a.drop_first() + b);
        assert(a.drop_first().last() == '\n');
        lemma_line_len_prefix(a.drop_first(), b);
    }
}

/// Counting link lines splits at a line break.
pub proof fn lemma_count_concat(a: Seq<char>, b: Seq<char>)
    requires
        a.len() == 0 || a.last() == '\n',
    ensures
        link_line_count(a + b) == link_line_count(a) + link_line_count(b),
    decreases a.len(),
{
    if a.len() == 0 {
        assert(a + b =~= b);
    } else {
        lemma_line_len_prefix(a, b);
        let n = line_len(a);
        let s = a + b;
        assert(s.subrange(0, n as int) =~= a.subrange(0, n as int));
        let a2 = a.subrange(n as int + 1, a.len() as int);
        assert(s.subrange(n as int + 1, s.len() as int) =~= a2 + b);
        if a2.len() > 0 {
            assert(a2.last() == a.last());
        }
        lemma_count_concat(a2, b);
    }
}

/// A single line and its line break count as a link line or not.
pub proof fn lemma_count_line(x: Seq<char>)
    requires
        one_line(x),
    ensures
        link_line_count(x + seq!['\n']) == if is_link_line(x) {
            1nat
        } else {
            0nat
        },
{
    let s = x + seq!['\n'];
    lemma_line_len_bound(s);
    assert(s[x.len() as int] == '\n');
    if line_len(s) < x.len() {
        assert(s[line_len(s) as int] == x[line_len(s) as int]);
    }
    assert(line_len(s) == x.len());
    assert(s.subrange(0, x.len() as int) =~= x);
    let e = s.subrange(x.len() as int + 1, s.len() as int);
    assert(e =~= Seq::<char>::empty());
    assert(link_line_count(e) == 0);
    assert(link_line_count(s) == (if is_link_line(s.subrange(0, x.len() as int)) {
        1nat
    } else {
        0nat
    }) + link_line_count(e));
}

/// A VNet's identifier is made of characters of VNet names.
pub proof fn lemma_ident_azure(v: Seq<char>)
    requires
        azure_name(v),
    ensures
        azure_name(ident_text(v)),
        one_line(ident_text(v)),
{
    assert forall|i: int| 0 <= i < ident_text(v).len() implies azure_name_char(#[trigger] ident_text(v)[i]) by {
        assert(azure_name_char(v[i]));
    }
}

proof fn lemma_id_skip(w: Seq<char>, rest: Seq<char>)
    requires
        azure_name(w),
    ensures
        id_then_space(w + rest) == id_then_space(rest),
    decreases w.len(),
{
    if w.len() == 0 {
        assert(w + rest =~= rest);
    } else {
        assert((w + rest)[0] == w[0]);
        assert(azure_name_char(w[0]));
        assert((w + rest).drop_first() =~= w.drop_first() + rest);
        lemma_id_skip(w.drop_first(), rest);
    }
}

/// A line that starts with a node identifier draws a link exactly when a
/// space follows the identifier.
pub proof fn lemma_link_line_shape(v: Seq<char>, rest: Seq<char>)
    requires
        azure_name(v),
    ensures
        is_link_line("        "@ + nid(v) + rest) == id_then_space(rest),
{
    reveal_strlit("        ");
    reveal_strlit("n_");
    reveal_strlit("        n_");
    lemma_ident_azure(v);
    let l = "        "@ + nid(v) + rest;
    assert(l.subrange(0, 10) =~= "        n_"@);
    assert(l.subrange(10, l.len() as int) =~= ident_text(v) + rest);
    lemma_id_skip(ident_text(v), rest);
}


/// The text is empty or ends with a line break.
pub open spec fn ends_line(s: Seq<char>) -> bool {
    s.len() == 0 || s.last() == '\n'
}

proof fn lemma_ends_line_concat(a: Seq<char>, b: Seq<char>)
    requires
        ends_line(a),
        ends_line(b),
    ensures
        ends_line(a + b),
{
    if b.len() == 0 {
        assert(a + b =~= a);
    } else {
        assert((a + b).last() == b.last());
    }
}

proof fn lemma_one_line_concat(a: Seq<char>, b: Seq<char>)
    requires
        one_line(a),
        one_line(b),
    ensures
        one_line(a + b),
{
    assert forall|i: int| 0 <= i < (a + b).len() implies #[trigger] (a + b)[i] != '\n' by {
        if i < a.len() {
            assert((a + b)[i] == a[i]);
        } else {
            assert((a + b)[i] == b[i - a.len()]);
        }
    }
}

proof fn lemma_join_one_line(parts: Seq<Seq<char>>, sep: Seq<char>)
    requires
        one_line(sep),
        forall|k: int| 0 <= k < parts.len() ==> one_line(#[trigger] parts[k]),
    ensures
        one_line(join_text(parts, sep)),
    decreases parts.len(),
{
    if parts.len() > 1 {
        let pre = parts.drop_last();
        assert forall|k: int| 0 <= k < pre.len() implies one_line(#[trigger] pre[k]) by {
            assert(pre[k] == parts[k]);
        }
        lemma_join_one_line(pre, sep);
        assert(one_line(parts[parts.len() - 1]));
        lemma_one_line_concat(join_text(pre, sep), sep);
        lemma_one_line_concat(join_text(pre, sep) + sep, parts.last());
    } else if parts.len() == 1 {
        assert(one_line(parts[0]));
    }
}

/// The subscription names and address spaces of the entries hold no line
/// break.
pub open spec fn metas_one_line(ms: Seq<MetaView>) -> bool {
    forall|p: int|
        0 <= p < ms.len() ==> {
            &&& one_line(#[trigger] ms[p].subscription_name)
            &&& forall|c: int| 0 <= c < ms[p].vnet_cidr.len() ==> one_line(#[trigger] ms[p].vnet_cidr[c])
        }
}

/// The names a Mermaid diagram of the topology draws are such that its
/// lines are the lines the diagram writes: VNet names made of the
/// characters Azure allows in them, and subscription names and address
/// spaces without line breaks.
pub open spec fn diagram_names_ok(t: TopologyView) -> bool {
    &&& metas_one_line(t.metas)
    &&& forall|i: int, k: int|
        0 <= i < t.islands.len() && 0 <= k < t.islands[i].len() ==> azure_name(#[trigger] t.islands[i][k])
    &&& forall|q: int| 0 <= q < t.bidir.len() ==> azure_name(#[trigger] t.bidir[q].0) && azure_name(t.bidir[q].1)
}

proof fn lemma_meta_of(ms: Seq<MetaView>, v: Seq<char>)
    requires
        metas_one_line(ms),
    ensures
        meta_of(ms, v) matches Some(m) ==> one_line(m.subscription_name) && forall|c: int|
            0 <= c < m.vnet_cidr.len() ==> one_line(#[trigger] m.vnet_cidr[c]),
{
    lemma_meta_pos(ms, v);
    if meta_pos(ms, v) >= 0 {
        let p = meta_pos(ms, v);
        assert(one_line(ms[p].subscription_name));
    }
}

proof fn lemma_meta_texts(ms: Seq<MetaView>, v: Seq<char>)
    requires
        metas_one_line(ms),
    ensures
        one_line(sub_or(ms, v, "?"@)),
        one_line(cidrs_joined(ms, v, ", "@)),
{
    reveal_strlit("?");
    reveal_strlit(", ");
    lemma_meta_of(ms, v);
    match meta_of(ms, v) {
        Some(m) => {
            lemma_join_one_line(m.vnet_cidr, ", "@);
        },
        None => {},
    }
}

proof fn lemma_first_sub(ms: Seq<MetaView>, vnets: Seq<Seq<char>>)
    requires
        metas_one_line(ms),
    ensures
        first_sub(ms, vnets) matches Some(s) ==> one_line(s),
    decreases vnets.len(),
{
    if vnets.len() > 0 {
        lemma_meta_of(ms, vnets[0]);
        lemma_first_sub(ms, vnets.drop_first());
    }
}

proof fn lemma_label_one_line(t: TopologyView, i: int)
    requires
        metas_one_line(t.metas),
        0 <= i < t.islands.len(),
    ensures
        one_line(mermaid_label(t, i)),
{
    reveal_strlit("unknown");
    reveal_strlit("MISSING");
    reveal_strlit("MISSING - SUB:");
    reveal_strlit("Island ");
    lemma_first_sub(t.metas, t.islands[i]);
    let sub = match first_sub(t.metas, t.islands[i]) {
        Some(s) => s,
        None => "unknown"@,
    };
    lemma_one_line_concat("MISSING - SUB:"@, sub);
    lemma_dec_facts((i + 1) as nat);
    lemma_one_line_concat("Island "@, dec((i + 1) as nat));
}

proof fn lemma_node_count(ms: Seq<MetaView>, v: Seq<char>)
    requires
        metas_one_line(ms),
        azure_name(v),
    ensures
        link_line_count(mermaid_node(ms, v)) == 0,
        ends_line(mermaid_node(ms, v)),
{
    reveal_strlit("        ");
    reveal_strlit("n_");
    reveal_strlit("[\"\u{26a0} MISSING\\nSUB:");
    reveal_strlit("unknown");
    reveal_strlit("\\n");
    reveal_strlit("\"]\n");
    reveal_strlit("\"]");
    reveal_strlit("[\"");
    reveal_strlit("/");
    lemma_meta_texts(ms, v);
    lemma_ident_azure(v);
    assert(one_line(v)) by {
        assert forall|i: int| 0 <= i < v.len() implies #[trigger] v[i] != '\n' by {
            assert(azure_name_char(v[i]));
        }
    }
    lemma_one_line_concat("n_"@, ident_text(v));
    lemma_one_line_concat("        "@, nid(v));
    let sub = sub_or(ms, v, "?"@);
    let rest = if is_missing(ms, v) {
        let shown = if sub.len() == 0 {
            "unknown"@
        } else {
            sub
        };
        lemma_one_line_concat("[\"\u{26a0} MISSING\\nSUB:"@, shown);
        lemma_one_line_concat("[\"\u{26a0} MISSING\\nSUB:"@ + shown, "\\n"@);
        lemma_one_line_concat("[\"\u{26a0} MISSING\\nSUB:"@ + shown + "\\n"@, v);
        lemma_one_line_concat("[\"\u{26a0} MISSING\\nSUB:"@ + shown + "\\n"@ + v, "\"]"@);
        "[\"\u{26a0} MISSING\\nSUB:"@ + shown + "\\n"@ + v + "\"]"@
    } else {
        let c = cidrs_joined(ms, v, ", "@);
        lemma_one_line_concat("[\""@, sub);
        lemma_one_line_concat("[\""@ + sub, "/"@);
        lemma_one_line_concat("[\""@ + sub + "/"@, v);
        lemma_one_line_concat("[\""@ + sub + "/"@ + v, "\\n"@);
        lemma_one_line_concat("[\""@ + sub + "/"@ + v + "\\n"@, c);
        lemma_one_line_concat("[\""@ + sub + "/"@ + v + "\\n"@ + c, "\"]"@);
        "[\""@ + sub + "/"@ + v + "\\n"@ + c + "\"]"@
    };
    let x = "        "@ + nid(v) + rest;
    assert(mermaid_node(ms, v) =~= x + seq!['\n']);
    lemma_one_line_concat("        "@ + nid(v), rest);
    lemma_count_line(x);
    lemma_link_line_shape(v, rest);
    assert(rest[0] == '[');
    assert(!id_then_space(rest));
}

proof fn lemma_gateway_count(ms: Seq<MetaView>, v: Seq<char>)
    requires
        azure_name(v),
    ensures
        link_line_count(mermaid_gateway(ms, v)) == if is_gateway(ms, v) {
            1nat
        } else {
            0nat
        },
        ends_line(mermaid_gateway(ms, v)),
{
    if is_gateway(ms, v) {
        reveal_strlit("        ");
        reveal_strlit("n_");
        reveal_strlit("_ext");
        reveal_strlit("((\"\u{1f310} External / On-Premises\"))\n");
        reveal_strlit("((\"\u{1f310} External / On-Premises\"))");
        reveal_strlit(" --- ");
        reveal_strlit("\n");
        lemma_ident_azure(v);
        lemma_one_line_concat("n_"@, ident_text(v));
        lemma_one_line_concat("        "@, nid(v));
        let tail1 = "((\"\u{1f310} External / On-Premises\"))"@;
        let rest1 = "_ext"@ + tail1;
        let rest2 = " --- "@ + nid(v) + "_ext"@;
        let x1 = "        "@ + nid(v) + rest1;
        let x2 = "        "@ + nid(v) + rest2;
        lemma_one_line_concat("_ext"@, tail1);
        lemma_one_line_concat("        "@ + nid(v), rest1);
        lemma_one_line_concat(" --- "@, nid(v));
        lemma_one_line_concat(" --- "@ + nid(v), "_ext"@);
        lemma_one_line_concat("        "@ + nid(v), rest2);
        assert(mermaid_gateway(ms, v) =~= (x1 + seq!['\n']) + (x2 + seq!['\n']));
        lemma_count_line(x1);
        lemma_count_line(x2);
        lemma_count_concat(x1 + seq!['\n'], x2 + seq!['\n']);
        lemma_link_line_shape(v, rest1);
        lemma_link_line_shape(v, rest2);
        assert(azure_name("_ext"@));
        lemma_id_skip("_ext"@, tail1);
        assert(tail1[0] == '(');
        assert(!id_then_space(tail1));
        assert(rest2[0] == ' ');
        assert(id_then_space(rest2));
    } else {
        assert(link_line_count(Seq::<char>::empty()) == 0);
    }
}

proof fn lemma_nodes_count(ms: Seq<MetaView>, vnets: Seq<Seq<char>>, m: int)
    requires
        metas_one_line(ms),
        m <= vnets.len(),
        forall|k: int| 0 <= k < vnets.len() ==> azure_name(#[trigger] vnets[k]),
    ensures
        link_line_count(mermaid_nodes(ms, vnets, m)) == gateway_links(ms, vnets, m),
        ends_line(mermaid_nodes(ms, vnets, m)),
    decreases m,
{
    if m <= 0 {
        assert(link_line_count(Seq::<char>::empty()) == 0);
    } else {
        lemma_nodes_count(ms, vnets, m - 1);
        let v = vnets[m - 1];
        assert(azure_name(v));
        let a = mermaid_nodes(ms, vnets, m - 1);
        lemma_node_count(ms, v);
        lemma_gateway_count(ms, v);
        lemma_count_concat(a, mermaid_node(ms, v));
        lemma_ends_line_concat(a, mermaid_node(ms, v));
        lemma_count_concat(a + mermaid_node(ms, v), mermaid_gateway(ms, v));
        lemma_ends_line_concat(a + mermaid_node(ms, v), mermaid_gateway(ms, v));
    }
}

proof fn lemma_pairs_count(t: TopologyView, i: int, q: int)
    requires
        q <= t.bidir.len(),
        forall|w: int| 0 <= w < t.bidir.len() ==> azure_name(#[trigger] t.bidir[w].0) && azure_name(t.bidir[w].1),
    ensures
        link_line_count(mermaid_pairs(t, i, q)) == pair_links(t, i, q),
        ends_line(mermaid_pairs(t, i, q)),
    decreases q,
{
    if q <= 0 {
        assert(link_line_count(Seq::<char>::empty()) == 0);
    } else {
        lemma_pairs_count(t, i, q - 1);
        let a = mermaid_pairs(t, i, q - 1);
        if pair_drawn(t, i, q - 1) {
            reveal_strlit(" <--> ");
            reveal_strlit("n_");
            reveal_strlit("\n");
            let p = t.bidir[q - 1];
            assert(azure_name(p.0) && azure_name(p.1));
            lemma_ident_azure(p.0);
            lemma_ident_azure(p.1);
            lemma_one_line_concat("n_"@, ident_text(p.0));
            lemma_one_line_concat("n_"@, ident_text(p.1));
            reveal_strlit("        ");
            lemma_one_line_concat("        "@, nid(p.0));
            let rest = " <--> "@ + nid(p.1);
            lemma_one_line_concat(" <--> "@, nid(p.1));
            let x = "        "@ + nid(p.0) + rest;
            lemma_one_line_concat("        "@ + nid(p.0), rest);
            assert(mermaid_pairs(t, i, q) =~= a + (x + seq!['\n']));
            lemma_count_line(x);
            lemma_link_line_shape(p.0, rest);
            assert(rest[0] == ' ');
            assert(id_then_space(rest));
            lemma_count_concat(a, x + seq!['\n']);
            lemma_ends_line_concat(a, x + seq!['\n']);
        }
    }
}

proof fn lemma_island_count(t: TopologyView, i: int)
    requires
        diagram_names_ok(t),
        0 <= i < t.islands.len(),
    ensures
        link_line_count(mermaid_island(t, i)) == island_links(t, i),
        ends_line(mermaid_island(t, i)),
{
    reveal_strlit("    subgraph \"");
    reveal_strlit("\"\n");
    reveal_strlit("\"");
    reveal_strlit("    end\n");
    reveal_strlit("    end");
    reveal_strlit("        n_");
    let vnets = t.islands[i];
    assert forall|k: int| 0 <= k < vnets.len() implies azure_name(#[trigger] vnets[k]) by {
        assert(azure_name(t.islands[i][k]));
    }
    lemma_label_one_line(t, i);
    let h = "    subgraph \""@ + mermaid_label(t, i) + "\""@;
    lemma_one_line_concat("    subgraph \""@, mermaid_label(t, i));
    lemma_one_line_concat("    subgraph \""@ + mermaid_label(t, i), "\""@);
    lemma_count_line(h);
    assert(h[4] == 's');
    if h.len() >= 10 && h.subrange(0, 10) == "        n_"@ {
        assert(h.subrange(0, 10)[4] == ' ');
    }
    assert(!is_link_line(h));
    let e = "    end"@;
    lemma_count_line(e);
    assert(e + seq!['\n'] =~= "    end\n"@);
    let head = h + seq!['\n'];
    let nodes = mermaid_nodes(t.metas, vnets, vnets.len() as int);
    let pairs = mermaid_pairs(t, i, t.bidir.len() as int);
    assert(mermaid_island(t, i) =~= head + nodes + pairs + (e + seq!['\n']));
    lemma_nodes_count(t.metas, vnets, vnets.len() as int);
    lemma_pairs_count(t, i, t.bidir.len() as int);
    lemma_count_concat(head, nodes);
    lemma_ends_line_concat(head, nodes);
    lemma_count_concat(head + nodes, pairs);
    lemma_ends_line_concat(head + nodes, pairs);
    lemma_count_concat(head + nodes + pairs, e + seq!['\n']);
    lemma_ends_line_concat(head + nodes + pairs, e + seq!['\n']);
}

proof fn lemma_islands_count(t: TopologyView, n: int)
    requires
        diagram_names_ok(t),
        n <= t.islands.len(),
    ensures
        link_line_count(mermaid_islands(t, n)) == links_before(t, n),
        ends_line(mermaid_islands(t, n)),
    decreases n,
{
    if n <= 0 {
        assert(link_line_count(Seq::<char>::empty()) == 0);
    } else {
        lemma_islands_count(t, n - 1);
        lemma_island_count(t, n - 1);
        lemma_count_concat(mermaid_islands(t, n - 1), mermaid_island(t, n - 1));
        lemma_ends_line_concat(mermaid_islands(t, n - 1), mermaid_island(t, n - 1));
    }
}

/// Law (red stop arrows): Mermaid numbers the links of a diagram in drawing
/// order, and every link drawn in the islands (a gateway's `---`, a
/// two-way `<-->`) comes before the stop arrows. So the red `linkStyle`
/// lines, one per stop arrow in order, start at the number of link lines
/// of the islands' text: the `k`-th red line names the `k`-th `--x` arrow.
pub proof fn lemma_red_links_name_stop_arrows(t: TopologyView, date: Seq<char>)
    requires
        diagram_names_ok(t),
    ensures
        links_before(t, t.islands.len() as int) == link_line_count(mermaid_islands(t, t.islands.len() as int)),
        mermaid_text(t, date) == mermaid_head(date) + mermaid_islands(t, t.islands.len() as int) + mermaid_broken(
            t,
            t.broken.len() as int,
        ) + red_links(link_line_count(mermaid_islands(t, t.islands.len() as int)), t.broken.len() as int)
            + "```\n"@,
{
    lemma_islands_count(t, t.islands.len() as int);
}
} // verus!
