//! Structural checks of a DOT file's text before it goes to Graphviz.
//!
//! Catches generation bugs early (unbalanced braces, empty file, wrong
//! keyword, characters that crash Graphviz inside labels) and gives a clear
//! message instead of a renderer crash.
use crate::text::{
    alphanumeric, append_str, chars_of, debug_char, debug_char_text, debug_str, debug_str_text,
    dec, decimal_chars, first_match, has_prefix, is_alphanumeric, split_chars, split_on,
    starts_with_chars, string_from_chars, sub_chars, trim_start_by, trim_ws, trim_ws_chars, views,
};
use vstd::prelude::*;

verus! {

/// The lines of a text as `str::lines` gives them: split at `\n`, without
/// a last empty piece, each without a trailing `\r`.
pub open spec fn lines_of(s: Seq<char>) -> Seq<Seq<char>> {
    let ps = split_on(s, '\n');
    let kept = if ps.last().len() == 0 {
        ps.drop_last()
    } else {
        ps
    };
    kept.map_values(
        |l: Seq<char>|
            if l.len() > 0 && l.last() == '\r' {
                l.drop_last()
            } else {
                l
            },
    )
}

/// The lines of a text.
pub fn lines_exec(cs: &Vec<char>) -> (r: Vec<Vec<char>>)
    ensures
        views(r@) == lines_of(cs@),
{
    let parts = split_chars(cs, '\n');
    proof {
        crate::text::lemma_split_on_len(cs@, '\n');
    }
    let ghost ps = views(parts@);
    let keep = if parts[parts.len() - 1].len() == 0 {
        parts.len() - 1
    } else {
        parts.len()
    };
    let ghost kept = ps.subrange(0, keep as int);
    assert(kept =~= if ps.last().len() == 0 {
        ps.drop_last()
    } else {
        ps
    });
    let mut out: Vec<Vec<char>> = Vec::new();
    let mut k: usize = 0;
    while k < keep
        invariant
            k <= keep <= parts@.len(),
            ps == views(parts@),
            kept == ps.subrange(0, keep as int),
            out@.len() == k,
            forall|q: int| 0 <= q < k ==> (#[trigger] out@[q])@ == (if kept[q].len() > 0 && kept[q].last() == '\r' {
                kept[q].drop_last()
            } else {
                kept[q]
            }),
        decreases keep - k,
    {
        let l = &parts[k];
        assert(kept[k as int] == l@);
        let m = l.len();
        if m > 0 && l[m - 1] == '\r' {
            out.push(sub_chars(l, 0, m - 1));
            assert(l@.subrange(0, m - 1) =~= l@.drop_last());
        } else {
            out.push(sub_chars(l, 0, m));
            assert(l@.subrange(0, m as int) =~= l@);
        }
        k += 1;
    }
    assert(views(out@) =~= lines_of(cs@));
    out
}

/// How the first meaningful line (not blank, not a `//` comment) starts.
pub enum KeywordOutcome {
    /// It starts with `digraph` or `graph`.
    Found,
    /// It starts otherwise; the line, trimmed.
    Wrong(Seq<char>),
    /// There is no such line.
    Missing,
}

/// How the first meaningful line of `lines` starts.
pub open spec fn keyword_check(lines: Seq<Seq<char>>) -> KeywordOutcome
    decreases lines.len(),
{
    if lines.len() == 0 {
        KeywordOutcome::Missing
    } else {
        let t = trim_ws(lines[0]);
        if t.len() == 0 || has_prefix(t, "//"@) {
            keyword_check(lines.drop_first())
        } else if has_prefix(t, "digraph"@) || has_prefix(t, "graph"@) {
            KeywordOutcome::Found
        } else {
            KeywordOutcome::Wrong(t)
        }
    }
}

/// The brace scan over the first `n` characters: depth, inside a string,
/// previous character, and whether a closing brace went below zero.
pub open spec fn brace_scan(c: Seq<char>, n: int) -> (int, bool, char, bool)
    decreases n,
{
    if n <= 0 {
        (0, false, '\0', false)
    } else {
        let st = brace_scan(c, n - 1);
        if st.3 {
            st
        } else {
            let ch = c[n - 1];
            if st.1 {
                (st.0, !(ch == '"' && st.2 != '\\'), ch, false)
            } else if ch == '"' {
                (st.0, true, ch, false)
            } else if ch == '{' {
                (st.0 + 1, false, ch, false)
            } else if ch == '}' {
                (st.0 - 1, false, ch, st.0 - 1 < 0)
            } else {
                (st.0, false, ch, false)
            }
        }
    }
}

/// The deepest brace nesting the scan reaches within the first `n`
/// characters.
pub open spec fn brace_peak(c: Seq<char>, n: int) -> int
    decreases n,
{
    if n <= 0 {
        0
    } else {
        let p = brace_peak(c, n - 1);
        let d = brace_scan(c, n).0;
        if d > p {
            d
        } else {
            p
        }
    }
}

/// The non-ASCII characters of a line.
pub open spec fn non_ascii_chars(l: Seq<char>) -> Seq<char>
    decreases l.len(),
{
    if l.len() == 0 {
        Seq::empty()
    } else {
        let r = non_ascii_chars(l.drop_last());
        if (l.last() as u32) >= 128 {
            r.push(l.last())
        } else {
            r
        }
    }
}

/// At most the first `n` characters.
pub open spec fn first_chars(s: Seq<char>, n: nat) -> Seq<char> {
    if s.len() <= n {
        s
    } else {
        s.subrange(0, n as int)
    }
}

/// The first line from position `i` that holds an HTML label with
/// non-ASCII characters: its position and its first five such characters.
pub open spec fn html_issue(lines: Seq<Seq<char>>, i: int) -> Option<(int, Seq<char>)>
    decreases lines.len() - i,
{
    if i < 0 || i >= lines.len() {
        None
    } else if first_match(lines[i], "label=<"@) >= 0 && non_ascii_chars(lines[i]).len() > 0 {
        Some((i, first_chars(non_ascii_chars(lines[i]), 5)))
    } else {
        html_issue(lines, i + 1)
    }
}

/// How a plain label value ends.
pub enum ValueEnd {
    /// At the closing quote at this position.
    Closed(int),
    /// The text ends first.
    Unclosed,
    /// A non-ASCII character comes first.
    NonAscii(char),
}

/// How the label value starting at `i` ends: at a `"` not escaped by a
/// backslash, before a non-ASCII character, or with the text.
pub open spec fn value_end(r: Seq<char>, i: int, prev_backslash: bool) -> ValueEnd
    decreases r.len() - i,
{
    if i < 0 || i >= r.len() {
        ValueEnd::Unclosed
    } else if r[i] == '"' && !prev_backslash {
        ValueEnd::Closed(i)
    } else if (r[i] as u32) >= 128 {
        ValueEnd::NonAscii(r[i])
    } else {
        value_end(r, i + 1, r[i] == '\\' && !prev_backslash)
    }
}

/// Length of the leading run of word characters (alphanumeric, `_`, `-`).
pub open spec fn word_len(s: Seq<char>) -> nat
    decreases s.len(),
{
    if s.len() == 0 || !(alphanumeric(s[0]) || s[0] == '_' || s[0] == '-') {
        0
    } else {
        1 + word_len(s.drop_first())
    }
}

/// `s` without leading spaces and tabs.
pub open spec fn strip_blanks(s: Seq<char>) -> Seq<char>
    decreases s.len(),
{
    if s.len() > 0 && (s[0] == ' ' || s[0] == '\t') {
        strip_blanks(s.drop_first())
    } else {
        s
    }
}

/// What follows a closed label value shows an unescaped quote: a `"`
/// right away, or a word directly followed by `"`.
pub open spec fn split_quote_follows(after: Seq<char>) -> bool {
    ||| after.len() > 0 && after[0] == '"'
    ||| word_len(after) > 0 && word_len(after) < after.len() && after[word_len(after) as int] == '"'
}

/// A problem in a plain label.
pub enum LabelIssue {
    NonAscii(char),
    SplitQuote(Seq<char>),
}

/// The first problem among the plain labels (`label="..."`) of `rest`.
pub open spec fn plain_label_issue(rest: Seq<char>) -> Option<LabelIssue>
    decreases rest.len(),
{
    let i = first_match(rest, "label=\""@);
    if i < 0 || i + 7 > rest.len() {
        None
    } else {
        let r = rest.subrange(i + 7, rest.len() as int);
        match value_end(r, 0, false) {
            ValueEnd::Unclosed => None,
            ValueEnd::NonAscii(c) => Some(LabelIssue::NonAscii(c)),
            ValueEnd::Closed(k) => {
                if 0 <= k < r.len() {
                    let tail = r.subrange(k + 1, r.len() as int);
                    let after = strip_blanks(tail);
                    if split_quote_follows(after) {
                        Some(LabelIssue::SplitQuote(r.subrange(0, k)))
                    } else {
                        plain_label_issue(tail)
                    }
                } else {
                    None
                }
            },
        }
    }
}

/// The result of checking the plain labels of DOT text read from `path`.
pub open spec fn plain_label_check(c: Seq<char>, path: Seq<char>) -> Result<(), Seq<char>> {
    let q = "'"@ + path + "'"@;
    match plain_label_issue(c) {
        None => Ok(()),
        Some(LabelIssue::NonAscii(ch)) => Err(
            q + ": non-ASCII character "@ + debug_char_text(ch)
                + " inside a plain string label — use HTML label (label=<...>) with HTML entities for non-ASCII content"@,
        ),
        Some(LabelIssue::SplitQuote(v)) => Err(
            q + ": unescaped quote inside plain string label — escape embedded quotes as \\\" (found split near: "@
                + debug_str_text(v) + ")"@,
        ),
    }
}

/// The result of checking DOT text read from `path`.
pub open spec fn dot_check(c: Seq<char>, path: Seq<char>) -> Result<(), Seq<char>> {
    let q = "'"@ + path + "'"@;
    if trim_ws(c).len() == 0 {
        Err(q + " is empty"@)
    } else {
        match keyword_check(lines_of(c)) {
            KeywordOutcome::Missing => Err(q + " contains only comments / whitespace"@),
            KeywordOutcome::Wrong(t) => Err(
                q + " does not start with 'digraph' or 'graph' (got: "@ + debug_str_text(
                    first_chars(t, 40),
                ) + ")"@,
            ),
            KeywordOutcome::Found => {
                let b = brace_scan(c, c.len() as int);
                if b.3 {
                    Err(q + " has an unexpected '}'  (too many closing braces)"@)
                } else if b.0 != 0 {
                    Err(q + " has unbalanced braces (net open count: "@ + dec(b.0 as nat) + ")"@)
                } else {
                    match html_issue(lines_of(c), 0) {
                        Some(h) => Err(
                            q + " line "@ + dec((h.0 + 1) as nat) + ": non-ASCII characters "@
                                + debug_str_text(h.1)
                                + " inside an HTML label — use HTML entities instead (e.g. &#x26A0; for ⚠)"@,
                        ),
                        None => plain_label_check(c, path),
                    }
                }
            },
        }
    }
}

proof fn lemma_first_match(h: Seq<char>, nd: Seq<char>, p: int)
    requires
        0 <= p,
        p + nd.len() <= h.len(),
        h.subrange(p, p + nd.len()) == nd,
        forall|q: int| 0 <= q < p ==> #[trigger] h.subrange(q, q + nd.len()) != nd,
    ensures
        first_match(h, nd) == p,
    decreases p,
{
    if p > 0 {
        let q0: int = 0;
        assert(h.subrange(q0, q0 + nd.len()) != nd);
        assert(h.subrange(q0, q0 + nd.len()) =~= h.subrange(0, nd.len() as int));
        let t = h.drop_first();
        assert forall|q: int| 0 <= q < p - 1 implies #[trigger] t.subrange(q, q + nd.len()) != nd by {
            assert(t.subrange(q, q + nd.len()) =~= h.subrange(q + 1, q + 1 + nd.len()));
        }
        assert(t.subrange(p - 1, p - 1 + nd.len()) =~= h.subrange(p, p + nd.len()));
        lemma_first_match(t, nd, p - 1);
    }
}

proof fn lemma_no_match(h: Seq<char>, nd: Seq<char>)
    requires
        forall|q: int| 0 <= q && q + nd.len() <= h.len() ==> #[trigger] h.subrange(q, q + nd.len()) != nd,
    ensures
        first_match(h, nd) == -1,
    decreases h.len(),
{
    if nd.len() <= h.len() {
        assert(h.subrange(0, 0 + nd.len() as int) != nd);
        assert(h.subrange(0, nd.len() as int) != nd);
        if h.len() > 0 {
            let t = h.drop_first();
            assert forall|q: int| 0 <= q && q + nd.len() <= t.len() implies #[trigger] t.subrange(q, q + nd.len()) != nd by {
                assert(t.subrange(q, q + nd.len()) =~= h.subrange(q + 1, q + 1 + nd.len()));
            }
            lemma_no_match(t, nd);
        }
    }
}

fn matches_at(h: &Vec<char>, at: usize, nd: &Vec<char>) -> (r: bool)
    requires
        at + nd@.len() <= h@.len(),
    ensures
        r == (h@.subrange(at as int, at + nd@.len()) == nd@),
{
    let _len = h.len();
    let mut k: usize = 0;
    while k < nd.len()
        invariant
            at + nd@.len() <= h@.len(),
            h@.len() <= usize::MAX,
            k <= nd@.len(),
            forall|q: int| 0 <= q < k ==> h@[at + q] == nd@[q],
        decreases nd@.len() - k,
    {
        if h[at + k] != nd[k] {
            assert(h@.subrange(at as int, at + nd@.len())[k as int] != nd@[k as int]);
            return false;
        }
        k += 1;
    }
    assert(h@.subrange(at as int, at + nd@.len()) =~= nd@);
    true
}

/// Position (in `h`) of the first occurrence of `nd` in `h` from `from` on.
fn find_from(h: &Vec<char>, from: usize, nd: &Vec<char>) -> (r: Option<usize>)
    requires
        from <= h@.len(),
    ensures
        match r {
            Some(j) => from <= j && j + nd@.len() <= h@.len() && j - from == first_match(
                h@.subrange(from as int, h@.len() as int),
                nd@,
            ),
            None => first_match(h@.subrange(from as int, h@.len() as int), nd@) == -1,
        },
{
    let ghost s = h@.subrange(from as int, h@.len() as int);
    if nd.len() == 0 {
        proof {
            assert(s.subrange(0, 0) =~= nd@);
            lemma_first_match(s, nd@, 0);
        }
        return Some(from);
    }
    if nd.len() > h.len() - from {
        proof {
            lemma_no_match(s, nd@);
        }
        return None;
    }
    let last = h.len() - nd.len();
    let mut j: usize = from;
    while j <= last
        invariant
            from <= j <= last + 1,
            nd@.len() >= 1,
            h@.len() <= usize::MAX,
            last + nd@.len() == h@.len(),
            s == h@.subrange(from as int, h@.len() as int),
            forall|q: int| 0 <= q < j - from ==> #[trigger] s.subrange(q, q + nd@.len()) != nd@,
        decreases last + 1 - j,
    {
        assert(s.subrange(j - from, j - from + nd@.len()) =~= h@.subrange(j as int, j + nd@.len()));
        if matches_at(h, j, nd) {
            proof {
                lemma_first_match(s, nd@, j - from);
            }
            return Some(j);
        }
        j += 1;
    }
    proof {
        assert forall|q: int| 0 <= q && q + nd@.len() <= s.len() implies #[trigger] s.subrange(q, q + nd@.len()) != nd@ by {
        }
        lemma_no_match(s, nd@);
    }
    None
}

/// How the first meaningful line starts: 0 when there is none, 1 for
/// `digraph` or `graph`, 2 otherwise (with the line, trimmed).
fn keyword_exec(lines: &Vec<Vec<char>>) -> (r: (u8, Vec<char>))
    ensures
        match keyword_check(views(lines@)) {
            KeywordOutcome::Missing => r.0 == 0,
            KeywordOutcome::Found => r.0 == 1,
            KeywordOutcome::Wrong(t) => r.0 == 2 && r.1@ == t,
        },
{
    let ghost ls = views(lines@);
    let comment = chars_of("//");
    let digraph = chars_of("digraph");
    let graph = chars_of("graph");
    let mut k: usize = 0;
    assert(ls.subrange(0, ls.len() as int) =~= ls);
    while k < lines.len()
        invariant
            k <= lines@.len(),
            ls == views(lines@),
            comment@ == "//"@,
            digraph@ == "digraph"@,
            graph@ == "graph"@,
            keyword_check(ls) == keyword_check(ls.subrange(k as int, ls.len() as int)),
        decreases lines@.len() - k,
    {
        let ghost rest = ls.subrange(k as int, ls.len() as int);
        assert(rest[0] == lines@[k as int]@);
        assert(rest.drop_first() =~= ls.subrange(k + 1, ls.len() as int));
        let t = trim_ws_chars(&lines[k]);
        if t.len() == 0 || starts_with_chars(&t, &comment) {
            k += 1;
        } else if starts_with_chars(&t, &digraph) || starts_with_chars(&t, &graph) {
            return (1, Vec::new());
        } else {
            return (2, t);
        }
    }
    assert(ls.subrange(k as int, ls.len() as int) =~= Seq::<Seq<char>>::empty());
    (0, Vec::new())
}

proof fn lemma_brace_stuck(c: Seq<char>, m: int, n: int)
    requires
        0 <= m <= n,
        brace_scan(c, m).3,
    ensures
        brace_scan(c, n) == brace_scan(c, m),
    decreases n,
{
    if n > m {
        lemma_brace_stuck(c, m, n - 1);
    }
}

proof fn lemma_brace_peak(c: Seq<char>, k: int, n: int)
    requires
        0 <= k <= n,
    ensures
        brace_scan(c, k).0 <= brace_peak(c, k) <= brace_peak(c, n),
        brace_peak(c, k) >= 0,
    decreases n,
{
    if n > k {
        lemma_brace_peak(c, k, n - 1);
    } else if k > 0 {
        lemma_brace_peak(c, k - 1, k - 1);
    }
}

/// The brace scan of the whole text: the final depth and whether a
/// closing brace went below zero.
fn brace_exec(cs: &Vec<char>) -> (r: (i32, bool))
    requires
        brace_peak(cs@, cs@.len() as int) <= i32::MAX,
    ensures
        r.0 as int == brace_scan(cs@, cs@.len() as int).0,
        r.1 == brace_scan(cs@, cs@.len() as int).3,
        !r.1 ==> r.0 >= 0,
{
    let mut depth: i32 = 0;
    let mut in_str = false;
    let mut prev: char = '\0';
    let mut k: usize = 0;
    while k < cs.len()
        invariant
            k <= cs@.len(),
            brace_peak(cs@, cs@.len() as int) <= i32::MAX,
            depth >= 0,
            (depth as int, in_str, prev, false) == brace_scan(cs@, k as int),
        decreases cs@.len() - k,
    {
        let ch = cs[k];
        proof {
            lemma_brace_peak(cs@, k + 1, cs@.len() as int);
        }
        if in_str {
            if ch == '"' && prev != '\\' {
                in_str = false;
            }
        } else {
            if ch == '"' {
                in_str = true;
            } else if ch == '{' {
                depth = depth + 1;
            } else if ch == '}' {
                if depth == 0 {
                    proof {
                        lemma_brace_stuck(cs@, k + 1, cs@.len() as int);
                    }
                    return (-1, true);
                }
                depth = depth - 1;
            }
        }
        prev = ch;
        k += 1;
    }
    (depth, false)
}

/// The non-ASCII characters of a line, at most the first five.
fn first_non_ascii(l: &Vec<char>) -> (r: Vec<char>)
    ensures
        r@ == first_chars(non_ascii_chars(l@), 5),
{
    let mut out: Vec<char> = Vec::new();
    let mut k: usize = 0;
    assert(l@.subrange(0, 0) =~= Seq::<char>::empty());
    while k < l.len()
        invariant
            k <= l@.len(),
            out@ == first_chars(non_ascii_chars(l@.subrange(0, k as int)), 5),
        decreases l@.len() - k,
    {
        let ghost now = l@.subrange(0, k + 1);
        assert(now.drop_last() =~= l@.subrange(0, k as int));
        assert(now.last() == l@[k as int]);
        let ghost all = non_ascii_chars(l@.subrange(0, k as int));
        if (l[k] as u32) >= 128 {
            if out.len() < 5 {
                out.push(l[k]);
                assert(out@ =~= first_chars(all.push(l@[k as int]), 5));
            } else {
                assert(first_chars(all.push(l@[k as int]), 5) =~= first_chars(all, 5));
            }
        }
        k += 1;
    }
    assert(l@.subrange(0, l@.len() as int) =~= l@);
    out
}

/// The first line with an HTML label holding non-ASCII characters.
fn html_exec(lines: &Vec<Vec<char>>) -> (r: Option<(usize, Vec<char>)>)
    ensures
        match html_issue(views(lines@), 0) {
            None => r is None,
            Some(h) => match r {
                Some(x) => x.0 as int == h.0 && x.1@ == h.1 && x.0 < lines@.len(),
                None => false,
            },
        },
{
    let ghost ls = views(lines@);
    let marker = chars_of("label=<");
    let mut k: usize = 0;
    while k < lines.len()
        invariant
            k <= lines@.len(),
            ls == views(lines@),
            marker@ == "label=<"@,
            html_issue(ls, 0) == html_issue(ls, k as int),
        decreases lines@.len() - k,
    {
        assert(ls[k as int] == lines@[k as int]@);
        let l = &lines[k];
        let found = find_from(l, 0, &marker);
        assert(l@.subrange(0, l@.len() as int) =~= l@);
        if found.is_some() {
            let na = first_non_ascii(l);
            if na.len() > 0 {
                return Some((k, na));
            }
        }
        k += 1;
    }
    None
}

fn value_end_exec(cs: &Vec<char>, start: usize) -> (r: (u8, usize, char))
    requires
        start <= cs@.len(),
    ensures
        match value_end(cs@.subrange(start as int, cs@.len() as int), 0, false) {
            ValueEnd::Unclosed => r.0 == 0,
            ValueEnd::NonAscii(c) => r.0 == 1 && r.2 == c,
            ValueEnd::Closed(k) => r.0 == 2 && r.1 as int == start + k && start + k < cs@.len() && k
                >= 0,
        },
{
    let ghost r = cs@.subrange(start as int, cs@.len() as int);
    let mut i: usize = start;
    let mut prev_backslash = false;
    while i < cs.len()
        invariant
            start <= i <= cs@.len(),
            r == cs@.subrange(start as int, cs@.len() as int),
            value_end(r, 0, false) == value_end(r, i - start, prev_backslash),
        decreases cs@.len() - i,
    {
        let ch = cs[i];
        assert(r[i - start] == ch);
        if ch == '"' && !prev_backslash {
            return (2, i, ch);
        }
        if (ch as u32) >= 128 {
            return (1, i, ch);
        }
        prev_backslash = ch == '\\' && !prev_backslash;
        i += 1;
    }
    (0, i, '\0')
}

/// Position after the spaces and tabs from `from` on.
fn skip_blanks(cs: &Vec<char>, from: usize) -> (r: usize)
    requires
        from <= cs@.len(),
    ensures
        from <= r <= cs@.len(),
        cs@.subrange(r as int, cs@.len() as int) == strip_blanks(
            cs@.subrange(from as int, cs@.len() as int),
        ),
{
    let mut i = from;
    while i < cs.len() && (cs[i] == ' ' || cs[i] == '\t')
        invariant
            from <= i <= cs@.len(),
            strip_blanks(cs@.subrange(from as int, cs@.len() as int)) == strip_blanks(
                cs@.subrange(i as int, cs@.len() as int),
            ),
        decreases cs@.len() - i,
    {
        let ghost t = cs@.subrange(i as int, cs@.len() as int);
        assert(t[0] == cs@[i as int]);
        assert(t.drop_first() =~= cs@.subrange(i + 1, cs@.len() as int));
        i += 1;
    }
    proof {
        let t = cs@.subrange(i as int, cs@.len() as int);
        if i < cs@.len() {
            assert(t[0] == cs@[i as int]);
        }
    }
    i
}

/// Whether the text from `from` on shows an unescaped quote.
fn split_quote_exec(cs: &Vec<char>, from: usize) -> (r: bool)
    requires
        from <= cs@.len(),
    ensures
        r == split_quote_follows(cs@.subrange(from as int, cs@.len() as int)),
{
    let ghost a = cs@.subrange(from as int, cs@.len() as int);
    if from < cs.len() && cs[from] == '"' {
        assert(a[0] == '"');
        return true;
    }
    let mut w: usize = from;
    while w < cs.len() && (is_alphanumeric(cs[w]) || cs[w] == '_' || cs[w] == '-')
        invariant
            from <= w <= cs@.len(),
            a == cs@.subrange(from as int, cs@.len() as int),
            word_len(a) == (w - from) + word_len(cs@.subrange(w as int, cs@.len() as int)),
        decreases cs@.len() - w,
    {
        let ghost t = cs@.subrange(w as int, cs@.len() as int);
        assert(t[0] == cs@[w as int]);
        assert(t.drop_first() =~= cs@.subrange(w + 1, cs@.len() as int));
        w += 1;
    }
    proof {
        let t = cs@.subrange(w as int, cs@.len() as int);
        if w < cs@.len() {
            assert(t[0] == cs@[w as int]);
        }
        assert(word_len(t) == 0);
    }
    if w > from && w < cs.len() {
        assert(a[w - from] == cs@[w as int]);
        cs[w] == '"'
    } else {
        false
    }
}

/// The first problem among the plain labels: none, a non-ASCII character
/// (1, with it), or an unescaped quote (2, with the label value).
fn plain_label_exec(cs: &Vec<char>) -> (r: (u8, char, Vec<char>))
    ensures
        match plain_label_issue(cs@) {
            None => r.0 == 0,
            Some(LabelIssue::NonAscii(c)) => r.0 == 1 && r.1 == c,
            Some(LabelIssue::SplitQuote(v)) => r.0 == 2 && r.2@ == v,
        },
{
    let marker = chars_of("label=\"");
    proof {
        reveal_strlit("label=\"");
    }
    let n = cs.len();
    let mut pos: usize = 0;
    assert(cs@.subrange(0, n as int) =~= cs@);
    while pos <= n
        invariant
            pos <= n == cs@.len(),
            marker@ == "label=\""@,
            marker@.len() == 7,
            plain_label_issue(cs@) == plain_label_issue(cs@.subrange(pos as int, n as int)),
        decreases n - pos,
    {
        let ghost rest = cs@.subrange(pos as int, n as int);
        let found = find_from(cs, pos, &marker);
        let j = match found {
            None => {
                return (0, '\0', Vec::new());
            },
            Some(j) => j,
        };
        let start = j + 7;
        let ghost r = rest.subrange((j - pos) + 7, rest.len() as int);
        assert(r =~= cs@.subrange(start as int, n as int));
        let (kind, k, ch) = value_end_exec(cs, start);
        if kind == 0 {
            return (0, '\0', Vec::new());
        }
        if kind == 1 {
            return (1, ch, Vec::new());
        }
        proof {
            assert(r == cs@.subrange(start as int, cs@.len() as int));
            match value_end(r, 0, false) {
                ValueEnd::Closed(kk) => {
                    assert(k == start + kk);
                },
                ValueEnd::Unclosed => {
                    assert(kind == 0);
                },
                ValueEnd::NonAscii(_) => {
                    assert(kind == 1);
                },
            }
            assert(start <= k < n);
        }
        let after = skip_blanks(cs, k + 1);
        let ghost tail = r.subrange((k - start) + 1, r.len() as int);
        assert(tail =~= cs@.subrange(k + 1, n as int));
        if split_quote_exec(cs, after) {
            let v = sub_chars(cs, start, k);
            assert(v@ =~= r.subrange(0, k - start));
            return (2, '\0', v);
        }
        pos = k + 1;
    }
    (0, '\0', Vec::new())
}

/// Checks every plain label (`label="..."`) of DOT text read from `path`
/// for non-ASCII characters and for an unescaped quote that splits the
/// value; the error is the message for the first problem found.
fn check_plain_string_labels(content: &str, path: &str) -> (r: Result<(), String>)
    ensures
        match plain_label_check(content@, path@) {
            Ok(()) => r is Ok,
            Err(m) => r matches Err(e) && e@ == m,
        },
{
    let cs = chars_of(content);
    let mut q = chars_of("'");
    append_str(&mut q, path);
    append_str(&mut q, "'");
    let (kind, ch, v) = plain_label_exec(&cs);
    if kind == 1 {
        append_str(&mut q, ": non-ASCII character ");
        let shown = debug_char(ch);
        append_str(&mut q, shown.as_str());
        append_str(
            &mut q,
            " inside a plain string label — use HTML label (label=<...>) with HTML entities for non-ASCII content",
        );
        return Err(string_from_chars(q.as_slice()));
    }
    if kind == 2 {
        append_str(
            &mut q,
            ": unescaped quote inside plain string label — escape embedded quotes as \\\" (found split near: ",
        );
        let shown = debug_str(string_from_chars(v.as_slice()).as_str());
        append_str(&mut q, shown.as_str());
        append_str(&mut q, ")");
        return Err(string_from_chars(q.as_slice()));
    }
    Ok(())
}

/// What `validate_dot_content` needs: the brace nesting stays within `i32`.
pub open spec fn dot_depth_ok(content: Seq<char>) -> bool {
    brace_peak(content, content.len() as int) <= i32::MAX
}

/// Checks DOT text read from `path`: not empty, a first meaningful line
/// starting with `digraph` or `graph`, balanced braces (outside strings),
/// no non-ASCII characters in HTML labels, and no non-ASCII characters or
/// unescaped quotes in plain labels.  The error is the message to report.
pub fn validate_dot_content(content: &str, path: &str) -> (r: Result<(), String>)
    requires
        dot_depth_ok(content@),
    ensures
        match dot_check(content@, path@) {
            Ok(()) => r is Ok,
            Err(m) => r matches Err(e) && e@ == m,
        },
{
    let cs = chars_of(content);
    let mut q = chars_of("'");
    append_str(&mut q, path);
    append_str(&mut q, "'");
    let trimmed = trim_ws_chars(&cs);
    if trimmed.len() == 0 {
        append_str(&mut q, " is empty");
        return Err(string_from_chars(q.as_slice()));
    }
    let lines = lines_exec(&cs);
    let (kw, t) = keyword_exec(&lines);
    if kw == 0 {
        append_str(&mut q, " contains only comments / whitespace");
        return Err(string_from_chars(q.as_slice()));
    }
    if kw == 2 {
        let preview = if t.len() <= 40 {
            sub_chars(&t, 0, t.len())
        } else {
            sub_chars(&t, 0, 40)
        };
        assert(preview@ =~= first_chars(t@, 40));
        let shown = debug_str(string_from_chars(preview.as_slice()).as_str());
        append_str(&mut q, " does not start with 'digraph' or 'graph' (got: ");
        append_str(&mut q, shown.as_str());
        append_str(&mut q, ")");
        return Err(string_from_chars(q.as_slice()));
    }
    let (depth, neg) = brace_exec(&cs);
    if neg {
        append_str(&mut q, " has an unexpected '}'  (too many closing braces)");
        return Err(string_from_chars(q.as_slice()));
    }
    if depth != 0 {
        append_str(&mut q, " has unbalanced braces (net open count: ");
        proof {
            lemma_brace_peak(cs@, cs@.len() as int, cs@.len() as int);
        }
        let d = decimal_chars(depth as u64);
        crate::text::append_chars(&mut q, &d);
        append_str(&mut q, ")");
        return Err(string_from_chars(q.as_slice()));
    }
    match html_exec(&lines) {
        Some((ln, na)) => {
            append_str(&mut q, " line ");
            let nl = lines.len();
            assert(ln < nl);
            let ln1 = ln + 1;
            let d = decimal_chars(ln1 as u64);
            crate::text::append_chars(&mut q, &d);
            append_str(&mut q, ": non-ASCII characters ");
            let shown = debug_str(string_from_chars(na.as_slice()).as_str());
            append_str(&mut q, shown.as_str());
            append_str(
                &mut q,
                " inside an HTML label — use HTML entities instead (e.g. &#x26A0; for ⚠)",
            );
            return Err(string_from_chars(q.as_slice()));
        },
        None => {},
    }
    check_plain_string_labels(content, path)
}


/// Whether the brace nesting of the text stays within `i32` (what
/// [`validate_dot_content`] needs).
pub fn dot_depth_fits(content: &str) -> (r: bool)
    ensures
        r == dot_depth_ok(content@),
{
    let cs = chars_of(content);
    let mut depth: i128 = 0;
    let mut peak: i128 = 0;
    let mut in_str = false;
    let mut prev: char = '\0';
    let mut k: usize = 0;
    while k < cs.len()
        invariant
            k <= cs@.len(),
            cs@ == content@,
            (depth as int, in_str, prev, false) == brace_scan(cs@, k as int),
            peak as int == brace_peak(cs@, k as int),
            0 <= depth <= k,
            0 <= peak <= k,
        decreases cs@.len() - k,
    {
        let ch = cs[k];
        if in_str {
            if ch == '"' && prev != '\\' {
                in_str = false;
            }
        } else {
            if ch == '"' {
                in_str = true;
            } else if ch == '{' {
                depth = depth + 1;
            } else if ch == '}' {
                if depth == 0 {
                    proof {
                        lemma_brace_peak_stuck(cs@, k + 1, cs@.len() as int);
                    }
                    return peak <= 0x7fff_ffff;
                }
                depth = depth - 1;
            }
        }
        if depth > peak {
            peak = depth;
        }
        prev = ch;
        k += 1;
    }
    peak <= 0x7fff_ffff
}

proof fn lemma_brace_peak_stuck(c: Seq<char>, m: int, n: int)
    requires
        0 < m <= n,
        brace_scan(c, m).3,
        !brace_scan(c, m - 1).3,
    ensures
        brace_peak(c, n) == brace_peak(c, m - 1),
    decreases n,
{
    if n > m {
        lemma_brace_peak_stuck(c, m, n - 1);
        lemma_brace_stuck(c, m, n);
    }
    if n == m {
        lemma_brace_peak(c, m - 1, m - 1);
    }
}

} // verus!
