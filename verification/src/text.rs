//! Character-level string helpers with exact specifications.
use vstd::prelude::*;
use vstd::string::*;
use vstd::std_specs::iter::IteratorSpec;
use crate::models::ipv4::IntParseError;

verus! {

/// Appends one character to a `String` (std `String::push`).
#[verifier::external_body]
pub(crate) fn string_push(s: &mut String, c: char)
    ensures
        final(s)@ == old(s)@.push(c),
{
    s.push(c);
}

/// The characters of a string slice, collected into a vector.
pub fn chars_of(s: &str) -> (r: Vec<char>)
    ensures
        r@ == s@,
{
    let mut r: Vec<char> = Vec::new();
    for c in it: s.chars()
        invariant
            r@ == it.seq().subrange(0, it.index() as int),
            it.seq() == s@,
    {
        r.push(c);
    }
    r
}

/// Builds a `String` holding exactly the given characters.
pub fn string_from_chars(cs: &[char]) -> (r: String)
    ensures
        r@ == cs@,
{
    let mut r = String::new();
    let mut i: usize = 0;
    while i < cs.len()
        invariant
            i <= cs@.len(),
            r@ == cs@.subrange(0, i as int),
        decreases cs@.len() - i,
    {
        string_push(&mut r, cs[i]);
        i += 1;
    }
    r
}

/// The character of the decimal digit `d` (for `d < 10`).
pub open spec fn digit_char(d: nat) -> char {
    (d + 48) as char
}

/// Whether `c` is an ASCII decimal digit.
pub open spec fn is_digit(c: char) -> bool {
    48 <= (c as u32) <= 57
}

/// The value of an ASCII decimal digit.
pub open spec fn digit_value(c: char) -> nat {
    ((c as u32) - 48) as nat
}

/// Decimal text of a natural number, without leading zeros.
pub open spec fn dec(n: nat) -> Seq<char>
    decreases n,
{
    if n < 10 {
        seq![digit_char(n)]
    } else {
        dec(n / 10).push(digit_char(n % 10))
    }
}

/// Decimal digits of `n`.
pub fn decimal_chars(n: u64) -> (r: Vec<char>)
    ensures
        r@ == dec(n as nat),
    decreases n,
{
    let d = (n % 10) as u8;
    let c = (48u8 + d) as char;
    if n < 10 {
        let mut r: Vec<char> = Vec::new();
        r.push(c);
        r
    } else {
        let mut r = decimal_chars(n / 10);
        r.push(c);
        r
    }
}

/// Decimal text of `n`.
pub fn decimal(n: u64) -> (r: String)
    ensures
        r@ == dec(n as nat),
{
    let v = decimal_chars(n);
    string_from_chars(v.as_slice())
}

/// Appends the characters of `s` to `r`.
pub fn append_chars(r: &mut Vec<char>, s: &Vec<char>)
    ensures
        final(r)@ == old(r)@ + s@,
{
    let mut k: usize = 0;
    while k < s.len()
        invariant
            k <= s@.len(),
            r@ == old(r)@ + s@.subrange(0, k as int),
        decreases s@.len() - k,
    {
        r.push(s[k]);
        k += 1;
    }
    assert(s@.subrange(0, s@.len() as int) =~= s@);
}

/// Appends the characters of a string slice to `r`.
pub fn append_str(r: &mut Vec<char>, s: &str)
    ensures
        final(r)@ == old(r)@ + s@,
{
    let cs = chars_of(s);
    append_chars(r, &cs);
}

/// Whether two character sequences are equal.
pub fn chars_eq(a: &Vec<char>, b: &Vec<char>) -> (r: bool)
    ensures
        r == (a@ == b@),
{
    if a.len() != b.len() {
        return false;
    }
    let mut k: usize = 0;
    while k < a.len()
        invariant
            k <= a@.len() == b@.len(),
            a@.subrange(0, k as int) == b@.subrange(0, k as int),
        decreases a@.len() - k,
    {
        if a[k] != b[k] {
            return false;
        }
        assert(a@.subrange(0, k + 1) =~= a@.subrange(0, k as int).push(a@[k as int]));
        assert(b@.subrange(0, k + 1) =~= b@.subrange(0, k as int).push(b@[k as int]));
        k += 1;
    }
    assert(a@ =~= a@.subrange(0, a@.len() as int));
    assert(b@ =~= b@.subrange(0, b@.len() as int));
    true
}

/// Whether two string slices are equal.
pub fn str_eq(a: &str, b: &str) -> (r: bool)
    ensures
        r == (a@ == b@),
{
    let x = chars_of(a);
    let y = chars_of(b);
    chars_eq(&x, &y)
}

/// Unicode `White_Space`, the set `char::is_whitespace` tests for.
pub open spec fn is_ws(c: char) -> bool {
    let u = c as u32;
    ||| 9 <= u <= 13
    ||| u == 32
    ||| u == 0x85
    ||| u == 0xa0
    ||| u == 0x1680
    ||| 0x2000 <= u <= 0x200a
    ||| u == 0x2028
    ||| u == 0x2029
    ||| u == 0x202f
    ||| u == 0x205f
    ||| u == 0x3000
}

pub fn is_ws_exec(c: char) -> (r: bool)
    ensures
        r == is_ws(c),
{
    let u = c as u32;
    (9 <= u && u <= 13) || u == 32 || u == 0x85 || u == 0xa0 || u == 0x1680 || (0x2000 <= u && u
        <= 0x200a) || u == 0x2028 || u == 0x2029 || u == 0x202f || u == 0x205f || u == 0x3000
}

/// `s` without the leading characters that satisfy `p`.
pub open spec fn trim_start_by(s: Seq<char>, p: spec_fn(char) -> bool) -> Seq<char>
    decreases s.len(),
{
    if s.len() > 0 && p(s[0]) {
        trim_start_by(s.drop_first(), p)
    } else {
        s
    }
}

/// `s` without the trailing characters that satisfy `p`.
pub open spec fn trim_end_by(s: Seq<char>, p: spec_fn(char) -> bool) -> Seq<char>
    decreases s.len(),
{
    if s.len() > 0 && p(s.last()) {
        trim_end_by(s.drop_last(), p)
    } else {
        s
    }
}

/// `s` without leading and trailing characters that satisfy `p`
/// (`str::trim_matches` with a predicate).
pub open spec fn trim_by(s: Seq<char>, p: spec_fn(char) -> bool) -> Seq<char> {
    trim_end_by(trim_start_by(s, p), p)
}

/// `str::trim`: without leading and trailing white space.
pub open spec fn trim_ws(s: Seq<char>) -> Seq<char> {
    trim_by(s, |c: char| is_ws(c))
}

/// `str::trim_matches(c)`: without leading and trailing copies of `c`.
pub open spec fn trim_char(s: Seq<char>, c: char) -> Seq<char> {
    trim_by(s, |x: char| x == c)
}

proof fn lemma_trim_start_step(s: Seq<char>, i: int, p: spec_fn(char) -> bool)
    requires
        0 <= i < s.len(),
        p(s[i]),
    ensures
        trim_start_by(s.subrange(i, s.len() as int), p) == trim_start_by(
            s.subrange(i + 1, s.len() as int),
            p,
        ),
{
    assert(s.subrange(i, s.len() as int).drop_first() =~= s.subrange(i + 1, s.len() as int));
}

proof fn lemma_trim_end_step(s: Seq<char>, j: int, p: spec_fn(char) -> bool)
    requires
        0 < j <= s.len(),
        p(s[j - 1]),
    ensures
        trim_end_by(s.subrange(0, j), p) == trim_end_by(s.subrange(0, j - 1), p),
{
    assert(s.subrange(0, j).drop_last() =~= s.subrange(0, j - 1));
}

spec fn trim_pred(which: u8, c0: char) -> spec_fn(char) -> bool {
    if which == 0 {
        |c: char| is_ws(c)
    } else {
        |x: char| x == c0
    }
}

fn trim_pred_exec(which: u8, c0: char, c: char) -> (r: bool)
    ensures
        r == trim_pred(which, c0)(c),
{
    if which == 0 {
        is_ws_exec(c)
    } else {
        c == c0
    }
}

/// Bounds `[i, j)` of `v` once the characters that `trim_pred(which, c0)`
/// holds of are removed at both ends.
fn trim_bounds(v: &Vec<char>, which: u8, c0: char) -> (r: (usize, usize))
    ensures
        r.0 <= r.1 <= v@.len(),
        v@.subrange(r.0 as int, r.1 as int) == trim_by(v@, trim_pred(which, c0)),
{
    let ghost p = trim_pred(which, c0);
    let n = v.len();
    let mut i: usize = 0;
    assert(v@.subrange(0, n as int) =~= v@);
    while i < n && trim_pred_exec(which, c0, v[i])
        invariant
            i <= n == v@.len(),
            p == trim_pred(which, c0),
            trim_start_by(v@, p) == trim_start_by(v@.subrange(i as int, n as int), p),
        decreases n - i,
    {
        proof {
            lemma_trim_start_step(v@, i as int, p);
        }
        i += 1;
    }
    let ghost t = v@.subrange(i as int, n as int);
    assert(t.len() > 0 ==> !p(t[0]));
    assert(trim_start_by(t, p) == t);
    let mut j: usize = n;
    assert(t.subrange(0, t.len() as int) =~= t);
    while j > i && trim_pred_exec(which, c0, v[j - 1])
        invariant
            i <= j <= n == v@.len(),
            p == trim_pred(which, c0),
            t == v@.subrange(i as int, n as int),
            trim_end_by(t, p) == trim_end_by(t.subrange(0, j - i), p),
        decreases j,
    {
        proof {
            lemma_trim_end_step(t, (j - i) as int, p);
            assert(t.subrange(0, (j - 1 - i) as int) =~= t.subrange(0, (j - i) as int).drop_last());
        }
        j -= 1;
    }
    let ghost u = t.subrange(0, j - i);
    assert(u.len() > 0 ==> !p(u.last()));
    assert(trim_end_by(u, p) == u);
    assert(u =~= v@.subrange(i as int, j as int));
    (i, j)
}

/// The characters `v[from..to]`.
pub fn sub_chars(v: &Vec<char>, from: usize, to: usize) -> (r: Vec<char>)
    requires
        from <= to <= v@.len(),
    ensures
        r@ == v@.subrange(from as int, to as int),
{
    let mut r: Vec<char> = Vec::new();
    let mut k = from;
    while k < to
        invariant
            from <= k <= to <= v@.len(),
            r@ == v@.subrange(from as int, k as int),
        decreases to - k,
    {
        r.push(v[k]);
        k += 1;
    }
    r
}

/// `str::trim` on a sequence of characters.
pub fn trim_ws_chars(v: &Vec<char>) -> (r: Vec<char>)
    ensures
        r@ == trim_ws(v@),
{
    let (i, j) = trim_bounds(v, 0, ' ');
    assert(trim_pred(0, ' ') =~= |c: char| is_ws(c));
    sub_chars(v, i, j)
}

/// `str::trim_matches(c)` on a sequence of characters.
pub fn trim_char_chars(v: &Vec<char>, c: char) -> (r: Vec<char>)
    ensures
        r@ == trim_char(v@, c),
{
    let (i, j) = trim_bounds(v, 1, c);
    assert(trim_pred(1, c) =~= |x: char| x == c);
    sub_chars(v, i, j)
}

/// The views of a sequence of character vectors.
pub open spec fn views(vs: Seq<Vec<char>>) -> Seq<Seq<char>> {
    vs.map_values(|v: Vec<char>| v@)
}

/// `str::split(sep)`: the pieces between separators; `n` separators give
/// `n + 1` pieces, some of which may be empty.
pub open spec fn split_on(s: Seq<char>, sep: char) -> Seq<Seq<char>>
    decreases s.len(),
{
    if s.len() == 0 {
        seq![Seq::empty()]
    } else {
        let r = split_on(s.drop_last(), sep);
        if s.last() == sep {
            r.push(Seq::empty())
        } else {
            r.update(r.len() - 1, r.last().push(s.last()))
        }
    }
}

/// Splitting gives at least one piece.
pub proof fn lemma_split_on_len(s: Seq<char>, sep: char)
    ensures
        split_on(s, sep).len() >= 1,
    decreases s.len(),
{
    if s.len() > 0 {
        lemma_split_on_len(s.drop_last(), sep);
    }
}

/// `str::split(sep)` on a sequence of characters.
pub fn split_chars(v: &Vec<char>, sep: char) -> (r: Vec<Vec<char>>)
    ensures
        views(r@) == split_on(v@, sep),
{
    let mut done: Vec<Vec<char>> = Vec::new();
    let mut cur: Vec<char> = Vec::new();
    let mut k: usize = 0;
    assert(v@.subrange(0, 0) =~= Seq::<char>::empty());
    assert(views(done@).push(cur@) =~= seq![Seq::<char>::empty()]);
    while k < v.len()
        invariant
            k <= v@.len(),
            split_on(v@.subrange(0, k as int), sep) == views(done@).push(cur@),
        decreases v@.len() - k,
    {
        let c = v[k];
        let ghost pre = v@.subrange(0, k as int);
        assert(v@.subrange(0, k + 1).drop_last() =~= pre);
        proof {
            lemma_split_on_len(pre, sep);
        }
        if c == sep {
            let mut fresh: Vec<char> = Vec::new();
            std::mem::swap(&mut fresh, &mut cur);
            done.push(fresh);
            assert(views(done@).push(cur@) =~= split_on(pre, sep).push(Seq::empty()));
        } else {
            cur.push(c);
            assert(views(done@).push(cur@) =~= split_on(pre, sep).update(
                split_on(pre, sep).len() - 1,
                split_on(pre, sep).last().push(c),
            ));
        }
        k += 1;
    }
    assert(v@.subrange(0, v@.len() as int) =~= v@);
    done.push(cur);
    assert(views(done@) =~= split_on(v@, sep));
    done
}

/// The views of a sequence of strings.
pub open spec fn string_views(v: Seq<String>) -> Seq<Seq<char>> {
    v.map_values(|s: String| s@)
}

/// The pieces joined with `sep` between each two (`[String]::join`).
pub open spec fn join_text(parts: Seq<Seq<char>>, sep: Seq<char>) -> Seq<char>
    decreases parts.len(),
{
    if parts.len() == 0 {
        Seq::empty()
    } else if parts.len() == 1 {
        parts[0]
    } else {
        join_text(parts.drop_last(), sep) + sep + parts.last()
    }
}

/// Joins the strings with `sep` between each two.
pub fn join_strings(parts: &[String], sep: &str) -> (r: String)
    ensures
        r@ == join_text(string_views(parts@), sep@),
{
    let sep_chars = chars_of(sep);
    let mut out: Vec<char> = Vec::new();
    let mut k: usize = 0;
    while k < parts.len()
        invariant
            k <= parts@.len(),
            sep_chars@ == sep@,
            out@ == join_text(string_views(parts@.subrange(0, k as int)), sep@),
        decreases parts@.len() - k,
    {
        let ghost before = out@;
        if k > 0 {
            append_chars(&mut out, &sep_chars);
        }
        let piece = chars_of(parts[k].as_str());
        append_chars(&mut out, &piece);
        proof {
            let sub = string_views(parts@.subrange(0, k + 1));
            assert(sub.drop_last() =~= string_views(parts@.subrange(0, k as int)));
            assert(sub.last() == parts@[k as int]@);
            if k > 0 {
                assert(out@ =~= before + sep@ + piece@);
            } else {
                assert(sub.len() == 1);
                assert(out@ =~= piece@);
            }
        }
        k += 1;
    }
    assert(parts@.subrange(0, parts@.len() as int) =~= parts@);
    string_from_chars(out.as_slice())
}

/// The last piece of `s` split at `sep` (`s.split(sep).next_back()`).
pub fn last_piece(s: &str, sep: char) -> (r: String)
    ensures
        r@ == split_on(s@, sep).last(),
{
    let cs = chars_of(s);
    let parts = split_chars(&cs, sep);
    proof {
        lemma_split_on_len(cs@, sep);
    }
    let k = parts.len() - 1;
    assert(parts@[k as int]@ == split_on(s@, sep).last());
    string_from_chars(parts[k].as_slice())
}

/// What `str::to_lowercase` gives for `s` (Unicode lower-case mapping).
pub uninterp spec fn lowercase_text(s: Seq<char>) -> Seq<char>;

/// `str::to_lowercase`: the Unicode lower-case form of `s`.  The result
/// depends on `s` alone; the mapping itself is left unstated.
#[verifier::external_body]
pub fn to_lowercase(s: &str) -> (r: String)
    ensures
        r@ == lowercase_text(s@),
{
    s.to_lowercase()
}

/// `needle` occurs in `hay` as a contiguous piece.
pub open spec fn text_contains(hay: Seq<char>, needle: Seq<char>) -> bool {
    exists|i: int| 0 <= i && i + needle.len() <= hay.len() && #[trigger] hay.subrange(i, i + needle.len()) == needle
}

/// Whether `needle` occurs in `hay` (`str::contains` with a `&str`).
pub fn contains_text(hay: &str, needle: &str) -> (r: bool)
    ensures
        r == text_contains(hay@, needle@),
{
    let h = chars_of(hay);
    let n = chars_of(needle);
    if n.len() > h.len() {
        return false;
    }
    let mut i: usize = 0;
    let last = h.len() - n.len();
    while i <= last
        invariant
            last == h@.len() - n@.len(),
            h@.len() <= usize::MAX,
            h@ == hay@,
            n@ == needle@,
            n@.len() <= h@.len(),
            i <= h@.len() - n@.len() + 1,
            forall|q: int| 0 <= q < i ==> #[trigger] h@.subrange(q, q + n@.len()) != n@,
        decreases h@.len() - i,
    {
        let mut k: usize = 0;
        while k < n.len() && h[i + k] == n[k]
            invariant
                i + n@.len() <= h@.len(),
                h@.len() <= usize::MAX,
                k <= n@.len(),
                h@.subrange(i as int, i + k) == n@.subrange(0, k as int),
            decreases n@.len() - k,
        {
            assert(h@.subrange(i as int, i + k + 1) =~= h@.subrange(i as int, i + k).push(h@[i + k]));
            assert(n@.subrange(0, k + 1) =~= n@.subrange(0, k as int).push(n@[k as int]));
            k += 1;
        }
        if k == n.len() {
            assert(n@.subrange(0, k as int) =~= n@);
            assert(h@.subrange(i as int, i + n@.len()) == n@);
            return true;
        }
        assert(h@.subrange(i as int, i + n@.len())[k as int] != n@[k as int]);
        i += 1;
    }
    proof {
        if text_contains(hay@, needle@) {
            let q = choose|q: int| 0 <= q && q + needle@.len() <= hay@.len() && #[trigger] hay@.subrange(q, q + needle@.len()) == needle@;
            assert(h@.subrange(q, q + n@.len()) == n@);
        }
    }
    false
}

/// Position of the first `c` in `s`, or -1.
pub open spec fn first_index_of(s: Seq<char>, c: char) -> int
    decreases s.len(),
{
    if s.len() == 0 {
        -1
    } else if s[0] == c {
        0
    } else {
        let r = first_index_of(s.drop_first(), c);
        if r < 0 {
            -1
        } else {
            r + 1
        }
    }
}

proof fn lemma_first_index_of(s: Seq<char>, c: char, k: int)
    requires
        0 <= k <= s.len(),
        forall|q: int| 0 <= q < k ==> s[q] != c,
        k == s.len() || s[k] == c,
    ensures
        first_index_of(s, c) == if k == s.len() {
            -1
        } else {
            k
        },
    decreases k,
{
    if k > 0 {
        let t = s.drop_first();
        assert forall|q: int| 0 <= q < k - 1 implies t[q] != c by {
            assert(t[q] == s[q + 1]);
        }
        if k < s.len() {
            assert(t[k - 1] == s[k]);
        }
        lemma_first_index_of(t, c, k - 1);
    }
}

/// Position of the first `c` in `v`.
pub fn find_char(v: &Vec<char>, c: char) -> (r: Option<usize>)
    ensures
        match r {
            Some(i) => i as int == first_index_of(v@, c) && i < v@.len(),
            None => first_index_of(v@, c) == -1,
        },
{
    let mut k: usize = 0;
    while k < v.len() && v[k] != c
        invariant
            k <= v@.len(),
            forall|q: int| 0 <= q < k ==> v@[q] != c,
        decreases v@.len() - k,
    {
        k += 1;
    }
    proof {
        lemma_first_index_of(v@, c, k as int);
    }
    if k < v.len() {
        Some(k)
    } else {
        None
    }
}

/// What `format!("{:?}", s)` gives for a string slice: the text in double
/// quotes, each character escaped as `char::escape_debug` does, except that a
/// single quote stays as it is (a double quote becomes `\"`).
pub uninterp spec fn debug_str_text(s: Seq<char>) -> Seq<char>;

/// `format!("{:?}", s)` for a string slice.  The escaping rules (std's
/// printable-character tables) are left to the named result.
#[verifier::external_body]
pub fn debug_str(s: &str) -> (r: String)
    ensures
        r@ == debug_str_text(s@),
{
    format!("{:?}", s)
}

/// What `format!("{:?}", c)` gives for a character: it in single quotes,
/// escaped as `char::escape_debug` does, except that a double quote stays as
/// it is (a single quote becomes `\'`).
pub uninterp spec fn debug_char_text(c: char) -> Seq<char>;

/// `format!("{:?}", c)` for a character.  The escaping rules are left to
/// the named result.
#[verifier::external_body]
pub fn debug_char(c: char) -> (r: String)
    ensures
        r@ == debug_char_text(c),
{
    format!("{:?}", c)
}

/// What `char::is_alphanumeric` gives (Unicode `Alphabetic` or `Numeric`).
pub uninterp spec fn alphanumeric(c: char) -> bool;

/// `char::is_alphanumeric`.  The Unicode tables are left to the named
/// result.
#[verifier::external_body]
pub fn is_alphanumeric(c: char) -> (r: bool)
    ensures
        r == alphanumeric(c),
{
    c.is_alphanumeric()
}

/// `s` starts with `p`.
pub open spec fn has_prefix(s: Seq<char>, p: Seq<char>) -> bool {
    p.len() <= s.len() && s.subrange(0, p.len() as int) == p
}

/// Whether `s` starts with `p`.
pub fn starts_with_chars(s: &Vec<char>, p: &Vec<char>) -> (r: bool)
    ensures
        r == has_prefix(s@, p@),
{
    if p.len() > s.len() {
        return false;
    }
    let mut k: usize = 0;
    while k < p.len()
        invariant
            p@.len() <= s@.len(),
            k <= p@.len(),
            forall|q: int| 0 <= q < k ==> s@[q] == p@[q],
        decreases p@.len() - k,
    {
        if s[k] != p[k] {
            assert(s@.subrange(0, p@.len() as int)[k as int] != p@[k as int]);
            return false;
        }
        k += 1;
    }
    assert(s@.subrange(0, p@.len() as int) =~= p@);
    true
}

/// Position of the first occurrence of `n` in `h`, or -1.
pub open spec fn first_match(h: Seq<char>, n: Seq<char>) -> int
    decreases h.len(),
{
    if n.len() > h.len() {
        -1
    } else if h.subrange(0, n.len() as int) == n {
        0
    } else if h.len() == 0 {
        -1
    } else {
        let r = first_match(h.drop_first(), n);
        if r < 0 {
            -1
        } else {
            r + 1
        }
    }
}

/// Value of a run of decimal digits.
pub open spec fn digits_value(s: Seq<char>) -> nat
    decreases s.len(),
{
    if s.len() == 0 {
        0
    } else {
        digits_value(s.drop_last()) * 10 + digit_value(s.last())
    }
}

/// Left-to-right reading of decimal digits into an 8-bit value, failing at
/// the first non-digit or at the first digit that overflows.
pub open spec fn scan_u8(s: Seq<char>) -> Result<nat, IntParseError>
    decreases s.len(),
{
    if s.len() == 0 {
        Ok(0)
    } else {
        match scan_u8(s.drop_last()) {
            Err(e) => Err(e),
            Ok(v) => if !is_digit(s.last()) {
                Err(IntParseError::InvalidDigit)
            } else if v * 10 + digit_value(s.last()) > 255 {
                Err(IntParseError::PosOverflow)
            } else {
                Ok(v * 10 + digit_value(s.last()))
            },
        }
    }
}

/// `u8::from_str`: an optional `+`, then decimal digits.
pub open spec fn parse_u8_spec(s: Seq<char>) -> Result<u8, IntParseError> {
    if s.len() == 0 {
        Err(IntParseError::Empty)
    } else if s.len() == 1 && (s[0] == '+' || s[0] == '-') {
        Err(IntParseError::InvalidDigit)
    } else {
        let body = if s[0] == '+' {
            s.drop_first()
        } else {
            s
        };
        match scan_u8(body) {
            Ok(v) => Ok(v as u8),
            Err(e) => Err(e),
        }
    }
}

pub fn is_digit_exec(c: char) -> (r: bool)
    ensures
        r == is_digit(c),
{
    let u = c as u32;
    48 <= u && u <= 57
}

/// `u8::from_str` on a sequence of characters.
#[verifier::rlimit(40)]
#[verifier::spinoff_prover]
pub fn parse_u8(v: &Vec<char>) -> (r: Result<u8, IntParseError>)
    ensures
        r == parse_u8_spec(v@),
{
    let n = v.len();
    if n == 0 {
        return Err(IntParseError::Empty);
    }
    if n == 1 && (v[0] == '+' || v[0] == '-') {
        return Err(IntParseError::InvalidDigit);
    }
    let start: usize = if v[0] == '+' {
        1
    } else {
        0
    };
    let ghost body = if v@[0] == '+' {
        v@.drop_first()
    } else {
        v@
    };
    assert(body =~= v@.subrange(start as int, n as int));
    let mut acc: u32 = 0;
    let mut k: usize = start;
    assert(v@.subrange(start as int, start as int) =~= Seq::<char>::empty());
    while k < n
        invariant
            start <= k <= n == v@.len(),
            n > 0,
            !(n == 1 && (v@[0] == '+' || v@[0] == '-')),
            body == (if v@[0] == '+' {
                v@.drop_first()
            } else {
                v@
            }),
            body == v@.subrange(start as int, n as int),
            scan_u8(v@.subrange(start as int, k as int)) == Ok::<nat, IntParseError>(acc as nat),
            acc <= 255,
        decreases n - k,
    {
        let c = v[k];
        assert(v@.subrange(start as int, k + 1).drop_last() =~= v@.subrange(
            start as int,
            k as int,
        ));
        let ghost pk1 = v@.subrange(start as int, k + 1);
        assert(pk1.last() == c);
        if !is_digit_exec(c) {
            assert(scan_u8(pk1) == Err::<nat, IntParseError>(IntParseError::InvalidDigit));
            assert(scan_u8(body) == Err::<nat, IntParseError>(IntParseError::InvalidDigit)) by {
                assert(v@.subrange(start as int, n as int).subrange(0, (k + 1 - start) as int)
                    =~= v@.subrange(start as int, k + 1));
                lemma_scan_u8_err_extends(v@.subrange(start as int, n as int), (k + 1 - start) as int);
            }
            return Err(IntParseError::InvalidDigit);
        }
        let d = c as u32 - 48;
        assert(d as nat == digit_value(c));
        if acc * 10 + d > 255 {
            assert(scan_u8(pk1) == Err::<nat, IntParseError>(IntParseError::PosOverflow));
            assert(scan_u8(body) == Err::<nat, IntParseError>(IntParseError::PosOverflow)) by {
                assert(v@.subrange(start as int, n as int).subrange(0, (k + 1 - start) as int)
                    =~= v@.subrange(start as int, k + 1));
                lemma_scan_u8_err_extends(v@.subrange(start as int, n as int), (k + 1 - start) as int);
            }
            return Err(IntParseError::PosOverflow);
        }
        acc = acc * 10 + d;
        k += 1;
    }
    assert(v@.subrange(start as int, n as int) =~= body);
    Ok(acc as u8)
}

/// Once the left-to-right reading has failed on a prefix, it fails with the
/// same error on the whole sequence.
pub proof fn lemma_scan_u8_err_extends(s: Seq<char>, k: int)
    requires
        0 <= k <= s.len(),
        scan_u8(s.subrange(0, k)) is Err,
    ensures
        scan_u8(s) == scan_u8(s.subrange(0, k)),
    decreases s.len() - k,
{
    if k < s.len() {
        assert(s.subrange(0, k + 1).drop_last() =~= s.subrange(0, k));
        lemma_scan_u8_err_extends(s, k + 1);
    } else {
        assert(s.subrange(0, k) =~= s);
    }
}

/// Facts about decimal text: non-empty digits, no leading zero, its value,
/// and its length for small numbers.
pub proof fn lemma_dec_facts(n: nat)
    ensures
        dec(n).len() >= 1,
        forall|i: int| 0 <= i < dec(n).len() ==> is_digit(#[trigger] dec(n)[i]),
        digits_value(dec(n)) == n,
        n >= 1 ==> dec(n)[0] != '0',
        n < 10 ==> dec(n).len() == 1,
        n < 100 ==> dec(n).len() <= 2,
        n < 1000 ==> dec(n).len() <= 3,
    decreases n,
{
    if n < 10 {
        assert((n + 48) as char as u32 == n + 48);
        assert(dec(n) =~= seq![digit_char(n)]);
        assert(digits_value(dec(n).drop_last()) == 0) by {
            assert(dec(n).drop_last() =~= Seq::<char>::empty());
        }
    } else {
        lemma_dec_facts(n / 10);
        let d = n % 10;
        assert((d + 48) as char as u32 == d + 48);
        let t = dec(n / 10);
        assert(dec(n) == t.push(digit_char(d)));
        assert(dec(n).drop_last() =~= t);
        assert forall|i: int| 0 <= i < dec(n).len() implies is_digit(#[trigger] dec(n)[i]) by {
            if i < t.len() {
                assert(dec(n)[i] == t[i]);
            }
        }
        assert(dec(n)[0] == t[0]);
    }
}

/// Digits whose value fits in 8 bits read as that value.
proof fn lemma_scan_u8_digits(s: Seq<char>)
    requires
        forall|i: int| 0 <= i < s.len() ==> is_digit(#[trigger] s[i]),
        digits_value(s) <= 255,
    ensures
        scan_u8(s) == Ok::<nat, IntParseError>(digits_value(s)),
    decreases s.len(),
{
    if s.len() > 0 {
        assert forall|i: int| 0 <= i < s.drop_last().len() implies is_digit(#[trigger] s.drop_last()[i]) by {
            assert(s.drop_last()[i] == s[i]);
        }
        assert(is_digit(s[s.len() - 1]));
        lemma_scan_u8_digits(s.drop_last());
    }
}

/// `u8::from_str` reads back the decimal text of an 8-bit value.
pub proof fn lemma_parse_u8_dec(m: u8)
    ensures
        parse_u8_spec(dec(m as nat)) == Ok::<u8, IntParseError>(m),
{
    lemma_dec_facts(m as nat);
    let s = dec(m as nat);
    assert(is_digit(s[0]));
    lemma_scan_u8_digits(s);
}

/// Text without the separator splits into itself alone.
pub proof fn lemma_split_without_sep(s: Seq<char>, sep: char)
    requires
        !s.contains(sep),
    ensures
        split_on(s, sep) == seq![s],
    decreases s.len(),
{
    if s.len() > 0 {
        assert(!s.drop_last().contains(sep)) by {
            if s.drop_last().contains(sep) {
                let i = choose|i: int| 0 <= i < s.drop_last().len() && s.drop_last()[i] == sep;
                assert(s[i] == sep);
            }
        }
        lemma_split_without_sep(s.drop_last(), sep);
        assert(s[s.len() - 1] != sep);
        assert(s.drop_last().push(s.last()) =~= s);
    } else {
        assert(s =~= Seq::<char>::empty());
    }
}

/// Splitting `a`, a separator, then `b` (without the separator) gives the
/// pieces of `a` and then `b`.
pub proof fn lemma_split_append(a: Seq<char>, b: Seq<char>, sep: char)
    requires
        !b.contains(sep),
    ensures
        split_on(a + seq![sep] + b, sep) == split_on(a, sep).push(b),
    decreases b.len(),
{
    lemma_split_on_len(a, sep);
    if b.len() == 0 {
        assert(a + seq![sep] + b =~= a.push(sep));
        assert((a + seq![sep] + b).drop_last() =~= a);
        assert(b =~= Seq::<char>::empty());
        assert((a + seq![sep] + b).last() == sep);
    } else {
        let bb = b.drop_last();
        assert(!bb.contains(sep)) by {
            if bb.contains(sep) {
                let i = choose|i: int| 0 <= i < bb.len() && bb[i] == sep;
                assert(b[i] == sep);
            }
        }
        lemma_split_append(a, bb, sep);
        let w = a + seq![sep] + b;
        assert(w.drop_last() =~= a + seq![sep] + bb);
        assert(w.last() == b.last());
        assert(b[b.len() - 1] != sep);
        assert(bb.push(b.last()) =~= b);
        let r = split_on(w.drop_last(), sep);
        assert(r == split_on(a, sep).push(bb));
        assert(r.last() == bb);
        assert(split_on(w, sep) == r.update(r.len() - 1, r.last().push(w.last())));
        assert(r.update(r.len() - 1, r.last().push(w.last())) =~= split_on(a, sep).push(b));
    }
}

} // verus!
