//! Ordering, filtering and de-duplication of subnet records, shared by both
//! record formats.
//!
//! Records are ordered by their subnet block (`None` first, then by address
//! and prefix length) and, where asked, by subscription ID; text is ordered
//! character by character, which is the order of `String`'s `Ord` (UTF-8
//! byte order is code point order).
use crate::models::ipv4::Ipv4;
use crate::text::{chars_of, str_eq};
use vstd::prelude::*;

verus! {

/// What ordering and de-duplication read of a subnet record.
pub trait SubnetRecord: Sized {
    /// The subnet block.
    spec fn cidr_spec(&self) -> Option<Ipv4>;

    /// The subscription ID.
    spec fn subscription_spec(&self) -> Seq<char>;

    /// The subnet name.
    spec fn name_spec(&self) -> Seq<char>;

    fn cidr(&self) -> (r: Option<Ipv4>)
        ensures
            r == self.cidr_spec(),
    ;

    fn subscription(&self) -> (r: &str)
        ensures
            r@ == self.subscription_spec(),
    ;

    fn name(&self) -> (r: &str)
        ensures
            r@ == self.name_spec(),
    ;
}

impl SubnetRecord for crate::models::subnet::Subnet {
    open spec fn cidr_spec(&self) -> Option<Ipv4> {
        self.subnet_cidr
    }

    open spec fn subscription_spec(&self) -> Seq<char> {
        self.subscription_id@
    }

    open spec fn name_spec(&self) -> Seq<char> {
        self.subnet_name@
    }

    fn cidr(&self) -> (r: Option<Ipv4>) {
        self.subnet_cidr
    }

    fn subscription(&self) -> (r: &str) {
        self.subscription_id.as_str()
    }

    fn name(&self) -> (r: &str) {
        self.subnet_name.as_str()
    }
}

impl SubnetRecord for crate::struct_subnet::Subnet {
    open spec fn cidr_spec(&self) -> Option<Ipv4> {
        self.subnet_cidr
    }

    open spec fn subscription_spec(&self) -> Seq<char> {
        self.subscription_id@
    }

    open spec fn name_spec(&self) -> Seq<char> {
        self.subnet_name@
    }

    fn cidr(&self) -> (r: Option<Ipv4>) {
        self.subnet_cidr
    }

    fn subscription(&self) -> (r: &str) {
        self.subscription_id.as_str()
    }

    fn name(&self) -> (r: &str) {
        self.subnet_name.as_str()
    }
}

/// `a < b` for optional blocks: `None` first, then by address, then by
/// prefix length (the derived order of `Option<Ipv4>`).
pub open spec fn cidr_lt(a: Option<Ipv4>, b: Option<Ipv4>) -> bool {
    match a {
        None => b is Some,
        Some(x) => match b {
            None => false,
            Some(y) => x.addr < y.addr || (x.addr == y.addr && x.mask < y.mask),
        },
    }
}

/// Lexicographic `a < b` on text, by character code.
pub open spec fn text_lt(a: Seq<char>, b: Seq<char>) -> bool
    decreases a.len(),
{
    if a.len() == 0 {
        b.len() > 0
    } else if b.len() == 0 {
        false
    } else if a[0] != b[0] {
        (a[0] as u32) < (b[0] as u32)
    } else {
        text_lt(a.drop_first(), b.drop_first())
    }
}

/// Record order: by block, and with `by_sub` then by subscription ID.
pub open spec fn record_lt<T: SubnetRecord>(a: T, b: T, by_sub: bool) -> bool {
    ||| cidr_lt(a.cidr_spec(), b.cidr_spec())
    ||| by_sub && a.cidr_spec() == b.cidr_spec() && text_lt(
        a.subscription_spec(),
        b.subscription_spec(),
    )
}

/// Two records with the same block and subscription ID.
pub open spec fn same_key<T: SubnetRecord>(a: T, b: T) -> bool {
    a.cidr_spec() == b.cidr_spec() && a.subscription_spec() == b.subscription_spec()
}

/// Where a stable insertion puts `x` into `s`: before the first element
/// that is not smaller than `x`.
pub open spec fn insert_pos<T: SubnetRecord>(s: Seq<T>, x: T, by_sub: bool) -> nat
    decreases s.len(),
{
    if s.len() == 0 || !record_lt(s[0], x, by_sub) {
        0
    } else {
        1 + insert_pos(s.drop_first(), x, by_sub)
    }
}

/// The stable sort of `s` (what `sort_by_key` gives): the sorted rest, with
/// the first element inserted before every element not smaller than it.
pub open spec fn stable_sorted<T: SubnetRecord>(s: Seq<T>, by_sub: bool) -> Seq<T>
    decreases s.len(),
{
    if s.len() == 0 {
        s
    } else {
        let t = stable_sorted(s.drop_first(), by_sub);
        t.insert(insert_pos(t, s[0], by_sub) as int, s[0])
    }
}

/// The records that are not named in `ignore` and have a block
/// (`Vec::retain`).
pub open spec fn kept_records<T: SubnetRecord>(s: Seq<T>, ignore: Seq<Seq<char>>) -> Seq<T>
    decreases s.len(),
{
    if s.len() == 0 {
        s
    } else {
        let r = kept_records(s.drop_last(), ignore);
        if !ignore.contains(s.last().name_spec()) && s.last().cidr_spec() is Some {
            r.push(s.last())
        } else {
            r
        }
    }
}

/// `s` without each record whose key equals that of the record before it
/// (`Vec::dedup_by_key`).
pub open spec fn dedup_records<T: SubnetRecord>(s: Seq<T>) -> Seq<T>
    decreases s.len(),
{
    if s.len() <= 1 {
        s
    } else {
        let r = dedup_records(s.drop_last());
        if same_key(s.last(), s[s.len() - 2]) {
            r
        } else {
            r.push(s.last())
        }
    }
}

/// The views of a list of names.
pub open spec fn name_views(names: Seq<&str>) -> Seq<Seq<char>> {
    names.map_values(|n: &str| n@)
}

fn cidr_less(a: Option<Ipv4>, b: Option<Ipv4>) -> (r: bool)
    ensures
        r == cidr_lt(a, b),
{
    match a {
        None => b.is_some(),
        Some(x) => match b {
            None => false,
            Some(y) => x.addr < y.addr || (x.addr == y.addr && x.mask < y.mask),
        },
    }
}

/// Lexicographic `a < b` on text.
pub fn text_less(a: &str, b: &str) -> (r: bool)
    ensures
        r == text_lt(a@, b@),
{
    let x = chars_of(a);
    let y = chars_of(b);
    let mut k: usize = 0;
    assert(a@.subrange(0, a@.len() as int) =~= a@);
    assert(b@.subrange(0, b@.len() as int) =~= b@);
    while k < x.len() && k < y.len() && x[k] == y[k]
        invariant
            k <= x@.len(),
            k <= y@.len(),
            x@ == a@,
            y@ == b@,
            text_lt(a@, b@) == text_lt(a@.subrange(k as int, a@.len() as int), b@.subrange(
                k as int,
                b@.len() as int,
            )),
        decreases x@.len() - k,
    {
        proof {
            let sa = a@.subrange(k as int, a@.len() as int);
            let sb = b@.subrange(k as int, b@.len() as int);
            assert(sa.drop_first() =~= a@.subrange(k + 1, a@.len() as int));
            assert(sb.drop_first() =~= b@.subrange(k + 1, b@.len() as int));
        }
        k += 1;
    }
    let ghost sa = a@.subrange(k as int, a@.len() as int);
    let ghost sb = b@.subrange(k as int, b@.len() as int);
    if k == x.len() {
        k < y.len()
    } else if k == y.len() {
        false
    } else {
        assert(sa[0] == x@[k as int] && sb[0] == y@[k as int]);
        (x[k] as u32) < (y[k] as u32)
    }
}

fn record_less<T: SubnetRecord>(a: &T, b: &T, by_sub: bool) -> (r: bool)
    ensures
        r == record_lt(*a, *b, by_sub),
{
    if cidr_less(a.cidr(), b.cidr()) {
        true
    } else if by_sub && a.cidr() == b.cidr() {
        text_less(a.subscription(), b.subscription())
    } else {
        false
    }
}

proof fn lemma_insert_pos<T: SubnetRecord>(t: Seq<T>, x: T, by_sub: bool, p: int)
    requires
        0 <= p <= t.len(),
        forall|q: int| 0 <= q < p ==> #[trigger] record_lt(t[q], x, by_sub),
        p == t.len() || !record_lt(t[p], x, by_sub),
    ensures
        insert_pos(t, x, by_sub) == p,
    decreases p,
{
    if p > 0 {
        let u = t.drop_first();
        assert(record_lt(t[0], x, by_sub));
        assert forall|q: int| 0 <= q < p - 1 implies #[trigger] record_lt(u[q], x, by_sub) by {
            assert(u[q] == t[q + 1]);
            assert(record_lt(t[q + 1], x, by_sub));
        }
        if p < t.len() {
            assert(u[p - 1] == t[p]);
        }
        lemma_insert_pos(u, x, by_sub, p - 1);
    }
}

/// The stable sort of the records.
pub fn sort_records<T: SubnetRecord>(v: Vec<T>, by_sub: bool) -> (r: Vec<T>)
    ensures
        r@ == stable_sorted(v@, by_sub),
{
    let ghost s = v@;
    let mut src = v;
    let mut out: Vec<T> = Vec::new();
    assert(s.subrange(s.len() as int, s.len() as int) =~= Seq::<T>::empty());
    assert(s.subrange(0, s.len() as int) =~= s);
    while src.len() > 0
        invariant
            src@.len() <= s.len(),
            src@ == s.subrange(0, src@.len() as int),
            out@ == stable_sorted(s.subrange(src@.len() as int, s.len() as int), by_sub),
        decreases src@.len(),
    {
        let ghost k = src@.len() - 1;
        let x = src.pop().unwrap();
        assert(x == s[k]);
        let mut p: usize = 0;
        while p < out.len() && record_less(&out[p], &x, by_sub)
            invariant
                p <= out@.len(),
                forall|q: int| 0 <= q < p ==> #[trigger] record_lt(out@[q], x, by_sub),
            decreases out@.len() - p,
        {
            p += 1;
        }
        proof {
            lemma_insert_pos(out@, x, by_sub, p as int);
            let whole = s.subrange(k, s.len() as int);
            assert(whole.drop_first() =~= s.subrange(k + 1, s.len() as int));
            assert(whole[0] == x);
        }
        out.insert(p, x);
        assert(src@ =~= s.subrange(0, src@.len() as int));
    }
    out
}

/// Whether `name` is one of `names`.
pub fn name_listed(names: &Vec<&str>, name: &str) -> (r: bool)
    ensures
        r == name_views(names@).contains(name@),
{
    let mut k: usize = 0;
    while k < names.len()
        invariant
            k <= names@.len(),
            forall|q: int| 0 <= q < k ==> names@[q]@ != name@,
        decreases names@.len() - k,
    {
        if str_eq(names[k], name) {
            assert(name_views(names@)[k as int] == name@);
            return true;
        }
        k += 1;
    }
    proof {
        if name_views(names@).contains(name@) {
            let q = choose|q: int| 0 <= q < name_views(names@).len() && name_views(names@)[q] == name@;
            assert(names@[q]@ == name@);
        }
    }
    false
}

/// The records not named in `ignore` that have a block, in order.
pub fn keep_records<T: SubnetRecord>(v: Vec<T>, ignore: &Vec<&str>) -> (r: Vec<T>)
    ensures
        r@ == kept_records(v@, name_views(ignore@)),
{
    let ghost s = v@;
    let ghost names = name_views(ignore@);
    let mut src = v;
    let mut out: Vec<T> = Vec::new();
    let ghost mut k: int = 0;
    assert(s.subrange(0, 0) =~= Seq::<T>::empty());
    while src.len() > 0
        invariant
            0 <= k <= s.len(),
            src@ == s.subrange(k, s.len() as int),
            out@ == kept_records(s.subrange(0, k), names),
            names == name_views(ignore@),
        decreases src@.len(),
    {
        let x = src.remove(0);
        proof {
            assert(x == s[k]);
            let pre = s.subrange(0, k + 1);
            assert(pre.drop_last() =~= s.subrange(0, k));
            assert(pre.last() == x);
        }
        let listed = name_listed(ignore, x.name());
        let has_cidr = x.cidr().is_some();
        if !listed && has_cidr {
            out.push(x);
        }
        proof {
            k = k + 1;
        }
        assert(src@ =~= s.subrange(k, s.len() as int));
    }
    assert(s.subrange(0, k) =~= s);
    out
}

fn same_key_exec<T: SubnetRecord>(a: &T, b: &T) -> (r: bool)
    ensures
        r == same_key(*a, *b),
{
    a.cidr() == b.cidr() && str_eq(a.subscription(), b.subscription())
}

/// The records without each one whose key equals that of the record before
/// it.
pub fn dedup_records_exec<T: SubnetRecord>(v: Vec<T>) -> (r: Vec<T>)
    ensures
        r@ == dedup_records(v@),
{
    let ghost s = v@;
    let mut src = v;
    let mut out: Vec<T> = Vec::new();
    if src.len() == 0 {
        return out;
    }
    let first = src.remove(0);
    let mut prev_cidr = first.cidr();
    let mut prev_sub = chars_of(first.subscription());
    out.push(first);
    let ghost mut k: int = 1;
    assert(s.subrange(0, 1) =~= seq![s[0]]);
    while src.len() > 0
        invariant
            1 <= k <= s.len(),
            src@ == s.subrange(k, s.len() as int),
            out@ == dedup_records(s.subrange(0, k)),
            prev_cidr == s[k - 1].cidr_spec(),
            prev_sub@ == s[k - 1].subscription_spec(),
        decreases src@.len(),
    {
        let x = src.remove(0);
        let xs = chars_of(x.subscription());
        proof {
            assert(x == s[k]);
            let pre = s.subrange(0, k + 1);
            assert(pre.drop_last() =~= s.subrange(0, k));
            assert(pre.last() == x);
            assert(pre[pre.len() - 2] == s[k - 1]);
        }
        let same = x.cidr() == prev_cidr && crate::text::chars_eq(&xs, &prev_sub);
        prev_cidr = x.cidr();
        prev_sub = xs;
        if !same {
            out.push(x);
        }
        proof {
            k = k + 1;
        }
        assert(src@ =~= s.subrange(k, s.len() as int));
    }
    assert(s.subrange(0, k) =~= s);
    out
}

/// The first record whose key equals that of an earlier record.
pub open spec fn first_repeat<T: SubnetRecord>(s: Seq<T>, j: int) -> bool {
    &&& 0 <= j < s.len()
    &&& exists|i: int| 0 <= i < j && same_key(#[trigger] s[i], s[j])
    &&& forall|j2: int, i: int| 0 <= i < j2 < j ==> !same_key(#[trigger] s[i], #[trigger] s[j2])
}

/// The position of the first record whose key repeats an earlier one, if
/// any.
pub fn find_repeat<T: SubnetRecord>(v: &Vec<T>) -> (r: Option<usize>)
    ensures
        r matches Some(j) ==> first_repeat(v@, j as int),
        r is None ==> forall|i: int, j: int|
            0 <= i < j < v@.len() ==> !same_key(#[trigger] v@[i], #[trigger] v@[j]),
{
    let mut j: usize = 0;
    while j < v.len()
        invariant
            j <= v@.len(),
            forall|j2: int, i: int|
                0 <= i < j2 < j ==> !same_key(#[trigger] v@[i], #[trigger] v@[j2]),
        decreases v@.len() - j,
    {
        let mut i: usize = 0;
        while i < j
            invariant
                i <= j < v@.len(),
                forall|i2: int| 0 <= i2 < i ==> !same_key(#[trigger] v@[i2], v@[j as int]),
                forall|j2: int, i3: int|
                    0 <= i3 < j2 < j ==> !same_key(#[trigger] v@[i3], #[trigger] v@[j2]),
            decreases j - i,
        {
            if same_key_exec(&v[i], &v[j]) {
                assert(same_key(v@[i as int], v@[j as int]));
                assert(exists|i2: int| 0 <= i2 < j && same_key(#[trigger] v@[i2], v@[j as int]));
                return Some(j);
            }
            i += 1;
        }
        j += 1;
    }
    None
}


/// No text sorts before itself.
pub proof fn lemma_text_lt_irrefl(a: Seq<char>)
    ensures
        !text_lt(a, a),
    decreases a.len(),
{
    if a.len() > 0 {
        lemma_text_lt_irrefl(a.drop_first());
    }
}

/// The text order is transitive.
pub proof fn lemma_text_lt_trans(a: Seq<char>, b: Seq<char>, c: Seq<char>)
    requires
        text_lt(a, b),
        text_lt(b, c),
    ensures
        text_lt(a, c),
    decreases a.len(),
{
    if a.len() > 0 && b.len() > 0 && c.len() > 0 {
        if a[0] == b[0] && b[0] == c[0] {
            lemma_text_lt_trans(a.drop_first(), b.drop_first(), c.drop_first());
        }
    }
}

/// Of two different texts, one sorts before the other.
pub proof fn lemma_text_lt_total(a: Seq<char>, b: Seq<char>)
    ensures
        text_lt(a, b) || text_lt(b, a) || a == b,
    decreases a.len(),
{
    if a.len() > 0 && b.len() > 0 {
        if a[0] == b[0] {
            lemma_text_lt_total(a.drop_first(), b.drop_first());
            if a.drop_first() == b.drop_first() {
                assert(a =~= seq![a[0]] + a.drop_first());
                assert(b =~= seq![b[0]] + b.drop_first());
            }
        } else {
            vstd::utf8::char_u32_cast(a[0], a[0] as u32);
            vstd::utf8::char_u32_cast(b[0], b[0] as u32);
            assert((a[0] as u32) != (b[0] as u32));
        }
    } else if a.len() == 0 && b.len() == 0 {
        assert(a =~= b);
    }
}

/// The record order is a strict weak order: asymmetric, and "not above"
/// followed by "below" is "below".
pub proof fn lemma_record_order<T: SubnetRecord>(a: T, b: T, c: T, by_sub: bool)
    ensures
        record_lt(a, b, by_sub) ==> !record_lt(b, a, by_sub),
        !record_lt(a, a, by_sub),
        !record_lt(b, a, by_sub) && record_lt(b, c, by_sub) ==> record_lt(a, c, by_sub),
        record_lt(a, b, by_sub) && !record_lt(c, b, by_sub) ==> record_lt(a, c, by_sub),
{
    lemma_text_lt_irrefl(a.subscription_spec());
    lemma_text_lt_irrefl(b.subscription_spec());
    lemma_text_lt_total(a.subscription_spec(), b.subscription_spec());
    lemma_text_lt_total(b.subscription_spec(), c.subscription_spec());
    lemma_text_lt_total(a.subscription_spec(), c.subscription_spec());
    if text_lt(a.subscription_spec(), b.subscription_spec()) && text_lt(
        b.subscription_spec(),
        a.subscription_spec(),
    ) {
        lemma_text_lt_trans(a.subscription_spec(), b.subscription_spec(), a.subscription_spec());
    }
    if text_lt(a.subscription_spec(), b.subscription_spec()) && text_lt(
        b.subscription_spec(),
        c.subscription_spec(),
    ) {
        lemma_text_lt_trans(a.subscription_spec(), b.subscription_spec(), c.subscription_spec());
    }
    if text_lt(b.subscription_spec(), c.subscription_spec()) && text_lt(
        c.subscription_spec(),
        a.subscription_spec(),
    ) {
        lemma_text_lt_trans(b.subscription_spec(), c.subscription_spec(), a.subscription_spec());
    }
    if text_lt(c.subscription_spec(), a.subscription_spec()) && text_lt(
        a.subscription_spec(),
        b.subscription_spec(),
    ) {
        lemma_text_lt_trans(c.subscription_spec(), a.subscription_spec(), b.subscription_spec());
    }
}

/// Records in non-decreasing order: no record is below an earlier one.
pub open spec fn records_sorted<T: SubnetRecord>(s: Seq<T>, by_sub: bool) -> bool {
    forall|i: int, j: int| 0 <= i < j < s.len() ==> !record_lt(#[trigger] s[j], #[trigger] s[i], by_sub)
}

proof fn lemma_insert_pos_bound<T: SubnetRecord>(t: Seq<T>, x: T, by_sub: bool)
    ensures
        insert_pos(t, x, by_sub) <= t.len(),
        forall|q: int| 0 <= q < insert_pos(t, x, by_sub) ==> #[trigger] record_lt(t[q], x, by_sub),
        insert_pos(t, x, by_sub) < t.len() ==> !record_lt(t[insert_pos(t, x, by_sub) as int], x, by_sub),
    decreases t.len(),
{
    if t.len() > 0 && record_lt(t[0], x, by_sub) {
        let u = t.drop_first();
        lemma_insert_pos_bound(u, x, by_sub);
        assert forall|q: int| 0 <= q < insert_pos(t, x, by_sub) implies #[trigger] record_lt(t[q], x, by_sub) by {
            if q > 0 {
                assert(t[q] == u[q - 1]);
            }
        }
        if insert_pos(t, x, by_sub) < t.len() {
            assert(t[insert_pos(t, x, by_sub) as int] == u[insert_pos(u, x, by_sub) as int]);
        }
    }
}

/// Law: the stable sort is a permutation of its input, in non-decreasing
/// record order.
pub proof fn lemma_stable_sorted<T: SubnetRecord>(s: Seq<T>, by_sub: bool)
    ensures
        stable_sorted(s, by_sub).to_multiset() == s.to_multiset(),
        stable_sorted(s, by_sub).len() == s.len(),
        records_sorted(stable_sorted(s, by_sub), by_sub),
    decreases s.len(),
{
    broadcast use vstd::seq_lib::group_to_multiset_ensures;
    broadcast use vstd::multiset::group_multiset_axioms;
    if s.len() > 0 {
        let rest = s.drop_first();
        lemma_stable_sorted(rest, by_sub);
        let t = stable_sorted(rest, by_sub);
        let x = s[0];
        let p = insert_pos(t, x, by_sub) as int;
        lemma_insert_pos_bound(t, x, by_sub);
        let u = t.insert(p, x);
        vstd::seq_lib::to_multiset_insert(t, p, x);
        assert(s =~= seq![x] + rest);
        assert(s.to_multiset() =~= rest.to_multiset().insert(x)) by {
            assert(s == rest.insert(0, x));
            vstd::seq_lib::to_multiset_insert(rest, 0, x);
        }
        t.insert_ensures(p, x);
        assert forall|i: int, j: int| 0 <= i < j < u.len() implies !record_lt(#[trigger] u[j], #[trigger] u[i], by_sub) by {
            if j < p {
                assert(u[i] == t[i] && u[j] == t[j]);
            } else if j == p {
                assert(u[i] == t[i]);
                lemma_record_order(t[i], x, x, by_sub);
            } else if i == p {
                assert(u[j] == t[j - 1]);
                lemma_record_order(t[p], t[j - 1], x, by_sub);
                if j - 1 > p {
                    assert(!record_lt(t[j - 1], t[p], by_sub));
                }
            } else if i < p {
                assert(u[i] == t[i] && u[j] == t[j - 1]);
                if j - 1 > i {
                } else {
                }
            } else {
                assert(u[i] == t[i - 1] && u[j] == t[j - 1]);
            }
        }
    }
}


/// Neither record is below the other in the record order.
pub open spec fn record_equiv<T: SubnetRecord>(a: T, b: T, by_sub: bool) -> bool {
    !record_lt(a, b, by_sub) && !record_lt(b, a, by_sub)
}

/// The records of `s` that compare equal to `c`, in the order of `s`.
pub open spec fn equal_run<T: SubnetRecord>(s: Seq<T>, c: T, by_sub: bool) -> Seq<T>
    decreases s.len(),
{
    if s.len() == 0 {
        Seq::empty()
    } else {
        let rest = equal_run(s.drop_first(), c, by_sub);
        if record_equiv(s[0], c, by_sub) {
            seq![s[0]] + rest
        } else {
            rest
        }
    }
}

proof fn lemma_equal_run_concat<T: SubnetRecord>(a: Seq<T>, b: Seq<T>, c: T, by_sub: bool)
    ensures
        equal_run(a + b, c, by_sub) == equal_run(a, c, by_sub) + equal_run(b, c, by_sub),
    decreases a.len(),
{
    if a.len() == 0 {
        assert(a + b =~= b);
        assert(equal_run(a, c, by_sub) =~= Seq::<T>::empty());
        assert(Seq::<T>::empty() + equal_run(b, c, by_sub) =~= equal_run(b, c, by_sub));
    } else {
        assert((a + b).drop_first() =~= a.drop_first() + b);
        assert((a + b)[0] == a[0]);
        lemma_equal_run_concat(a.drop_first(), b, c, by_sub);
        let ra = equal_run(a.drop_first(), c, by_sub);
        let rb = equal_run(b, c, by_sub);
        assert(seq![a[0]] + (ra + rb) =~= (seq![a[0]] + ra) + rb);
        assert(Seq::<T>::empty() + rb =~= rb);
    }
}

proof fn lemma_equal_run_none<T: SubnetRecord>(a: Seq<T>, c: T, by_sub: bool)
    requires
        forall|q: int| 0 <= q < a.len() ==> !record_equiv(#[trigger] a[q], c, by_sub),
    ensures
        equal_run(a, c, by_sub) == Seq::<T>::empty(),
    decreases a.len(),
{
    if a.len() > 0 {
        assert forall|q: int| 0 <= q < a.drop_first().len() implies !record_equiv(#[trigger] a.drop_first()[q], c, by_sub) by {
            assert(a.drop_first()[q] == a[q + 1]);
        }
        lemma_equal_run_none(a.drop_first(), c, by_sub);
        assert(!record_equiv(a[0], c, by_sub));
    }
}

/// Law (the sort is stable): the records that compare equal to any record
/// `c` come out of the sort in the order they went in.
pub proof fn lemma_sort_stable<T: SubnetRecord>(s: Seq<T>, c: T, by_sub: bool)
    ensures
        equal_run(stable_sorted(s, by_sub), c, by_sub) == equal_run(s, c, by_sub),
    decreases s.len(),
{
    if s.len() > 0 {
        let rest = s.drop_first();
        lemma_sort_stable(rest, c, by_sub);
        let t = stable_sorted(rest, by_sub);
        let x = s[0];
        let p = insert_pos(t, x, by_sub) as int;
        lemma_insert_pos_bound(t, x, by_sub);
        let u = t.insert(p, x);
        assert(u =~= t.subrange(0, p) + (seq![x] + t.subrange(p, t.len() as int)));
        assert(t =~= t.subrange(0, p) + t.subrange(p, t.len() as int));
        lemma_equal_run_concat(t.subrange(0, p), seq![x] + t.subrange(p, t.len() as int), c, by_sub);
        lemma_equal_run_concat(seq![x], t.subrange(p, t.len() as int), c, by_sub);
        lemma_equal_run_concat(t.subrange(0, p), t.subrange(p, t.len() as int), c, by_sub);
        assert(seq![x].drop_first() =~= Seq::<T>::empty());
        assert(equal_run(Seq::<T>::empty(), c, by_sub) =~= Seq::<T>::empty());
        if record_equiv(x, c, by_sub) {
            assert forall|q: int| 0 <= q < t.subrange(0, p).len() implies !record_equiv(
                #[trigger] t.subrange(0, p)[q],
                c,
                by_sub,
            ) by {
                let y = t.subrange(0, p)[q];
                assert(y == t[q]);
                assert(record_lt(y, x, by_sub));
                lemma_record_order(y, x, c, by_sub);
            }
            lemma_equal_run_none(t.subrange(0, p), c, by_sub);
            assert(equal_run(seq![x], c, by_sub) =~= seq![x]);
        } else {
            assert(equal_run(seq![x], c, by_sub) =~= Seq::<T>::empty());
        }
    }
}

/// Records in strictly increasing order.
pub open spec fn records_strictly_sorted<T: SubnetRecord>(s: Seq<T>, by_sub: bool) -> bool {
    forall|i: int, j: int| 0 <= i < j < s.len() ==> record_lt(#[trigger] s[i], #[trigger] s[j], by_sub)
}

proof fn lemma_same_key_not_lt<T: SubnetRecord>(a: T, b: T)
    requires
        same_key(a, b),
    ensures
        !record_lt(a, b, true),
{
    lemma_text_lt_irrefl(a.subscription_spec());
}

proof fn lemma_dedup_facts<T: SubnetRecord>(s: Seq<T>)
    requires
        records_sorted(s, true),
    ensures
        s.len() > 0 ==> dedup_records(s).len() > 0 && same_key(dedup_records(s).last(), s.last()),
        records_strictly_sorted(dedup_records(s), true),
    decreases s.len(),
{
    if s.len() > 1 {
        let n = s.len();
        let pre = s.drop_last();
        assert(records_sorted(pre, true)) by {
            assert forall|i: int, j: int| 0 <= i < j < pre.len() implies !record_lt(#[trigger] pre[j], #[trigger] pre[i], true) by {
                assert(pre[i] == s[i] && pre[j] == s[j]);
            }
        }
        lemma_dedup_facts(pre);
        let r = dedup_records(pre);
        assert(pre.last() == s[n - 2]);
        if !same_key(s.last(), s[n - 2]) {
            let u = r.push(s.last());
            assert(!record_lt(s[n - 1], s[n - 2], true));
            lemma_text_lt_total(s[n - 1].subscription_spec(), s[n - 2].subscription_spec());
            assert(record_lt(s[n - 2], s[n - 1], true));
            assert(record_lt(r.last(), s.last(), true)) by {
                lemma_same_key_not_lt(s[n - 2], r.last());
                lemma_record_order(r.last(), s[n - 2], s.last(), true);
                assert(!record_lt(s[n - 2], r.last(), true)) by {
                    lemma_text_lt_irrefl(r.last().subscription_spec());
                }
            }
            assert forall|i: int, j: int| 0 <= i < j < u.len() implies record_lt(#[trigger] u[i], #[trigger] u[j], true) by {
                if j == u.len() - 1 {
                    if i < r.len() - 1 {
                        assert(record_lt(r[i], r[r.len() - 1], true));
                        lemma_record_order(r[i], r.last(), s.last(), true);
                    }
                } else {
                    assert(u[i] == r[i] && u[j] == r[j]);
                }
            }
        }
    } else if s.len() == 1 {
        assert(dedup_records(s) == s);
    }
}

/// Law: after keeping, sorting by block and subscription, and dropping
/// repeated keys, no two records share a key.
pub proof fn lemma_dedup_no_repeats<T: SubnetRecord>(s: Seq<T>, ignore: Seq<Seq<char>>)
    ensures
        ({
            let r = dedup_records(stable_sorted(kept_records(s, ignore), true));
            forall|i: int, j: int| 0 <= i < j < r.len() ==> !same_key(#[trigger] r[i], #[trigger] r[j])
        }),
{
    let k = kept_records(s, ignore);
    lemma_stable_sorted(k, true);
    let t = stable_sorted(k, true);
    lemma_dedup_facts(t);
    let r = dedup_records(t);
    assert forall|i: int, j: int| 0 <= i < j < r.len() implies !same_key(#[trigger] r[i], #[trigger] r[j]) by {
        assert(record_lt(r[i], r[j], true));
        if same_key(r[i], r[j]) {
            lemma_same_key_not_lt(r[i], r[j]);
        }
    }
}

/// The record is kept by `kept_records`: not named in `ignore`, with a block.
pub open spec fn record_kept<T: SubnetRecord>(x: T, ignore: Seq<Seq<char>>) -> bool {
    !ignore.contains(x.name_spec()) && x.cidr_spec() is Some
}

proof fn lemma_kept_facts<T: SubnetRecord>(s: Seq<T>, ignore: Seq<Seq<char>>)
    ensures
        forall|q: int| 0 <= q < kept_records(s, ignore).len() ==> record_kept(#[trigger] kept_records(s, ignore)[q], ignore),
        (forall|q: int| 0 <= q < s.len() ==> record_kept(#[trigger] s[q], ignore)) ==> kept_records(s, ignore) == s,
    decreases s.len(),
{
    if s.len() > 0 {
        let pre = s.drop_last();
        lemma_kept_facts(pre, ignore);
        let r = kept_records(pre, ignore);
        if forall|q: int| 0 <= q < s.len() ==> record_kept(#[trigger] s[q], ignore) {
            assert forall|q: int| 0 <= q < pre.len() implies record_kept(#[trigger] pre[q], ignore) by {
                assert(pre[q] == s[q]);
            }
            assert(record_kept(s[s.len() - 1], ignore));
            assert(r.push(s.last()) =~= s);
        }
        if record_kept(s.last(), ignore) {
            assert forall|q: int| 0 <= q < r.push(s.last()).len() implies record_kept(#[trigger] r.push(s.last())[q], ignore) by {
                if q < r.len() {
                    assert(r.push(s.last())[q] == r[q]);
                }
            }
        }
    }
}

proof fn lemma_dedup_members<T: SubnetRecord>(s: Seq<T>)
    ensures
        forall|q: int| 0 <= q < dedup_records(s).len() ==> s.contains(#[trigger] dedup_records(s)[q]),
        (forall|i: int| 0 <= i < s.len() - 1 ==> !same_key(#[trigger] s[i + 1], s[i])) ==> dedup_records(s) == s,
    decreases s.len(),
{
    if s.len() > 1 {
        let pre = s.drop_last();
        lemma_dedup_members(pre);
        let r = dedup_records(pre);
        assert forall|q: int| 0 <= q < dedup_records(s).len() implies s.contains(#[trigger] dedup_records(s)[q]) by {
            if q < r.len() {
                assert(dedup_records(s)[q] == r[q]);
                let w = choose|w: int| 0 <= w < pre.len() && pre[w] == r[q];
                assert(s[w] == pre[w]);
            } else {
                assert(dedup_records(s)[q] == s[s.len() - 1]);
            }
        }
        if forall|i: int| 0 <= i < s.len() - 1 ==> !same_key(#[trigger] s[i + 1], s[i]) {
            assert forall|i: int| 0 <= i < pre.len() - 1 implies !same_key(#[trigger] pre[i + 1], pre[i]) by {
                assert(pre[i + 1] == s[i + 1] && pre[i] == s[i]);
            }
            assert(!same_key(s[s.len() - 2 + 1], s[s.len() - 2]));
            assert(r.push(s.last()) =~= s);
        }
    } else if s.len() == 1 {
        assert(s.contains(s[0]));
    }
}

proof fn lemma_sorted_fixed<T: SubnetRecord>(s: Seq<T>, by_sub: bool)
    requires
        records_strictly_sorted(s, by_sub),
    ensures
        stable_sorted(s, by_sub) == s,
    decreases s.len(),
{
    if s.len() > 0 {
        let rest = s.drop_first();
        assert forall|i: int, j: int| 0 <= i < j < rest.len() implies record_lt(#[trigger] rest[i], #[trigger] rest[j], by_sub) by {
            assert(rest[i] == s[i + 1] && rest[j] == s[j + 1]);
        }
        lemma_sorted_fixed(rest, by_sub);
        if rest.len() > 0 {
            assert(rest[0] == s[1]);
            assert(record_lt(s[0], s[1], by_sub));
            lemma_record_order(s[0], s[1], s[1], by_sub);
        }
        assert(insert_pos(rest, s[0], by_sub) == 0);
        assert(rest.insert(0, s[0]) =~= s);
    }
}

/// Law (de-duplication is idempotent): de-duplicating the result of a
/// de-duplication with the same list of names removes nothing.
pub proof fn lemma_dedup_idempotent<T: SubnetRecord>(s: Seq<T>, ignore: Seq<Seq<char>>)
    ensures
        ({
            let r = dedup_records(stable_sorted(kept_records(s, ignore), true));
            dedup_records(stable_sorted(kept_records(r, ignore), true)) == r
        }),
{
    lemma_dedup_sorted_and_kept(s, ignore);
    let r = dedup_records(stable_sorted(kept_records(s, ignore), true));
    lemma_kept_facts(r, ignore);
    lemma_sorted_fixed(r, true);
    assert forall|i: int| 0 <= i < r.len() - 1 implies !same_key(#[trigger] r[i + 1], r[i]) by {
        assert(record_lt(r[i], r[i + 1], true));
        if same_key(r[i + 1], r[i]) {
            lemma_same_key_not_lt(r[i], r[i + 1]);
            assert(same_key(r[i], r[i + 1]));
        }
    }
    lemma_dedup_members(r);
}


/// Law: after keeping, sorting by block and subscription, and dropping
/// repeated keys, the records stand in strictly increasing order of block and
/// subscription, and none of them lacks a block or carries an ignored name.
pub proof fn lemma_dedup_sorted_and_kept<T: SubnetRecord>(s: Seq<T>, ignore: Seq<Seq<char>>)
    ensures
        ({
            let r = dedup_records(stable_sorted(kept_records(s, ignore), true));
            &&& records_strictly_sorted(r, true)
            &&& forall|q: int| 0 <= q < r.len() ==> record_kept(#[trigger] r[q], ignore)
        }),
{
    broadcast use vstd::seq_lib::group_to_multiset_ensures;
    let k = kept_records(s, ignore);
    lemma_kept_facts(s, ignore);
    lemma_stable_sorted(k, true);
    let t = stable_sorted(k, true);
    lemma_dedup_facts(t);
    lemma_dedup_members(t);
    let r = dedup_records(t);
    assert forall|q: int| 0 <= q < r.len() implies record_kept(#[trigger] r[q], ignore) by {
        assert(t.contains(r[q]));
        let w = choose|w: int| 0 <= w < t.len() && t[w] == r[q];
        assert(t.to_multiset().count(t[w]) > 0);
        assert(k.to_multiset().count(t[w]) > 0);
        assert(k.contains(t[w]));
        let v = choose|v: int| 0 <= v < k.len() && k[v] == t[w];
        assert(record_kept(k[v], ignore));
    }
}

} // verus!
