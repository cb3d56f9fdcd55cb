//! VNet peering edges as the Azure Resource Graph query returns them.
use crate::text::{chars_eq, chars_of, split_chars, split_on, str_eq, string_from_chars, views};
use vstd::prelude::*;

verus! {

/// One directed peering from a VNet to a remote VNet.
#[derive(Debug)]
pub struct PeeringEdge {
    pub subscription_id: String,
    pub subscription_name: String,
    pub vnet_name: String,
    pub vnet_cidr: Vec<String>,
    pub peering_name: String,
    pub peering_state: String,
    /// ARM resource ID of the remote VNet.
    pub remote_vnet_id: String,
}

impl Default for PeeringEdge {
    fn default() -> (r: PeeringEdge)
        ensures
            r.subscription_id@.len() == 0,
            r.subscription_name@.len() == 0,
            r.vnet_name@.len() == 0,
            r.vnet_cidr@.len() == 0,
            r.peering_name@.len() == 0,
            r.peering_state@.len() == 0,
            r.remote_vnet_id@.len() == 0,
    {
        PeeringEdge {
            subscription_id: String::new(),
            subscription_name: String::new(),
            vnet_name: String::new(),
            vnet_cidr: Vec::new(),
            peering_name: String::new(),
            peering_state: String::new(),
            remote_vnet_id: String::new(),
        }
    }
}

/// The last non-empty piece, or empty text.
pub open spec fn last_nonempty(ps: Seq<Seq<char>>) -> Seq<char>
    decreases ps.len(),
{
    if ps.len() == 0 {
        Seq::empty()
    } else if ps.last().len() > 0 {
        ps.last()
    } else {
        last_nonempty(ps.drop_last())
    }
}

/// ASCII lower case of one character.
pub open spec fn ascii_lower(c: char) -> char {
    if 65 <= (c as u32) <= 90 {
        (((c as u32) + 32) as u8) as char
    } else {
        c
    }
}

/// Equal text up to ASCII case (`str::eq_ignore_ascii_case`).
pub open spec fn same_ignoring_ascii_case(a: Seq<char>, b: Seq<char>) -> bool {
    a.len() == b.len() && forall|i: int| 0 <= i < a.len() ==> ascii_lower(#[trigger] a[i]) == ascii_lower(b[i])
}

/// The piece after the first `subscriptions` piece (in any ASCII case), or
/// empty text.
pub open spec fn piece_after_subscriptions(ps: Seq<Seq<char>>) -> Seq<char>
    decreases ps.len(),
{
    if ps.len() < 2 {
        Seq::empty()
    } else if same_ignoring_ascii_case(ps[0], "subscriptions"@) {
        ps[1]
    } else {
        piece_after_subscriptions(ps.drop_first())
    }
}

fn ascii_lower_exec(c: char) -> (r: char)
    ensures
        r == ascii_lower(c),
{
    let u = c as u32;
    if 65 <= u && u <= 90 {
        ((u + 32) as u8) as char
    } else {
        c
    }
}

/// Whether two texts are equal up to ASCII case.
pub fn eq_ignore_ascii_case(a: &Vec<char>, b: &Vec<char>) -> (r: bool)
    ensures
        r == same_ignoring_ascii_case(a@, b@),
{
    if a.len() != b.len() {
        return false;
    }
    let mut k: usize = 0;
    while k < a.len()
        invariant
            k <= a@.len() == b@.len(),
            forall|i: int| 0 <= i < k ==> ascii_lower(#[trigger] a@[i]) == ascii_lower(b@[i]),
        decreases a@.len() - k,
    {
        if ascii_lower_exec(a[k]) != ascii_lower_exec(b[k]) {
            return false;
        }
        k += 1;
    }
    true
}

impl PeeringEdge {
    /// The remote VNet's name: the last non-empty `/` piece of its ARM ID
    /// (empty when there is none).
    pub fn remote_vnet_name(&self) -> (r: String)
        ensures
            r@ == last_nonempty(split_on(self.remote_vnet_id@, '/')),
    {
        let cs = chars_of(self.remote_vnet_id.as_str());
        let parts = split_chars(&cs, '/');
        let ghost ps = views(parts@);
        let mut k: usize = parts.len();
        assert(ps.subrange(0, k as int) =~= ps);
        while k > 0 && parts[k - 1].len() == 0
            invariant
                k <= parts@.len(),
                ps == views(parts@),
                last_nonempty(ps) == last_nonempty(ps.subrange(0, k as int)),
            decreases k,
        {
            assert(ps.subrange(0, k as int).drop_last() =~= ps.subrange(0, k - 1));
            k -= 1;
        }
        if k == 0 {
            assert(ps.subrange(0, 0) =~= Seq::<Seq<char>>::empty());
            String::new()
        } else {
            assert(ps.subrange(0, k as int).last() == parts@[k - 1]@);
            string_from_chars(parts[k - 1].as_slice())
        }
    }

    /// The remote subscription ID: the `/` piece of the remote VNet's ARM ID
    /// after the first `subscriptions` piece (empty when there is none).
    pub fn remote_subscription_id(&self) -> (r: String)
        ensures
            r@ == piece_after_subscriptions(split_on(self.remote_vnet_id@, '/')),
    {
        let cs = chars_of(self.remote_vnet_id.as_str());
        let parts = split_chars(&cs, '/');
        let word = chars_of("subscriptions");
        let ghost ps = views(parts@);
        let mut k: usize = 0;
        assert(ps.subrange(0, ps.len() as int) =~= ps);
        while k < parts.len() && k + 1 < parts.len()
            invariant
                k <= parts@.len(),
                ps == views(parts@),
                ps == split_on(self.remote_vnet_id@, '/'),
                word@ == "subscriptions"@,
                piece_after_subscriptions(ps) == piece_after_subscriptions(
                    ps.subrange(k as int, ps.len() as int),
                ),
            decreases parts@.len() - k,
        {
            let ghost rest = ps.subrange(k as int, ps.len() as int);
            assert(rest[0] == parts@[k as int]@ && rest[1] == parts@[k + 1]@);
            if eq_ignore_ascii_case(&parts[k], &word) {
                return string_from_chars(parts[k + 1].as_slice());
            }
            assert(rest.drop_first() =~= ps.subrange(k + 1, ps.len() as int));
            k += 1;
        }
        String::new()
    }

    /// Whether the peering state is `Connected`.
    pub fn is_connected(&self) -> (r: bool)
        ensures
            r == (self.peering_state@ == "Connected"@),
    {
        str_eq(self.peering_state.as_str(), "Connected")
    }
}

/// Response data of the peering query.
#[derive(Debug)]
pub struct PeeringData {
    pub data: Vec<PeeringEdge>,
    pub skip_token: Option<String>,
    pub total_records: Option<u32>,
    pub count: i32,
}

impl Default for PeeringData {
    fn default() -> (r: PeeringData)
        ensures
            r.data@.len() == 0,
            r.skip_token is None,
            r.total_records is None,
            r.count == 0,
    {
        PeeringData { data: Vec::new(), skip_token: None, total_records: None, count: 0 }
    }
}

/// Adds one page of peering results to the accumulated data: its edges are
/// appended, its count added, and its total taken when it has one.
pub fn absorb_peering_page(data: &mut PeeringData, page: PeeringData)
    requires
        i32::MIN <= old(data).count + page.count <= i32::MAX,
    ensures
        final(data).data@ == old(data).data@ + page.data@,
        final(data).count == old(data).count + page.count,
        final(data).total_records == match page.total_records {
            Some(t) => Some(t),
            None => old(data).total_records,
        },
        final(data).skip_token == old(data).skip_token,
{
    let PeeringData { data: mut edges, skip_token: _, total_records, count } = page;
    data.data.append(&mut edges);
    data.count = data.count + count;
    if let Some(t) = total_records {
        data.total_records = Some(t);
    }
}

} // verus!
