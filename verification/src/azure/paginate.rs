//! Skip-token pagination of Azure Resource Graph queries: the command for
//! each page and what to do after it.
use crate::text::{append_str, chars_of, str_eq, string_from_chars, string_views};
use vstd::prelude::*;

verus! {

/// The skip-token parameter that ends pagination.
pub const LAST_PAGE_PARAM: &'static str = "--skip-token null";

/// The command that fetches one page of `query`.
pub open spec fn page_command_text(query: Seq<char>, skip_token_param: Seq<char>) -> Seq<char> {
    "az graph query --first 50 "@ + skip_token_param + " -q '"@ + query + "' --output json"@
}

/// The command that fetches one page of `query` with the given skip-token
/// parameter.
pub fn page_command(query: &str, skip_token_param: &str) -> (r: String)
    ensures
        r@ == page_command_text(query@, skip_token_param@),
{
    let mut v = chars_of("az graph query --first 50 ");
    append_str(&mut v, skip_token_param);
    append_str(&mut v, " -q '");
    append_str(&mut v, query);
    append_str(&mut v, "' --output json");
    string_from_chars(v.as_slice())
}

/// The skip-token parameter that a page's token gives (`null` when the page
/// has none).
pub open spec fn token_param_text(skip_token: Option<Seq<char>>) -> Seq<char> {
    match skip_token {
        Some(t) => "--skip-token "@ + t,
        None => "--skip-token "@ + "null"@,
    }
}

/// The skip-token parameter for the page after one with `skip_token`.
pub fn next_token_param(skip_token: Option<&str>) -> (r: String)
    ensures
        r@ == token_param_text(
            match skip_token {
                Some(t) => Some(t@),
                None => None,
            },
        ),
{
    let mut v = chars_of("--skip-token ");
    match skip_token {
        Some(t) => append_str(&mut v, t),
        None => append_str(&mut v, "null"),
    }
    string_from_chars(v.as_slice())
}

/// What to do after a page.
#[derive(Debug, Clone, PartialEq, Eq)]
pub enum PageStep {
    /// Keep the page's rows and fetch the next page with this parameter.
    More(String),
    /// Keep the page's rows; it was the last page.
    Last,
    /// The page repeats a skip token already used: pagination would not end.
    Stuck,
}

/// Whether `t` is one of `seen`.
fn seen_before(seen: &Vec<String>, t: &str) -> (r: bool)
    ensures
        r == string_views(seen@).contains(t@),
{
    let mut k: usize = 0;
    while k < seen.len()
        invariant
            k <= seen@.len(),
            forall|q: int| 0 <= q < k ==> seen@[q]@ != t@,
        decreases seen@.len() - k,
    {
        if str_eq(seen[k].as_str(), t) {
            assert(string_views(seen@)[k as int] == t@);
            return true;
        }
        k += 1;
    }
    proof {
        if string_views(seen@).contains(t@) {
            let q = choose|q: int| 0 <= q < string_views(seen@).len() && string_views(seen@)[q] == t@;
            assert(seen@[q]@ == t@);
        }
    }
    false
}

/// The decision after a page, given the skip-token parameters of all the
/// pages fetched so far (`seen`, the current one among them): stuck when the
/// page's token parameter is one of them, done when it is the last-page
/// parameter, else on to the next page.
pub fn paginate_step(seen: &Vec<String>, skip_token: Option<&str>) -> (r: PageStep)
    ensures
        ({
            let next = token_param_text(
                match skip_token {
                    Some(t) => Some(t@),
                    None => None,
                },
            );
            &&& (r == PageStep::Stuck <==> string_views(seen@).contains(next))
            &&& !string_views(seen@).contains(next) && next == LAST_PAGE_PARAM@ ==> r == PageStep::Last
            &&& !string_views(seen@).contains(next) && next != LAST_PAGE_PARAM@ ==> (r is More
                && r->More_0@ == next)
        }),
{
    let next = next_token_param(skip_token);
    if seen_before(seen, next.as_str()) {
        PageStep::Stuck
    } else if str_eq(next.as_str(), LAST_PAGE_PARAM) {
        PageStep::Last
    } else {
        PageStep::More(next)
    }
}

} // verus!
