//! Splitting an Azure CLI command line into its arguments.
use crate::text::{
    chars_of, string_from_chars, string_views, trim_char, trim_char_chars, trim_ws, trim_ws_chars,
};
use vstd::prelude::*;

verus! {

/// The pattern that finds the arguments of a command line: a single-quoted
/// piece, a double-quoted piece, or a run without quotes or white space,
/// each with the white space after it.
pub const COMMAND_PATTERN: &'static str = "'([^']*)'\\s*|\"([^\"]*)\"\\s*|([^'\\s]*)\\s*";

/// Whether `regex::Regex::new` accepts `pattern`.
pub uninterp spec fn regex_compiles(pattern: Seq<char>) -> bool;

/// The texts of the successive non-overlapping matches that
/// `regex::Regex::find_iter` finds for `pattern` in `haystack`.
pub uninterp spec fn regex_match_texts(pattern: Seq<char>, haystack: Seq<char>) -> Seq<Seq<char>>;

/// Compiles `pattern` with `regex::Regex::new` and collects the texts of
/// the matches that `Regex::find_iter` finds in `haystack`; `None` when
/// the pattern does not compile.  Which texts match is left to the named
/// results: the matching rules are those of the regex crate.
#[verifier::external_body]
fn regex_find_texts(pattern: &str, haystack: &str) -> (r: Option<Vec<String>>)
    ensures
        r is Some <==> regex_compiles(pattern@),
        r matches Some(v) ==> string_views(v@) == regex_match_texts(pattern@, haystack@),
{
    match regex::Regex::new(pattern) {
        Ok(re) => Some(re.find_iter(haystack).map(|m| m.as_str().to_string()).collect()),
        Err(_) => None,
    }
}

/// One argument: the match without surrounding white space, then without
/// surrounding single quotes, then without surrounding double quotes.
pub open spec fn stripped(m: Seq<char>) -> Seq<char> {
    trim_char(trim_char(trim_ws(m), '\''), '"')
}

/// Strips each matched text down to its argument.
pub fn strip_matches(texts: &Vec<String>) -> (r: Vec<String>)
    ensures
        string_views(r@) == string_views(texts@).map_values(|m: Seq<char>| stripped(m)),
{
    let mut out: Vec<String> = Vec::new();
    let mut k: usize = 0;
    while k < texts.len()
        invariant
            k <= texts@.len(),
            string_views(out@) == string_views(texts@.subrange(0, k as int)).map_values(
                |m: Seq<char>| stripped(m),
            ),
        decreases texts@.len() - k,
    {
        let cs = chars_of(texts[k].as_str());
        let a = trim_ws_chars(&cs);
        let b = trim_char_chars(&a, '\'');
        let c = trim_char_chars(&b, '"');
        let ghost before = string_views(out@);
        out.push(string_from_chars(c.as_slice()));
        assert(string_views(out@) =~= before.push(stripped(texts@[k as int]@)));
        assert(string_views(texts@.subrange(0, k + 1)).map_values(|m: Seq<char>| stripped(m))
            =~= string_views(texts@.subrange(0, k as int)).map_values(|m: Seq<char>| stripped(m)).push(
            stripped(texts@[k as int]@),
        ));
        k += 1;
    }
    assert(texts@.subrange(0, texts@.len() as int) =~= texts@);
    out
}

/// Splits a command line into its arguments: the matches of
/// [`COMMAND_PATTERN`], each stripped of white space and quotes.  `None`
/// when the pattern does not compile.
pub fn split_and_strip(input: &str) -> (r: Option<Vec<String>>)
    ensures
        r is Some <==> regex_compiles(COMMAND_PATTERN@),
        r matches Some(v) ==> string_views(v@) == regex_match_texts(COMMAND_PATTERN@, input@).map_values(
            |m: Seq<char>| stripped(m),
        ),
{
    match regex_find_texts(COMMAND_PATTERN, input) {
        Some(texts) => Some(strip_matches(&texts)),
        None => None,
    }
}

} // verus!
