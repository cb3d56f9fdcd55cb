//! Cache files for Azure query results: which file to read, and what a
//! read reports.
//!
//! Reading and writing the files, the date, and the Azure queries are the
//! caller's; this module decides the file name and when a read must fail.
use crate::azure::graph::Data;
use crate::azure::peering_graph::PeeringData;
use crate::azure::vwan_graph::VWanData;
use crate::text::{append_str, chars_of, string_from_chars};
use vstd::prelude::*;

verus! {

/// Data read from a cache file or fetched from Azure.
#[derive(Debug)]
pub struct CacheResult<T> {
    pub data: T,
    /// The data came from the cache file.
    pub from_cache: bool,
    /// The cache file read or written.
    pub cache_file: String,
}

/// A kind of Azure data that has its own cache file.
pub trait AzureSource {
    /// The part of the cache file name that names the kind of data.
    spec fn file_stem_spec() -> Seq<char>;

    fn file_stem() -> (r: &'static str)
        ensures
            r@ == Self::file_stem_spec(),
    ;
}

impl AzureSource for Data {
    open spec fn file_stem_spec() -> Seq<char> {
        "subnet"@
    }

    fn file_stem() -> (r: &'static str) {
        "subnet"
    }
}

impl AzureSource for PeeringData {
    open spec fn file_stem_spec() -> Seq<char> {
        "peering"@
    }

    fn file_stem() -> (r: &'static str) {
        "peering"
    }
}

impl AzureSource for VWanData {
    open spec fn file_stem_spec() -> Seq<char> {
        "vwan"@
    }

    fn file_stem() -> (r: &'static str) {
        "vwan"
    }
}

/// The default cache file name of a day (`YYYY-MM-DD`) and a kind of data.
pub open spec fn cache_file_text(date: Seq<char>, stem: Seq<char>) -> Seq<char> {
    "net_"@ + date + "_cache_"@ + stem + ".json"@
}

/// The default cache file name: `net_<date>_cache_<stem>.json`.
pub fn cache_file_name(date: &str, stem: &str) -> (r: String)
    ensures
        r@ == cache_file_text(date@, stem@),
{
    let mut v = chars_of("net_");
    append_str(&mut v, date);
    append_str(&mut v, "_cache_");
    append_str(&mut v, stem);
    append_str(&mut v, ".json");
    string_from_chars(v.as_slice())
}

/// Why no cache file can be read.
#[derive(Debug, Clone, PartialEq, Eq)]
pub enum CacheError {
    /// The cache file that was named does not exist.
    Missing(String),
    /// The local gateway cache file that was named does not exist.
    LocalGatewayMissing(String),
}

impl CacheError {
    pub open spec fn message_text(self) -> Seq<char> {
        match self {
            CacheError::Missing(f) => "Cache file does not exist: "@ + f@,
            CacheError::LocalGatewayMissing(f) => "Local gateway cache file does not exist: "@ + f@,
        }
    }

    /// The text of the error.
    pub fn message(&self) -> (r: String)
        ensures
            r@ == self.message_text(),
    {
        let (head, f) = match self {
            CacheError::Missing(f) => ("Cache file does not exist: ", f),
            CacheError::LocalGatewayMissing(f) => ("Local gateway cache file does not exist: ", f),
        };
        let mut v = chars_of(head);
        append_str(&mut v, f.as_str());
        string_from_chars(v.as_slice())
    }
}

/// The cache file to read: the one named, which must exist, or else the
/// default name of the day.
pub fn resolve_cache_path(cache_file: Option<&str>, file_exists: bool, date: &str, stem: &str) -> (r:
    Result<String, CacheError>)
    ensures
        match cache_file {
            Some(f) => if file_exists {
                r matches Ok(p) && p@ == f@
            } else {
                r matches Err(CacheError::Missing(m)) && m@ == f@
            },
            None => r matches Ok(p) && p@ == cache_file_text(date@, stem@),
        },
{
    match cache_file {
        Some(f) => {
            if file_exists {
                Ok(f.to_owned())
            } else {
                Err(CacheError::Missing(f.to_owned()))
            }
        },
        None => Ok(cache_file_name(date, stem)),
    }
}

/// The local gateway cache file to read: the one named, which must exist,
/// or else `net_<date>_cache_local-gateway.json`.
pub fn resolve_local_gateway_cache_path(cache_file: Option<&str>, file_exists: bool, date: &str) -> (r:
    Result<String, CacheError>)
    ensures
        match cache_file {
            Some(f) => if file_exists {
                r matches Ok(p) && p@ == f@
            } else {
                r matches Err(CacheError::LocalGatewayMissing(m)) && m@ == f@
            },
            None => r matches Ok(p) && p@ == cache_file_text(date@, "local-gateway"@),
        },
{
    match cache_file {
        Some(f) => {
            if file_exists {
                Ok(f.to_owned())
            } else {
                Err(CacheError::LocalGatewayMissing(f.to_owned()))
            }
        },
        None => Ok(cache_file_name(date, "local-gateway")),
    }
}

} // verus!
