//! Subnet de-duplication: removing unwanted and repeated subnet records.
use crate::azure::graph::Data;
use crate::subnet_order::{
    dedup_records, dedup_records_exec, keep_records, kept_records, name_views, sort_records,
    stable_sorted,
};
use vstd::prelude::*;

verus! {

/// The subnet names that are ignored when no list is given.
pub open spec fn default_ignored_names() -> Seq<Seq<char>> {
    seq![
        "default"@,
        "jenkinsarm-snet"@,
        "pkrsn1ooslfxj77"@,
        "pkrsn8jufz9plf6"@,
        "pkrsnsnajtq3h3i"@,
        "pkrsnxocivqofa6"@,
        "orggmcmg"@,
        "restore-vm-subnet"@,
    ]
}

/// Default list of subnet names to ignore during processing.
pub fn default_subnet_names_to_ignore() -> (r: Vec<&'static str>)
    ensures
        name_views(r@) == default_ignored_names(),
{
    let r = vec![
        "default",
        "jenkinsarm-snet",
        "pkrsn1ooslfxj77",
        "pkrsn8jufz9plf6",
        "pkrsnsnajtq3h3i",
        "pkrsnxocivqofa6",
        "orggmcmg",
        "restore-vm-subnet",
    ];
    assert(name_views(r@) =~= default_ignored_names());
    r
}

/// De-duplicates subnets by block and subscription ID.
///
/// Drops the subnets named in `subnet_names_to_ignore` (the default list
/// when `None`) and those without a block, sorts the rest by block and
/// subscription ID, and keeps the first of each run with the same key.
pub fn de_duplicate_subnets(data: Data, subnet_names_to_ignore: Option<&Vec<&str>>) -> (r: Result<
    Data,
    String,
>)
    ensures
        r is Ok,
        ({
            let names = match subnet_names_to_ignore {
                Some(n) => name_views(n@),
                None => default_ignored_names(),
            };
            let d = r->Ok_0;
            &&& d.data@ == dedup_records(stable_sorted(kept_records(data.data@, names), true))
            &&& d.skip_token == data.skip_token
            &&& d.total_records == data.total_records
            &&& d.count == data.count
        }),
{
    let default_ignore_list = default_subnet_names_to_ignore();
    let names = match subnet_names_to_ignore {
        Some(n) => n,
        None => &default_ignore_list,
    };
    let Data { data: subnets, skip_token, total_records, count } = data;
    let kept = keep_records(subnets, names);
    let sorted = sort_records(kept, true);
    let deduped = dedup_records_exec(sorted);
    Ok(Data { data: deduped, skip_token, total_records, count })
}

} // verus!
