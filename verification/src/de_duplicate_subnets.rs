//! De-duplication of subnet records of the multi-CIDR cache format.
use crate::graph_read_subnet_data::Data;
use crate::subnet_order::{
    dedup_records, dedup_records_exec, keep_records, kept_records, name_views, sort_records,
    stable_sorted,
};
use vstd::prelude::*;

verus! {

/// The subnet names that the multi-CIDR format ignores when no list is given.
pub open spec fn ignored_by_default() -> Seq<Seq<char>> {
    seq![
        "default"@,
        "jenkinsarm-snet"@,
        "pkrsn1ooslfxj77"@,
        "pkrsn8jufz9plf6"@,
        "pkrsnsnajtq3h3i"@,
        "pkrsnxocivqofa6"@,
        "twggmcmg"@,
        "restore-vm-subnet"@,
    ]
}

/// Default list of subnet names that the multi-CIDR format ignores.
pub fn default_subnet_names_to_ignore() -> (r: Vec<&'static str>)
    ensures
        name_views(r@) == ignored_by_default(),
{
    let r = vec![
        "default",
        "jenkinsarm-snet",
        "pkrsn1ooslfxj77",
        "pkrsn8jufz9plf6",
        "pkrsnsnajtq3h3i",
        "pkrsnxocivqofa6",
        "twggmcmg",
        "restore-vm-subnet",
    ];
    assert(name_views(r@) =~= ignored_by_default());
    r
}

/// De-duplicates subnets of the multi-CIDR format by block and subscription
/// ID, as `de_duplicate_subnets` does.
pub fn de_duplicate_subnets2(data: Data, subnet_names_to_ignore: Option<&Vec<&str>>) -> (r: Result<
    Data,
    String,
>)
    ensures
        r is Ok,
        ({
            let names = match subnet_names_to_ignore {
                Some(n) => name_views(n@),
                None => ignored_by_default(),
            };
            let d = r->Ok_0;
            &&& d.data@ == dedup_records(stable_sorted(kept_records(data.data@, names), true))
            &&& d.skip_token == data.skip_token
            &&& d.total_records == data.total_records
            &&& d.count == data.count
        }),
{
    let default_ignore_list = default_subnet_names_to_ignore();
    let names = match subnet_names_to_ignore {
        Some(n) => n,
        None => &default_ignore_list,
    };
    let Data { data: subnets, skip_token, total_records, count } = data;
    let kept = keep_records(subnets, names);
    let sorted = sort_records(kept, true);
    let deduped = dedup_records_exec(sorted);
    Ok(Data { data: deduped, skip_token, total_records, count })
}

} // verus!
