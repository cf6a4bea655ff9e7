//! Where things are kept: the keys of the store, the paths of the
//! cache, and the addresses that are fetched.

use crate::text::{occurs_at, starts_at, to_chars};
use vstd::prelude::*;
use vstd::string::StringExecFns;

verus! {

/// The name under which every request is made.
pub const USER_AGENT: &'static str = "rustc-ci-timing-tracker";

/// The key of the record of the commit `sha`, in the store and below
/// the root of the cache.
pub open spec fn commit_key_of(sha: Seq<char>) -> Seq<char> {
    "commits/"@ + sha + ".json.gz"@
}

/// The key of the record of the commit `sha`.
pub fn commit_key(sha: &str) -> (key: String)
    ensures
        key@ == commit_key_of(sha@),
{
    let mut key = String::from_str("commits/");
    key.append(sha);
    key.append(".json.gz");
    key
}

/// The host of the bucket `bucket` of the store.
pub open spec fn bucket_host_of(bucket: Seq<char>) -> Seq<char> {
    "https://"@ + bucket + ".s3.amazonaws.com"@
}

/// The host of the bucket `bucket`.
pub fn bucket_host(bucket: &str) -> (host: String)
    ensures
        host@ == bucket_host_of(bucket@),
{
    let mut host = String::from_str("https://");
    host.append(bucket);
    host.append(".s3.amazonaws.com");
    host
}

/// The address from which the record of the commit `sha` is read back.
pub open spec fn record_url_of(region: Seq<char>, bucket: Seq<char>, sha: Seq<char>) -> Seq<char> {
    "https://s3-"@ + region + ".amazonaws.com/"@ + bucket + "/"@ + commit_key_of(sha)
}

/// The address from which the record of the commit `sha` is read back.
pub fn record_url(region: &str, bucket: &str, sha: &str) -> (url: String)
    ensures
        url@ == record_url_of(region@, bucket@, sha@),
{
    let mut url = String::from_str("https://s3-");
    url.append(region);
    url.append(".amazonaws.com/");
    url.append(bucket);
    url.append("/");
    url.append("commits/");
    url.append(sha);
    url.append(".json.gz");
    assert(url@ =~= record_url_of(region@, bucket@, sha@));
    url
}

/// The name of the file that shows the commit `sha` on the site.
pub open spec fn page_name_of(sha: Seq<char>) -> Seq<char> {
    sha + ".json"@
}

/// The name of the file that shows the commit `sha`.
pub fn page_name(sha: &str) -> (name: String)
    ensures
        name@ == page_name_of(sha@),
{
    let mut name = String::from_str(sha);
    name.append(".json");
    name
}

/// The address that a request for `path` on `host` goes to: `path`
/// itself where it is a full address, else `host` and `path`.
pub open spec fn resolved(host: Seq<char>, path: Seq<char>) -> Seq<char> {
    if occurs_at(path, "https://"@, 0) {
        path
    } else {
        host + path
    }
}

/// The address that a request for `path` on `host` goes to.
pub fn resolve_url(host: &str, path: &str) -> (url: String)
    ensures
        url@ == resolved(host@, path@),
{
    let p = to_chars(path);
    let scheme = to_chars("https://");
    if starts_at(p.as_slice(), scheme.as_slice(), 0) {
        String::from_str(path)
    } else {
        let mut url = String::from_str(host);
        url.append(path);
        url
    }
}

} // verus!
