use ci_timing::layout::{bucket_host, commit_key, page_name, record_url, resolve_url, USER_AGENT};

#[test]
fn the_key_of_a_record() {
    assert_eq!(commit_key("abc123"), "commits/abc123.json.gz");
    assert_eq!(commit_key(""), "commits/.json.gz");
}

#[test]
fn the_addresses_of_the_store() {
    assert_eq!(bucket_host("my-bucket"), "https://my-bucket.s3.amazonaws.com");
    assert_eq!(
        record_url("us-west-1", "my-bucket", "abc123"),
        "https://s3-us-west-1.amazonaws.com/my-bucket/commits/abc123.json.gz"
    );
}

#[test]
fn the_page_of_a_commit() {
    assert_eq!(page_name("abc123"), "abc123.json");
}

#[test]
fn a_full_address_is_kept_and_a_path_goes_to_the_host() {
    assert_eq!(resolve_url("https://dev.azure.com", "/a/b?c=d"), "https://dev.azure.com/a/b?c=d");
    assert_eq!(resolve_url("https://dev.azure.com", "https://other/x"), "https://other/x");
    assert_eq!(resolve_url("https://h", "http://other/x"), "https://hhttp://other/x");
    assert_eq!(resolve_url("https://h", ""), "https://h");
    assert_eq!(resolve_url("", "https://"), "https://");
}

#[test]
fn requests_name_the_tracker() {
    assert_eq!(USER_AGENT, "rustc-ci-timing-tracker");
}
