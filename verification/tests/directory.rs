use ci_timing::directory::{Directory, Lookup, PageRequest, Vendor};
use ci_timing::error::DirectoryError;

fn page(items: &[(&str, u64)]) -> Vec<(String, u64)> {
    items.iter().map(|(k, v)| (k.to_string(), *v)).collect()
}

#[test]
fn a_new_directory_asks_for_the_first_page() {
    let azure: Directory<u64> = Directory::new(Vendor::Azure);
    assert_eq!(azure.lookup("c1"), Ok(Lookup::Fetch(PageRequest::First)));
    let appveyor: Directory<u64> = Directory::new(Vendor::AppVeyor);
    assert_eq!(appveyor.lookup("c1"), Ok(Lookup::Fetch(PageRequest::First)));
    let travis: Directory<u64> = Directory::new(Vendor::Travis);
    assert_eq!(travis.lookup("c1"), Ok(Lookup::Fetch(PageRequest::Offset(0))));
}

#[test]
fn a_build_that_was_read_is_found() {
    let mut d: Directory<u64> = Directory::new(Vendor::Azure);
    assert_eq!(d.absorb(page(&[("c2", 20), ("c1", 10)]), None), Ok(()));
    assert_eq!(d.lookup("c1"), Ok(Lookup::Found(&10)));
    assert_eq!(d.lookup("c2"), Ok(Lookup::Found(&20)));
}

#[test]
fn azure_cannot_go_past_its_first_page() {
    let mut d: Directory<u64> = Directory::new(Vendor::Azure);
    d.absorb(page(&[("c2", 20)]), None).unwrap();
    assert_eq!(d.lookup("c1"), Err(DirectoryError::ResumeUnsupported));
    assert_eq!(d.next_request(), Err(DirectoryError::ResumeUnsupported));
    assert_eq!(d.lookup("c2"), Ok(Lookup::Found(&20)));
}

#[test]
fn an_empty_page_ends_the_search() {
    for vendor in [Vendor::Travis, Vendor::AppVeyor, Vendor::Azure] {
        let mut d: Directory<u64> = Directory::new(vendor);
        assert_eq!(d.absorb(Vec::new(), Some("t".to_string())), Ok(()));
        assert_eq!(d.lookup("c1"), Ok(Lookup::NotFound));
        assert_eq!(d.next_request(), Ok(None));
    }
}

#[test]
fn travis_pages_by_the_number_of_builds_read() {
    let mut d: Directory<u64> = Directory::new(Vendor::Travis);
    d.absorb(page(&[("c5", 5), ("c4", 4)]), None).unwrap();
    assert_eq!(d.lookup("c1"), Ok(Lookup::Fetch(PageRequest::Offset(2))));
    d.absorb(page(&[("c3", 3)]), None).unwrap();
    assert_eq!(d.lookup("c1"), Ok(Lookup::Fetch(PageRequest::Offset(3))));
    assert_eq!(d.lookup("c4"), Ok(Lookup::Found(&4)));
    d.absorb(Vec::new(), None).unwrap();
    assert_eq!(d.lookup("c1"), Ok(Lookup::NotFound));
    assert_eq!(d.lookup("c3"), Ok(Lookup::Found(&3)));
}

#[test]
fn appveyor_pages_by_the_name_that_the_last_page_gave() {
    let mut d: Directory<u64> = Directory::new(Vendor::AppVeyor);
    d.absorb(page(&[("c5", 5)]), Some("after-5".to_string())).unwrap();
    assert_eq!(d.lookup("c1"), Ok(Lookup::Fetch(PageRequest::After("after-5".to_string()))));
    d.absorb(page(&[("c4", 4)]), Some("after-4".to_string())).unwrap();
    assert_eq!(d.next_request(), Ok(Some(PageRequest::After("after-4".to_string()))));
    d.absorb(page(&[("c3", 3)]), None).unwrap();
    assert_eq!(d.lookup("c1"), Ok(Lookup::NotFound));
    assert_eq!(d.lookup("c3"), Ok(Lookup::Found(&3)));
}

#[test]
fn a_second_build_for_a_commit_is_refused_and_replaces_nothing() {
    let mut d: Directory<u64> = Directory::new(Vendor::Travis);
    d.absorb(page(&[("c5", 5)]), None).unwrap();
    let r = d.absorb(page(&[("c4", 4), ("c5", 50), ("c3", 3)]), None);
    assert_eq!(r, Err(DirectoryError::DuplicateBuild));
    assert_eq!(d.lookup("c5"), Ok(Lookup::Found(&5)));
    assert_eq!(d.lookup("c4"), Ok(Lookup::Found(&4)));
    assert_eq!(d.lookup("c3"), Ok(Lookup::Fetch(PageRequest::Offset(2))));
    let mut d: Directory<u64> = Directory::new(Vendor::Azure);
    assert_eq!(d.absorb(page(&[("c1", 1), ("c1", 2)]), None), Err(DirectoryError::DuplicateBuild));
    assert_eq!(d.lookup("c1"), Ok(Lookup::Found(&1)));
}

#[test]
fn azure_takes_no_page_once_builds_are_held() {
    let mut d: Directory<u64> = Directory::new(Vendor::Azure);
    d.absorb(page(&[("c2", 20)]), None).unwrap();
    assert_eq!(d.absorb(Vec::new(), None), Err(DirectoryError::ResumeUnsupported));
    assert_eq!(d.lookup("c1"), Err(DirectoryError::ResumeUnsupported));
    assert_eq!(d.absorb(page(&[("c1", 10)]), None), Err(DirectoryError::ResumeUnsupported));
    assert_eq!(d.lookup("c1"), Err(DirectoryError::ResumeUnsupported));
    assert_eq!(d.lookup("c2"), Ok(Lookup::Found(&20)));
}

#[test]
fn azure_with_builds_held_never_says_not_found() {
    let mut d: Directory<u64> = Directory::new(Vendor::Azure);
    d.absorb(Vec::new(), None).unwrap();
    assert_eq!(d.lookup("c1"), Ok(Lookup::NotFound));
    d.absorb(page(&[("c2", 20)]), None).unwrap();
    assert_eq!(d.lookup("c2"), Ok(Lookup::Found(&20)));
    assert_eq!(d.lookup("c1"), Err(DirectoryError::ResumeUnsupported));
}
