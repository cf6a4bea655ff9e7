use ci_timing::cache::{lookup, make_entry, packed, read_entry, unpacked, Lookup};
use ci_timing::error::CacheError;

#[test]
fn what_is_stored_is_read_back() {
    for text in ["", "hello", "line one\nline two\r\n", "héllo \u{1F600} wörld", &"abc ".repeat(10_000)] {
        let entry = make_entry(text).unwrap();
        assert_eq!(read_entry(&entry), Ok(text.to_string()));
        assert_eq!(lookup(Some(&entry[..])), Ok(Lookup::Hit(text.to_string())));
    }
}

#[test]
fn an_entry_is_in_gzip_form() {
    let text = "hello hello hello hello hello hello hello hello hello hello";
    let entry = make_entry(text).unwrap();
    assert_ne!(&entry[..], text.as_bytes());
    assert_eq!(&entry[..3], &[0x1f, 0x8b, 8]);
    assert!(entry.len() < text.len() + 18);
    let mut out = String::new();
    std::io::Read::read_to_string(&mut flate2::read::GzDecoder::new(&entry[..]), &mut out).unwrap();
    assert_eq!(out, text);
}

#[test]
fn an_entry_is_compressed_at_the_highest_level() {
    let text = "the quick brown fox jumps over the lazy dog; ".repeat(200);
    let entry = make_entry(&text).unwrap();
    assert_eq!(entry[8], 2);
    let at = |level: flate2::Compression| {
        let mut gz = flate2::write::GzEncoder::new(Vec::new(), level);
        std::io::Write::write_all(&mut gz, text.as_bytes()).unwrap();
        gz.finish().unwrap()
    };
    assert_eq!(entry, at(flate2::Compression::best()));
    assert_ne!(entry, at(flate2::Compression::none()));
    assert!(entry.len() <= at(flate2::Compression::fast()).len());
    assert!(entry.len() < at(flate2::Compression::none()).len());
}

#[test]
fn the_same_text_gives_the_same_entry() {
    assert_eq!(make_entry("some log"), make_entry("some log"));
    assert_ne!(make_entry("some log"), make_entry("some other log"));
}

#[test]
fn an_entry_made_elsewhere_is_read() {
    let mut gz = flate2::write::GzEncoder::new(Vec::new(), flate2::Compression::fast());
    std::io::Write::write_all(&mut gz, "from elsewhere".as_bytes()).unwrap();
    let entry = gz.finish().unwrap();
    assert_eq!(read_entry(&entry), Ok("from elsewhere".to_string()));
}

#[test]
fn what_is_no_entry_is_corrupt() {
    assert_eq!(read_entry(b"plain text"), Err(CacheError::Corrupt));
    assert_eq!(read_entry(b""), Err(CacheError::Corrupt));
    let mut entry = make_entry("hello hello hello").unwrap();
    entry.truncate(entry.len() - 4);
    assert_eq!(read_entry(&entry), Err(CacheError::Corrupt));
    assert_eq!(lookup(Some(&b"junk"[..])), Err(CacheError::Corrupt));
}

#[test]
fn bytes_that_are_no_text_are_corrupt() {
    let mut gz = flate2::write::GzEncoder::new(Vec::new(), flate2::Compression::best());
    std::io::Write::write_all(&mut gz, &[0xff, 0xfe, 0x00]).unwrap();
    let entry = gz.finish().unwrap();
    assert_eq!(read_entry(&entry), Err(CacheError::Corrupt));
}

#[test]
fn without_an_entry_the_text_is_to_be_fetched() {
    assert_eq!(lookup(None), Ok(Lookup::Miss));
}

#[test]
fn unpacked_turns_nothing_into_corrupt() {
    assert_eq!(unpacked(None), Err(CacheError::Corrupt));
    assert_eq!(unpacked(Some("x".to_string())), Ok("x".to_string()));
}

#[test]
fn packed_turns_nothing_into_a_failure_to_compress() {
    assert_eq!(packed(None), Err(CacheError::Compress));
    assert_eq!(packed(Some(vec![1, 2, 3])), Ok(vec![1, 2, 3]));
}
