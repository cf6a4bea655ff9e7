//! The cache of logs and records: every entry is a text in gzip form.
//!
//! An entry, once made, is read back as the text it was made from, and
//! is never looked up at its source again.

use crate::error::CacheError;
use crate::text::string_view;
use vstd::prelude::*;

verus! {

/// The level at which entries are compressed: the highest that flate2
/// has a name for, the one that it calls best.
pub const BEST_COMPRESSION: u32 = 9;

/// The gzip form that flate2 gives a text when it compresses at the
/// level `level`, or `None` where it fails.
pub uninterp spec fn gzipped(text: Seq<char>, level: u32) -> Option<Seq<u8>>;

/// The text that flate2 reads out of the first gzip member of `raw`, or
/// `None` where `raw` does not start with one or it holds no text.
pub uninterp spec fn gunzipped(raw: Seq<u8>) -> Option<Seq<char>>;

/// The view of optional bytes.
pub open spec fn bytes_view(r: Option<Vec<u8>>) -> Option<Seq<u8>> {
    match r {
        Some(v) => Some(v@),
        None => None,
    }
}

/// Calls `flate2::write::GzEncoder` (`new` with `Compression::new` of
/// `level`, `write_all`, `finish`) on the bytes of `text`, writing into
/// a vector. The levels go from 0, no compression, to 9, which is
/// `Compression::best()`.
///
/// The header that flate2 writes holds no time and no system, so what
/// comes out depends on the text and the level alone; and gzip loses
/// nothing at any level, so `flate2::read::GzDecoder` reads the same
/// text back out of it.
#[verifier::external_body]
fn gzip_text(text: &str, level: u32) -> (r: Option<Vec<u8>>)
    requires
        level <= 9,
    ensures
        bytes_view(r) == gzipped(text@, level),
        r matches Some(raw) ==> gunzipped(raw@) == Some(text@),
{
    let mut gz = flate2::write::GzEncoder::new(Vec::new(), flate2::Compression::new(level));
    match std::io::Write::write_all(&mut gz, text.as_bytes()) {
        Ok(()) => gz.finish().ok(),
        Err(_) => None,
    }
}

/// Calls `read_to_string` on a `flate2::read::GzDecoder` over `raw`: the
/// text of its first gzip member, or `None` where reading fails.
#[verifier::external_body]
fn gunzip_text(raw: &[u8]) -> (r: Option<String>)
    ensures
        string_view(r) == gunzipped(raw@),
{
    let mut text = String::new();
    match std::io::Read::read_to_string(&mut flate2::read::GzDecoder::new(raw), &mut text) {
        Ok(_) => Some(text),
        Err(_) => None,
    }
}

/// The text that the entry `raw` holds.
pub open spec fn entry_text(raw: Seq<u8>) -> Result<Seq<char>, CacheError> {
    match gunzipped(raw) {
        Some(text) => Ok(text),
        None => Err(CacheError::Corrupt),
    }
}

/// The view of a text or an error.
pub open spec fn text_view(r: Result<String, CacheError>) -> Result<Seq<char>, CacheError> {
    match r {
        Ok(s) => Ok(s@),
        Err(e) => Err(e),
    }
}

/// Turns what unpacking gave into the text of the entry.
pub fn unpacked(text: Option<String>) -> (r: Result<String, CacheError>)
    ensures
        text_view(r) == (match text {
            Some(t) => Ok::<Seq<char>, CacheError>(t@),
            None => Err::<Seq<char>, CacheError>(CacheError::Corrupt),
        }),
{
    match text {
        Some(t) => Ok(t),
        None => Err(CacheError::Corrupt),
    }
}

/// Reads the text out of the entry `raw`.
pub fn read_entry(raw: &[u8]) -> (r: Result<String, CacheError>)
    ensures
        text_view(r) == entry_text(raw@),
{
    unpacked(gunzip_text(raw))
}

/// The view of an entry or an error.
pub open spec fn entry_view(r: Result<Vec<u8>, CacheError>) -> Result<Seq<u8>, CacheError> {
    match r {
        Ok(raw) => Ok(raw@),
        Err(e) => Err(e),
    }
}

/// Turns what packing gave into the entry.
pub fn packed(raw: Option<Vec<u8>>) -> (r: Result<Vec<u8>, CacheError>)
    ensures
        entry_view(r) == (match raw {
            Some(raw) => Ok::<Seq<u8>, CacheError>(raw@),
            None => Err::<Seq<u8>, CacheError>(CacheError::Compress),
        }),
{
    match raw {
        Some(raw) => Ok(raw),
        None => Err(CacheError::Compress),
    }
}

/// Makes the entry that holds `text`: the text compressed at the
/// highest level. Reading that entry gives `text` back.
pub fn make_entry(text: &str) -> (r: Result<Vec<u8>, CacheError>)
    ensures
        match r {
            Ok(raw) => gzipped(text@, BEST_COMPRESSION) == Some(raw@) && entry_text(raw@) == Ok::<
                Seq<char>,
                CacheError,
            >(text@),
            Err(e) => e == CacheError::Compress && gzipped(text@, BEST_COMPRESSION) is None,
        },
{
    packed(gzip_text(text, BEST_COMPRESSION))
}

/// What looking a key up in the cache comes to.
#[derive(Clone, Debug, PartialEq, Eq)]
pub enum Lookup {
    /// The entry is there: this is its text, and nothing is fetched.
    Hit(String),
    /// There is no entry: the text has to be fetched, and the entry
    /// that `make_entry` makes of it stored.
    Miss,
}

/// The view of the outcome of a lookup.
pub open spec fn lookup_view(r: Result<Lookup, CacheError>) -> Result<Option<Seq<char>>, CacheError> {
    match r {
        Ok(Lookup::Hit(text)) => Ok(Some(text@)),
        Ok(Lookup::Miss) => Ok(None),
        Err(e) => Err(e),
    }
}

/// What is to be done for a key, given the entry found under it, if
/// any: an entry is read and trusted as it is; without one the text is
/// to be fetched.
pub fn lookup(entry: Option<&[u8]>) -> (r: Result<Lookup, CacheError>)
    ensures
        lookup_view(r) == (match entry {
            Some(raw) => match entry_text(raw@) {
                Ok(text) => Ok::<Option<Seq<char>>, CacheError>(Some(text)),
                Err(e) => Err::<Option<Seq<char>>, CacheError>(e),
            },
            None => Ok::<Option<Seq<char>>, CacheError>(None),
        }),
{
    match entry {
        Some(raw) => match read_entry(raw) {
            Ok(text) => Ok(Lookup::Hit(text)),
            Err(e) => Err(e),
        },
        None => Ok(Lookup::Miss),
    }
}

} // verus!
