//! The reference set as it is on disk, plain or compressed.
use std::io::Read;
use vstd::prelude::*;
use vstd::string::*;
use crate::ascii::same_bytes;

verus! {

/// What the bytes of a gzip member decompress to, as `flate2::read::GzDecoder`
/// reads it; nothing where it finds an error.
pub uninterp spec fn gunzipped(data: Seq<u8>) -> Option<Seq<u8>>;

/// Reads `flate2::read::GzDecoder` to its end. Claims that whether that
/// succeeds, and what comes out, follows from the bytes alone.
#[verifier::external_body]
fn gunzip(data: &[u8]) -> (r: Option<Vec<u8>>)
    ensures
        match r {
            Some(out) => gunzipped(data@) == Some(out@),
            None => gunzipped(data@) is None,
        },
{
    let mut out = Vec::new();
    flate2::read::GzDecoder::new(data).read_to_end(&mut out).ok().map(|_| out)
}

/// The name is that of a compressed file.
pub open spec fn is_compressed(path: &str) -> bool {
    ".gz".spec_bytes().is_suffix_of(path.spec_bytes())
}

fn names_compressed(path: &str) -> (r: bool)
    ensures
        r == is_compressed(path),
{
    let name = path.as_bytes();
    let suffix = ".gz".as_bytes();
    if name.len() < suffix.len() {
        return false;
    }
    let at = name.len() - suffix.len();
    same_bytes(&name[at..name.len()], suffix)
}

/// The contents of the file `path` whose bytes are `data`: decompressed if its
/// name ends in `.gz`. There are none where they cannot be.
pub fn read_input(path: &str, data: Vec<u8>) -> (r: Option<Vec<u8>>)
    ensures
        is_compressed(path) ==> match r {
            Some(out) => gunzipped(data@) == Some(out@),
            None => gunzipped(data@) is None,
        },
        !is_compressed(path) ==> r is Some && r->0@ == data@,
{
    if names_compressed(path) {
        gunzip(data.as_slice())
    } else {
        Some(data)
    }
}

/// A file is a compressed one if and only if its name is something followed by
/// `.gz`.
pub proof fn law_compressed_by_name(path: &str)
    ensures
        is_compressed(path) <==> exists|stem: Seq<u8>|
            path.spec_bytes() == #[trigger] (stem + ".gz".spec_bytes()),
{
    let (name, end) = (path.spec_bytes(), ".gz".spec_bytes());
    if is_compressed(path) {
        let stem = name.take(name.len() - end.len());
        assert(name =~= stem + end);
    }
    if exists|stem: Seq<u8>| name == #[trigger] (stem + end) {
        let stem = choose|stem: Seq<u8>| name == #[trigger] (stem + end);
        assert(name.skip(name.len() - end.len()) =~= end);
        assert(end =~= name.subrange(name.len() - end.len(), name.len() as int));
    }
}

} // verus!
