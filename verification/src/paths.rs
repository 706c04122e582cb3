//! The on-disk layout: where a blob with a given identifier lives.
//!
//! Every tree (primary or archive) stores a blob under
//! `<root>/<first two hex digits>/<next two>/<full 36-character id>`, which
//! bounds the fan-out of any single directory.

use crate::id::{format_id, lemma_spec_uuid_ascii, spec_uuid};
use vstd::prelude::*;
use vstd::string::{StrSliceExecFns, StringExecFns};

verus! {

/// The path of the blob for `id` under `parent`: two two-character prefix
/// directories, then the full text form.
pub open spec fn spec_path_for_id(parent: Seq<char>, id: u128) -> Seq<char> {
    parent + "/"@ + spec_uuid(id).subrange(0, 2) + "/"@ + spec_uuid(id).subrange(2, 4) + "/"@
        + spec_uuid(id)
}

/// Computes the path of the blob for `id` under `parent`.
pub fn path_for_id(parent: &str, id: u128) -> (r: String)
    ensures
        r@ == spec_path_for_id(parent@, id),
{
    let text = format_id(id);
    proof {
        lemma_spec_uuid_ascii(id);
    }
    let mut out = parent.to_owned();
    out.append("/");
    out.append(text.as_str().substring_ascii(0, 2));
    out.append("/");
    out.append(text.as_str().substring_ascii(2, 4));
    out.append("/");
    out.append(text.as_str());
    out
}

/// The root of the committed objects tree under a home or archive
/// directory.
pub fn objects_dir(home: &str) -> (r: String)
    ensures
        r@ == home@ + "/objects"@,
{
    let mut out = home.to_owned();
    out.append("/objects");
    out
}

/// The root of the in-progress parts tree under a home directory.
pub fn parts_dir(home: &str) -> (r: String)
    ensures
        r@ == home@ + "/parts"@,
{
    let mut out = home.to_owned();
    out.append("/parts");
    out
}

/// Where the metadata dump is written inside an archive directory.
pub fn dump_path(archive: &str) -> (r: String)
    ensures
        r@ == archive@ + "/fstore.dump"@,
{
    let mut out = archive.to_owned();
    out.append("/fstore.dump");
    out
}

/// The path every stream of a detached process is redirected to.
pub fn null() -> (r: &'static str)
    ensures
        r@ == "/dev/null"@,
{
    "/dev/null"
}

/// The working directory of a detached process.
pub fn root() -> (r: &'static str)
    ensures
        r@ == "/"@,
{
    "/"
}

} // verus!
