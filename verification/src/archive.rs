//! The decisions behind the archive and integrity-check actions.
//!
//! The caller walks the real trees and computes hashes; the verdicts
//! here decide, from those plain values, what each action does: whether
//! a destination file is extraneous, whether a blob still needs copying,
//! and what an integrity check reports.

use crate::error::Error;
use crate::id::{parse_id, spec_uuid};
use vstd::prelude::*;
use vstd::string::{StrSliceExecFns, StringExecFns};

verus! {

/// Whether a file found under an archive destination must be removed:
/// exactly when its name is not the text form of any identifier, or the
/// primary tree has no blob for it. After a sweep, everything that
/// remains under the destination is named by an identifier that exists
/// in the source.
pub fn extraneous_verdict(name: &str, in_primary: bool) -> (remove: bool)
    ensures
        remove == !((exists|id: u128| name@ == spec_uuid(id)) && in_primary),
{
    match parse_id(name) {
        Some(_) => !in_primary,
        None => true,
    }
}

/// Whether a blob must be copied to the archive destination: exactly
/// when the destination's current hash (if the file is there and
/// readable at all) differs from the expected one. A destination that
/// already holds the right bytes is skipped, which makes the sync
/// idempotent.
pub fn should_copy(expected_hash: &str, destination_hash: Option<String>) -> (r: bool)
    ensures
        r == !(destination_hash matches Some(h) && h@ == expected_hash@),
{
    let expected = expected_hash.to_owned();
    match destination_hash {
        Some(h) => !(h == expected),
        None => true,
    }
}

/// The verdict of one integrity check, given the expected hash and what
/// hashing the blob produced: sound exactly when the computed hash
/// matches; a mismatch reports a non-empty message naming the hash that
/// was found; a hashing failure passes its message through.
pub fn check_verdict(expected_hash: &str, actual: Result<String, String>) -> (r: Result<
    (),
    String,
>)
    ensures
        r is Ok <==> (actual matches Ok(h) && h@ == expected_hash@),
        actual matches Ok(h) ==> (h@ != expected_hash@ ==> (r matches Err(m) && m@
            == "hash mismatch: "@ + h@ && m@.len() > 0)),
        actual matches Err(e) ==> (r matches Err(m) && m@ == e@),
{
    let expected = expected_hash.to_owned();
    match actual {
        Ok(h) => {
            if h == expected {
                Ok(())
            } else {
                let mut msg: String = "hash mismatch: ".to_owned();
                proof {
                    reveal_strlit("hash mismatch: ");
                }
                msg.append(h.as_str());
                Err(msg)
            }
        },
        Err(e) => Err(e),
    }
}

/// The error message of a missing blob, as the integrity check reports
/// it before hashing anything.
pub fn missing_file_message(path: &str) -> (r: String)
    ensures
        r@ == "file '"@ + path@ + "' does not exist"@,
        r@.len() > 0,
{
    let mut msg: String = "file '".to_owned();
    proof {
        reveal_strlit("file '");
    }
    msg.append(path);
    msg.append("' does not exist");
    msg
}

} // verus!
