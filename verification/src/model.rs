//! The data the store reports to its callers: buckets, objects, errors and
//! aggregate totals.
//!
//! Identifiers are 128-bit values (see [`crate::id`]); timestamps are
//! seconds held as plain integers, supplied by the caller at each
//! operation.

use crate::error::Error;
use vstd::prelude::*;
use vstd::string::{StrSliceExecFns, StringExecFns};

verus! {

/// A named collection of object associations.
#[derive(Debug)]
pub struct Bucket {
    pub id: u128,
    pub name: String,
    pub created: u64,
    pub object_count: u64,
    pub space_used: u64,
}

impl Clone for Bucket {
    fn clone(&self) -> (r: Self)
        ensures
            r == *self,
    {
        Bucket {
            id: self.id,
            name: self.name.clone(),
            created: self.created,
            object_count: self.object_count,
            space_used: self.space_used,
        }
    }
}

/// A content-addressed immutable blob's metadata row.
#[derive(Debug)]
pub struct Object {
    pub id: u128,
    pub hash: String,
    pub size: u64,
    pub ty: String,
    pub subtype: String,
    pub added: u64,
}

impl Clone for Object {
    fn clone(&self) -> (r: Self)
        ensures
            r == *self,
    {
        Object {
            id: self.id,
            hash: self.hash.clone(),
            size: self.size,
            ty: self.ty.clone(),
            subtype: self.subtype.clone(),
            added: self.added,
        }
    }
}

impl Object {
    /// The full media type, `type/subtype`.
    pub fn media_type(&self) -> (r: String)
        ensures
            r@ == self.ty@ + "/"@ + self.subtype@,
    {
        let mut out = self.ty.clone();
        out.append("/");
        out.append(self.subtype.as_str());
        out
    }
}

/// The latest integrity verdict recorded for an object; an empty message
/// means the object is sound.
#[derive(Debug)]
pub struct ObjectError {
    pub object_id: u128,
    pub message: String,
}

impl Clone for ObjectError {
    fn clone(&self) -> (r: Self)
        ensures
            r == *self,
    {
        ObjectError { object_id: self.object_id, message: self.message.clone() }
    }
}

/// What a bulk removal accomplished.
#[derive(Debug)]
pub struct RemoveResult {
    pub objects_removed: u64,
    pub space_freed: u64,
}

impl Clone for RemoveResult {
    fn clone(&self) -> (r: Self)
        ensures
            r == *self,
    {
        RemoveResult {
            objects_removed: self.objects_removed,
            space_freed: self.space_freed,
        }
    }
}

/// Store-wide aggregates.
#[derive(Debug)]
pub struct StoreTotals {
    pub buckets: u64,
    pub objects: u64,
    pub space_used: u64,
}

impl Clone for StoreTotals {
    fn clone(&self) -> (r: Self)
        ensures
            r == *self,
    {
        StoreTotals {
            buckets: self.buckets,
            objects: self.objects,
            space_used: self.space_used,
        }
    }
}

/// The shape of an object a proxying client reports without its bytes.
#[derive(Debug)]
pub struct ObjectSummary {
    pub media_type: String,
    pub size: u64,
}

/// Build metadata of the running server.
#[derive(Debug)]
pub struct Version {
    pub number: String,
    pub branch: String,
    pub build_time: String,
    pub build_os: String,
    pub build_type: String,
    pub commit_hash: String,
    pub commit_date: String,
    pub rust_version: String,
    pub rust_channel: String,
}

/// What the server reports about itself.
#[derive(Debug)]
pub struct About {
    pub version: Version,
}

/// How a proxied object request reaches the store: fetch the bytes, or
/// only their headers.
#[derive(Copy, Clone, Debug, PartialEq, Eq, Structural)]
pub enum ProxyMethod {
    Get,
    Head,
}

impl ProxyMethod {
    /// The HTTP method name this stands for.
    pub fn name(&self) -> (r: &'static str)
        ensures
            match self {
                ProxyMethod::Get => r@ == "GET"@,
                ProxyMethod::Head => r@ == "HEAD"@,
            },
    {
        match self {
            ProxyMethod::Get => "GET",
            ProxyMethod::Head => "HEAD",
        }
    }
}

/// A detected media type, split at its first separator.
#[derive(Debug)]
pub struct MimeType {
    pub ty: String,
    pub subtype: String,
}

/// The position of the first `/` in `s` at or after `from`, or `s.len()`
/// if there is none.
pub open spec fn slash_index(s: Seq<char>, from: int) -> int
    decreases s.len() - from,
{
    if from < 0 || from >= s.len() {
        s.len() as int
    } else if s[from] == '/' {
        from
    } else {
        slash_index(s, from + 1)
    }
}

proof fn lemma_slash_index_bounds(s: Seq<char>, from: int)
    requires
        0 <= from <= s.len(),
    ensures
        from <= slash_index(s, from) <= s.len(),
        slash_index(s, from) < s.len() ==> s[slash_index(s, from)] == '/',
        forall|p: int| from <= p < slash_index(s, from) ==> s[p] != '/',
    decreases s.len() - from,
{
    if from < s.len() && s[from] != '/' {
        lemma_slash_index_bounds(s, from + 1);
    }
}

/// Finds the first `/` at or after `from`, as `slash_index` names it.
fn find_slash(s: &str, from: usize, len: usize) -> (r: usize)
    requires
        from <= len,
        len == s@.len(),
    ensures
        r == slash_index(s@, from as int),
{
    let mut pos = from;
    while pos < len
        invariant
            from <= pos <= len,
            len == s@.len(),
            slash_index(s@, from as int) == slash_index(s@, pos as int),
        decreases len - pos,
    {
        let c = s.get_char(pos);
        if c == '/' {
            return pos;
        }
        pos = pos + 1;
    }
    pos
}

/// Splits a detected media type description, such as `text/plain`, at its
/// first `/`: the part before is the type, the part between the first and
/// the second `/` (or the end) is the subtype. A description without any
/// `/` is rejected as `Internal`.
pub fn parse_media_type(description: &str) -> (r: Result<MimeType, Error>)
    ensures
        ({
            let s = description@;
            let i = slash_index(s, 0);
            match r {
                Ok(m) => i < s.len() && m.ty@ == s.subrange(0, i) && m.subtype@ == s.subrange(
                    i + 1,
                    slash_index(s, i + 1),
                ),
                Err(e) => i == s.len() && e is Internal,
            }
        }),
{
    let len = description.unicode_len();
    let i = find_slash(description, 0, len);
    proof {
        lemma_slash_index_bounds(description@, 0);
    }
    if i == len {
        let mut msg: String = "media type description does not contain a subtype: ".to_owned();
        msg.append(description);
        return Err(Error::Internal(msg));
    }
    proof {
        lemma_slash_index_bounds(description@, i + 1);
    }
    let j = find_slash(description, i + 1, len);
    let ty = description.substring_char(0, i).to_owned();
    let subtype = description.substring_char(i + 1, j).to_owned();
    Ok(MimeType { ty, subtype })
}

} // verus!
