//! The metadata store: buckets, object rows, bucket–object associations
//! and per-object error records, with the store's invariants.
//!
//! Objects are deduplicated by content hash: one row per distinct hash,
//! shared by every bucket that holds the blob. A row stays alive while at
//! least one association references it; `remove_orphan_objects` deletes
//! the rest.

use crate::error::Error;
use crate::model::{Bucket, Object, ObjectError, RemoveResult, StoreTotals};
use crate::progress::records_view;
use vstd::prelude::*;
use vstd::string::{StrSliceExecFns, StringExecFns};

verus! {

/// One bucket row: its identity, unique name and creation instant.
#[derive(Debug)]
pub struct BucketRow {
    pub id: u128,
    pub name: String,
    pub created: u64,
}

impl Clone for BucketRow {
    fn clone(&self) -> (r: Self)
        ensures
            r == *self,
    {
        BucketRow { id: self.id, name: self.name.clone(), created: self.created }
    }
}

/// One bucket–object association.
#[derive(Clone, Copy, Debug, PartialEq, Eq, Structural)]
pub struct Link {
    pub bucket: u128,
    pub object: u128,
}

/// The sum of the sizes of all rows.
pub open spec fn sum_sizes(s: Seq<Object>) -> int
    decreases s.len(),
{
    if s.len() == 0 {
        0
    } else {
        sum_sizes(s.drop_last()) + s.last().size
    }
}

/// Whether some association references the object `oid`.
pub open spec fn is_referenced(ls: Seq<Link>, oid: u128) -> bool {
    exists|i: int| 0 <= i < ls.len() && ls[i].object == oid
}

/// Whether bucket `bid` holds object `oid`.
pub open spec fn is_linked(ls: Seq<Link>, bid: u128, oid: u128) -> bool {
    ls.contains(Link { bucket: bid, object: oid })
}

/// The sum of the sizes of the rows still referenced by at least one
/// bucket. This is the space the store actually uses.
pub open spec fn sum_referenced_sizes(objs: Seq<Object>, ls: Seq<Link>) -> int
    decreases objs.len(),
{
    if objs.len() == 0 {
        0
    } else {
        sum_referenced_sizes(objs.drop_last(), ls) + if is_referenced(ls, objs.last().id) {
            objs.last().size as int
        } else {
            0
        }
    }
}

/// The sum of the sizes of the rows bucket `bid` holds.
pub open spec fn sum_bucket_sizes(objs: Seq<Object>, ls: Seq<Link>, bid: u128) -> int
    decreases objs.len(),
{
    if objs.len() == 0 {
        0
    } else {
        sum_bucket_sizes(objs.drop_last(), ls, bid) + if is_linked(ls, bid, objs.last().id) {
            objs.last().size as int
        } else {
            0
        }
    }
}

/// How many associations bucket `bid` has.
pub open spec fn count_bucket_links(ls: Seq<Link>, bid: u128) -> int
    decreases ls.len(),
{
    if ls.len() == 0 {
        0
    } else {
        count_bucket_links(ls.drop_last(), bid) + if ls.last().bucket == bid {
            1int
        } else {
            0int
        }
    }
}

pub proof fn lemma_sum_sizes_bounds(objs: Seq<Object>, ls: Seq<Link>, bid: u128)
    ensures
        0 <= sum_referenced_sizes(objs, ls) <= sum_sizes(objs),
        0 <= sum_bucket_sizes(objs, ls, bid) <= sum_sizes(objs),
        0 <= count_bucket_links(ls, bid) <= ls.len(),
    decreases objs.len() + ls.len(),
{
    if objs.len() > 0 {
        lemma_sum_sizes_bounds(objs.drop_last(), ls, bid);
    }
    if ls.len() > 0 {
        lemma_sum_sizes_bounds(Seq::<Object>::empty(), ls.drop_last(), bid);
    }
}

/// The sum over a prefix never exceeds the sum over the whole.
pub proof fn lemma_sum_sizes_take_le(s: Seq<Object>, i: int)
    requires
        0 <= i <= s.len(),
    ensures
        sum_sizes(s.take(i)) <= sum_sizes(s),
    decreases s.len() - i,
{
    if i == s.len() {
        assert(s.take(i) =~= s);
    } else {
        lemma_sum_sizes_take_le(s, i + 1);
        assert(s.take(i + 1).drop_last() =~= s.take(i));
        assert(sum_sizes(s.take(i + 1)) == sum_sizes(s.take(i)) + s[i].size);
    }
}

/// The metadata store.
pub struct Metadata {
    buckets: Vec<BucketRow>,
    objects: Vec<Object>,
    links: Vec<Link>,
    errors: Vec<ObjectError>,
}

impl Metadata {
    pub closed spec fn spec_buckets(&self) -> Seq<BucketRow> {
        self.buckets@
    }

    pub closed spec fn spec_objects(&self) -> Seq<Object> {
        self.objects@
    }

    pub closed spec fn spec_links(&self) -> Seq<Link> {
        self.links@
    }

    pub closed spec fn spec_errors(&self) -> Seq<ObjectError> {
        self.errors@
    }

    pub open spec fn has_bucket_id(&self, id: u128) -> bool {
        exists|i: int| 0 <= i < self.spec_buckets().len() && self.spec_buckets()[i].id == id
    }

    pub open spec fn has_bucket_name(&self, name: Seq<char>) -> bool {
        exists|i: int| 0 <= i < self.spec_buckets().len() && self.spec_buckets()[i].name@ == name
    }

    pub open spec fn has_object_id(&self, id: u128) -> bool {
        exists|i: int| 0 <= i < self.spec_objects().len() && self.spec_objects()[i].id == id
    }

    pub open spec fn has_hash(&self, hash: Seq<char>) -> bool {
        exists|i: int| 0 <= i < self.spec_objects().len() && self.spec_objects()[i].hash@ == hash
    }

    /// The row whose hash is `hash`, where one exists.
    pub open spec fn object_with_hash(&self, hash: Seq<char>) -> Object {
        self.spec_objects()[choose|i: int|
            0 <= i < self.spec_objects().len() && self.spec_objects()[i].hash@ == hash]
    }

    /// The row whose id is `id`, where one exists.
    pub open spec fn object_with_id(&self, id: u128) -> Object {
        self.spec_objects()[choose|i: int|
            0 <= i < self.spec_objects().len() && self.spec_objects()[i].id == id]
    }

    /// The store's invariant: identities and names are unique, hashes are
    /// deduplicated and are 64 characters (hex SHA-256), every
    /// association joins an existing bucket to an existing row, error
    /// records are unique per object and non-empty, and the total size
    /// on record fits the counters.
    pub open spec fn wf(&self) -> bool {
        &&& forall|i: int, j: int|
            0 <= i < j < self.spec_buckets().len() ==> self.spec_buckets()[i].id
                != self.spec_buckets()[j].id
        &&& forall|i: int, j: int|
            0 <= i < j < self.spec_buckets().len() ==> self.spec_buckets()[i].name@
                != self.spec_buckets()[j].name@
        &&& forall|i: int|
            0 <= i < self.spec_buckets().len() ==> #[trigger] self.spec_buckets()[i].name@.len()
                > 0
        &&& forall|i: int, j: int|
            0 <= i < j < self.spec_objects().len() ==> self.spec_objects()[i].id
                != self.spec_objects()[j].id
        &&& forall|i: int, j: int|
            0 <= i < j < self.spec_objects().len() ==> self.spec_objects()[i].hash@
                != self.spec_objects()[j].hash@
        &&& forall|i: int|
            0 <= i < self.spec_objects().len() ==> (#[trigger] self.spec_objects()[i]).hash@.len()
                == 64
        &&& forall|i: int, j: int|
            0 <= i < j < self.spec_links().len() ==> self.spec_links()[i]
                != self.spec_links()[j]
        &&& forall|i: int|
            0 <= i < self.spec_links().len() ==> self.has_bucket_id(
                #[trigger] self.spec_links()[i].bucket,
            )
        &&& forall|i: int|
            0 <= i < self.spec_links().len() ==> self.has_object_id(
                #[trigger] self.spec_links()[i].object,
            )
        &&& forall|i: int, j: int|
            0 <= i < j < self.spec_errors().len() ==> self.spec_errors()[i].object_id
                != self.spec_errors()[j].object_id
        &&& forall|i: int|
            0 <= i < self.spec_errors().len() ==> #[trigger] self.spec_errors()[i].message@.len()
                > 0
        &&& sum_sizes(self.spec_objects()) <= u64::MAX
    }

    /// An empty store.
    pub fn new() -> (r: Self)
        ensures
            r.wf(),
            r.spec_buckets() == Seq::<BucketRow>::empty(),
            r.spec_objects() == Seq::<Object>::empty(),
            r.spec_links() == Seq::<Link>::empty(),
            r.spec_errors() == Seq::<ObjectError>::empty(),
    {
        Metadata { buckets: Vec::new(), objects: Vec::new(), links: Vec::new(), errors: Vec::new() }
    }

    /// The index of the bucket row named `name`, if any.
    fn find_bucket_by_name(&self, name: &String) -> (r: Option<usize>)
        ensures
            match r {
                Some(i) => i < self.spec_buckets().len() && self.spec_buckets()[i as int].name@
                    == name@,
                None => !self.has_bucket_name(name@),
            },
    {
        let mut i: usize = 0;
        while i < self.buckets.len()
            invariant
                i <= self.spec_buckets().len(),
                forall|j: int| 0 <= j < i ==> self.spec_buckets()[j].name@ != name@,
            decreases self.spec_buckets().len() - i,
        {
            if self.buckets[i].name == *name {
                return Some(i);
            }
            i = i + 1;
        }
        None
    }

    /// The index of the bucket row with identity `id`, if any.
    fn find_bucket_by_id(&self, id: u128) -> (r: Option<usize>)
        ensures
            match r {
                Some(i) => i < self.spec_buckets().len() && self.spec_buckets()[i as int].id == id,
                None => !self.has_bucket_id(id),
            },
    {
        let mut i: usize = 0;
        while i < self.buckets.len()
            invariant
                i <= self.spec_buckets().len(),
                forall|j: int| 0 <= j < i ==> self.spec_buckets()[j].id != id,
            decreases self.spec_buckets().len() - i,
        {
            if self.buckets[i].id == id {
                return Some(i);
            }
            i = i + 1;
        }
        None
    }

    /// The index of the object row with identity `id`, if any.
    fn find_object_by_id(&self, id: u128) -> (r: Option<usize>)
        ensures
            match r {
                Some(i) => i < self.spec_objects().len() && self.spec_objects()[i as int].id == id,
                None => !self.has_object_id(id),
            },
    {
        let mut i: usize = 0;
        while i < self.objects.len()
            invariant
                i <= self.spec_objects().len(),
                forall|j: int| 0 <= j < i ==> self.spec_objects()[j].id != id,
            decreases self.spec_objects().len() - i,
        {
            if self.objects[i].id == id {
                return Some(i);
            }
            i = i + 1;
        }
        None
    }

    /// The index of the object row with content hash `hash`, if any.
    fn find_object_by_hash(&self, hash: &String) -> (r: Option<usize>)
        ensures
            match r {
                Some(i) => i < self.spec_objects().len() && self.spec_objects()[i as int].hash@
                    == hash@,
                None => !self.has_hash(hash@),
            },
    {
        let mut i: usize = 0;
        while i < self.objects.len()
            invariant
                i <= self.spec_objects().len(),
                forall|j: int| 0 <= j < i ==> self.spec_objects()[j].hash@ != hash@,
            decreases self.spec_objects().len() - i,
        {
            if self.objects[i].hash == *hash {
                return Some(i);
            }
            i = i + 1;
        }
        None
    }

    /// The row with identity `id`, regardless of buckets.
    pub fn fetch_object_by_id(&self, id: u128) -> (r: Option<Object>)
        requires
            self.wf(),
        ensures
            r is Some <==> self.has_object_id(id),
            r matches Some(o) ==> o == self.object_with_id(id) && o.id == id,
    {
        match self.find_object_by_id(id) {
            Some(i) => {
                proof {
                    let k = choose|k: int|
                        0 <= k < self.spec_objects().len() && self.spec_objects()[k].id == id;
                    assert(self.spec_objects()[k] == self.spec_objects()[i as int]);
                }
                Some(self.objects[i].clone())
            },
            None => None,
        }
    }

    /// Whether bucket `bid` holds object `oid`.
    fn linked(&self, bid: u128, oid: u128) -> (r: bool)
        ensures
            r == is_linked(self.spec_links(), bid, oid),
    {
        let target = Link { bucket: bid, object: oid };
        let mut i: usize = 0;
        while i < self.links.len()
            invariant
                i <= self.spec_links().len(),
                target == (Link { bucket: bid, object: oid }),
                forall|j: int| 0 <= j < i ==> self.spec_links()[j] != target,
            decreases self.spec_links().len() - i,
        {
            if self.links[i] == target {
                assert(self.spec_links()[i as int] == target);
                return true;
            }
            i = i + 1;
        }
        assert(!self.spec_links().contains(target));
        false
    }

    /// Whether any bucket holds object `oid`.
    fn referenced(&self, oid: u128) -> (r: bool)
        ensures
            r == is_referenced(self.spec_links(), oid),
    {
        let mut i: usize = 0;
        while i < self.links.len()
            invariant
                i <= self.spec_links().len(),
                forall|j: int| 0 <= j < i ==> self.spec_links()[j].object != oid,
            decreases self.spec_links().len() - i,
        {
            if self.links[i].object == oid {
                return true;
            }
            i = i + 1;
        }
        false
    }

    /// The outward form of the bucket row at `i`: the row together with
    /// its association count and the space its objects use.
    fn bucket_at(&self, i: usize) -> (r: Bucket)
        requires
            self.wf(),
            i < self.spec_buckets().len(),
        ensures
            bucket_matches(r, self.spec_buckets()[i as int], self.spec_objects(),
                self.spec_links()),
    {
        let row = &self.buckets[i];
        let count = self.count_links(row.id);
        let space = self.space_of_bucket(row.id);
        Bucket {
            id: row.id,
            name: row.name.clone(),
            created: row.created,
            object_count: count,
            space_used: space,
        }
    }

    /// How many associations bucket `bid` has.
    fn count_links(&self, bid: u128) -> (r: u64)
        ensures
            r == count_bucket_links(self.spec_links(), bid),
    {
        let ls = &self.links;
        let mut count: u64 = 0;
        let mut i: usize = 0;
        proof {
            assert(ls@.take(0) =~= Seq::<Link>::empty());
        }
        while i < ls.len()
            invariant
                i <= ls@.len(),
                count == count_bucket_links(ls@.take(i as int), bid),
                count <= i,
            decreases ls@.len() - i,
        {
            proof {
                assert(ls@.take(i + 1).drop_last() =~= ls@.take(i as int));
                assert(ls@.take(i + 1).last() == ls@[i as int]);
            }
            if ls[i].bucket == bid {
                count = count + 1;
            }
            i = i + 1;
        }
        proof {
            assert(ls@.take(ls@.len() as int) =~= ls@);
        }
        count
    }

    /// The space bucket `bid` uses: the sum of the sizes of its rows.
    fn space_of_bucket(&self, bid: u128) -> (r: u64)
        requires
            self.wf(),
        ensures
            r == sum_bucket_sizes(self.spec_objects(), self.spec_links(), bid),
    {
        let objs = &self.objects;
        let mut space: u64 = 0;
        let mut i: usize = 0;
        proof {
            assert(objs@.take(0) =~= Seq::<Object>::empty());
        }
        while i < objs.len()
            invariant
                self.wf(),
                i <= objs@.len(),
                objs@ == self.spec_objects(),
                space == sum_bucket_sizes(objs@.take(i as int), self.spec_links(), bid),
            decreases objs@.len() - i,
        {
            proof {
                assert(objs@.take(i + 1).drop_last() =~= objs@.take(i as int));
                assert(objs@.take(i + 1).last() == objs@[i as int]);
                lemma_sum_sizes_bounds(objs@.take(i + 1), self.spec_links(), bid);
                lemma_sum_sizes_take_le(objs@, i + 1);
            }
            if self.linked(bid, objs[i].id) {
                space = space + objs[i].size;
            }
            i = i + 1;
        }
        proof {
            assert(objs@.take(objs@.len() as int) =~= objs@);
        }
        space
    }

    /// The space the whole store uses: the sum of the sizes of the rows
    /// still referenced by at least one bucket.
    fn space_used(&self) -> (r: u64)
        requires
            self.wf(),
        ensures
            r == sum_referenced_sizes(self.spec_objects(), self.spec_links()),
    {
        let objs = &self.objects;
        let mut space: u64 = 0;
        let mut i: usize = 0;
        proof {
            assert(objs@.take(0) =~= Seq::<Object>::empty());
        }
        while i < objs.len()
            invariant
                self.wf(),
                i <= objs@.len(),
                objs@ == self.spec_objects(),
                space == sum_referenced_sizes(objs@.take(i as int), self.spec_links()),
            decreases objs@.len() - i,
        {
            proof {
                assert(objs@.take(i + 1).drop_last() =~= objs@.take(i as int));
                assert(objs@.take(i + 1).last() == objs@[i as int]);
                lemma_sum_sizes_bounds(objs@.take(i + 1), self.spec_links(), 0);
                lemma_sum_sizes_take_le(objs@, i + 1);
            }
            if self.referenced(objs[i].id) {
                space = space + objs[i].size;
            }
            i = i + 1;
        }
        proof {
            assert(objs@.take(objs@.len() as int) =~= objs@);
        }
        space
    }

    /// Creates a bucket named `name`. Fails with a store error, changing
    /// nothing, exactly when the name is empty, the name is taken, or the
    /// identity collides.
    pub fn create_bucket(&mut self, id: u128, name: &str, now: u64) -> (r: Result<Bucket, Error>)
        requires
            old(self).wf(),
        ensures
            final(self).wf(),
            r is Ok <==> name@.len() > 0 && !old(self).has_bucket_name(name@) && !old(
                self,
            ).has_bucket_id(id),
            r is Err ==> *final(self) == *old(self) && r->Err_0 is Sql,
            r matches Ok(b) ==> {
                &&& final(self).spec_buckets().drop_last() == old(self).spec_buckets()
                &&& final(self).spec_buckets().len() == old(self).spec_buckets().len() + 1
                &&& final(self).spec_buckets().last().id == id
                &&& final(self).spec_buckets().last().name@ == name@
                &&& final(self).spec_buckets().last().created == now
                &&& final(self).spec_objects() == old(self).spec_objects()
                &&& final(self).spec_links() == old(self).spec_links()
                &&& final(self).spec_errors() == old(self).spec_errors()
                &&& b.id == id && b.name@ == name@ && b.created == now
                &&& b.object_count == 0 && b.space_used == 0
            },
    {
        let owned = name.to_owned();
        if owned.as_str().unicode_len() == 0 {
            return Err(Error::Sql("bucket name must not be empty".to_owned()));
        }
        if self.find_bucket_by_name(&owned).is_some() {
            return Err(Error::Sql("bucket name is already in use".to_owned()));
        }
        if self.find_bucket_by_id(id).is_some() {
            return Err(Error::Sql("bucket identity is already in use".to_owned()));
        }
        let row = BucketRow { id, name: owned, created: now };
        let bucket = Bucket {
            id,
            name: row.name.clone(),
            created: now,
            object_count: 0,
            space_used: 0,
        };
        self.buckets.push(row);
        proof {
            assert(self.spec_links() == old(self).spec_links());
            assert(self.spec_objects() == old(self).spec_objects());
            assert(self.spec_errors() == old(self).spec_errors());
            assert(self.spec_buckets().drop_last() =~= old(self).spec_buckets());
            let bs = self.spec_buckets();
            let n = bs.len() - 1;
            assert(bs[n].name@ == name@ && bs[n].id == id);
            assert forall|i: int| 0 <= i < n implies bs[i] == old(self).spec_buckets()[i] by {}
            assert forall|i: int, j: int| 0 <= i < j < bs.len() implies bs[i].id != bs[j].id by {
                if j == n {
                    assert(old(self).spec_buckets()[i].id != id);
                }
            }
            assert forall|i: int, j: int|
                0 <= i < j < bs.len() implies bs[i].name@ != bs[j].name@ by {
                if j == n {
                    assert(old(self).spec_buckets()[i].name@ != name@);
                }
            }
            assert forall|i: int|
                0 <= i < self.spec_links().len() implies self.has_bucket_id(
                #[trigger] self.spec_links()[i].bucket,
            ) by {
                assert(old(self).has_bucket_id(old(self).spec_links()[i].bucket));
                let k = choose|k: int|
                    0 <= k < old(self).spec_buckets().len() && old(self).spec_buckets()[k].id
                        == old(self).spec_links()[i].bucket;
                assert(bs[k].id == self.spec_links()[i].bucket);
            }
        }
        Ok(bucket)
    }

    /// Looks a bucket up by name; `NotFound` exactly when no bucket has
    /// that name.
    pub fn fetch_bucket(&self, name: &str) -> (r: Result<Bucket, Error>)
        requires
            self.wf(),
        ensures
            r is Ok <==> self.has_bucket_name(name@),
            r matches Ok(b) ==> exists|i: int|
                0 <= i < self.spec_buckets().len() && self.spec_buckets()[i].name@ == name@
                    && bucket_matches(b, #[trigger] self.spec_buckets()[i], self.spec_objects(),
                self.spec_links()),
            r matches Err(e) ==> e is NotFound,
    {
        let owned = name.to_owned();
        match self.find_bucket_by_name(&owned) {
            Some(i) => Ok(self.bucket_at(i)),
            None => Err(Error::NotFound("Bucket".to_owned())),
        }
    }

    /// Every bucket, in creation order, with its counts.
    pub fn fetch_buckets_all(&self) -> (r: Vec<Bucket>)
        requires
            self.wf(),
        ensures
            r@.len() == self.spec_buckets().len(),
            forall|i: int|
                0 <= i < r@.len() ==> bucket_matches(
                    #[trigger] r@[i],
                    self.spec_buckets()[i],
                    self.spec_objects(),
                    self.spec_links(),
                ),
    {
        let mut out: Vec<Bucket> = Vec::new();
        let mut i: usize = 0;
        while i < self.buckets.len()
            invariant
                self.wf(),
                i <= self.spec_buckets().len(),
                out@.len() == i,
                forall|j: int|
                    0 <= j < i ==> bucket_matches(
                        #[trigger] out@[j],
                        self.spec_buckets()[j],
                        self.spec_objects(),
                        self.spec_links(),
                    ),
            decreases self.spec_buckets().len() - i,
        {
            let b = self.bucket_at(i);
            out.push(b);
            i = i + 1;
        }
        out
    }

    /// The store-wide aggregates: bucket count, object row count, and the
    /// space used by rows still referenced by at least one bucket.
    pub fn fetch_store_totals(&self) -> (r: StoreTotals)
        requires
            self.wf(),
        ensures
            r.buckets == self.spec_buckets().len(),
            r.objects == self.spec_objects().len(),
            r.space_used == sum_referenced_sizes(self.spec_objects(), self.spec_links()),
    {
        StoreTotals {
            buckets: self.buckets.len() as u64,
            objects: self.objects.len() as u64,
            space_used: self.space_used(),
        }
    }
    /// The sum of the sizes of every row.
    fn total_size(&self) -> (r: u64)
        requires
            self.wf(),
        ensures
            r == sum_sizes(self.spec_objects()),
    {
        let objs = &self.objects;
        let mut total: u64 = 0;
        let mut i: usize = 0;
        proof {
            assert(objs@.take(0) =~= Seq::<Object>::empty());
        }
        while i < objs.len()
            invariant
                self.wf(),
                i <= objs@.len(),
                objs@ == self.spec_objects(),
                total == sum_sizes(objs@.take(i as int)),
            decreases objs@.len() - i,
        {
            proof {
                assert(objs@.take(i + 1).drop_last() =~= objs@.take(i as int));
                assert(objs@.take(i + 1).last() == objs@[i as int]);
                lemma_sum_sizes_bounds(objs@.take(i + 1), Seq::<Link>::empty(), 0);
                lemma_sum_sizes_take_le(objs@, i + 1);
            }
            total = total + objs[i].size;
            i = i + 1;
        }
        proof {
            assert(objs@.take(objs@.len() as int) =~= objs@);
        }
        total
    }

    /// Inserts a blob's metadata into a bucket, deduplicating by content
    /// hash.
    ///
    /// If some row already carries this hash, that row is returned: its
    /// identity is the canonical one, whatever `object_id` was passed, and
    /// the bucket is associated with it if it was not already (idempotent
    /// per bucket and hash). Otherwise a new row is inserted and
    /// associated. `NotFound` exactly when the bucket is absent; a store
    /// error exactly when the hash is new but the identity is taken, or
    /// the store's size counter would overflow. Nothing changes on
    /// failure.
    pub fn add_object(
        &mut self,
        bucket_id: u128,
        object_id: u128,
        hash: &str,
        size: u64,
        ty: &str,
        subtype: &str,
        now: u64,
    ) -> (r: Result<Object, Error>)
        requires
            old(self).wf(),
            hash@.len() == 64,
        ensures
            final(self).wf(),
            !old(self).has_bucket_id(bucket_id) ==> (r matches Err(e) && e is NotFound && *final(self) == *old(self)),
            old(self).has_bucket_id(bucket_id) && old(self).has_hash(hash@) ==> r is Ok && ({
                let row = old(self).object_with_hash(hash@);
                &&& r->Ok_0 == row
                &&& final(self).spec_objects() == old(self).spec_objects()
                &&& final(self).spec_buckets() == old(self).spec_buckets()
                &&& final(self).spec_errors() == old(self).spec_errors()
                &&& final(self).spec_links() == if is_linked(
                    old(self).spec_links(),
                    bucket_id,
                    row.id,
                ) {
                    old(self).spec_links()
                } else {
                    old(self).spec_links().push(Link { bucket: bucket_id, object: row.id })
                }
            }),
            old(self).has_bucket_id(bucket_id) && !old(self).has_hash(hash@) ==> (if old(
                self,
            ).has_object_id(object_id) || sum_sizes(old(self).spec_objects()) + size > u64::MAX {
                (r matches Err(e) && e is Sql && *final(self) == *old(self))
            } else {
                let rows = final(self).spec_objects();
                &&& r is Ok
                &&& rows.drop_last() == old(self).spec_objects()
                &&& rows.len() == old(self).spec_objects().len() + 1
                &&& rows.last().id == object_id
                &&& rows.last().hash@ == hash@
                &&& rows.last().size == size
                &&& rows.last().ty@ == ty@
                &&& rows.last().subtype@ == subtype@
                &&& rows.last().added == now
                &&& r->Ok_0 == rows.last()
                &&& final(self).spec_links() == old(self).spec_links().push(
                    Link { bucket: bucket_id, object: object_id },
                )
                &&& final(self).spec_buckets() == old(self).spec_buckets()
                &&& final(self).spec_errors() == old(self).spec_errors()
            }),
    {
        if self.find_bucket_by_id(bucket_id).is_none() {
            return Err(Error::NotFound("Bucket".to_owned()));
        }
        let hash_owned = hash.to_owned();
        match self.find_object_by_hash(&hash_owned) {
            Some(i) => {
                let row = self.objects[i].clone();
                proof {
                    let k = choose|k: int|
                        0 <= k < self.spec_objects().len() && self.spec_objects()[k].hash@
                            == hash@;
                    assert(self.spec_objects()[k] == self.spec_objects()[i as int]);
                }
                if !self.linked(bucket_id, row.id) {
                    let target = Link { bucket: bucket_id, object: row.id };
                    self.links.push(target);
                    proof {
                        assert(self.spec_buckets() == old(self).spec_buckets());
                        assert(self.spec_objects() == old(self).spec_objects());
                        assert(self.spec_errors() == old(self).spec_errors());
                        assert(self.spec_links().drop_last() =~= old(self).spec_links());
                        assert(self.spec_links() =~= old(self).spec_links().push(target));
                        let ls = self.spec_links();
                        let n = ls.len() - 1;
                        assert forall|a: int, b: int|
                            0 <= a < b < ls.len() implies ls[a] != ls[b] by {
                            if b == n {
                                assert(old(self).spec_links()[a] != target);
                            }
                        }
                        assert forall|a: int|
                            0 <= a < ls.len() implies self.has_bucket_id(
                            #[trigger] ls[a].bucket,
                        ) && self.has_object_id(ls[a].object) by {
                            if a < n {
                                assert(old(self).has_bucket_id(old(self).spec_links()[a].bucket));
                                assert(old(self).has_object_id(old(self).spec_links()[a].object));
                            } else {
                                assert(self.spec_objects()[i as int].id == target.object);
                            }
                        }
                    }
                }
                Ok(row)
            },
            None => {
                if self.find_object_by_id(object_id).is_some() {
                    return Err(Error::Sql("object identity is already in use".to_owned()));
                }
                let total = self.total_size();
                if size > u64::MAX - total {
                    return Err(Error::Sql("store size total would overflow".to_owned()));
                }
                let row = Object {
                    id: object_id,
                    hash: hash_owned,
                    size,
                    ty: ty.to_owned(),
                    subtype: subtype.to_owned(),
                    added: now,
                };
                let result = row.clone();
                let target = Link { bucket: bucket_id, object: object_id };
                self.objects.push(row);
                self.links.push(target);
                proof {
                    assert(self.spec_buckets() == old(self).spec_buckets());
                    assert(self.spec_errors() == old(self).spec_errors());
                    assert(self.spec_objects().drop_last() =~= old(self).spec_objects());
                    assert(self.spec_links().drop_last() =~= old(self).spec_links());
                    let rows = self.spec_objects();
                    let ls = self.spec_links();
                    let n = rows.len() - 1;
                    assert forall|a: int, b: int|
                        0 <= a < b < rows.len() implies rows[a].id != rows[b].id && rows[a].hash@
                        != rows[b].hash@ by {
                        if b == n {
                            assert(old(self).spec_objects()[a].id != object_id);
                            assert(old(self).spec_objects()[a].hash@ != hash@);
                        }
                    }
                    assert forall|a: int, b: int| 0 <= a < b < ls.len() implies ls[a] != ls[b] by {
                        if b == ls.len() - 1 {
                            assert(old(self).has_object_id(old(self).spec_links()[a].object));
                        }
                    }
                    assert forall|a: int|
                        0 <= a < ls.len() implies self.has_bucket_id(#[trigger] ls[a].bucket)
                        && self.has_object_id(ls[a].object) by {
                        if a < ls.len() - 1 {
                            assert(old(self).has_bucket_id(old(self).spec_links()[a].bucket));
                            assert(old(self).has_object_id(old(self).spec_links()[a].object));
                            let m = choose|m: int|
                                0 <= m < old(self).spec_objects().len() && old(
                                    self,
                                ).spec_objects()[m].id == old(self).spec_links()[a].object;
                            assert(rows[m].id == ls[a].object);
                        } else {
                            assert(rows[n].id == target.object);
                        }
                    }
                    assert(sum_sizes(rows) == sum_sizes(old(self).spec_objects()) + size);
                }
                Ok(result)
            },
        }
    }

    /// The row for `object_id` as bucket `bucket_id` sees it: present
    /// exactly when the bucket holds the object.
    pub fn get_object(&self, bucket_id: u128, object_id: u128) -> (r: Option<Object>)
        requires
            self.wf(),
        ensures
            r is Some <==> is_linked(self.spec_links(), bucket_id, object_id),
            r matches Some(o) ==> o == self.object_with_id(object_id),
    {
        if !self.linked(bucket_id, object_id) {
            return None;
        }
        proof {
            let k = choose|k: int|
                0 <= k < self.spec_links().len() && self.spec_links()[k] == (Link {
                    bucket: bucket_id,
                    object: object_id,
                });
            assert(self.has_object_id(self.spec_links()[k].object));
        }
        match self.find_object_by_id(object_id) {
            Some(i) => {
                proof {
                    let k = choose|k: int|
                        0 <= k < self.spec_objects().len() && self.spec_objects()[k].id
                            == object_id;
                    assert(self.spec_objects()[k] == self.spec_objects()[i as int]);
                }
                Some(self.objects[i].clone())
            },
            None => None,
        }
    }

    /// The rows among `ids` that bucket `bucket_id` holds, in row order.
    pub fn get_objects(&self, bucket_id: u128, ids: &Vec<u128>) -> (r: Vec<Object>)
        requires
            self.wf(),
        ensures
            r@ == self.spec_objects().filter(
                |o: Object| is_linked(self.spec_links(), bucket_id, o.id) && ids@.contains(o.id),
            ),
    {
        let ghost pred = |o: Object|
            is_linked(self.spec_links(), bucket_id, o.id) && ids@.contains(o.id);
        let mut out: Vec<Object> = Vec::new();
        let mut i: usize = 0;
        proof {
            reveal(Seq::filter);
            assert(self.spec_objects().take(0) =~= Seq::<Object>::empty());
        }
        while i < self.objects.len()
            invariant
                self.wf(),
                i <= self.spec_objects().len(),
                pred == (|o: Object|
                    is_linked(self.spec_links(), bucket_id, o.id) && ids@.contains(o.id)),
                out@ == self.spec_objects().take(i as int).filter(pred),
            decreases self.spec_objects().len() - i,
        {
            proof {
                reveal(Seq::filter);
                assert(self.spec_objects().take(i + 1).drop_last() =~= self.spec_objects().take(
                    i as int,
                ));
                assert(self.spec_objects().take(i + 1).last() == self.spec_objects()[i as int]);
            }
            let oid = self.objects[i].id;
            if self.linked(bucket_id, oid) && contains_id(ids, oid) {
                out.push(self.objects[i].clone());
            }
            i = i + 1;
        }
        proof {
            assert(self.spec_objects().take(self.spec_objects().len() as int) =~= self
                .spec_objects());
        }
        out
    }

    /// Removes the association between bucket `bucket_id` and object
    /// `object_id`, returning the object's row. `None`, changing nothing,
    /// exactly when the bucket does not hold the object. The row itself
    /// stays, whether or not other buckets still reference it.
    pub fn remove_object(&mut self, bucket_id: u128, object_id: u128) -> (r: Option<Object>)
        requires
            old(self).wf(),
        ensures
            final(self).wf(),
            r is Some <==> is_linked(old(self).spec_links(), bucket_id, object_id),
            r is None ==> *final(self) == *old(self),
            r matches Some(o) ==> {
                let target = Link { bucket: bucket_id, object: object_id };
                &&& o == old(self).object_with_id(object_id)
                &&& exists|i: int|
                    0 <= i < old(self).spec_links().len() && old(self).spec_links()[i] == target
                        && final(self).spec_links() == old(self).spec_links().remove(i)
                &&& !is_linked(final(self).spec_links(), bucket_id, object_id)
                &&& forall|l: Link|
                    l != target ==> (final(self).spec_links().contains(l) <==> old(
                        self,
                    ).spec_links().contains(l))
                &&& final(self).spec_buckets() == old(self).spec_buckets()
                &&& final(self).spec_objects() == old(self).spec_objects()
                &&& final(self).spec_errors() == old(self).spec_errors()
            },
    {
        let target = Link { bucket: bucket_id, object: object_id };
        let n = self.links.len();
        let mut i: usize = 0;
        while i < n
            invariant
                i <= n,
                n == self.spec_links().len(),
                old(self).wf(),
                *self == *old(self),
                target == (Link { bucket: bucket_id, object: object_id }),
                forall|j: int| 0 <= j < i ==> self.spec_links()[j] != target,
            decreases n - i,
        {
            if self.links[i] == target {
                proof {
                    assert(self.spec_links()[i as int] == target);
                    assert(self.spec_links()[i as int].object == object_id);
                    assert(self.wf());
                    assert(self.has_object_id(object_id));
                }
                let row = match self.find_object_by_id(object_id) {
                    Some(k) => self.objects[k].clone(),
                    None => {
                        proof {
                            assert(false);
                        }
                        return None;
                    },
                };
                proof {
                    let k = choose|k: int|
                        0 <= k < self.spec_objects().len() && self.spec_objects()[k].id
                            == object_id;
                }
                self.links.remove(i);
                proof {
                    let ols = old(self).spec_links();
                    let ls = self.spec_links();
                    assert(self.spec_buckets() == old(self).spec_buckets());
                    assert(self.spec_objects() == old(self).spec_objects());
                    assert(self.spec_errors() == old(self).spec_errors());
                    assert forall|a: int, b: int| 0 <= a < b < ls.len() implies ls[a] != ls[b] by {
                        if b < i {
                            assert(ls[a] == ols[a] && ls[b] == ols[b]);
                        } else if a < i {
                            assert(ls[a] == ols[a] && ls[b] == ols[b + 1]);
                        } else {
                            assert(ls[a] == ols[a + 1] && ls[b] == ols[b + 1]);
                        }
                    }
                    assert forall|a: int|
                        0 <= a < ls.len() implies self.has_bucket_id(#[trigger] ls[a].bucket)
                        && self.has_object_id(ls[a].object) by {
                        let src = if a < i {
                            a
                        } else {
                            a + 1
                        };
                        assert(ls[a] == ols[src]);
                        assert(old(self).has_bucket_id(ols[src].bucket));
                        assert(old(self).has_object_id(ols[src].object));
                    }
                    assert forall|l: Link| l != target implies (ls.contains(l) <==> ols.contains(
                        l,
                    )) by {
                        if ls.contains(l) {
                            let k = choose|k: int| 0 <= k < ls.len() && ls[k] == l;
                            if k < i {
                                assert(ols[k] == l);
                            } else {
                                assert(ols[k + 1] == l);
                            }
                        }
                        if ols.contains(l) {
                            let k = choose|k: int| 0 <= k < ols.len() && ols[k] == l;
                            if k < i {
                                assert(ls[k] == l);
                            } else {
                                assert(k != i);
                                assert(ls[k - 1] == l);
                            }
                        }
                    }
                    assert forall|j: int|
                        0 <= j < ls.len() implies ls[j] != target by {
                        if j < i {
                        } else {
                            assert(ls[j] == ols[j + 1]);
                            assert(old(self).wf());
                        }
                    }
                    assert(!is_linked(ls, bucket_id, object_id));
                }
                return Some(row);
            }
            i = i + 1;
        }
        proof {
            assert(!self.spec_links().contains(target));
        }
        None
    }

    /// Removes the associations between bucket `bucket_id` and every
    /// object in `ids`, reporting how many associations went away and how
    /// many bytes they covered. Rows stay; absent associations are
    /// skipped.
    pub fn remove_objects(&mut self, bucket_id: u128, ids: &Vec<u128>) -> (r: RemoveResult)
        requires
            old(self).wf(),
        ensures
            final(self).wf(),
            final(self).spec_links() == old(self).spec_links().filter(
                |l: Link| !(l.bucket == bucket_id && ids@.contains(l.object)),
            ),
            r.objects_removed == count_removed_links(old(self).spec_links(), bucket_id, ids@),
            r.space_freed == sum_removed_sizes(
                old(self).spec_objects(),
                old(self).spec_links(),
                bucket_id,
                ids@,
            ),
            final(self).spec_buckets() == old(self).spec_buckets(),
            final(self).spec_objects() == old(self).spec_objects(),
            final(self).spec_errors() == old(self).spec_errors(),
    {
        let objs = &self.objects;
        let mut space: u64 = 0;
        let mut i: usize = 0;
        proof {
            assert(objs@.take(0) =~= Seq::<Object>::empty());
        }
        while i < objs.len()
            invariant
                self.wf(),
                i <= objs@.len(),
                objs@ == self.spec_objects(),
                space == sum_removed_sizes(
                    objs@.take(i as int),
                    self.spec_links(),
                    bucket_id,
                    ids@,
                ),
            decreases objs@.len() - i,
        {
            proof {
                assert(objs@.take(i + 1).drop_last() =~= objs@.take(i as int));
                assert(objs@.take(i + 1).last() == objs@[i as int]);
                lemma_sum_removed_bounds(objs@.take(i + 1), self.spec_links(), bucket_id, ids@);
                lemma_sum_sizes_take_le(objs@, i + 1);
            }
            let oid = objs[i].id;
            if self.linked(bucket_id, oid) && contains_id(ids, oid) {
                space = space + objs[i].size;
            }
            i = i + 1;
        }
        proof {
            assert(objs@.take(objs@.len() as int) =~= objs@);
        }
        let ghost predk = |l: Link| !(l.bucket == bucket_id && ids@.contains(l.object));
        let mut kept: Vec<Link> = Vec::new();
        let mut removed: u64 = 0;
        let mut j: usize = 0;
        proof {
            reveal(Seq::filter);
            assert(self.spec_links().take(0) =~= Seq::<Link>::empty());
        }
        while j < self.links.len()
            invariant
                j <= self.spec_links().len(),
                predk == (|l: Link| !(l.bucket == bucket_id && ids@.contains(l.object))),
                kept@ == self.spec_links().take(j as int).filter(predk),
                removed == count_removed_links(self.spec_links().take(j as int), bucket_id, ids@),
                removed <= j,
            decreases self.spec_links().len() - j,
        {
            proof {
                reveal(Seq::filter);
                assert(self.spec_links().take(j + 1).drop_last() =~= self.spec_links().take(
                    j as int,
                ));
                assert(self.spec_links().take(j + 1).last() == self.spec_links()[j as int]);
            }
            let l = self.links[j];
            if l.bucket == bucket_id && contains_id(ids, l.object) {
                removed = removed + 1;
            } else {
                kept.push(l);
            }
            j = j + 1;
        }
        proof {
            assert(self.spec_links().take(self.spec_links().len() as int) =~= self.spec_links());
        }
        self.links = kept;
        proof {
            assert(self.spec_buckets() == old(self).spec_buckets());
            assert(self.spec_objects() == old(self).spec_objects());
            assert(self.spec_errors() == old(self).spec_errors());
            let ols = old(self).spec_links();
            let ls = self.spec_links();
            assert forall|a: int, b: int| 0 <= a < b < ls.len() implies ls[a] != ls[b] by {
                lemma_filter_two_indices(ols, predk, a, b);
            }
            assert forall|a: int|
                0 <= a < ls.len() implies self.has_bucket_id(#[trigger] ls[a].bucket)
                && self.has_object_id(ls[a].object) by {
                lemma_filter_elem_source(ols, predk, a);
                let k = choose|k: int| 0 <= k < ols.len() && ols[k] == ls[a];
                assert(old(self).has_bucket_id(ols[k].bucket));
                assert(old(self).has_object_id(ols[k].object));
            }
        }
        RemoveResult { objects_removed: removed, space_freed: space }
    }

    /// Deletes every row no bucket references any more, returning the
    /// deleted rows in row order. Afterwards every remaining row is
    /// referenced.
    pub fn remove_orphan_objects(&mut self) -> (r: Vec<Object>)
        requires
            old(self).wf(),
        ensures
            final(self).wf(),
            r@ == old(self).spec_objects().filter(
                |o: Object| !is_referenced(old(self).spec_links(), o.id),
            ),
            final(self).spec_objects() == old(self).spec_objects().filter(
                |o: Object| is_referenced(old(self).spec_links(), o.id),
            ),
            forall|i: int|
                0 <= i < final(self).spec_objects().len() ==> is_referenced(
                    final(self).spec_links(),
                    (#[trigger] final(self).spec_objects()[i]).id,
                ),
            final(self).spec_buckets() == old(self).spec_buckets(),
            final(self).spec_links() == old(self).spec_links(),
            final(self).spec_errors() == old(self).spec_errors(),
    {
        let ghost predr = |o: Object| is_referenced(self.spec_links(), o.id);
        let ghost predo = |o: Object| !is_referenced(self.spec_links(), o.id);
        let mut kept: Vec<Object> = Vec::new();
        let mut removed: Vec<Object> = Vec::new();
        let mut i: usize = 0;
        proof {
            reveal(Seq::filter);
            assert(self.spec_objects().take(0) =~= Seq::<Object>::empty());
        }
        while i < self.objects.len()
            invariant
                self.wf(),
                i <= self.spec_objects().len(),
                predr == (|o: Object| is_referenced(self.spec_links(), o.id)),
                predo == (|o: Object| !is_referenced(self.spec_links(), o.id)),
                kept@ == self.spec_objects().take(i as int).filter(predr),
                removed@ == self.spec_objects().take(i as int).filter(predo),
            decreases self.spec_objects().len() - i,
        {
            proof {
                reveal(Seq::filter);
                assert(self.spec_objects().take(i + 1).drop_last() =~= self.spec_objects().take(
                    i as int,
                ));
                assert(self.spec_objects().take(i + 1).last() == self.spec_objects()[i as int]);
            }
            if self.referenced(self.objects[i].id) {
                kept.push(self.objects[i].clone());
            } else {
                removed.push(self.objects[i].clone());
            }
            i = i + 1;
        }
        proof {
            assert(self.spec_objects().take(self.spec_objects().len() as int) =~= self
                .spec_objects());
        }
        self.objects = kept;
        proof {
            assert(self.spec_buckets() == old(self).spec_buckets());
            assert(self.spec_links() == old(self).spec_links());
            assert(self.spec_errors() == old(self).spec_errors());
            let oos = old(self).spec_objects();
            let os = self.spec_objects();
            assert forall|a: int, b: int|
                0 <= a < b < os.len() implies os[a].id != os[b].id && os[a].hash@
                != os[b].hash@ by {
                lemma_filter_two_indices(oos, predr, a, b);
            }
            assert forall|a: int|
                0 <= a < os.len() implies (#[trigger] os[a]).hash@.len() == 64 by {
                lemma_filter_elem_source(oos, predr, a);
                let s = choose|s: int| 0 <= s < oos.len() && oos[s] == os[a];
                assert(oos[s].hash@.len() == 64);
            }
            assert forall|a: int|
                0 <= a < os.len() implies is_referenced(
                self.spec_links(),
                (#[trigger] os[a]).id,
            ) by {
                oos.lemma_filter_pred(predr, a);
            }
            assert forall|a: int|
                0 <= a < self.spec_links().len() implies self.has_object_id(
                #[trigger] self.spec_links()[a].object,
            ) by {
                assert(old(self).has_object_id(old(self).spec_links()[a].object));
                let m = choose|m: int|
                    0 <= m < oos.len() && oos[m].id == old(self).spec_links()[a].object;
                assert(self.spec_links()[a].object == oos[m].id);
                assert(is_referenced(self.spec_links(), oos[m].id)) by {
                    assert(self.spec_links()[a].object == oos[m].id);
                }
                oos.lemma_filter_contains(predr, m);
                let n = choose|n: int| 0 <= n < os.len() && os[n] == oos[m];
                assert(os[n].id == self.spec_links()[a].object);
            }
            lemma_filter_sum_le(oos, predr);
        }
        removed
    }

    /// How many rows were added at or before `before`.
    pub fn get_object_count(&self, before: u64) -> (r: u64)
        requires
            self.wf(),
        ensures
            r == self.spec_objects().filter(|o: Object| o.added <= before).len(),
    {
        let ghost predt = |o: Object| o.added <= before;
        let mut count: u64 = 0;
        let mut i: usize = 0;
        proof {
            reveal(Seq::filter);
            assert(self.spec_objects().take(0) =~= Seq::<Object>::empty());
        }
        while i < self.objects.len()
            invariant
                i <= self.spec_objects().len(),
                predt == (|o: Object| o.added <= before),
                count == self.spec_objects().take(i as int).filter(predt).len(),
                count <= i,
            decreases self.spec_objects().len() - i,
        {
            proof {
                reveal(Seq::filter);
                assert(self.spec_objects().take(i + 1).drop_last() =~= self.spec_objects().take(
                    i as int,
                ));
                assert(self.spec_objects().take(i + 1).last() == self.spec_objects()[i as int]);
            }
            if self.objects[i].added <= before {
                count = count + 1;
            }
            i = i + 1;
        }
        proof {
            assert(self.spec_objects().take(self.spec_objects().len() as int) =~= self
                .spec_objects());
        }
        count
    }

    /// The rows added at or before `before`, in row order. This is the
    /// sequence a background task walks; its length is exactly what
    /// `get_object_count` reports for the same instant.
    pub fn stream_objects(&self, before: u64) -> (r: Vec<Object>)
        requires
            self.wf(),
        ensures
            r@ == self.spec_objects().filter(|o: Object| o.added <= before),
    {
        let ghost predt = |o: Object| o.added <= before;
        let mut out: Vec<Object> = Vec::new();
        let mut i: usize = 0;
        proof {
            reveal(Seq::filter);
            assert(self.spec_objects().take(0) =~= Seq::<Object>::empty());
        }
        while i < self.objects.len()
            invariant
                i <= self.spec_objects().len(),
                predt == (|o: Object| o.added <= before),
                out@ == self.spec_objects().take(i as int).filter(predt),
            decreases self.spec_objects().len() - i,
        {
            proof {
                reveal(Seq::filter);
                assert(self.spec_objects().take(i + 1).drop_last() =~= self.spec_objects().take(
                    i as int,
                ));
                assert(self.spec_objects().take(i + 1).last() == self.spec_objects()[i as int]);
            }
            if self.objects[i].added <= before {
                out.push(self.objects[i].clone());
            }
            i = i + 1;
        }
        proof {
            assert(self.spec_objects().take(self.spec_objects().len() as int) =~= self
                .spec_objects());
        }
        out
    }

    /// Every stored error record; each is non-empty.
    pub fn get_errors(&self) -> (r: Vec<ObjectError>)
        requires
            self.wf(),
        ensures
            r@ == self.spec_errors(),
    {
        let mut out: Vec<ObjectError> = Vec::new();
        let mut i: usize = 0;
        while i < self.errors.len()
            invariant
                i <= self.spec_errors().len(),
                out@ =~= self.spec_errors().take(i as int),
            decreases self.spec_errors().len() - i,
        {
            out.push(self.errors[i].clone());
            i = i + 1;
        }
        proof {
            assert(self.spec_errors().take(self.spec_errors().len() as int) =~= self
                .spec_errors());
        }
        out
    }

    /// Applies one error record: the stored record for the object, if any,
    /// is dropped, and the new record is appended unless its message is
    /// empty. An empty message therefore clears the object's error.
    fn apply_error_update(&mut self, record: &ObjectError)
        requires
            old(self).wf(),
        ensures
            final(self).wf(),
            records_view(final(self).spec_errors()) == apply_one_error(
                records_view(old(self).spec_errors()),
                record.object_id,
                record.message@,
            ),
            final(self).spec_buckets() == old(self).spec_buckets(),
            final(self).spec_objects() == old(self).spec_objects(),
            final(self).spec_links() == old(self).spec_links(),
    {
        let ghost prede = err_keeps_other(record.object_id);
        let mut kept: Vec<ObjectError> = Vec::new();
        let mut i: usize = 0;
        proof {
            reveal(Seq::filter);
            assert(self.spec_errors().take(0) =~= Seq::<ObjectError>::empty());
        }
        while i < self.errors.len()
            invariant
                i <= self.spec_errors().len(),
                prede == err_keeps_other(record.object_id),
                kept@ == self.spec_errors().take(i as int).filter(prede),
            decreases self.spec_errors().len() - i,
        {
            proof {
                reveal(Seq::filter);
                assert(self.spec_errors().take(i + 1).drop_last() =~= self.spec_errors().take(
                    i as int,
                ));
                assert(self.spec_errors().take(i + 1).last() == self.spec_errors()[i as int]);
            }
            if self.errors[i].object_id != record.object_id {
                kept.push(self.errors[i].clone());
            }
            i = i + 1;
        }
        proof {
            assert(self.spec_errors().take(self.spec_errors().len() as int) =~= self
                .spec_errors());
        }
        if record.message.as_str().unicode_len() > 0 {
            kept.push(record.clone());
        }
        let ghost old_errors = self.spec_errors();
        proof {
            lemma_records_view_filter(old_errors, record.object_id);
            if record.message@.len() > 0 {
                assert(records_view(kept@) =~= records_view(old_errors.filter(prede)).push(
                    (record.object_id, record.message@),
                ));
            } else {
                assert(records_view(kept@) =~= records_view(old_errors.filter(prede)));
            }
        }
        self.errors = kept;
        proof {
            assert(self.spec_buckets() == old(self).spec_buckets());
            assert(self.spec_objects() == old(self).spec_objects());
            assert(self.spec_links() == old(self).spec_links());
            let f = old_errors.filter(prede);
            let es = self.spec_errors();
            assert forall|a: int, b: int|
                0 <= a < b < f.len() implies f[a].object_id != f[b].object_id by {
                lemma_filter_two_indices(old_errors, prede, a, b);
            }
            assert forall|a: int| 0 <= a < f.len() implies #[trigger] f[a].message@.len() > 0 by {
                lemma_filter_elem_source(old_errors, prede, a);
                let k = choose|k: int| 0 <= k < old_errors.len() && old_errors[k] == f[a];
                assert(old_errors[k].message@.len() > 0);
            }
            if record.message@.len() > 0 {
                assert(es.drop_last() =~= f);
                assert forall|a: int, b: int|
                    0 <= a < b < es.len() implies es[a].object_id != es[b].object_id by {
                    if b == es.len() - 1 {
                        old_errors.lemma_filter_pred(prede, a);
                    }
                }
            }
        }
    }

    /// Applies a batch of error records in order: for each record the
    /// stored record of its object is replaced, or cleared where the
    /// message is empty.
    pub fn update_object_errors(&mut self, records: &Vec<ObjectError>)
        requires
            old(self).wf(),
        ensures
            final(self).wf(),
            records_view(final(self).spec_errors()) == apply_error_updates(
                records_view(old(self).spec_errors()),
                records_view(records@),
            ),
            final(self).spec_buckets() == old(self).spec_buckets(),
            final(self).spec_objects() == old(self).spec_objects(),
            final(self).spec_links() == old(self).spec_links(),
    {
        let mut i: usize = 0;
        proof {
            assert(records@.take(0) =~= Seq::<ObjectError>::empty());
        }
        while i < records.len()
            invariant
                self.wf(),
                i <= records@.len(),
                records_view(self.spec_errors()) == apply_error_updates(
                    records_view(old(self).spec_errors()),
                    records_view(records@).take(i as int),
                ),
                self.spec_buckets() == old(self).spec_buckets(),
                self.spec_objects() == old(self).spec_objects(),
                self.spec_links() == old(self).spec_links(),
            decreases records@.len() - i,
        {
            proof {
                assert(records_view(records@).take(i + 1).drop_last() =~= records_view(
                    records@,
                ).take(i as int));
                assert(records_view(records@).take(i + 1).last() == (
                    records@[i as int].object_id,
                    records@[i as int].message@,
                ));
            }
            self.apply_error_update(&records[i]);
            i = i + 1;
        }
        proof {
            assert(records_view(records@).take(records_view(records@).len() as int)
                =~= records_view(records@));
        }
    }

    /// Renames a bucket. `NotFound` exactly when no bucket has identity
    /// `id`; a store error exactly when the new name is empty or another
    /// bucket already uses it. Nothing changes on failure.
    pub fn rename_bucket(&mut self, id: u128, name: &str) -> (r: Result<(), Error>)
        requires
            old(self).wf(),
        ensures
            final(self).wf(),
            ({
                let taken = exists|j: int|
                    0 <= j < old(self).spec_buckets().len() && #[trigger] old(
                        self,
                    ).spec_buckets()[j].name@ == name@ && old(self).spec_buckets()[j].id != id;
                match r {
                    Ok(_) => old(self).has_bucket_id(id) && name@.len() > 0 && !taken,
                    Err(e) => *final(self) == *old(self) && (if !old(self).has_bucket_id(id) {
                        e is NotFound
                    } else {
                        (name@.len() == 0 || taken) && e is Sql
                    }),
                }
            }),
            r is Ok ==> exists|i: int|
                {
                    &&& 0 <= i < old(self).spec_buckets().len()
                    &&& #[trigger] old(self).spec_buckets()[i].id == id
                    &&& final(self).spec_buckets().len() == old(self).spec_buckets().len()
                    &&& final(self).spec_buckets()[i].id == id
                    &&& final(self).spec_buckets()[i].name@ == name@
                    &&& final(self).spec_buckets()[i].created == old(self).spec_buckets()[i].created
                    &&& forall|j: int|
                        0 <= j < old(self).spec_buckets().len() && j != i
                            ==> final(self).spec_buckets()[j] == old(self).spec_buckets()[j]
                },
            r is Ok ==> final(self).spec_objects() == old(self).spec_objects()
                && final(self).spec_links() == old(self).spec_links()
                && final(self).spec_errors() == old(self).spec_errors(),
    {
        let owned = name.to_owned();
        let i = match self.find_bucket_by_id(id) {
            Some(i) => i,
            None => {
                return Err(Error::NotFound("Bucket".to_owned()));
            },
        };
        if owned.as_str().unicode_len() == 0 {
            return Err(Error::Sql("bucket name must not be empty".to_owned()));
        }
        match self.find_bucket_by_name(&owned) {
            Some(j) => {
                if j != i {
                    return Err(Error::Sql("bucket name is already in use".to_owned()));
                }
            },
            None => {},
        }
        let created = self.buckets[i].created;
        self.buckets.remove(i);
        self.buckets.insert(i, BucketRow { id, name: owned, created });
        proof {
            let bs = self.spec_buckets();
            let os = old(self).spec_buckets();
            assert(bs.len() == os.len());
            assert forall|j: int| 0 <= j < os.len() && j != i implies bs[j] == os[j] by {
                if j < i {
                    assert(os.remove(i as int)[j] == os[j]);
                } else {
                    assert(os.remove(i as int)[j - 1] == os[j]);
                }
            }
            assert(self.spec_links() == old(self).spec_links());
            assert(self.spec_objects() == old(self).spec_objects());
            assert(self.spec_errors() == old(self).spec_errors());
            assert forall|a: int, b: int| 0 <= a < b < bs.len() implies bs[a].id != bs[b].id by {}
            assert forall|a: int, b: int|
                0 <= a < b < bs.len() implies bs[a].name@ != bs[b].name@ by {}
            assert forall|j: int|
                0 <= j < self.spec_links().len() implies self.has_bucket_id(
                #[trigger] self.spec_links()[j].bucket,
            ) by {
                let k = choose|k: int|
                    0 <= k < os.len() && os[k].id == old(self).spec_links()[j].bucket;
                assert(bs[k].id == self.spec_links()[j].bucket);
            }
        }
        Ok(())
    }

    /// Removes a bucket and all of its associations. Objects the bucket
    /// held keep their rows; rows left without any association wait for
    /// `remove_orphan_objects`. Removing an absent bucket changes
    /// nothing.
    #[verifier::rlimit(100)]
    #[verifier::spinoff_prover]
    pub fn remove_bucket(&mut self, id: u128)
        requires
            old(self).wf(),
        ensures
            final(self).wf(),
            final(self).spec_buckets() == old(self).spec_buckets().filter(
                |b: BucketRow| b.id != id,
            ),
            final(self).spec_links() == old(self).spec_links().filter(
                |l: Link| l.bucket != id,
            ),
            final(self).spec_objects() == old(self).spec_objects(),
            final(self).spec_errors() == old(self).spec_errors(),
    {
        let mut kept_buckets: Vec<BucketRow> = Vec::new();
        let mut i: usize = 0;
        proof {
            reveal(Seq::filter);
            assert(self.spec_buckets().take(0) =~= Seq::<BucketRow>::empty());
        }
        while i < self.buckets.len()
            invariant
                i <= self.spec_buckets().len(),
                kept_buckets@ == self.spec_buckets().take(i as int).filter(
                    |b: BucketRow| b.id != id,
                ),
            decreases self.spec_buckets().len() - i,
        {
            proof {
                reveal(Seq::filter);
                assert(self.spec_buckets().take(i + 1).drop_last() =~= self.spec_buckets().take(
                    i as int,
                ));
                assert(self.spec_buckets().take(i + 1).last() == self.spec_buckets()[i as int]);
            }
            if self.buckets[i].id != id {
                kept_buckets.push(self.buckets[i].clone());
            }
            i = i + 1;
        }
        proof {
            assert(self.spec_buckets().take(self.spec_buckets().len() as int) =~= self
                .spec_buckets());
        }
        let mut kept_links: Vec<Link> = Vec::new();
        let mut j: usize = 0;
        proof {
            reveal(Seq::filter);
            assert(self.spec_links().take(0) =~= Seq::<Link>::empty());
        }
        while j < self.links.len()
            invariant
                j <= self.spec_links().len(),
                kept_links@ == self.spec_links().take(j as int).filter(|l: Link| l.bucket != id),
            decreases self.spec_links().len() - j,
        {
            proof {
                reveal(Seq::filter);
                assert(self.spec_links().take(j + 1).drop_last() =~= self.spec_links().take(
                    j as int,
                ));
                assert(self.spec_links().take(j + 1).last() == self.spec_links()[j as int]);
            }
            if self.links[j].bucket != id {
                kept_links.push(self.links[j]);
            }
            j = j + 1;
        }
        proof {
            assert(self.spec_links().take(self.spec_links().len() as int) =~= self.spec_links());
        }
        self.buckets = kept_buckets;
        self.links = kept_links;
        proof {
            assert(self.spec_objects() == old(self).spec_objects());
            assert(self.spec_errors() == old(self).spec_errors());
            assert forall|i: int|
                0 <= i < self.spec_objects().len() implies (#[trigger] self.spec_objects()[i]).hash@.len()
                == 64 by {
                assert(old(self).spec_objects()[i].hash@.len() == 64);
            }
            let obs = old(self).spec_buckets();
            let ols = old(self).spec_links();
            let predb = |x: BucketRow| x.id != id;
            let predl = |x: Link| x.bucket != id;
            let bs = self.spec_buckets();
            let ls = self.spec_links();
            assert forall|a: int, b: int|
                0 <= a < b < bs.len() implies bs[a].id != bs[b].id && bs[a].name@
                != bs[b].name@ by {
                lemma_filter_two_indices(obs, predb, a, b);
            }
            assert forall|a: int| 0 <= a < bs.len() implies #[trigger] bs[a].name@.len() > 0 by {
                lemma_filter_elem_source(obs, predb, a);
                let k = choose|k: int| 0 <= k < obs.len() && obs[k] == bs[a];
                assert(obs[k].name@.len() > 0);
            }
            assert forall|a: int, b: int| 0 <= a < b < ls.len() implies ls[a] != ls[b] by {
                lemma_filter_two_indices(ols, predl, a, b);
            }
            assert forall|a: int|
                0 <= a < ls.len() implies self.has_bucket_id(#[trigger] ls[a].bucket) by {
                lemma_filter_elem_source(ols, predl, a);
                let k = choose|k: int| 0 <= k < ols.len() && ols[k] == ls[a];
                assert(old(self).has_bucket_id(ols[k].bucket));
                ols.lemma_filter_pred(predl, a);
                let m = choose|m: int| 0 <= m < obs.len() && obs[m].id == ls[a].bucket;
                obs.lemma_filter_contains(predb, m);
                let n = choose|n: int| 0 <= n < bs.len() && bs[n] == obs[m];
                assert(bs[n].id == ls[a].bucket);
            }
            assert forall|a: int|
                0 <= a < ls.len() implies self.has_object_id(#[trigger] ls[a].object) by {
                lemma_filter_elem_source(ols, predl, a);
                let k = choose|k: int| 0 <= k < ols.len() && ols[k] == ls[a];
                assert(old(self).has_object_id(ols[k].object));
                let m = choose|m: int|
                    0 <= m < old(self).spec_objects().len() && old(self).spec_objects()[m].id
                        == ols[k].object;
                assert(self.spec_objects()[m].id == ls[a].object);
            }
        }
    }
}

/// How many associations of bucket `bid` point at an object in `ids`.
pub open spec fn count_removed_links(ls: Seq<Link>, bid: u128, ids: Seq<u128>) -> int
    decreases ls.len(),
{
    if ls.len() == 0 {
        0
    } else {
        count_removed_links(ls.drop_last(), bid, ids) + if ls.last().bucket == bid
            && ids.contains(ls.last().object) {
            1int
        } else {
            0int
        }
    }
}

/// The sum of the sizes of the rows in `ids` that bucket `bid` holds.
pub open spec fn sum_removed_sizes(objs: Seq<Object>, ls: Seq<Link>, bid: u128, ids: Seq<
    u128,
>) -> int
    decreases objs.len(),
{
    if objs.len() == 0 {
        0
    } else {
        sum_removed_sizes(objs.drop_last(), ls, bid, ids) + if is_linked(
            ls,
            bid,
            objs.last().id,
        ) && ids.contains(objs.last().id) {
            objs.last().size as int
        } else {
            0
        }
    }
}

pub proof fn lemma_sum_removed_bounds(objs: Seq<Object>, ls: Seq<Link>, bid: u128, ids: Seq<u128>)
    ensures
        0 <= sum_removed_sizes(objs, ls, bid, ids) <= sum_sizes(objs),
        0 <= count_removed_links(ls, bid, ids) <= ls.len(),
    decreases objs.len() + ls.len(),
{
    if objs.len() > 0 {
        lemma_sum_removed_bounds(objs.drop_last(), ls, bid, ids);
    }
    if ls.len() > 0 {
        lemma_sum_removed_bounds(Seq::<Object>::empty(), ls.drop_last(), bid, ids);
    }
}

/// Whether `ids` holds `id`.
pub fn contains_id(ids: &Vec<u128>, id: u128) -> (r: bool)
    ensures
        r == ids@.contains(id),
{
    let mut i: usize = 0;
    while i < ids.len()
        invariant
            i <= ids@.len(),
            forall|j: int| 0 <= j < i ==> ids@[j] != id,
        decreases ids@.len() - i,
    {
        if ids[i] == id {
            assert(ids@[i as int] == id);
            return true;
        }
        i = i + 1;
    }
    false
}

/// One error record applied to the stored set: any record for the same
/// object goes away, and the new record is appended unless its message is
/// empty. Records are identifier and message text pairs.
/// The records that survive an update for `id`: every record of another
/// object.
pub open spec fn keeps_other(id: u128) -> spec_fn((u128, Seq<char>)) -> bool {
    |e: (u128, Seq<char>)| e.0 != id
}

/// The stored records that survive an update for `id`.
pub open spec fn err_keeps_other(id: u128) -> spec_fn(ObjectError) -> bool {
    |e: ObjectError| e.object_id != id
}

pub open spec fn apply_one_error(es: Seq<(u128, Seq<char>)>, id: u128, msg: Seq<char>) -> Seq<
    (u128, Seq<char>),
> {
    let kept = es.filter(keeps_other(id));
    if msg.len() > 0 {
        kept.push((id, msg))
    } else {
        kept
    }
}

/// A batch of error records applied left to right.
pub open spec fn apply_error_updates(es: Seq<(u128, Seq<char>)>, rs: Seq<(u128, Seq<char>)>) -> Seq<
    (u128, Seq<char>),
>
    decreases rs.len(),
{
    if rs.len() == 0 {
        es
    } else {
        apply_one_error(apply_error_updates(es, rs.drop_last()), rs.last().0, rs.last().1)
    }
}

/// Filtering records by identifier commutes with taking their views.
proof fn lemma_records_view_filter(es: Seq<ObjectError>, id: u128)
    ensures
        records_view(es.filter(err_keeps_other(id))) == records_view(es).filter(keeps_other(id)),
    decreases es.len(),
{
    reveal(Seq::filter);
    if es.len() == 0 {
        assert(records_view(es.filter(err_keeps_other(id))) =~= records_view(es).filter(
            keeps_other(id),
        ));
    } else {
        lemma_records_view_filter(es.drop_last(), id);
        assert(records_view(es).drop_last() =~= records_view(es.drop_last()));
        assert(records_view(es).last() == (es.last().object_id, es.last().message@));
        if es.last().object_id != id {
            assert(records_view(es.filter(err_keeps_other(id))) =~= records_view(
                es.drop_last().filter(err_keeps_other(id)),
            ).push((es.last().object_id, es.last().message@)));
            assert(records_view(es).filter(keeps_other(id)) =~= records_view(
                es.drop_last(),
            ).filter(keeps_other(id)).push((es.last().object_id, es.last().message@)));
        } else {
            assert(records_view(es.filter(err_keeps_other(id))) =~= records_view(
                es.drop_last().filter(err_keeps_other(id)),
            ));
            assert(records_view(es).filter(keeps_other(id)) =~= records_view(
                es.drop_last(),
            ).filter(keeps_other(id)));
        }
    }
}

/// Filtering rows never increases their total size.
pub proof fn lemma_filter_sum_le(s: Seq<Object>, pred: spec_fn(Object) -> bool)
    ensures
        0 <= sum_sizes(s.filter(pred)) <= sum_sizes(s),
    decreases s.len(),
{
    reveal(Seq::filter);
    if s.len() > 0 {
        lemma_filter_sum_le(s.drop_last(), pred);
        if pred(s.last()) {
            assert(s.filter(pred).drop_last() =~= s.drop_last().filter(pred));
            assert(s.filter(pred).last() == s.last());
        }
    }
}

/// Every element of a filtered sequence comes from the source sequence.
pub proof fn lemma_filter_elem_source<A>(s: Seq<A>, pred: spec_fn(A) -> bool, k: int)
    requires
        0 <= k < s.filter(pred).len(),
    ensures
        exists|i: int| 0 <= i < s.len() && s[i] == s.filter(pred)[k],
    decreases s.len(),
{
    reveal(Seq::filter);
    if s.len() > 0 {
        let sub = s.drop_last().filter(pred);
        if pred(s.last()) && k == s.filter(pred).len() - 1 {
            assert(s[s.len() - 1] == s.filter(pred)[k]);
        } else {
            lemma_filter_elem_source(s.drop_last(), pred, k);
            let i = choose|i: int| 0 <= i < s.drop_last().len() && s.drop_last()[i] == sub[k];
            assert(s[i] == s.filter(pred)[k]);
        }
    }
}

/// Two positions of a filtered sequence come from two source positions in
/// the same order.
pub proof fn lemma_filter_two_indices<A>(s: Seq<A>, pred: spec_fn(A) -> bool, a: int, b: int)
    requires
        0 <= a < b < s.filter(pred).len(),
    ensures
        exists|i: int, j: int|
            0 <= i < j < s.len() && s[i] == s.filter(pred)[a] && s[j] == s.filter(pred)[b],
    decreases s.len(),
{
    reveal(Seq::filter);
    if s.len() > 0 {
        let f = s.filter(pred);
        let sub = s.drop_last().filter(pred);
        if pred(s.last()) && b == f.len() - 1 {
            lemma_filter_elem_source(s.drop_last(), pred, a);
            let i = choose|i: int| 0 <= i < s.drop_last().len() && s.drop_last()[i] == sub[a];
            assert(s[i] == f[a] && s[s.len() - 1] == f[b]);
        } else {
            lemma_filter_two_indices(s.drop_last(), pred, a, b);
            let (i, j) = choose|i: int, j: int|
                0 <= i < j < s.drop_last().len() && s.drop_last()[i] == sub[a] && s.drop_last()[j]
                    == sub[b];
            assert(s[i] == f[a] && s[j] == f[b]);
        }
    }
}

/// Removing one bucket never unlinks any other bucket's objects: an
/// association of a different bucket survives the removal exactly as it
/// was.
pub proof fn lemma_remove_bucket_keeps_other_links(ls: Seq<Link>, removed: u128, l: Link)
    requires
        l.bucket != removed,
    ensures
        ls.filter(|x: Link| x.bucket != removed).contains(l) <==> ls.contains(l),
{
    let pred = |x: Link| x.bucket != removed;
    if ls.filter(pred).contains(l) {
        let a = choose|a: int| 0 <= a < ls.filter(pred).len() && ls.filter(pred)[a] == l;
        lemma_filter_elem_source(ls, pred, a);
        let k = choose|k: int| 0 <= k < ls.len() && ls[k] == ls.filter(pred)[a];
        assert(ls.contains(l));
    }
    if ls.contains(l) {
        let k = choose|k: int| 0 <= k < ls.len() && ls[k] == l;
        ls.lemma_filter_contains(pred, k);
    }
}

/// A failed check is never lost: after a batch of records is applied,
/// an object whose last record in the batch carries a non-empty message
/// has exactly that record stored.
pub proof fn lemma_failure_recorded(
    es: Seq<(u128, Seq<char>)>,
    rs: Seq<(u128, Seq<char>)>,
    k: int,
)
    requires
        0 <= k < rs.len(),
        rs[k].1.len() > 0,
        forall|j: int| k < j < rs.len() ==> (#[trigger] rs[j]).0 != rs[k].0,
    ensures
        apply_error_updates(es, rs).contains(rs[k]),
    decreases rs.len(),
{
    reveal(Seq::filter);
    if k == rs.len() - 1 {
        let prev = apply_error_updates(es, rs.drop_last());
        let out = apply_error_updates(es, rs);
        assert(out == apply_one_error(prev, rs[k].0, rs[k].1));
        assert(out.last() == rs[k]);
    } else {
        lemma_failure_recorded(es, rs.drop_last(), k);
        let prev = apply_error_updates(es, rs.drop_last());
        let rec = rs.last();
        let out = apply_error_updates(es, rs);
        assert(rec.0 != rs[k].0);
        assert(rs.drop_last()[k] == rs[k]);
        let a = choose|a: int| 0 <= a < prev.len() && prev[a] == rs[k];
        prev.lemma_filter_contains(keeps_other(rec.0), a);
        let kept = prev.filter(keeps_other(rec.0));
        assert(kept.contains(rs[k]));
        if rec.1.len() > 0 {
            let b = choose|b: int| 0 <= b < kept.len() && kept[b] == rs[k];
            assert(out[b] == rs[k]);
        }
    }
}

/// An object row that no longer exists is served by no bucket at all:
/// every association points at an existing row.
pub proof fn lemma_absent_row_never_linked(m: Metadata, id: u128)
    requires
        m.wf(),
        !m.has_object_id(id),
    ensures
        forall|b: u128| !is_linked(m.spec_links(), b, id),
{
    assert forall|b: u128| !is_linked(m.spec_links(), b, id) by {
        if is_linked(m.spec_links(), b, id) {
            let k = choose|k: int|
                0 <= k < m.spec_links().len() && m.spec_links()[k] == (Link {
                    bucket: b,
                    object: id,
                });
            assert(m.has_object_id(m.spec_links()[k].object));
        }
    }
}

/// Whether the outward bucket `b` presents the row `row` together with
/// its association count and space, computed against `objs` and `ls`.
pub open spec fn bucket_matches(b: Bucket, row: BucketRow, objs: Seq<Object>, ls: Seq<Link>) -> bool {
    &&& b.id == row.id
    &&& b.name@ == row.name@
    &&& b.created == row.created
    &&& b.object_count == count_bucket_links(ls, row.id)
    &&& b.space_used == sum_bucket_sizes(objs, ls, row.id)
}

} // verus!
