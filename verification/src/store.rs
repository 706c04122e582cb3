//! The object store: the coordinator between the metadata store and the
//! blob trees, plus the two singleton background tasks.
//!
//! The store model keeps the contents of both trees — committed objects
//! and in-progress parts — so that the coordinator's invariant can be
//! stated and proved: every metadata row points at exactly the committed
//! blob whose content hashes to the row's hash. The caller mirrors every
//! transition onto the real file system.

use crate::error::{Error, OptionNotFound};
use crate::hash::{content_hash, spec_content_hash};
use crate::id::random_id;
use crate::lock::PartLockSet;
use crate::metadata::{
    count_bucket_links, count_removed_links, is_linked, is_referenced, sum_bucket_sizes,
    sum_referenced_sizes, sum_removed_sizes, sum_sizes, Metadata,
};
use crate::model::{About, Bucket, Object, ObjectError, RemoveResult, StoreTotals};
use crate::progress::{records_view, Progress, Task};
use crate::worker::{count_failures, outcome_records, run_object_stream, ActionOutcome};
use vstd::prelude::*;
use vstd::slice::slice_to_vec;

verus! {

/// A committed blob: its identifier, bytes and content hash.
#[derive(Debug)]
pub struct DiskFile {
    pub id: u128,
    pub content: Vec<u8>,
    pub hash: String,
}

/// An in-progress upload's staging blob.
#[derive(Debug)]
pub struct PartFile {
    pub id: u128,
    pub content: Vec<u8>,
}

/// An open handle on a part: proof that the caller holds its write lock.
#[derive(Debug)]
pub struct Part {
    id: u128,
}

impl Part {
    pub closed spec fn spec_id(&self) -> u128 {
        self.id
    }

    /// The part's identifier.
    pub fn id(&self) -> (r: u128)
        ensures
            r == self.spec_id(),
    {
        self.id
    }
}

/// The two singleton background task slots.
#[derive(Debug)]
pub struct Tasks {
    pub archive: Task,
    pub check: Task,
}

/// The object store.
pub struct ObjectStore {
    pub tasks: Tasks,
    about: About,
    archive: Option<String>,
    meta: Metadata,
    objects_tree: Vec<DiskFile>,
    parts_tree: Vec<PartFile>,
    locks: PartLockSet,
}

impl ObjectStore {
    pub closed spec fn spec_meta(&self) -> Metadata {
        self.meta
    }

    pub closed spec fn spec_objects_tree(&self) -> Seq<DiskFile> {
        self.objects_tree@
    }

    pub closed spec fn spec_parts_tree(&self) -> Seq<PartFile> {
        self.parts_tree@
    }

    pub closed spec fn spec_locks(&self) -> Set<u128> {
        self.locks@
    }

    pub closed spec fn spec_lock_set(&self) -> PartLockSet {
        self.locks
    }

    pub closed spec fn spec_archive(&self) -> Option<String> {
        self.archive
    }

    pub closed spec fn spec_about(&self) -> About {
        self.about
    }

    pub closed spec fn spec_archive_task(&self) -> Task {
        self.tasks.archive
    }

    pub closed spec fn spec_check_task(&self) -> Task {
        self.tasks.check
    }

    pub open spec fn has_file(&self, id: u128) -> bool {
        exists|j: int|
            0 <= j < self.spec_objects_tree().len() && self.spec_objects_tree()[j].id == id
    }

    /// The committed blob for `id`, where one exists.
    pub open spec fn file_with_id(&self, id: u128) -> DiskFile {
        self.spec_objects_tree()[choose|j: int|
            0 <= j < self.spec_objects_tree().len() && self.spec_objects_tree()[j].id == id]
    }

    pub open spec fn has_part(&self, id: u128) -> bool {
        exists|j: int| 0 <= j < self.spec_parts_tree().len() && self.spec_parts_tree()[j].id == id
    }

    /// The staging blob for `id`, where one exists.
    pub open spec fn part_with_id(&self, id: u128) -> PartFile {
        self.spec_parts_tree()[choose|j: int|
            0 <= j < self.spec_parts_tree().len() && self.spec_parts_tree()[j].id == id]
    }

    /// The coordinator's invariant. Beyond the metadata store's own
    /// invariant: blob identifiers are unique per tree, every committed
    /// blob carries the hash of its own bytes, and every metadata row
    /// points at a committed blob with the row's identity, hash and size.
    pub open spec fn wf(&self) -> bool {
        &&& self.spec_meta().wf()
        &&& self.spec_lock_set().wf()
        &&& forall|i: int, j: int|
            0 <= i < j < self.spec_objects_tree().len() ==> self.spec_objects_tree()[i].id
                != self.spec_objects_tree()[j].id
        &&& forall|i: int, j: int|
            0 <= i < j < self.spec_parts_tree().len() ==> self.spec_parts_tree()[i].id
                != self.spec_parts_tree()[j].id
        &&& forall|j: int|
            0 <= j < self.spec_objects_tree().len() ==> (#[trigger] self.spec_objects_tree()[j]).hash@
                =~= spec_content_hash(self.spec_objects_tree()[j].content@)
        &&& forall|i: int|
            0 <= i < self.spec_meta().spec_objects().len() ==> self.row_backed(
                #[trigger] self.spec_meta().spec_objects()[i],
            )
    }

    /// A metadata row is backed by the committed blob with its identity.
    pub open spec fn row_backed(&self, row: Object) -> bool {
        exists|j: int|
            {
                &&& 0 <= j < self.spec_objects_tree().len()
                &&& (#[trigger] self.spec_objects_tree()[j]).id == row.id
                &&& self.spec_objects_tree()[j].hash@ == row.hash@
                &&& self.spec_objects_tree()[j].content@.len() == row.size
            }
    }

    /// A fresh, empty store.
    pub fn new(about: About, archive: Option<String>) -> (r: Self)
        ensures
            r.wf(),
            r.spec_meta().spec_buckets().len() == 0,
            r.spec_meta().spec_objects().len() == 0,
            r.spec_meta().spec_links().len() == 0,
            r.spec_meta().spec_errors().len() == 0,
            r.spec_objects_tree().len() == 0,
            r.spec_parts_tree().len() == 0,
            r.spec_locks() == Set::<u128>::empty(),
            r.spec_archive() == archive,
            r.spec_about() == about,
            r.spec_archive_task().spec_progress() is None,
            r.spec_check_task().spec_progress() is None,
    {
        ObjectStore {
            tasks: Tasks { archive: Task::new(), check: Task::new() },
            about,
            archive,
            meta: Metadata::new(),
            objects_tree: Vec::new(),
            parts_tree: Vec::new(),
            locks: PartLockSet::new(),
        }
    }

    /// What the server reports about itself.
    pub fn about(&self) -> (r: &About)
        ensures
            *r == self.spec_about(),
    {
        &self.about
    }

    /// Creates a bucket; see `Metadata::create_bucket`.
    pub fn add_bucket(&mut self, id: u128, name: &str, now: u64) -> (r: Result<Bucket, Error>)
        requires
            old(self).wf(),
        ensures
            final(self).wf(),
            r is Ok <==> name@.len() > 0 && !old(self).spec_meta().has_bucket_name(name@) && !old(self).spec_meta().has_bucket_id(id),
            r is Err ==> *final(self) == *old(self) && r->Err_0 is Sql,
            r matches Ok(b) ==> {
                &&& final(self).spec_meta().spec_buckets().drop_last() == old(self).spec_meta().spec_buckets()
                &&& final(self).spec_meta().spec_buckets().len() == old(self).spec_meta().spec_buckets().len() + 1
                &&& final(self).spec_meta().spec_buckets().last().id == id
                &&& final(self).spec_meta().spec_buckets().last().name@ == name@
                &&& b.id == id && b.name@ == name@ && b.created == now
                &&& b.object_count == 0 && b.space_used == 0
                &&& final(self).unchanged_but_meta(*old(self))
                &&& final(self).spec_meta().spec_objects() == old(self).spec_meta().spec_objects()
                &&& final(self).spec_meta().spec_links() == old(self).spec_meta().spec_links()
                &&& final(self).spec_meta().spec_errors() == old(self).spec_meta().spec_errors()
            },
    {
        let r = self.meta.create_bucket(id, name, now);
        proof {
            self.lemma_meta_change_keeps_backing(*old(self));
        }
        r
    }

    /// Everything except the metadata store is as in `other`.
    pub open spec fn unchanged_but_meta(&self, other: Self) -> bool {
        &&& self.spec_objects_tree() == other.spec_objects_tree()
        &&& self.spec_parts_tree() == other.spec_parts_tree()
        &&& self.spec_locks() == other.spec_locks()
        &&& self.spec_archive() == other.spec_archive()
        &&& self.spec_about() == other.spec_about()
        &&& self.spec_archive_task().spec_progress() == other.spec_archive_task().spec_progress()
        &&& self.spec_check_task().spec_progress() == other.spec_check_task().spec_progress()
    }

    /// A transition that only touches the metadata store — and leaves its
    /// object rows alone — preserves the whole invariant.
    proof fn lemma_meta_change_keeps_backing(&self, other: Self)
        requires
            other.wf(),
            self.spec_meta().wf(),
            self.spec_objects_tree() == other.spec_objects_tree(),
            self.spec_parts_tree() == other.spec_parts_tree() || forall|i: int, j: int|
                0 <= i < j < self.spec_parts_tree().len() ==> self.spec_parts_tree()[i].id
                    != self.spec_parts_tree()[j].id,
            self.spec_lock_set() == other.spec_lock_set() || self.spec_lock_set().wf(),
            self.spec_meta().spec_objects() == other.spec_meta().spec_objects(),
        ensures
            self.wf(),
    {
        let tree = self.spec_objects_tree();
        let parts = self.spec_parts_tree();
        assert forall|i: int, j: int| 0 <= i < j < tree.len() implies tree[i].id != tree[j].id by {
            assert(other.spec_objects_tree()[i].id != other.spec_objects_tree()[j].id);
        }
        if self.spec_parts_tree() == other.spec_parts_tree() {
            assert forall|i: int, j: int|
                0 <= i < j < parts.len() implies parts[i].id != parts[j].id by {
                assert(other.spec_parts_tree()[i].id != other.spec_parts_tree()[j].id);
            }
        }
        assert forall|j: int|
            0 <= j < tree.len() implies (#[trigger] tree[j]).hash@ =~= spec_content_hash(
            tree[j].content@,
        ) by {
            assert(other.spec_objects_tree()[j].hash@ =~= spec_content_hash(
                other.spec_objects_tree()[j].content@,
            ));
        }
        assert forall|i: int|
            0 <= i < self.spec_meta().spec_objects().len() implies self.row_backed(
            #[trigger] self.spec_meta().spec_objects()[i],
        ) by {
            assert(other.row_backed(other.spec_meta().spec_objects()[i]));
            let j = choose|j: int|
                {
                    &&& 0 <= j < other.spec_objects_tree().len()
                    &&& (#[trigger] other.spec_objects_tree()[j]).id == other.spec_meta(
                    ).spec_objects()[i].id
                    &&& other.spec_objects_tree()[j].hash@ == other.spec_meta().spec_objects()[i].hash@
                    &&& other.spec_objects_tree()[j].content@.len() == other.spec_meta(
                    ).spec_objects()[i].size
                };
            assert(self.spec_objects_tree()[j].id == self.spec_meta().spec_objects()[i].id);
        }
    }

    /// Looks a bucket up by name; see `Metadata::fetch_bucket`.
    pub fn get_bucket(&self, name: &str) -> (r: Result<Bucket, Error>)
        requires
            self.wf(),
        ensures
            r is Ok <==> self.spec_meta().has_bucket_name(name@),
            r matches Ok(b) ==> exists|i: int|
                0 <= i < self.spec_meta().spec_buckets().len()
                    && #[trigger] self.spec_meta().spec_buckets()[i].name@ == name@ && b.id
                    == self.spec_meta().spec_buckets()[i].id && b.created == self.spec_meta(
                ).spec_buckets()[i].created && b.name@ == name@ && b.object_count
                    == count_bucket_links(
                    self.spec_meta().spec_links(),
                    self.spec_meta().spec_buckets()[i].id,
                ) && b.space_used == sum_bucket_sizes(
                    self.spec_meta().spec_objects(),
                    self.spec_meta().spec_links(),
                    self.spec_meta().spec_buckets()[i].id,
                ),
            r matches Err(e) ==> e is NotFound,
    {
        self.meta.fetch_bucket(name)
    }

    /// Every bucket with its counts; see `Metadata::fetch_buckets_all`.
    pub fn get_buckets(&self) -> (r: Vec<Bucket>)
        requires
            self.wf(),
        ensures
            r@.len() == self.spec_meta().spec_buckets().len(),
            forall|i: int|
                0 <= i < r@.len() ==> crate::metadata::bucket_matches(
                    #[trigger] r@[i],
                    self.spec_meta().spec_buckets()[i],
                    self.spec_meta().spec_objects(),
                    self.spec_meta().spec_links(),
                ),
    {
        self.meta.fetch_buckets_all()
    }

    /// The store-wide totals: bucket count, object count, and the space
    /// used by every object still referenced by at least one bucket.
    pub fn get_totals(&self) -> (r: StoreTotals)
        requires
            self.wf(),
        ensures
            r.buckets == self.spec_meta().spec_buckets().len(),
            r.objects == self.spec_meta().spec_objects().len(),
            r.space_used == sum_referenced_sizes(
                self.spec_meta().spec_objects(),
                self.spec_meta().spec_links(),
            ),
    {
        self.meta.fetch_store_totals()
    }

    /// Renames a bucket; see `Metadata::rename_bucket`.
    pub fn rename_bucket(&mut self, id: u128, name: &str) -> (r: Result<(), Error>)
        requires
            old(self).wf(),
        ensures
            final(self).wf(),
            ({
                let taken = exists|j: int|
                    0 <= j < old(self).spec_meta().spec_buckets().len() && #[trigger] old(self).spec_meta().spec_buckets()[j].name@ == name@ && old(self).spec_meta().spec_buckets()[j].id != id;
                &&& (r is Ok <==> old(self).spec_meta().has_bucket_id(id) && name@.len() > 0
                    && !taken)
                &&& (r matches Err(e) ==> *final(self) == *old(self) && (if !old(self).spec_meta(
                ).has_bucket_id(id) {
                    e is NotFound
                } else {
                    e is Sql
                }))
            }),
            r is Ok ==> exists|i: int|
                {
                    &&& 0 <= i < old(self).spec_meta().spec_buckets().len()
                    &&& #[trigger] old(self).spec_meta().spec_buckets()[i].id == id
                    &&& final(self).spec_meta().spec_buckets().len() == old(self).spec_meta().spec_buckets().len()
                    &&& final(self).spec_meta().spec_buckets()[i].id == id
                    &&& final(self).spec_meta().spec_buckets()[i].name@ == name@
                    &&& final(self).spec_meta().spec_buckets()[i].created == old(self).spec_meta().spec_buckets()[i].created
                    &&& forall|j: int|
                        0 <= j < old(self).spec_meta().spec_buckets().len() && j != i
                            ==> final(self).spec_meta().spec_buckets()[j] == old(self).spec_meta().spec_buckets()[j]
                },
            r is Ok ==> final(self).spec_meta().has_bucket_name(name@) && final(self).unchanged_but_meta(*old(self)) && final(self).spec_meta().spec_objects() == old(self).spec_meta().spec_objects()
                && final(self).spec_meta().spec_links() == old(self).spec_meta().spec_links()
                && final(self).spec_meta().spec_errors() == old(self).spec_meta().spec_errors(),
    {
        let r = self.meta.rename_bucket(id, name);
        proof {
            self.lemma_meta_change_keeps_backing(*old(self));
            if r is Ok {
                let i = choose|i: int|
                    {
                        &&& 0 <= i < old(self).spec_meta().spec_buckets().len()
                        &&& #[trigger] old(self).spec_meta().spec_buckets()[i].id == id
                        &&& final(self).spec_meta().spec_buckets().len() == old(self).spec_meta().spec_buckets().len()
                        &&& final(self).spec_meta().spec_buckets()[i].id == id
                        &&& final(self).spec_meta().spec_buckets()[i].name@ == name@
                        &&& final(self).spec_meta().spec_buckets()[i].created == old(self).spec_meta().spec_buckets()[i].created
                        &&& forall|j: int|
                            0 <= j < old(self).spec_meta().spec_buckets().len() && j != i
                                ==> final(self).spec_meta().spec_buckets()[j] == old(self).spec_meta().spec_buckets()[j]
                    };
                assert(self.spec_meta().spec_buckets()[i].name@ == name@);
            }
        }
        r
    }

    /// Removes a bucket and its associations; blobs and rows stay; see
    /// `Metadata::remove_bucket`.
    pub fn remove_bucket(&mut self, id: u128) -> (r: Result<(), Error>)
        requires
            old(self).wf(),
        ensures
            final(self).wf(),
            r is Ok,
            final(self).spec_meta().spec_buckets() == old(self).spec_meta().spec_buckets().filter(
                |b: crate::metadata::BucketRow| b.id != id,
            ),
            final(self).spec_meta().spec_links() == old(self).spec_meta().spec_links().filter(
                |l: crate::metadata::Link| l.bucket != id,
            ),
            final(self).spec_meta().spec_objects() == old(self).spec_meta().spec_objects(),
            final(self).spec_meta().spec_errors() == old(self).spec_meta().spec_errors(),
            final(self).unchanged_but_meta(*old(self)),
    {
        self.meta.remove_bucket(id);
        proof {
            self.lemma_meta_change_keeps_backing(*old(self));
        }
        Ok(())
    }

    /// Opens a part for writing: the caller-supplied identifier, or a
    /// freshly generated one. Grants the exclusive in-process write lock,
    /// failing with `WriteLock` if the part is already open; creates an
    /// empty staging blob if none exists, and never touches the bytes an
    /// interrupted upload already staged — that is what makes resume
    /// work.
    pub fn get_part(&mut self, part_id: Option<u128>) -> (r: Result<Part, Error>)
        requires
            old(self).wf(),
        ensures
            final(self).wf(),
            r is Err ==> *final(self) == *old(self) && r->Err_0 is WriteLock,
            part_id matches Some(i) ==> (r is Ok <==> !old(self).spec_locks().contains(i)),
            part_id is None && old(self).spec_locks() == Set::<u128>::empty() ==> r is Ok,
            part_id matches Some(i) ==> (r matches Ok(p) ==> p.spec_id() == i),
            r matches Ok(p) ==> {
                &&& !old(self).spec_locks().contains(p.spec_id())
                &&& final(self).spec_locks() == old(self).spec_locks().insert(p.spec_id())
                &&& final(self).has_part(p.spec_id())
                &&& old(self).has_part(p.spec_id()) ==> final(self).spec_parts_tree() == old(self).spec_parts_tree()
                &&& !old(self).has_part(p.spec_id()) ==> {
                    &&& final(self).spec_parts_tree().drop_last() == old(self).spec_parts_tree()
                    &&& final(self).spec_parts_tree().len() == old(self).spec_parts_tree().len()
                        + 1
                    &&& final(self).spec_parts_tree().last().id == p.spec_id()
                    &&& final(self).spec_parts_tree().last().content@ == Seq::<u8>::empty()
                }
                &&& final(self).part_with_id(p.spec_id()).content@ == if old(self).has_part(
                    p.spec_id(),
                ) {
                    old(self).part_with_id(p.spec_id()).content@
                } else {
                    Seq::<u8>::empty()
                }
                &&& final(self).spec_meta() == old(self).spec_meta()
                &&& final(self).spec_objects_tree() == old(self).spec_objects_tree()
                &&& final(self).spec_archive() == old(self).spec_archive()
            },
    {
        let id = match part_id {
            Some(i) => i,
            None => random_id(),
        };
        match self.locks.lock(id) {
            Ok(_) => {},
            Err(_) => {
                return Err(Error::WriteLock);
            },
        }
        let existing = self.find_part_index(id);
        match existing {
            Some(_) => {
                proof {
                    let k = choose|k: int|
                        0 <= k < self.spec_parts_tree().len() && self.spec_parts_tree()[k].id
                            == id;
                    assert(self.part_with_id(id).id == id);
                }
            },
            None => {
                self.parts_tree.push(PartFile { id, content: Vec::new() });
                proof {
                    assert(self.spec_parts_tree().drop_last() =~= old(self).spec_parts_tree());
                    let ps = self.spec_parts_tree();
                    let n = ps.len() - 1;
                    assert(ps[n].id == id);
                    assert forall|a: int, b: int|
                        0 <= a < b < ps.len() implies ps[a].id != ps[b].id by {
                        if b == n {
                            assert(old(self).spec_parts_tree()[a].id != id);
                        }
                    }
                    let k = choose|k: int| 0 <= k < ps.len() && ps[k].id == id;
                    assert(ps[k].id == ps[n].id);
                    assert(k == n);
                }
            },
        }
        proof {
            self.lemma_meta_change_keeps_backing(*old(self));
        }
        Ok(Part { id })
    }

    /// The position of the staging blob for `id`, if one exists.
    fn find_part_index(&self, id: u128) -> (r: Option<usize>)
        ensures
            match r {
                Some(j) => j < self.spec_parts_tree().len() && self.spec_parts_tree()[j as int].id
                    == id,
                None => !self.has_part(id),
            },
    {
        let mut j: usize = 0;
        while j < self.parts_tree.len()
            invariant
                j <= self.spec_parts_tree().len(),
                forall|k: int| 0 <= k < j ==> self.spec_parts_tree()[k].id != id,
            decreases self.spec_parts_tree().len() - j,
        {
            if self.parts_tree[j].id == id {
                return Some(j);
            }
            j = j + 1;
        }
        None
    }

    /// The position of the committed blob for `id`, if one exists.
    fn find_file_index(&self, id: u128) -> (r: Option<usize>)
        ensures
            match r {
                Some(j) => j < self.spec_objects_tree().len()
                    && self.spec_objects_tree()[j as int].id == id,
                None => !self.has_file(id),
            },
    {
        let mut j: usize = 0;
        while j < self.objects_tree.len()
            invariant
                j <= self.spec_objects_tree().len(),
                forall|k: int| 0 <= k < j ==> self.spec_objects_tree()[k].id != id,
            decreases self.spec_objects_tree().len() - j,
        {
            if self.objects_tree[j].id == id {
                return Some(j);
            }
            j = j + 1;
        }
        None
    }

    /// Appends bytes to an open part's staging blob, returning how many
    /// bytes this call wrote. Only the holder of the part's handle may
    /// append; appends accumulate across calls, which is what a resumed
    /// upload relies on.
    pub fn append_part(&mut self, part: &Part, data: &[u8]) -> (r: u64)
        requires
            old(self).wf(),
            old(self).spec_locks().contains(part.spec_id()),
            old(self).has_part(part.spec_id()),
            data@.len() <= u64::MAX,
        ensures
            final(self).wf(),
            r == data@.len(),
            final(self).has_part(part.spec_id()),
            final(self).part_with_id(part.spec_id()).content@ == old(self).part_with_id(
                part.spec_id(),
            ).content@ + data@,
            final(self).spec_parts_tree().len() == old(self).spec_parts_tree().len(),
            forall|k: int|
                0 <= k < final(self).spec_parts_tree().len() && (
                #[trigger] final(self).spec_parts_tree()[k]).id != part.spec_id()
                    ==> final(self).spec_parts_tree()[k] == old(self).spec_parts_tree()[k],
            final(self).spec_meta() == old(self).spec_meta(),
            final(self).spec_objects_tree() == old(self).spec_objects_tree(),
            final(self).spec_locks() == old(self).spec_locks(),
            final(self).spec_archive() == old(self).spec_archive(),
            final(self).spec_archive_task().spec_progress() == old(self).spec_archive_task().spec_progress(),
            final(self).spec_check_task().spec_progress() == old(self).spec_check_task().spec_progress(),
    {
        let id = part.id();
        let j = match self.find_part_index(id) {
            Some(j) => j,
            None => {
                proof {
                    assert(false);
                }
                return 0;
            },
        };
        let mut entry = self.parts_tree.remove(j);
        let mut added = slice_to_vec(data);
        entry.content.append(&mut added);
        self.parts_tree.insert(j, entry);
        proof {
            let ps = self.spec_parts_tree();
            let ops = old(self).spec_parts_tree();
            assert(ps =~= ops.update(j as int, ps[j as int]));
            assert(ps[j as int].id == id);
            assert(ps[j as int].content@ == ops[j as int].content@ + data@);
            assert forall|a: int, b: int| 0 <= a < b < ps.len() implies ps[a].id != ps[b].id by {}
            let k = choose|k: int| 0 <= k < ops.len() && ops[k].id == id;
            assert(old(self).part_with_id(id) == ops[k]);
            assert(k == j as int) by {
                if k != j as int {
                    assert(ops[k].id != ops[j as int].id);
                }
            }
            let k2 = choose|k2: int| 0 <= k2 < ps.len() && ps[k2].id == id;
            assert(k2 == j as int) by {
                if k2 != j as int {
                    assert(ps[k2].id != ps[j as int].id);
                }
            }
            self.lemma_meta_change_keeps_backing(*old(self));
        }
        data.len() as u64
    }

    /// Promotes a staged part into a committed object and records it in
    /// bucket `bucket_id`, deduplicating by content hash.
    ///
    /// The staged bytes become the committed blob — the atomic visibility
    /// point — and only then is the metadata row inserted. If the
    /// insertion fails (absent bucket, or the size counter would
    /// overflow), the blob stays behind as an orphan for a later prune;
    /// that order is what keeps the blob on disk authoritative. A part
    /// still being written fails with `WriteLock`; a part that was never
    /// staged fails with `Internal`; a part whose identity collides with
    /// a committed object of different content is refused and left
    /// staged, since objects are immutable once committed.
    ///
    /// On success the returned object's hash is always the content hash
    /// of the staged bytes; when the hash was new to the store, its size
    /// is exactly their count.
    #[verifier::rlimit(100)]
    #[verifier::spinoff_prover]
    pub fn commit_part(
        &mut self,
        bucket_id: u128,
        part_id: u128,
        ty: &str,
        subtype: &str,
        now: u64,
    ) -> (r: Result<Object, Error>)
        requires
            old(self).wf(),
        ensures
            final(self).wf(),
            final(self).spec_locks() == old(self).spec_locks(),
            final(self).spec_archive() == old(self).spec_archive(),
            final(self).spec_about() == old(self).spec_about(),
            final(self).spec_archive_task().spec_progress() == old(self).spec_archive_task().spec_progress(),
            final(self).spec_check_task().spec_progress() == old(self).spec_check_task().spec_progress(),
            old(self).spec_locks().contains(part_id) ==> (r matches Err(e) && e is WriteLock
                && *final(self) == *old(self)),
            !old(self).spec_locks().contains(part_id) && !old(self).has_part(part_id) ==> (
            r matches Err(e) && e is Internal && *final(self) == *old(self)),
            commit_ready(*old(self), part_id) && commit_conflict(*old(self), part_id) ==> (
            r matches Err(e) && e is Sql && *final(self) == *old(self)),
            commit_ready(*old(self), part_id) && !commit_conflict(*old(self), part_id) ==> {
                &&& !final(self).has_part(part_id)
                &&& forall|q: u128|
                    q != part_id ==> (final(self).has_part(q) <==> old(self).has_part(q)) && (
                    final(self).has_part(q) ==> final(self).part_with_id(q) == old(self).part_with_id(q))
            },
            commit_ready(*old(self), part_id) && !commit_conflict(*old(self), part_id) && old(self).spec_meta().has_object_id(part_id) ==> final(self).spec_objects_tree() == old(self).spec_objects_tree(),
            commit_ready(*old(self), part_id) && !commit_conflict(*old(self), part_id) && !old(self).spec_meta().has_object_id(part_id) ==> {
                let content = commit_content(*old(self), part_id);
                &&& final(self).has_file(part_id)
                &&& final(self).file_with_id(part_id).content@ == content
                &&& final(self).file_with_id(part_id).hash@ == spec_content_hash(content)
                &&& forall|q: u128|
                    q != part_id ==> (final(self).has_file(q) <==> old(self).has_file(q)) && (
                    final(self).has_file(q) ==> final(self).file_with_id(q) == old(self).file_with_id(q))
            },
            commit_ready(*old(self), part_id) && !commit_conflict(*old(self), part_id) && !old(self).spec_meta().has_bucket_id(bucket_id) ==> (r matches Err(e) && e is NotFound && final(self).spec_meta() == old(self).spec_meta()),
            commit_ready(*old(self), part_id) && !commit_conflict(*old(self), part_id) && old(self).spec_meta().has_bucket_id(bucket_id) && old(self).spec_meta().has_hash(
                spec_content_hash(commit_content(*old(self), part_id)),
            ) ==> r is Ok && ({
                let h = spec_content_hash(commit_content(*old(self), part_id));
                let row = old(self).spec_meta().object_with_hash(h);
                &&& r->Ok_0 == row
                &&& row.hash@ == h
                &&& final(self).spec_meta().spec_objects() == old(self).spec_meta().spec_objects()
                &&& final(self).spec_meta().spec_buckets() == old(self).spec_meta().spec_buckets()
                &&& final(self).spec_meta().spec_errors() == old(self).spec_meta().spec_errors()
                &&& is_linked(final(self).spec_meta().spec_links(), bucket_id, row.id)
                &&& final(self).spec_meta().spec_links() == (if is_linked(
                    old(self).spec_meta().spec_links(),
                    bucket_id,
                    row.id,
                ) {
                    old(self).spec_meta().spec_links()
                } else {
                    old(self).spec_meta().spec_links().push(
                        crate::metadata::Link { bucket: bucket_id, object: row.id },
                    )
                })
            }),
            commit_ready(*old(self), part_id) && !commit_conflict(*old(self), part_id) && old(self).spec_meta().has_bucket_id(bucket_id) && !old(self).spec_meta().has_hash(
                spec_content_hash(commit_content(*old(self), part_id)),
            ) ==> ({
                let content = commit_content(*old(self), part_id);
                let h = spec_content_hash(content);
                if sum_sizes(old(self).spec_meta().spec_objects()) + content.len() > u64::MAX {
                    (r matches Err(e) && e is Sql && final(self).spec_meta() == old(self).spec_meta())
                } else {
                    {
                        let rows = final(self).spec_meta().spec_objects();
                        &&& r is Ok
                        &&& rows.drop_last() == old(self).spec_meta().spec_objects()
                        &&& rows.len() == old(self).spec_meta().spec_objects().len() + 1
                        &&& rows.last().id == part_id
                        &&& rows.last().hash@ == h
                        &&& rows.last().size == content.len()
                        &&& rows.last().ty@ == ty@
                        &&& rows.last().subtype@ == subtype@
                        &&& rows.last().added == now
                        &&& r->Ok_0 == rows.last()
                        &&& final(self).spec_meta().spec_links() == old(self).spec_meta().spec_links().push(
                            crate::metadata::Link { bucket: bucket_id, object: part_id },
                        )
                        &&& final(self).spec_meta().spec_buckets() == old(self).spec_meta().spec_buckets()
                        &&& final(self).spec_meta().spec_errors() == old(self).spec_meta().spec_errors()
                    }
                }
            }),
    {
        if self.locks.is_locked(part_id) {
            return Err(Error::WriteLock);
        }
        let pj = match self.find_part_index(part_id) {
            Some(j) => j,
            None => {
                return Err(
                    Error::Internal("failed to move part file into the objects tree".to_owned()),
                );
            },
        };
        proof {
            let k = choose|k: int|
                0 <= k < self.spec_parts_tree().len() && self.spec_parts_tree()[k].id == part_id;
            assert(k == pj as int) by {
                if k != pj as int {
                    assert(self.spec_parts_tree()[k].id != self.spec_parts_tree()[pj as int].id);
                }
            }
            assert(self.part_with_id(part_id) == self.spec_parts_tree()[pj as int]);
        }
        let h = content_hash(self.parts_tree[pj].content.as_slice());
        match self.meta.fetch_object_by_id(part_id) {
            Some(row0) => {
                if !(row0.hash == h) {
                    return Err(
                        Error::Sql(
                            "part identity collides with a committed object of different content".to_owned(),
                        ),
                    );
                }
            },
            None => {},
        }
        let ghost mid0 = *self;
        let entry = self.parts_tree.remove(pj);
        let ghost row_exists = old(self).spec_meta().has_object_id(part_id);
        let ghost content = entry.content@;
        proof {
            assert(content == old(self).part_with_id(part_id).content@);
        }
        let size = entry.content.len() as u64;
        let ghost mut fidx: Option<int> = None;
        if !self.object_row_present(part_id) {
            match self.find_file_index(part_id) {
                Some(fj) => {
                    proof {
                        fidx = Some(fj as int);
                    }
                    self.objects_tree.remove(fj);
                    let hc = h.clone();
                    self.objects_tree.insert(fj, DiskFile {
                        id: part_id,
                        content: entry.content,
                        hash: hc,
                    });
                    proof {
                        let ots = old(self).spec_objects_tree();
                        let ts = self.spec_objects_tree();
                        assert(ts.len() == ots.len());
                        assert forall|k: int|
                            0 <= k < ts.len() && k != fj as int implies ts[k] == ots[k] by {
                            if k < fj as int {
                                assert(ots.remove(fj as int)[k] == ots[k]);
                            } else {
                                assert(ots.remove(fj as int)[k - 1] == ots[k]);
                            }
                        }
                        assert(ts[fj as int].id == part_id);
                        assert(ts[fj as int].content@ == content);
                        assert(ts[fj as int].hash@ == spec_content_hash(content));
                    }
                },
                None => {
                    proof {
                        assert(forall|k: int|
                            0 <= k < self.spec_objects_tree().len()
                                ==> self.spec_objects_tree()[k].id != part_id);
                        assert(self.spec_objects_tree() == old(self).spec_objects_tree());
                    }
                    let hc = h.clone();
                    self.objects_tree.push(DiskFile {
                        id: part_id,
                        content: entry.content,
                        hash: hc,
                    });
                    proof {
                        let ots = old(self).spec_objects_tree();
                        let ts = self.spec_objects_tree();
                        assert(ts.drop_last() =~= ots);
                        assert(ts.len() == ots.len() + 1);
                        assert(ts[ts.len() - 1].id == part_id);
                        assert(ts[ts.len() - 1].content@ == content);
                        assert(ts[ts.len() - 1].hash@ == spec_content_hash(content));
                        assert(forall|k: int| 0 <= k < ots.len() ==> ts[k] == ots[k]);
                        assert(forall|k: int| 0 <= k < ots.len() ==> ots[k].id != part_id);
                    }
                },
            }
        }
        let r = self.meta.add_object(bucket_id, part_id, h.as_str(), size, ty, subtype, now);
        proof {
            assert(self.spec_lock_set() == old(self).spec_lock_set());
            let ops = old(self).spec_parts_tree();
            let ps = self.spec_parts_tree();
            assert(ps =~= ops.remove(pj as int));
            assert forall|k: int| 0 <= k < ps.len() implies ps[k].id != part_id by {
                let sk = if k < pj as int {
                    k
                } else {
                    k + 1
                };
                assert(ps[k] == ops[sk]);
                lemma_part_unique_at(ops, pj as int, part_id);
            }
            assert(!self.has_part(part_id));
            assert forall|a: int, b: int| 0 <= a < b < ps.len() implies ps[a].id != ps[b].id by {
                let sa = if a < pj as int {
                    a
                } else {
                    a + 1
                };
                let sb = if b < pj as int {
                    b
                } else {
                    b + 1
                };
                assert(ps[a] == ops[sa] && ps[b] == ops[sb]);
            }
            assert forall|q: u128| q != part_id implies (self.has_part(q) <==> old(self).has_part(
                q,
            )) && (self.has_part(q) ==> self.part_with_id(q) == old(self).part_with_id(q)) by {
                if self.has_part(q) {
                    let k = choose|k: int| 0 <= k < ps.len() && ps[k].id == q;
                    let sk = if k < pj as int {
                        k
                    } else {
                        k + 1
                    };
                    assert(ops[sk].id == q);
                    lemma_part_unique_at(ops, sk, q);
                    lemma_part_unique_at(ps, k, q);
                    assert(self.part_with_id(q) == ps[k]);
                    assert(old(self).part_with_id(q) == ops[sk]);
                }
                if old(self).has_part(q) {
                    let k = choose|k: int| 0 <= k < ops.len() && ops[k].id == q;
                    assert(k != pj as int);
                    let dk = if k < pj as int {
                        k
                    } else {
                        k - 1
                    };
                    assert(ps[dk] == ops[k]);
                }
            }
            let ots = old(self).spec_objects_tree();
            let ts = self.spec_objects_tree();
            let h_spec = spec_content_hash(content);
            if row_exists {
                assert(ts == ots);
            } else {
                match fidx {
                    Some(fj) => {
                        assert(ts.len() == ots.len());
                        assert(forall|k: int| 0 <= k < ts.len() && k != fj ==> ts[k] == ots[k]);
                        assert(ts[fj].id == part_id && ts[fj].content@ == content && ts[fj].hash@
                            == h_spec);
                        assert(ots[fj].id == part_id);
                    },
                    None => {
                        assert(ts.len() == ots.len() + 1);
                        assert(forall|k: int| 0 <= k < ots.len() ==> ts[k] == ots[k]);
                        assert(ts[ts.len() - 1].id == part_id && ts[ts.len() - 1].content@
                            == content && ts[ts.len() - 1].hash@ == h_spec);
                        assert(forall|k: int| 0 <= k < ots.len() ==> ots[k].id != part_id);
                    },
                }
            }
            // tree uniqueness and hash well-formedness
            assert forall|a: int, b: int| 0 <= a < b < ts.len() implies ts[a].id != ts[b].id by {
                if row_exists {
                    assert(ots[a].id != ots[b].id);
                } else {
                    match fidx {
                        Some(fj) => {
                            assert(ots[a].id != ots[b].id);
                            if a == fj {
                                assert(ts[b] == ots[b]);
                            } else if b == fj {
                                assert(ts[a] == ots[a]);
                            }
                        },
                        None => {
                            if b == ts.len() - 1 {
                                assert(ts[a] == ots[a]);
                                assert(ots[a].id != part_id);
                            } else {
                                assert(ots[a].id != ots[b].id);
                            }
                        },
                    }
                }
            }
            assert forall|j: int|
                0 <= j < ts.len() implies (#[trigger] ts[j]).hash@ =~= spec_content_hash(
                ts[j].content@,
            ) by {
                if row_exists {
                    assert(ots[j].hash@ =~= spec_content_hash(ots[j].content@));
                } else {
                    match fidx {
                        Some(fj) => {
                            if j != fj {
                                assert(ts[j] == ots[j]);
                                assert(ots[j].hash@ =~= spec_content_hash(ots[j].content@));
                            }
                        },
                        None => {
                            if j < ts.len() - 1 {
                                assert(ts[j] == ots[j]);
                                assert(ots[j].hash@ =~= spec_content_hash(ots[j].content@));
                            }
                        },
                    }
                }
            }
            // file observations
            if !row_exists {
                assert(self.has_file(part_id)) by {
                    match fidx {
                        Some(fj) => {
                            assert(ts[fj].id == part_id);
                        },
                        None => {
                            assert(ts[ts.len() - 1].id == part_id);
                        },
                    }
                }
                let pk = choose|pk: int| 0 <= pk < ts.len() && ts[pk].id == part_id;
                match fidx {
                    Some(fj) => {
                        lemma_file_unique_at(ts, fj, part_id);
                        assert(pk == fj);
                    },
                    None => {
                        lemma_file_unique_at(ts, ts.len() - 1, part_id);
                        assert(pk == ts.len() - 1);
                    },
                }
                assert(self.file_with_id(part_id) == ts[pk]);
                assert(self.file_with_id(part_id).content@ == content);
                assert(self.file_with_id(part_id).hash@ == h_spec);
                assert forall|q: u128|
                    q != part_id implies (self.has_file(q) <==> old(self).has_file(q)) && (
                self.has_file(q) ==> self.file_with_id(q) == old(self).file_with_id(q)) by {
                    if self.has_file(q) {
                        let k = choose|k: int| 0 <= k < ts.len() && ts[k].id == q;
                        assert(k != pk);
                        assert(ts[k] == ots[k]);
                        assert(ots[k].id == q);
                        lemma_file_unique_at(ts, k, q);
                        lemma_file_unique_at(ots, k, q);
                        assert(self.file_with_id(q) == ts[k]);
                        assert(old(self).file_with_id(q) == ots[k]);
                    }
                    if old(self).has_file(q) {
                        let k = choose|k: int| 0 <= k < ots.len() && ots[k].id == q;
                        match fidx {
                            Some(fj) => {
                                assert(k != fj);
                                assert(ts[k] == ots[k]);
                            },
                            None => {
                                assert(ts[k] == ots[k]);
                            },
                        }
                    }
                }
            }
            // the dedup association is visible
            let om = old(self).spec_meta();
            if om.has_bucket_id(bucket_id) && om.has_hash(h_spec) {
                let row = om.object_with_hash(h_spec);
                if !is_linked(om.spec_links(), bucket_id, row.id) {
                    let ls = self.spec_meta().spec_links();
                    assert(ls[ls.len() - 1] == (crate::metadata::Link {
                        bucket: bucket_id,
                        object: row.id,
                    }));
                    assert(ls.contains(
                        crate::metadata::Link { bucket: bucket_id, object: row.id },
                    ));
                }
            }
            // every row is still backed
            let rows = self.spec_meta().spec_objects();
            let orows = old(self).spec_meta().spec_objects();
            assert forall|i: int|
                0 <= i < rows.len() implies self.row_backed(#[trigger] rows[i]) by {
                if i < orows.len() {
                    assert(rows[i] == orows[i]);
                    assert(old(self).row_backed(orows[i]));
                    let j = choose|j: int|
                        {
                            &&& 0 <= j < ots.len()
                            &&& (#[trigger] ots[j]).id == orows[i].id
                            &&& ots[j].hash@ == orows[i].hash@
                            &&& ots[j].content@.len() == orows[i].size
                        };
                    if row_exists {
                        assert(ts[j] == ots[j]);
                    } else {
                        match fidx {
                            Some(fj) => {
                                if j == fj {
                                    assert(ots[j].id == part_id);
                                    assert(orows[i].id == part_id);
                                    assert(old(self).spec_meta().has_object_id(part_id));
                                    assert(false);
                                } else {
                                    assert(ts[j] == ots[j]);
                                }
                            },
                            None => {
                                assert(ts[j] == ots[j]);
                            },
                        }
                    }
                } else {
                    assert(rows[i] == rows.last());
                    assert(rows.last().id == part_id);
                    assert(!row_exists);
                    let pk = choose|pk: int| 0 <= pk < ts.len() && ts[pk].id == part_id;
                    assert(ts[pk].content@ == content);
                    assert(ts[pk].hash@ == spec_content_hash(content));
                    assert(rows.last().hash@ == spec_content_hash(content));
                    assert(rows.last().size == content.len());
                }
            }
        }
        r
    }

    /// The metadata of the object `object_id` as bucket `bucket_id` sees
    /// it; `NotFound` exactly when the bucket does not hold the object.
    pub fn get_object_metadata(&self, bucket_id: u128, object_id: u128) -> (r: Result<
        Object,
        Error,
    >)
        requires
            self.wf(),
        ensures
            r is Ok <==> is_linked(self.spec_meta().spec_links(), bucket_id, object_id),
            r matches Ok(o) ==> o == self.spec_meta().object_with_id(object_id),
            r matches Err(e) ==> e is NotFound,
    {
        self.meta.get_object(bucket_id, object_id).ok_or_not_found("Object")
    }

    /// The bytes of object `object_id` as bucket `bucket_id` sees it;
    /// `NotFound` exactly when the bucket does not hold the object.
    ///
    /// A reader never sees a partial blob: either the object is absent
    /// from the bucket, or the full committed content comes back, whose
    /// length and content hash are exactly what the metadata row states.
    pub fn get_object_data(&self, bucket_id: u128, object_id: u128) -> (r: Result<Vec<u8>, Error>)
        requires
            self.wf(),
        ensures
            r is Ok <==> is_linked(self.spec_meta().spec_links(), bucket_id, object_id),
            r matches Err(e) ==> e is NotFound,
            r matches Ok(bytes) ==> {
                let row = self.spec_meta().object_with_id(object_id);
                &&& bytes@ == self.file_with_id(object_id).content@
                &&& bytes@.len() == row.size
                &&& spec_content_hash(bytes@) == row.hash@
            },
    {
        let row = match self.meta.get_object(bucket_id, object_id) {
            Some(row) => row,
            None => {
                return Err(Error::NotFound("Object".to_owned()));
            },
        };
        proof {
            let target = crate::metadata::Link { bucket: bucket_id, object: object_id };
            let li = choose|li: int|
                0 <= li < self.spec_meta().spec_links().len() && self.spec_meta().spec_links()[li]
                    == target;
            assert(self.spec_meta().has_object_id(self.spec_meta().spec_links()[li].object));
            let k = choose|k: int|
                0 <= k < self.spec_meta().spec_objects().len()
                    && self.spec_meta().spec_objects()[k].id == object_id;
            assert(self.row_backed(self.spec_meta().spec_objects()[k]));
            assert(self.spec_meta().spec_objects()[k] == self.spec_meta().object_with_id(
                object_id,
            ));
        }
        match self.find_file_index(object_id) {
            Some(j) => {
                proof {
                    let ts = self.spec_objects_tree();
                    lemma_file_unique_at(ts, j as int, object_id);
                    assert(self.file_with_id(object_id) == ts[j as int]);
                    let b = choose|b: int|
                        {
                            &&& 0 <= b < ts.len()
                            &&& (#[trigger] ts[b]).id == row.id
                            &&& ts[b].hash@ == row.hash@
                            &&& ts[b].content@.len() == row.size
                        };
                    assert(b == j as int) by {
                        if b < j as int {
                            assert(ts[b].id != ts[j as int].id);
                        } else if b > j as int {
                            assert(ts[j as int].id != ts[b].id);
                        }
                    }
                }
                Ok(slice_to_vec(self.objects_tree[j].content.as_slice()))
            },
            None => {
                proof {
                    assert(false);
                }
                Err(Error::NotFound("Object".to_owned()))
            },
        }
    }

    /// Every stored integrity error.
    pub fn get_object_errors(&self) -> (r: Vec<ObjectError>)
        requires
            self.wf(),
        ensures
            r@ == self.spec_meta().spec_errors(),
    {
        self.meta.get_errors()
    }

    /// Removes the association between bucket `bucket_id` and object
    /// `object_id`; the row and its blob stay. `NotFound` exactly when
    /// the bucket does not hold the object.
    pub fn remove_object(&mut self, bucket_id: u128, object_id: u128) -> (r: Result<Object, Error>)
        requires
            old(self).wf(),
        ensures
            final(self).wf(),
            r is Ok <==> is_linked(old(self).spec_meta().spec_links(), bucket_id, object_id),
            r matches Err(e) ==> e is NotFound && *final(self) == *old(self),
            r matches Ok(o) ==> {
                &&& o == old(self).spec_meta().object_with_id(object_id)
                &&& !is_linked(final(self).spec_meta().spec_links(), bucket_id, object_id)
                &&& forall|l: crate::metadata::Link|
                    l != (crate::metadata::Link { bucket: bucket_id, object: object_id }) ==> (
                    final(self).spec_meta().spec_links().contains(l) <==> old(self).spec_meta().spec_links().contains(l))
                &&& final(self).spec_meta().spec_buckets() == old(self).spec_meta().spec_buckets()
                &&& final(self).spec_meta().spec_objects() == old(self).spec_meta().spec_objects()
                &&& final(self).spec_meta().spec_errors() == old(self).spec_meta().spec_errors()
                &&& final(self).unchanged_but_meta(*old(self))
            },
    {
        let r = match self.meta.remove_object(bucket_id, object_id) {
            Some(o) => Ok(o),
            None => Err(Error::NotFound("Bucket or object not found".to_owned())),
        };
        proof {
            self.lemma_meta_change_keeps_backing(*old(self));
        }
        r
    }

    /// Removes the associations between bucket `bucket_id` and every
    /// object in `ids`; rows and blobs stay.
    pub fn remove_objects(&mut self, bucket_id: u128, ids: &Vec<u128>) -> (r: Result<
        RemoveResult,
        Error,
    >)
        requires
            old(self).wf(),
        ensures
            final(self).wf(),
            r is Ok,
            final(self).spec_meta().spec_links() == old(self).spec_meta().spec_links().filter(
                |l: crate::metadata::Link| !(l.bucket == bucket_id && ids@.contains(l.object)),
            ),
            r->Ok_0.objects_removed == count_removed_links(
                old(self).spec_meta().spec_links(),
                bucket_id,
                ids@,
            ),
            r->Ok_0.space_freed == sum_removed_sizes(
                old(self).spec_meta().spec_objects(),
                old(self).spec_meta().spec_links(),
                bucket_id,
                ids@,
            ),
            final(self).spec_meta().spec_buckets() == old(self).spec_meta().spec_buckets(),
            final(self).spec_meta().spec_objects() == old(self).spec_meta().spec_objects(),
            final(self).spec_meta().spec_errors() == old(self).spec_meta().spec_errors(),
            final(self).unchanged_but_meta(*old(self)),
    {
        let r = self.meta.remove_objects(bucket_id, ids);
        proof {
            self.lemma_meta_change_keeps_backing(*old(self));
        }
        Ok(r)
    }

    /// Deletes every orphaned row — rows no bucket references — together
    /// with its committed blob, returning the deleted rows. A pruned
    /// object is gone from every bucket and from the objects tree.
    pub fn prune(&mut self) -> (r: Result<Vec<Object>, Error>)
        requires
            old(self).wf(),
        ensures
            final(self).wf(),
            r is Ok,
            r->Ok_0@ == old(self).spec_meta().spec_objects().filter(
                |o: Object| !is_referenced(old(self).spec_meta().spec_links(), o.id),
            ),
            final(self).spec_meta().spec_objects() == old(self).spec_meta().spec_objects().filter(
                |o: Object| is_referenced(old(self).spec_meta().spec_links(), o.id),
            ),
            final(self).spec_meta().spec_buckets() == old(self).spec_meta().spec_buckets(),
            final(self).spec_meta().spec_links() == old(self).spec_meta().spec_links(),
            final(self).spec_meta().spec_errors() == old(self).spec_meta().spec_errors(),
            forall|k: int|
                0 <= k < r->Ok_0@.len() ==> !final(self).spec_meta().has_object_id(
                    (#[trigger] r->Ok_0@[k]).id,
                ) && !final(self).has_file(r->Ok_0@[k].id),
            final(self).spec_objects_tree() == old(self).spec_objects_tree().filter(
                |f: DiskFile| !contains_row_id(r->Ok_0@, f.id),
            ),
            final(self).spec_parts_tree() == old(self).spec_parts_tree(),
            final(self).spec_locks() == old(self).spec_locks(),
            final(self).spec_archive() == old(self).spec_archive(),
            final(self).spec_archive_task().spec_progress() == old(self).spec_archive_task().spec_progress(),
            final(self).spec_check_task().spec_progress() == old(self).spec_check_task().spec_progress(),
    {
        let removed = self.meta.remove_orphan_objects();
        let mut removed_ids: Vec<u128> = Vec::new();
        let mut k: usize = 0;
        while k < removed.len()
            invariant
                k <= removed@.len(),
                removed_ids@.len() == k,
                forall|a: int| 0 <= a < k ==> removed_ids@[a] == removed@[a].id,
            decreases removed@.len() - k,
        {
            removed_ids.push(removed[k].id);
            k = k + 1;
        }
        proof {
            assert forall|x: u128| removed_ids@.contains(x) <==> contains_row_id(
                removed@,
                x,
            ) by {
                if removed_ids@.contains(x) {
                    let a = choose|a: int| 0 <= a < removed_ids@.len() && removed_ids@[a] == x;
                    assert(removed@[a].id == x);
                }
                if contains_row_id(removed@, x) {
                    let a = choose|a: int| 0 <= a < removed@.len() && removed@[a].id == x;
                    assert(removed_ids@[a] == x);
                }
            }
        }
        let ghost predf = |f: DiskFile| !contains_row_id(removed@, f.id);
        let ghost orig = self.spec_objects_tree();
        let ghost meta_mid = self.spec_meta();
        let mut kept: Vec<DiskFile> = Vec::new();
        let ghost mut done: int = 0;
        proof {
            reveal(Seq::filter);
            assert(orig.take(0) =~= Seq::<DiskFile>::empty());
            assert(self.spec_objects_tree() =~= orig.subrange(0, orig.len() as int));
        }
        while self.objects_tree.len() > 0
            invariant
                0 <= done <= orig.len(),
                predf == (|f: DiskFile| !contains_row_id(removed@, f.id)),
                forall|x: u128| removed_ids@.contains(x) <==> contains_row_id(removed@, x),
                self.spec_objects_tree() == orig.subrange(done, orig.len() as int),
                kept@ == orig.take(done).filter(predf),
                self.spec_meta() == meta_mid,
                self.spec_lock_set() == old(self).spec_lock_set(),
                self.spec_parts_tree() == old(self).spec_parts_tree(),
                self.spec_archive() == old(self).spec_archive(),
                self.spec_about() == old(self).spec_about(),
                self.spec_archive_task() == old(self).spec_archive_task(),
                self.spec_check_task() == old(self).spec_check_task(),
            decreases self.spec_objects_tree().len(),
        {
            let f = self.objects_tree.remove(0);
            proof {
                assert(orig.subrange(done, orig.len() as int)[0] == orig[done]);
                assert(self.spec_objects_tree() =~= orig.subrange(done + 1, orig.len() as int));
                reveal(Seq::filter);
                assert(orig.take(done + 1).drop_last() =~= orig.take(done));
                assert(orig.take(done + 1).last() == orig[done]);
            }
            if !crate::metadata::contains_id(&removed_ids, f.id) {
                kept.push(f);
            }
            proof {
                done = done + 1;
            }
        }
        proof {
            assert(orig.take(orig.len() as int) =~= orig);
        }
        self.objects_tree = kept;
        proof {
            assert(self.spec_lock_set() == old(self).spec_lock_set());
            assert(self.spec_parts_tree() == old(self).spec_parts_tree());
            let ts = self.spec_objects_tree();
            assert(ts == orig.filter(predf));
            assert forall|i: int, j: int|
                0 <= i < j < self.spec_parts_tree().len() implies self.spec_parts_tree()[i].id
                != self.spec_parts_tree()[j].id by {
                assert(old(self).spec_parts_tree()[i].id != old(self).spec_parts_tree()[j].id);
            }
            assert forall|a: int, b: int| 0 <= a < b < ts.len() implies ts[a].id != ts[b].id by {
                crate::metadata::lemma_filter_two_indices(orig, predf, a, b);
            }
            assert forall|a: int|
                0 <= a < ts.len() implies (#[trigger] ts[a]).hash@ =~= spec_content_hash(
                ts[a].content@,
            ) by {
                crate::metadata::lemma_filter_elem_source(orig, predf, a);
                let s = choose|s: int| 0 <= s < orig.len() && orig[s] == ts[a];
                assert(old(self).spec_objects_tree()[s].hash@ =~= spec_content_hash(
                    old(self).spec_objects_tree()[s].content@,
                ));
            }
            let rows = self.spec_meta().spec_objects();
            let orows = old(self).spec_meta().spec_objects();
            let predr = |o: Object| is_referenced(old(self).spec_meta().spec_links(), o.id);
            let predo = |o: Object| !is_referenced(old(self).spec_meta().spec_links(), o.id);
            assert forall|i: int|
                0 <= i < rows.len() implies self.row_backed(#[trigger] rows[i]) by {
                crate::metadata::lemma_filter_elem_source(orows, predr, i);
                let s = choose|s: int| 0 <= s < orows.len() && orows[s] == rows[i];
                assert(old(self).row_backed(orows[s]));
                let j = choose|j: int|
                    {
                        &&& 0 <= j < orig.len()
                        &&& (#[trigger] orig[j]).id == orows[s].id
                        &&& orig[j].hash@ == orows[s].hash@
                        &&& orig[j].content@.len() == orows[s].size
                    };
                orows.lemma_filter_pred(predr, i);
                assert(is_referenced(old(self).spec_meta().spec_links(), rows[i].id));
                assert(!contains_row_id(removed@, orig[j].id)) by {
                    if contains_row_id(removed@, orig[j].id) {
                        let a = choose|a: int|
                            0 <= a < removed@.len() && removed@[a].id == orig[j].id;
                        crate::metadata::lemma_filter_elem_source(orows, predo, a);
                        let s2 = choose|s2: int|
                            0 <= s2 < orows.len() && orows[s2] == removed@[a];
                        assert(orows[s2].id == orows[s].id);
                        assert(s2 == s) by {
                            if s2 < s {
                                assert(orows[s2].id != orows[s].id);
                            } else if s2 > s {
                                assert(orows[s].id != orows[s2].id);
                            }
                        }
                        orows.lemma_filter_pred(predo, a);
                        assert(false);
                    }
                }
                orig.lemma_filter_contains(predf, j);
                assert(ts.contains(orig[j]));
                let n = choose|n: int| 0 <= n < ts.len() && ts[n] == orig[j];
                assert(ts[n].id == rows[i].id);
            }
            assert forall|m: int|
                0 <= m < removed@.len() implies !self.spec_meta().has_object_id(
                (#[trigger] removed@[m]).id,
            ) && !self.has_file(removed@[m].id) by {
                if self.spec_meta().has_object_id(removed@[m].id) {
                    let i = choose|i: int|
                        0 <= i < rows.len() && rows[i].id == removed@[m].id;
                    crate::metadata::lemma_filter_elem_source(orows, predr, i);
                    let s = choose|s: int| 0 <= s < orows.len() && orows[s] == rows[i];
                    crate::metadata::lemma_filter_elem_source(orows, predo, m);
                    let s2 = choose|s2: int| 0 <= s2 < orows.len() && orows[s2] == removed@[m];
                    assert(s2 == s) by {
                        if s2 < s {
                            assert(orows[s2].id != orows[s].id);
                        } else if s2 > s {
                            assert(orows[s].id != orows[s2].id);
                        }
                    }
                    orows.lemma_filter_pred(predr, i);
                    orows.lemma_filter_pred(predo, m);
                    assert(false);
                }
                if self.has_file(removed@[m].id) {
                    let n = choose|n: int| 0 <= n < ts.len() && ts[n].id == removed@[m].id;
                    crate::metadata::lemma_filter_elem_source(orig, predf, n);
                    orig.lemma_filter_pred(predf, n);
                    assert(contains_row_id(removed@, ts[n].id)) by {
                        assert(removed@[m].id == ts[n].id);
                    }
                    assert(false);
                }
            }
        }
        Ok(removed)
    }

    /// Starts an integrity check run: installs a fresh progress over
    /// every object added at or before `now` into the check task's slot,
    /// and hands a snapshot back. Fails with `InProgress`, changing
    /// nothing, exactly when a check is already running.
    pub fn check_start(&mut self, now: u64) -> (r: Result<Progress, Error>)
        requires
            old(self).wf(),
        ensures
            final(self).wf(),
            r is Ok <==> old(self).spec_check_task().spec_progress() is None,
            r is Err ==> *final(self) == *old(self) && r->Err_0 is InProgress,
            r matches Ok(p) ==> started_progress(
                p,
                final(self).spec_check_task().spec_progress(),
                now,
                old(self).spec_meta().spec_objects().filter(|o: Object| o.added <= now).len() as u64,
            ) && final(self).spec_meta() == old(self).spec_meta() && final(self).spec_objects_tree()
                == old(self).spec_objects_tree() && final(self).spec_parts_tree() == old(self).spec_parts_tree() && final(self).spec_locks() == old(self).spec_locks() && final(self).spec_archive() == old(self).spec_archive() && final(self).spec_archive_task().spec_progress() == old(self).spec_archive_task().spec_progress(),
    {
        let total = self.meta.get_object_count(now);
        let progress = Progress::new(now, total);
        let snapshot = progress.clone();
        let r = match self.tasks.check.start(progress) {
            Ok(_) => Ok(snapshot),
            Err(_) => Err(Error::InProgress),
        };
        proof {
            self.lemma_meta_change_keeps_backing(*old(self));
        }
        r
    }

    /// Starts an archive run, exactly as `check_start` does for the
    /// archive task. Fails with `Internal`, changing nothing, exactly
    /// when no archive location is configured; with `InProgress` exactly
    /// when an archive is already running.
    pub fn archive_start(&mut self, now: u64) -> (r: Result<Progress, Error>)
        requires
            old(self).wf(),
        ensures
            final(self).wf(),
            old(self).spec_archive() is None ==> (r matches Err(e) && e is Internal && *final(self)
                == *old(self)),
            old(self).spec_archive() is Some ==> (r is Ok <==> old(self).spec_archive_task().spec_progress() is None),
            old(self).spec_archive() is Some && r is Err ==> *final(self) == *old(self)
                && r->Err_0 is InProgress,
            r matches Ok(p) ==> started_progress(
                p,
                final(self).spec_archive_task().spec_progress(),
                now,
                old(self).spec_meta().spec_objects().filter(|o: Object| o.added <= now).len() as u64,
            ) && final(self).spec_meta() == old(self).spec_meta() && final(self).spec_objects_tree()
                == old(self).spec_objects_tree() && final(self).spec_parts_tree() == old(self).spec_parts_tree() && final(self).spec_locks() == old(self).spec_locks() && final(self).spec_archive() == old(self).spec_archive() && final(self).spec_check_task().spec_progress() == old(self).spec_check_task().spec_progress(),
    {
        if self.archive.is_none() {
            return Err(Error::Internal("archive location not specified".to_owned()));
        }
        let total = self.meta.get_object_count(now);
        let progress = Progress::new(now, total);
        let snapshot = progress.clone();
        let r = match self.tasks.archive.start(progress) {
            Ok(_) => Ok(snapshot),
            Err(_) => Err(Error::InProgress),
        };
        proof {
            self.lemma_meta_change_keeps_backing(*old(self));
        }
        r
    }

    /// Finishes the running check: folds one action verdict per streamed
    /// object into the installed progress, flushes every resulting error
    /// record to the metadata store, marks the run ended at `now`, and
    /// clears the task slot. Fails with `Internal`, changing nothing
    /// observable, when no check is running.
    pub fn run_check(&mut self, outcomes: &Vec<ActionOutcome>, now: u64) -> (r: Result<
        Progress,
        Error,
    >)
        requires
            old(self).wf(),
            old(self).spec_check_task().spec_progress() matches Some(p0) ==> p0.wf()
                && p0.spec_completed() + outcomes@.len() <= p0.spec_total() && p0.spec_messages()
                == Seq::<ObjectError>::empty() && now >= p0.spec_started(),
        ensures
            final(self).wf(),
            r is Ok <==> old(self).spec_check_task().spec_progress() is Some,
            r is Err ==> *final(self) == *old(self) && r->Err_0 is Internal,
            r matches Ok(p) ==> run_outcome(
                p,
                old(self).spec_check_task().spec_progress()->Some_0,
                outcomes@,
                now,
            ) && final(self).spec_check_task().spec_progress() is None && records_view(
                final(self).spec_meta().spec_errors(),
            ) == crate::metadata::apply_error_updates(
                records_view(old(self).spec_meta().spec_errors()),
                outcome_records(outcomes@),
            ) && final(self).spec_meta().spec_buckets() == old(self).spec_meta().spec_buckets()
                && final(self).spec_meta().spec_objects() == old(self).spec_meta().spec_objects()
                && final(self).spec_meta().spec_links() == old(self).spec_meta().spec_links()
                && final(self).spec_objects_tree() == old(self).spec_objects_tree() && final(self).spec_parts_tree() == old(self).spec_parts_tree() && final(self).spec_locks() == old(self).spec_locks() && final(self).spec_archive() == old(self).spec_archive() && final(self).spec_archive_task().spec_progress() == old(self).spec_archive_task().spec_progress(),
    {
        if self.tasks.check.progress().is_none() {
            return Err(Error::Internal("no check is running".to_owned()));
        }
        let mut progress = match self.tasks.check.take() {
            Some(p) => p,
            None => {
                proof {
                    assert(false);
                }
                return Err(Error::Internal("no check is running".to_owned()));
            },
        };
        let records = run_object_stream(&mut progress, outcomes);
        self.meta.update_object_errors(&records);
        progress.finish(now);
        proof {
            self.lemma_meta_change_keeps_backing(*old(self));
        }
        Ok(progress)
    }

    /// Finishes the running archive run, exactly as `run_check` does for
    /// the check task.
    pub fn run_archive(&mut self, outcomes: &Vec<ActionOutcome>, now: u64) -> (r: Result<
        Progress,
        Error,
    >)
        requires
            old(self).wf(),
            old(self).spec_archive_task().spec_progress() matches Some(p0) ==> p0.wf()
                && p0.spec_completed() + outcomes@.len() <= p0.spec_total() && p0.spec_messages()
                == Seq::<ObjectError>::empty() && now >= p0.spec_started(),
        ensures
            final(self).wf(),
            r is Ok <==> old(self).spec_archive_task().spec_progress() is Some,
            r is Err ==> *final(self) == *old(self) && r->Err_0 is Internal,
            r matches Ok(p) ==> run_outcome(
                p,
                old(self).spec_archive_task().spec_progress()->Some_0,
                outcomes@,
                now,
            ) && final(self).spec_archive_task().spec_progress() is None && records_view(
                final(self).spec_meta().spec_errors(),
            ) == crate::metadata::apply_error_updates(
                records_view(old(self).spec_meta().spec_errors()),
                outcome_records(outcomes@),
            ) && final(self).spec_meta().spec_buckets() == old(self).spec_meta().spec_buckets()
                && final(self).spec_meta().spec_objects() == old(self).spec_meta().spec_objects()
                && final(self).spec_meta().spec_links() == old(self).spec_meta().spec_links()
                && final(self).spec_objects_tree() == old(self).spec_objects_tree() && final(self).spec_parts_tree() == old(self).spec_parts_tree() && final(self).spec_locks() == old(self).spec_locks() && final(self).spec_archive() == old(self).spec_archive() && final(self).spec_check_task().spec_progress() == old(self).spec_check_task().spec_progress(),
    {
        if self.tasks.archive.progress().is_none() {
            return Err(Error::Internal("no archive is running".to_owned()));
        }
        let mut progress = match self.tasks.archive.take() {
            Some(p) => p,
            None => {
                proof {
                    assert(false);
                }
                return Err(Error::Internal("no archive is running".to_owned()));
            },
        };
        let records = run_object_stream(&mut progress, outcomes);
        self.meta.update_object_errors(&records);
        progress.finish(now);
        proof {
            self.lemma_meta_change_keeps_backing(*old(self));
        }
        Ok(progress)
    }

    /// The rows a background run walks: every object added at or before
    /// the run's start, in row order.
    pub fn stream_objects(&self, before: u64) -> (r: Vec<Object>)
        requires
            self.wf(),
        ensures
            r@ == self.spec_meta().spec_objects().filter(|o: Object| o.added <= before),
    {
        self.meta.stream_objects(before)
    }

    /// Whether a metadata row with identity `id` exists.
    fn object_row_present(&self, id: u128) -> (r: bool)
        requires
            self.spec_meta().wf(),
        ensures
            r == self.spec_meta().has_object_id(id),
    {
        self.meta.fetch_object_by_id(id).is_some()
    }

    /// Closes an open part, releasing its write lock. The staged bytes
    /// stay for a later resume or commit.
    pub fn release_part(&mut self, part: Part)
        requires
            old(self).wf(),
        ensures
            final(self).wf(),
            final(self).spec_locks() == old(self).spec_locks().remove(part.spec_id()),
            final(self).spec_meta() == old(self).spec_meta(),
            final(self).spec_objects_tree() == old(self).spec_objects_tree(),
            final(self).spec_parts_tree() == old(self).spec_parts_tree(),
            final(self).spec_archive() == old(self).spec_archive(),
            final(self).spec_archive_task().spec_progress() == old(self).spec_archive_task().spec_progress(),
            final(self).spec_check_task().spec_progress() == old(self).spec_check_task().spec_progress(),
    {
        let id = part.id();
        self.locks.release(id);
        proof {
            self.lemma_meta_change_keeps_backing(*old(self));
        }
    }
}

/// What a freshly started background run looks like: idle counters over
/// `total` objects, started at `now`, with the same run installed in the
/// task slot.
pub open spec fn started_progress(p: Progress, installed: Option<Progress>, now: u64, total: u64) -> bool {
    &&& p.wf()
    &&& p.spec_started() == now
    &&& p.spec_ended() is None
    &&& p.spec_total() == total
    &&& p.spec_completed() == 0
    &&& p.spec_errors() == 0
    &&& p.spec_messages() == Seq::<ObjectError>::empty()
    &&& installed matches Some(q) && crate::progress::progress_eq(q, p)
}

/// What a finished background run reports, given the run it started
/// from and the per-object verdicts it folded in.
pub open spec fn run_outcome(p: Progress, p0: Progress, outcomes: Seq<ActionOutcome>, now: u64) -> bool {
    &&& p.wf()
    &&& p.spec_started() == p0.spec_started()
    &&& p.spec_total() == p0.spec_total()
    &&& p.spec_completed() == p0.spec_completed() + outcomes.len()
    &&& p.spec_errors() == p0.spec_errors() + count_failures(outcomes)
    &&& p.spec_ended() == Some(now)
    &&& p.spec_messages() == Seq::<ObjectError>::empty()
}

/// Whether some row in `rows` has identity `id`.
pub open spec fn contains_row_id(rows: Seq<Object>, id: u128) -> bool {
    exists|i: int| 0 <= i < rows.len() && rows[i].id == id
}

/// A part is ready to commit: it is staged and no writer holds it.
pub open spec fn commit_ready(s: ObjectStore, part_id: u128) -> bool {
    !s.spec_locks().contains(part_id) && s.has_part(part_id)
}

/// The bytes staged for a part.
pub open spec fn commit_content(s: ObjectStore, part_id: u128) -> Seq<u8> {
    s.part_with_id(part_id).content@
}

/// A staged part collides with a committed object of different content.
pub open spec fn commit_conflict(s: ObjectStore, part_id: u128) -> bool {
    s.spec_meta().has_object_id(part_id) && s.spec_meta().object_with_id(part_id).hash@
        != spec_content_hash(commit_content(s, part_id))
}

/// The space the store reports counts every blob exactly once: object
/// rows never share a content hash and never share an identity, so the
/// sum over the referenced rows that `get_totals` reports is a sum over
/// distinct blobs.
pub proof fn lemma_space_counts_distinct_objects(s: ObjectStore)
    requires
        s.wf(),
    ensures
        forall|i: int, j: int|
            0 <= i < j < s.spec_meta().spec_objects().len() ==> s.spec_meta().spec_objects()[i].hash@
                != s.spec_meta().spec_objects()[j].hash@ && s.spec_meta().spec_objects()[i].id
                != s.spec_meta().spec_objects()[j].id,
{
}

/// With unique identifiers, position `k` is the only position holding
/// identifier `q`.
proof fn lemma_file_unique_at(s: Seq<DiskFile>, k: int, q: u128)
    requires
        forall|i: int, j: int| 0 <= i < j < s.len() ==> s[i].id != s[j].id,
        0 <= k < s.len(),
        s[k].id == q,
    ensures
        forall|k2: int| 0 <= k2 < s.len() && s[k2].id == q ==> k2 == k,
{
    assert forall|k2: int| 0 <= k2 < s.len() && s[k2].id == q implies k2 == k by {
        if k2 < k {
            assert(s[k2].id != s[k].id);
        } else if k2 > k {
            assert(s[k].id != s[k2].id);
        }
    }
}

/// With unique identifiers, position `k` is the only position holding
/// identifier `q`.
proof fn lemma_part_unique_at(s: Seq<PartFile>, k: int, q: u128)
    requires
        forall|i: int, j: int| 0 <= i < j < s.len() ==> s[i].id != s[j].id,
        0 <= k < s.len(),
        s[k].id == q,
    ensures
        forall|k2: int| 0 <= k2 < s.len() && s[k2].id == q ==> k2 == k,
{
    assert forall|k2: int| 0 <= k2 < s.len() && s[k2].id == q implies k2 == k by {
        if k2 < k {
            assert(s[k2].id != s[k].id);
        } else if k2 > k {
            assert(s[k].id != s[k2].id);
        }
    }
}

} // verus!
