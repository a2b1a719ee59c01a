//! In-memory storage backend: a path-keyed file map plus a record of created
//! directories. Failure injection through `fail_paths` lets storage faults be
//! exercised: any write or directory creation whose target is listed fails.
use vstd::prelude::*;
use crate::bytes::{bytes_eq, contains_bytes, copy_bytes, has_bytes, opt_bytes, views};

verus! {

pub struct FileEntry {
    pub path: Vec<u8>,
    pub data: Vec<u8>,
}

pub struct FileStore {
    pub files: Vec<FileEntry>,
    pub dirs: Vec<Vec<u8>>,
    pub fail_paths: Vec<Vec<u8>>,
}

/// First-match lookup by path.
pub open spec fn file_lookup(files: Seq<FileEntry>, p: Seq<u8>) -> Option<Seq<u8>>
    decreases files.len(),
{
    if files.len() == 0 {
        None
    } else if files[0].path@ == p {
        Some(files[0].data@)
    } else {
        file_lookup(files.drop_first(), p)
    }
}

/// A successful lookup means the path occurs in the store.
pub proof fn lemma_lookup_in_paths(files: Seq<FileEntry>, p: Seq<u8>)
    requires
        file_lookup(files, p).is_some(),
    ensures
        exists|i: int| 0 <= i < files.len() && files[i].path@ == p,
    decreases files.len(),
{
    if files.len() == 0 {
    } else if files[0].path@ == p {
        assert(files[0].path@ == p);
    } else {
        lemma_lookup_in_paths(files.drop_first(), p);
        let i = choose|i: int| 0 <= i < files.drop_first().len() && files.drop_first()[i].path@
            == p;
        assert(files[i + 1].path@ == p);
    }
}

impl FileStore {
    /// Content stored under a path, if any.
    pub open spec fn lookup(self, p: Seq<u8>) -> Option<Seq<u8>> {
        file_lookup(self.files@, p)
    }

    /// Whether a write or directory creation at `p` is set up to fail.
    pub open spec fn fails_on(self, p: Seq<u8>) -> bool {
        has_bytes(self.fail_paths@, p)
    }

    /// The paths present in the store, newest first.
    pub open spec fn path_list(self) -> Seq<Seq<u8>> {
        self.files@.map_values(|e: FileEntry| e.path@)
    }

    pub fn new() -> (r: FileStore)
        ensures
            r.files@.len() == 0,
            r.dirs@.len() == 0,
            r.fail_paths@.len() == 0,
    {
        FileStore { files: Vec::new(), dirs: Vec::new(), fail_paths: Vec::new() }
    }

    /// Insert content under a path, shadowing any earlier entry.
    pub fn add_file(&mut self, path: Vec<u8>, data: Vec<u8>)
        ensures
            final(self).files@.len() == old(self).files@.len() + 1,
            final(self).files@[0].path@ == path@,
            final(self).files@[0].data@ == data@,
            final(self).files@.drop_first() == old(self).files@,
            final(self).dirs == old(self).dirs,
            final(self).fail_paths == old(self).fail_paths,
            forall|q: Seq<u8>|
                #[trigger] final(self).lookup(q) == if q == path@ {
                    Some(data@)
                } else {
                    old(self).lookup(q)
                },
    {
        self.files.insert(0, FileEntry { path, data });
        proof {
            assert(self.files@.drop_first() =~= old(self).files@);
        }
    }

    /// Mark a path so that writes and directory creations on it fail.
    pub fn add_fail_path(&mut self, path: Vec<u8>)
        ensures
            views(final(self).fail_paths@) == views(old(self).fail_paths@).push(path@),
            final(self).files == old(self).files,
            final(self).dirs == old(self).dirs,
    {
        self.fail_paths.push(path);
        proof {
            assert(views(self.fail_paths@) =~= views(old(self).fail_paths@).push(path@));
        }
    }

    pub fn exists_file(&self, p: &Vec<u8>) -> (r: bool)
        ensures
            r == self.lookup(p@).is_some(),
    {
        proof {
            assert(self.files@.skip(0) =~= self.files@);
        }
        let mut i: usize = 0;
        while i < self.files.len()
            invariant
                i <= self.files.len(),
                self.lookup(p@) == file_lookup(self.files@.skip(i as int), p@),
            decreases self.files.len() - i,
        {
            if bytes_eq(&self.files[i].path, p) {
                return true;
            }
            proof {
                assert(self.files@.skip(i as int).drop_first() =~= self.files@.skip(i as int + 1));
            }
            i = i + 1;
        }
        false
    }

    pub fn read_file(&self, p: &Vec<u8>) -> (r: Option<Vec<u8>>)
        ensures
            opt_bytes(r) == self.lookup(p@),
    {
        proof {
            assert(self.files@.skip(0) =~= self.files@);
        }
        let mut i: usize = 0;
        while i < self.files.len()
            invariant
                i <= self.files.len(),
                self.lookup(p@) == file_lookup(self.files@.skip(i as int), p@),
            decreases self.files.len() - i,
        {
            if bytes_eq(&self.files[i].path, p) {
                return Some(copy_bytes(&self.files[i].data));
            }
            proof {
                assert(self.files@.skip(i as int).drop_first() =~= self.files@.skip(i as int + 1));
            }
            i = i + 1;
        }
        None
    }

    /// Store content under a path; fails without any change when the path is
    /// marked as failing.
    pub fn write_file(&mut self, path: &Vec<u8>, data: &Vec<u8>) -> (ok: bool)
        ensures
            ok == !old(self).fails_on(path@),
            !ok ==> *final(self) == *old(self),
            ok ==> {
                &&& final(self).files@.len() == old(self).files@.len() + 1
                &&& final(self).files@[0].path@ == path@
                &&& final(self).files@[0].data@ == data@
                &&& final(self).files@.drop_first() == old(self).files@
                &&& final(self).dirs == old(self).dirs
                &&& final(self).fail_paths == old(self).fail_paths
                &&& forall|q: Seq<u8>|
                    #[trigger] final(self).lookup(q) == if q == path@ {
                        Some(data@)
                    } else {
                        old(self).lookup(q)
                    }
            },
    {
        if contains_bytes(&self.fail_paths, path) {
            return false;
        }
        self.add_file(copy_bytes(path), copy_bytes(data));
        true
    }

    /// Record a directory creation; fails without any change when the path is
    /// marked as failing.
    pub fn create_dir_all(&mut self, p: &Vec<u8>) -> (ok: bool)
        ensures
            ok == !old(self).fails_on(p@),
            !ok ==> *final(self) == *old(self),
            ok ==> {
                &&& views(final(self).dirs@) == views(old(self).dirs@).push(p@)
                &&& final(self).files == old(self).files
                &&& final(self).fail_paths == old(self).fail_paths
            },
    {
        if contains_bytes(&self.fail_paths, p) {
            return false;
        }
        self.dirs.push(copy_bytes(p));
        proof {
            assert(views(self.dirs@) =~= views(old(self).dirs@).push(p@));
        }
        true
    }
}

} // verus!
