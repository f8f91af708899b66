//! The directory of segment files, as a value.
//!
//! The engine works on a directory held in memory: a list of files,
//! each with its name, its bytes, and the length of the prefix already
//! on stable storage. A host program loads a real directory into this
//! form on open and mirrors every change back to disk; dropping the
//! value models a process exit, and truncating every file to its
//! durable prefix models a crash.

use vstd::prelude::*;
use crate::model::{files_wf, names_distinct, FileModel};
use vstd::string::StringSliceAdditionalSpecFns;

verus! {

/// One file of the directory.
pub struct StoredFile {
    /// The file's name, as bytes.
    pub name: Vec<u8>,
    /// The file's bytes.
    pub data: Vec<u8>,
    /// How many leading bytes are on stable storage.
    pub durable_len: usize,
}

impl View for StoredFile {
    type V = FileModel;

    open spec fn view(&self) -> FileModel {
        FileModel { name: self.name@, data: self.data@, durable_len: self.durable_len as nat }
    }
}

/// The models of a list of stored files.
pub open spec fn files_seq_view(fs: Seq<StoredFile>) -> Seq<FileModel> {
    Seq::new(fs.len(), |i: int| fs[i]@)
}

/// A directory: a list of files with pairwise distinct names.
pub struct Directory {
    pub(crate) files: Vec<StoredFile>,
}

impl View for Directory {
    type V = Seq<FileModel>;

    closed spec fn view(&self) -> Seq<FileModel> {
        files_seq_view(self.files@)
    }
}

/// The first index whose file bears the name, or `-1`.
pub open spec fn name_index(fs: Seq<FileModel>, name: Seq<u8>) -> int
    decreases fs.len(),
{
    if fs.len() == 0 {
        -1
    } else if fs[0].name == name {
        0
    } else {
        let r = name_index(fs.drop_first(), name);
        if r < 0 {
            -1
        } else {
            r + 1
        }
    }
}

/// What adding a file to a directory means: a file of that name is
/// replaced in place, a fresh name goes at the end. The new file is
/// wholly on stable storage.
pub open spec fn spec_add_file(fs: Seq<FileModel>, name: Seq<u8>, data: Seq<u8>) -> Seq<FileModel> {
    let fm = FileModel { name: name, data: data, durable_len: data.len() };
    let i = name_index(fs, name);
    if i < 0 {
        fs.push(fm)
    } else {
        fs.update(i, fm)
    }
}

/// Where `name_index` points, the name is found, and nowhere before.
pub proof fn lemma_name_index(fs: Seq<FileModel>, name: Seq<u8>)
    ensures
        name_index(fs, name) < fs.len(),
        name_index(fs, name) >= -1,
        name_index(fs, name) >= 0 ==> fs[name_index(fs, name)].name == name,
        name_index(fs, name) < 0 ==> forall|j: int| 0 <= j < fs.len() ==> (#[trigger] fs[j]).name
            != name,
        forall|j: int|
            0 <= j < name_index(fs, name) ==> (#[trigger] fs[j]).name != name,
    decreases fs.len(),
{
    if fs.len() > 0 && fs[0].name != name {
        lemma_name_index(fs.drop_first(), name);
        assert forall|j: int| 0 <= j < fs.len() && name_index(fs, name) < 0 implies (
        #[trigger] fs[j]).name != name by {
            if j > 0 {
                assert(fs.drop_first()[j - 1].name != name);
            }
        }
        assert forall|j: int| 0 <= j < name_index(fs, name) implies (#[trigger] fs[j]).name
            != name by {
            if j > 0 {
                assert(fs.drop_first()[j - 1].name != name);
            }
        }
    }
}

/// A found first occurrence is where `name_index` points.
pub proof fn lemma_name_index_is_first(fs: Seq<FileModel>, name: Seq<u8>, i: int)
    requires
        0 <= i < fs.len(),
        fs[i].name == name,
        forall|j: int| 0 <= j < i ==> (#[trigger] fs[j]).name != name,
    ensures
        name_index(fs, name) == i,
    decreases fs.len(),
{
    if i > 0 {
        assert(fs[0].name != name);
        assert(fs.drop_first()[i - 1].name == name);
        assert forall|j: int| 0 <= j < i - 1 implies (#[trigger] fs.drop_first()[j]).name != name by {
            assert(fs[j + 1].name != name);
        }
        lemma_name_index_is_first(fs.drop_first(), name, i - 1);
    }
}

impl Directory {
    /// All files well-formed, no two names alike.
    pub open spec fn wf(&self) -> bool {
        files_wf(self@)
    }

    /// An empty directory.
    pub fn new() -> (r: Self)
        ensures
            r@ == Seq::<FileModel>::empty(),
            r.wf(),
    {
        let d = Directory { files: Vec::new() };
        proof {
            assert(d@ =~= Seq::<FileModel>::empty());
        }
        d
    }

    /// The number of files.
    pub fn file_count(&self) -> (r: usize)
        ensures
            r == self@.len(),
    {
        self.files.len()
    }

    /// The name of the file at an index.
    pub fn name_at(&self, i: usize) -> (r: &Vec<u8>)
        requires
            i < self@.len(),
        ensures
            r@ == self@[i as int].name,
    {
        &self.files[i].name
    }

    /// The bytes of the file at an index.
    pub fn data_at(&self, i: usize) -> (r: &Vec<u8>)
        requires
            i < self@.len(),
        ensures
            r@ == self@[i as int].data,
    {
        &self.files[i].data
    }

    /// Write a whole file: replace a file of the same name, or add a
    /// new one. The file counts as wholly on stable storage.
    pub fn add_file(&mut self, name: &str, data: Vec<u8>)
        requires
            old(self).wf(),
        ensures
            final(self).wf(),
            final(self)@ == spec_add_file(old(self)@, name.spec_bytes(), data@),
    {
        let name_bytes = name.as_bytes_vec();
        self.add_file_bytes(name_bytes, data);
    }

    /// Write a whole file under a raw byte name.
    pub fn add_file_bytes(&mut self, name: Vec<u8>, data: Vec<u8>)
        requires
            old(self).wf(),
        ensures
            final(self).wf(),
            final(self)@ == spec_add_file(old(self)@, name@, data@),
    {
        let ghost fs0 = self@;
        let ghost nm = name@;
        let dlen = data.len();
        let found = find_name_index(&self.files, name.as_slice());
        match found {
            Some(i) => {
                proof {
                    lemma_name_index_is_first(fs0, nm, i as int);
                }
                let f = StoredFile { name: name, data: data, durable_len: dlen };
                let ghost fm = f@;
                self.files[i] = f;
                proof {
                    assert(self@ =~= fs0.update(i as int, fm));
                    assert(self@ == spec_add_file(fs0, nm, fm.data));
                    assert forall|a: int, b: int| 0 <= a < b < self@.len() implies (
                    #[trigger] self@[a]).name != (#[trigger] self@[b]).name by {
                        if a != i && b != i {
                            assert(fs0[a].name != fs0[b].name);
                        } else if a == i {
                            assert(fs0[b].name != nm) by {
                                if fs0[b].name == nm && b != i {
                                    assert(fs0[i as int].name == fs0[b].name);
                                }
                            }
                        } else {
                            assert(fs0[a].name != nm) by {
                                if fs0[a].name == nm && a != i {
                                    assert(fs0[a].name == fs0[i as int].name);
                                }
                            }
                        }
                    }
                }
            },
            None => {
                proof {
                    lemma_name_index(fs0, nm);
                    if name_index(fs0, nm) >= 0 {
                        assert(fs0[name_index(fs0, nm)].name == nm);
                        assert(false);
                    }
                }
                let f = StoredFile { name: name, data: data, durable_len: dlen };
                let ghost fm = f@;
                self.files.push(f);
                proof {
                    assert(self@ =~= fs0.push(fm));
                    assert(self@ == spec_add_file(fs0, nm, fm.data));
                    assert forall|a: int, b: int| 0 <= a < b < self@.len() implies (
                    #[trigger] self@[a]).name != (#[trigger] self@[b]).name by {
                        if b < fs0.len() {
                            assert(fs0[a].name != fs0[b].name);
                        } else {
                            assert(self@[b].name == nm);
                            assert(fs0[a].name != nm);
                        }
                    }
                }
            },
        }
    }
}

/// The first file bearing a name, scanning in directory order.
pub(crate) fn find_name_index(files: &Vec<StoredFile>, name: &[u8]) -> (r: Option<usize>)
    ensures
        match r {
            Some(i) => {
                &&& i < files@.len()
                &&& files_seq_view(files@)[i as int].name == name@
                &&& forall|j: int|
                    0 <= j < i ==> (#[trigger] files_seq_view(files@)[j]).name != name@
            },
            None => forall|j: int|
                0 <= j < files@.len() ==> (#[trigger] files_seq_view(files@)[j]).name != name@,
        },
{
    let n = files.len();
    let mut i: usize = 0;
    while i < n
        invariant
            0 <= i <= n,
            n == files@.len(),
            forall|j: int| 0 <= j < i ==> (#[trigger] files_seq_view(files@)[j]).name != name@,
        decreases n - i,
    {
        if crate::codec::bytes_equal(files[i].name.as_slice(), name) {
            proof {
                assert(files_seq_view(files@)[i as int].name == name@);
            }
            return Some(i);
        }
        proof {
            assert(files_seq_view(files@)[i as int].name != name@);
        }
        i = i + 1;
    }
    None
}

} // verus!

verus! {

/// A directory's view is the sequence of its files' models.
pub(crate) proof fn lemma_directory_view(d: &Directory)
    ensures
        d@ == files_seq_view(d.files@),
{
}

} // verus!
