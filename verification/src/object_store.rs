use vstd::prelude::*;
use crate::ident::ImageId;
use crate::image_format::ImageFormat;

verus! {

// ---------------------------------------------------------------------------
// The object store: one stored object per (identifier, format) derivative.
//
// The store is keyed by the pair, from which the backing filename is derived;
// the well-formedness invariant keeps the keys unique, so each derivative has
// at most one object.
// ---------------------------------------------------------------------------

/// One stored object: the encoded bytes of a derivative.
#[derive(Debug)]
pub struct StoredFile {
    pub id: ImageId,
    pub format: ImageFormat,
    pub bytes: Vec<u8>,
}

/// Whether an object is stored under `(id, format)`.
pub open spec fn has_file(files: Seq<StoredFile>, id: ImageId, format: ImageFormat) -> bool {
    exists|i: int| #![trigger files[i]] 0 <= i < files.len() && files[i].id == id && files[i].format == format
}

/// The bytes stored under `(id, format)`, where an object is stored there.
pub open spec fn file_bytes(files: Seq<StoredFile>, id: ImageId, format: ImageFormat) -> Seq<u8> {
    let i = choose|i: int| #![trigger files[i]] 0 <= i < files.len() && files[i].id == id && files[i].format == format;
    files[i].bytes@
}

/// No two stored objects share a key.
pub open spec fn files_unique(files: Seq<StoredFile>) -> bool {
    forall|i: int, j: int| #![trigger files[i], files[j]] 0 <= i < j < files.len()
        ==> !(files[i].id == files[j].id && files[i].format == files[j].format)
}

/// Under unique keys, the object at a matching index is the object of its key.
pub proof fn lemma_file_bytes_at(files: Seq<StoredFile>, id: ImageId, format: ImageFormat, i: int)
    requires
        files_unique(files),
        0 <= i < files.len(),
        files[i].id == id,
        files[i].format == format,
    ensures
        has_file(files, id, format),
        file_bytes(files, id, format) == files[i].bytes@,
{
    let j = choose|j: int| #![trigger files[j]] 0 <= j < files.len() && files[j].id == id && files[j].format == format;
}

/// The filesystem-backed store of encoded derivatives, rooted at a directory.
#[derive(Debug)]
pub struct ObjectStore {
    pub image_location: String,
    pub files: Vec<StoredFile>,
}

impl ObjectStore {
    pub open spec fn wf(&self) -> bool {
        files_unique(self.files@)
    }

    pub fn new(image_location: String) -> (r: ObjectStore)
        ensures
            r.wf(),
            r.files@.len() == 0,
            r.image_location@ == image_location@,
    {
        ObjectStore { image_location, files: Vec::new() }
    }

    /// The index of the object stored under `(id, format)`, if any.
    fn find(&self, id: &ImageId, format: ImageFormat) -> (r: Option<usize>)
        ensures
            r is Some ==> 0 <= r->0 < self.files@.len()
                && self.files@[r->0 as int].id == *id
                && self.files@[r->0 as int].format == format,
            r is None ==> !has_file(self.files@, *id, format),
    {
        let mut i: usize = 0;
        while i < self.files.len()
            invariant
                0 <= i <= self.files@.len(),
                forall|j: int| #![trigger self.files@[j]] 0 <= j < i
                    ==> !(self.files@[j].id == *id && self.files@[j].format == format),
            decreases self.files@.len() - i,
        {
            if self.files[i].id == *id && self.files[i].format == format {
                return Some(i);
            }
            i = i + 1;
        }
        None
    }

    /// Whether a file for the derivative exists.
    pub fn exists_file(&self, id: &ImageId, format: ImageFormat) -> (r: bool)
        ensures
            r == has_file(self.files@, *id, format),
    {
        match self.find(id, format) {
            Some(i) => {
                proof {
                    assert(self.files@[i as int].id == *id);
                }
                true
            },
            None => false,
        }
    }

    /// Reads the stored bytes of the derivative, if a file for it exists.
    pub fn read(&self, id: &ImageId, format: ImageFormat) -> (r: Option<Vec<u8>>)
        requires
            self.wf(),
        ensures
            r is Some <==> has_file(self.files@, *id, format),
            r is Some ==> r->0@ == file_bytes(self.files@, *id, format),
    {
        match self.find(id, format) {
            Some(i) => {
                proof {
                    lemma_file_bytes_at(self.files@, *id, format, i as int);
                }
                Some(self.files[i].bytes.clone())
            },
            None => None,
        }
    }

    /// Writes the bytes of a derivative, replacing any previous object under
    /// the same key. Other keys are untouched.
    pub fn write(&mut self, id: ImageId, format: ImageFormat, bytes: Vec<u8>)
        requires
            old(self).wf(),
        ensures
            final(self).wf(),
            final(self).image_location == old(self).image_location,
            has_file(final(self).files@, id, format),
            file_bytes(final(self).files@, id, format) == bytes@,
            forall|oid: ImageId, of: ImageFormat| !(oid == id && of == format)
                ==> #[trigger] has_file(final(self).files@, oid, of) == has_file(old(self).files@, oid, of),
            forall|oid: ImageId, of: ImageFormat|
                #![trigger file_bytes(final(self).files@, oid, of)]
                !(oid == id && of == format) && has_file(old(self).files@, oid, of)
                    ==> file_bytes(final(self).files@, oid, of) == file_bytes(old(self).files@, oid, of),
    {
        let entry = StoredFile { id, format, bytes };
        let found = self.find(&id, format);
        match found {
            Some(i) => {
                self.files[i] = entry;
                proof {
                    let fin = self.files@;
                    let prev = old(self).files@;
                    assert(files_unique(fin)) by {
                        assert(forall|a: int, b: int| #![trigger fin[a], fin[b]] 0 <= a < b < fin.len()
                            ==> fin[a].id == prev[a].id && fin[a].format == prev[a].format
                                && fin[b].id == prev[b].id && fin[b].format == prev[b].format);
                    }
                    lemma_file_bytes_at(fin, id, format, i as int);
                    assert forall|oid: ImageId, of: ImageFormat| !(oid == id && of == format) implies
                        #[trigger] has_file(fin, oid, of) == has_file(prev, oid, of) by {
                        if has_file(prev, oid, of) {
                            let j = choose|j: int| #![trigger prev[j]] 0 <= j < prev.len()
                                && prev[j].id == oid && prev[j].format == of;
                            assert(fin[j] == prev[j]);
                        }
                        if has_file(fin, oid, of) {
                            let j = choose|j: int| #![trigger fin[j]] 0 <= j < fin.len()
                                && fin[j].id == oid && fin[j].format == of;
                            assert(prev[j] == fin[j]);
                        }
                    }
                    assert forall|oid: ImageId, of: ImageFormat|
                        !(oid == id && of == format) && has_file(prev, oid, of) implies
                        #[trigger] file_bytes(fin, oid, of) == file_bytes(prev, oid, of) by {
                        let j = choose|j: int| #![trigger prev[j]] 0 <= j < prev.len()
                            && prev[j].id == oid && prev[j].format == of;
                        assert(fin[j] == prev[j]);
                        lemma_file_bytes_at(fin, oid, of, j);
                        lemma_file_bytes_at(prev, oid, of, j);
                    }
                }
            },
            None => {
                self.files.push(entry);
                proof {
                    let fin = self.files@;
                    let prev = old(self).files@;
                    assert(files_unique(fin)) by {
                        assert(forall|a: int| 0 <= a < prev.len() ==> fin[a] == prev[a]);
                        assert(fin[prev.len() as int].id == id && fin[prev.len() as int].format == format);
                    }
                    lemma_file_bytes_at(fin, id, format, prev.len() as int);
                    assert forall|oid: ImageId, of: ImageFormat| !(oid == id && of == format) implies
                        #[trigger] has_file(fin, oid, of) == has_file(prev, oid, of) by {
                        if has_file(prev, oid, of) {
                            let j = choose|j: int| #![trigger prev[j]] 0 <= j < prev.len()
                                && prev[j].id == oid && prev[j].format == of;
                            assert(fin[j] == prev[j]);
                        }
                        if has_file(fin, oid, of) {
                            let j = choose|j: int| #![trigger fin[j]] 0 <= j < fin.len()
                                && fin[j].id == oid && fin[j].format == of;
                            assert(j < prev.len());
                            assert(prev[j] == fin[j]);
                        }
                    }
                    assert forall|oid: ImageId, of: ImageFormat|
                        !(oid == id && of == format) && has_file(prev, oid, of) implies
                        #[trigger] file_bytes(fin, oid, of) == file_bytes(prev, oid, of) by {
                        let j = choose|j: int| #![trigger prev[j]] 0 <= j < prev.len()
                            && prev[j].id == oid && prev[j].format == of;
                        assert(fin[j] == prev[j]);
                        lemma_file_bytes_at(fin, oid, of, j);
                        lemma_file_bytes_at(prev, oid, of, j);
                    }
                }
            },
        }
    }

    /// Removes the object of a derivative; a missing file is left reported
    /// by the `false` result, with the store unchanged.
    pub fn remove(&mut self, id: &ImageId, format: ImageFormat) -> (r: bool)
        requires
            old(self).wf(),
        ensures
            final(self).wf(),
            final(self).image_location == old(self).image_location,
            r == has_file(old(self).files@, *id, format),
            !has_file(final(self).files@, *id, format),
            forall|oid: ImageId, of: ImageFormat| !(oid == *id && of == format)
                ==> #[trigger] has_file(final(self).files@, oid, of) == has_file(old(self).files@, oid, of),
            forall|oid: ImageId, of: ImageFormat|
                #![trigger file_bytes(final(self).files@, oid, of)]
                !(oid == *id && of == format) && has_file(old(self).files@, oid, of)
                    ==> file_bytes(final(self).files@, oid, of) == file_bytes(old(self).files@, oid, of),
    {
        let found = self.find(id, format);
        match found {
            Some(i) => {
                self.files.remove(i);
                proof {
                    let fin = self.files@;
                    let prev = old(self).files@;
                    let ii = i as int;
                    assert(fin =~= prev.subrange(0, ii) + prev.subrange(ii + 1, prev.len() as int));
                    assert(forall|a: int| 0 <= a < ii ==> #[trigger] fin[a] == prev[a]);
                    assert(forall|a: int| ii <= a < fin.len() ==> #[trigger] fin[a] == prev[a + 1]);
                    assert(files_unique(fin)) by {
                        assert forall|a: int, b: int| #![trigger fin[a], fin[b]] 0 <= a < b < fin.len() implies
                            !(fin[a].id == fin[b].id && fin[a].format == fin[b].format) by {
                            let pa: int = if a < ii { a } else { a + 1 };
                            let pb: int = if b < ii { b } else { b + 1 };
                            assert(fin[a] == prev[pa] && fin[b] == prev[pb]);
                        }
                    }
                    assert(!has_file(fin, *id, format)) by {
                        if has_file(fin, *id, format) {
                            let j = choose|j: int| #![trigger fin[j]] 0 <= j < fin.len()
                                && fin[j].id == *id && fin[j].format == format;
                            let pj: int = if j < ii { j } else { j + 1 };
                            assert(prev[pj] == fin[j]);
                            assert(prev[ii].id == *id && prev[ii].format == format);
                        }
                    }
                    assert forall|oid: ImageId, of: ImageFormat| !(oid == *id && of == format) implies
                        #[trigger] has_file(fin, oid, of) == has_file(prev, oid, of) by {
                        if has_file(prev, oid, of) {
                            let j = choose|j: int| #![trigger prev[j]] 0 <= j < prev.len()
                                && prev[j].id == oid && prev[j].format == of;
                            assert(j != ii);
                            let nj: int = if j < ii { j } else { j - 1 };
                            assert(fin[nj] == prev[j]);
                        }
                        if has_file(fin, oid, of) {
                            let j = choose|j: int| #![trigger fin[j]] 0 <= j < fin.len()
                                && fin[j].id == oid && fin[j].format == of;
                            let pj: int = if j < ii { j } else { j + 1 };
                            assert(prev[pj] == fin[j]);
                        }
                    }
                    assert forall|oid: ImageId, of: ImageFormat|
                        !(oid == *id && of == format) && has_file(prev, oid, of) implies
                        #[trigger] file_bytes(fin, oid, of) == file_bytes(prev, oid, of) by {
                        let j = choose|j: int| #![trigger prev[j]] 0 <= j < prev.len()
                            && prev[j].id == oid && prev[j].format == of;
                        assert(j != ii);
                        let nj: int = if j < ii { j } else { j - 1 };
                        assert(fin[nj] == prev[j]);
                        lemma_file_bytes_at(fin, oid, of, nj);
                        lemma_file_bytes_at(prev, oid, of, j);
                    }
                }
                true
            },
            None => {
                proof {
                    if has_file(self.files@, *id, format) {
                        let j = choose|j: int| #![trigger self.files@[j]] 0 <= j < self.files@.len()
                            && self.files@[j].id == *id && self.files@[j].format == format;
                    }
                }
                false
            },
        }
    }
}

} // verus!
