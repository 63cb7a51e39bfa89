//! The catalog: folders (one per calendar day) of named entries, each entry
//! recording where its ciphertext lies in CONTENT and the key and nonce
//! that sealed it.
use crate::crypto::{
    local_time_text, new_nonce, random_bytes, ENTRY_TIME_PATTERN, FOLDER_DATE_PATTERN, KEY_LEN, NONCE_LEN,
};
use crate::error::ClogError;
use crate::text::same_text;
use vstd::prelude::*;

verus! {

/// No two items of a named list share a name.
pub open spec fn names_unique<T>(s: Seq<(String, T)>) -> bool {
    forall|i: int, j: int|
        0 <= i < s.len() && 0 <= j < s.len() && i != j ==> #[trigger] s[i].0@ != #[trigger] s[j].0@
}

/// Some item of a named list has this name.
pub open spec fn has_name<T>(s: Seq<(String, T)>, name: Seq<char>) -> bool {
    exists|i: int| 0 <= i < s.len() && #[trigger] s[i].0@ == name
}

/// The position of the item with this name (meaningful when it exists).
pub open spec fn index_of<T>(s: Seq<(String, T)>, name: Seq<char>) -> int {
    choose|i: int| 0 <= i < s.len() && #[trigger] s[i].0@ == name
}

/// In a list whose names are unique, a position holding the name is the
/// position `index_of` picks.
pub proof fn lemma_index_of_unique<T>(s: Seq<(String, T)>, name: Seq<char>, i: int)
    requires
        names_unique(s),
        0 <= i < s.len(),
        s[i].0@ == name,
    ensures
        index_of(s, name) == i,
        has_name(s, name),
{
    let j = index_of(s, name);
    assert(0 <= j < s.len() && s[j].0@ == name);
}

/// A list with the same names, position by position, as a list whose
/// names are unique has unique names too.
pub proof fn lemma_same_names_unique<T>(a: Seq<(String, T)>, b: Seq<(String, T)>)
    requires
        names_unique(a),
        a.len() == b.len(),
        forall|k: int| 0 <= k < a.len() ==> #[trigger] b[k].0 == a[k].0,
    ensures
        names_unique(b),
{
    assert forall|x: int, y: int|
        0 <= x < b.len() && 0 <= y < b.len() && x != y implies #[trigger] b[x].0@ != #[trigger] b[y].0@ by {
        assert(b[x].0 == a[x].0);
        assert(b[y].0 == a[y].0);
    }
}

/// The position of the item named `name`, if there is one.
pub fn find_name<T>(s: &Vec<(String, T)>, name: &str) -> (r: Option<usize>)
    ensures
        r is None <==> !has_name(s@, name@),
        r is Some ==> r->0 < s@.len() && s@[r->0 as int].0@ == name@,
        r is Some && names_unique(s@) ==> r->0 == index_of(s@, name@),
{
    let mut i: usize = 0;
    while i < s.len()
        invariant
            0 <= i <= s@.len(),
            forall|k: int| 0 <= k < i ==> #[trigger] s@[k].0@ != name@,
        decreases s@.len() - i,
    {
        if same_text(s[i].0.as_str(), name) {
            proof {
                if names_unique(s@) {
                    lemma_index_of_unique(s@, name@, i as int);
                }
            }
            return Some(i);
        }
        i = i + 1;
    }
    None
}

/// `f` with its nonce replaced.
pub open spec fn with_nonce(f: File, nonce: Vec<u8>) -> File {
    File { created_at: f.created_at, offset: f.offset, length: f.length, key: f.key, nonce }
}

/// `f` moved to `offset`.
pub open spec fn with_offset(f: File, offset: usize) -> File {
    File { created_at: f.created_at, offset, length: f.length, key: f.key, nonce: f.nonce }
}

/// `f` with its stored length replaced.
pub open spec fn with_length(f: File, length: usize) -> File {
    File { created_at: f.created_at, offset: f.offset, length, key: f.key, nonce: f.nonce }
}

/// One entry's record: when it was made, where its ciphertext lies in the
/// file, and the key and nonce that sealed it.
pub struct File {
    /// Local time of day at which the entry was made.
    pub created_at: String,
    /// Absolute byte position of the ciphertext in the file.
    pub offset: usize,
    /// Byte length of the stored (base64) ciphertext.
    pub length: usize,
    /// The entry's own 32-byte key.
    pub key: Vec<u8>,
    /// The entry's current 12-byte nonce.
    pub nonce: Vec<u8>,
}

impl File {
    /// The key and the nonce have the lengths AES-256-GCM asks for.
    pub open spec fn wf(&self) -> bool {
        self.key@.len() == KEY_LEN && self.nonce@.len() == NONCE_LEN
    }

    /// A record made now, with a fresh random key and nonce.
    pub fn new(offset: usize, length: usize) -> (r: File)
        ensures
            r.offset == offset,
            r.length == length,
            r.wf(),
    {
        let created_at = local_time_text(ENTRY_TIME_PATTERN);
        let key = random_bytes(KEY_LEN);
        let nonce = random_bytes(NONCE_LEN);
        File { created_at, offset, length, key, nonce }
    }

    /// Replaces the nonce by a fresh random one, never the one it had.
    pub fn update_nonce(&mut self)
        ensures
            final(self).nonce@.len() == NONCE_LEN,
            final(self).nonce@ != old(self).nonce@,
            final(self).created_at == old(self).created_at,
            final(self).offset == old(self).offset,
            final(self).length == old(self).length,
            final(self).key == old(self).key,
    {
        self.nonce = new_nonce(self.nonce.as_slice());
    }

    /// Moves the record's position by `delta_offset` bytes.
    pub fn update_offset(&mut self, delta_offset: isize)
        requires
            0 <= old(self).offset + delta_offset <= usize::MAX,
        ensures
            final(self).offset == old(self).offset + delta_offset,
            final(self).created_at == old(self).created_at,
            final(self).length == old(self).length,
            final(self).key == old(self).key,
            final(self).nonce == old(self).nonce,
    {
        if delta_offset >= 0 {
            self.offset = self.offset + delta_offset as usize;
        } else {
            let back: usize = (-(delta_offset + 1)) as usize + 1;
            self.offset = self.offset - back;
        }
    }

    /// Sets the stored length.
    pub fn update_length(&mut self, length: usize)
        ensures
            final(self).length == length,
            final(self).created_at == old(self).created_at,
            final(self).offset == old(self).offset,
            final(self).key == old(self).key,
            final(self).nonce == old(self).nonce,
    {
        self.length = length;
    }

    /// The key, the nonce, the offset and the length, in that order.
    pub fn get_file_parameters(&self) -> (r: (&Vec<u8>, &Vec<u8>, usize, usize))
        ensures
            *r.0 == self.key,
            *r.1 == self.nonce,
            r.2 == self.offset,
            r.3 == self.length,
    {
        (&self.key, &self.nonce, self.offset, self.length)
    }
}

/// One calendar day's entries.
pub struct Folder {
    /// The entries, by name, in the order they were made.
    pub files: Vec<(String, File)>,
    /// Set once the day is over; never cleared.
    pub read_only: bool,
}

impl Folder {
    /// Entry names are unique and every record is well formed.
    pub open spec fn wf(&self) -> bool {
        &&& names_unique(self.files@)
        &&& forall|i: int| 0 <= i < self.files@.len() ==> #[trigger] self.files@[i].1.wf()
    }

    /// An empty folder that accepts writes.
    pub fn new() -> (r: Folder)
        ensures
            r.files@.len() == 0,
            !r.read_only,
            r.wf(),
    {
        Folder { files: Vec::new(), read_only: false }
    }

    /// Records a new entry named `filename`, made now with a fresh key and
    /// nonce, after the others; `AlreadyExists`, and the folder unchanged,
    /// when the name is taken.
    pub fn add_file(&mut self, filename: &str, offset: usize, length: usize) -> (r: Result<
        (),
        ClogError,
    >)
        requires
            old(self).wf(),
        ensures
            final(self).wf(),
            final(self).read_only == old(self).read_only,
            r is Err <==> has_name(old(self).files@, filename@),
            r is Err ==> r->Err_0 == ClogError::AlreadyExists && *final(self) == *old(self),
            r is Ok ==> {
                let fresh = final(self).files@.last();
                &&& final(self).files@ == old(self).files@.push(fresh)
                &&& fresh.0@ == filename@
                &&& fresh.1.offset == offset
                &&& fresh.1.length == length
                &&& fresh.1.wf()
            },
    {
        if find_name(&self.files, filename).is_some() {
            return Err(ClogError::AlreadyExists);
        }
        let record = File::new(offset, length);
        self.files.push((filename.to_owned(), record));
        proof {
            assert(self.files@ =~= old(self).files@.push(self.files@.last()));
            assert forall|a: int, b: int|
                0 <= a < self.files@.len() && 0 <= b < self.files@.len() && a != b
                    implies #[trigger] self.files@[a].0@ != #[trigger] self.files@[b].0@ by {
                if a < old(self).files@.len() {
                    assert(self.files@[a] == old(self).files@[a]);
                }
                if b < old(self).files@.len() {
                    assert(self.files@[b] == old(self).files@[b]);
                }
            }
        }
        Ok(())
    }

    /// Closes the folder to writes.
    pub fn make_read_only(&mut self)
        ensures
            final(self).read_only,
            final(self).files == old(self).files,
    {
        self.read_only = true;
    }

    /// Whether the folder is closed to writes.
    pub fn is_read_only(&self) -> (r: bool)
        ensures
            r == self.read_only,
    {
        self.read_only
    }

    /// Gives the entry `filename` a fresh nonce.
    pub fn update_nonce(&mut self, filename: &str) -> (r: Result<(), ClogError>)
        requires
            old(self).wf(),
        ensures
            final(self).wf(),
            final(self).read_only == old(self).read_only,
            r is Err <==> !has_name(old(self).files@, filename@),
            r is Err ==> r->Err_0 == ClogError::NotFound && *final(self) == *old(self),
            r is Ok ==> {
                let j = index_of(old(self).files@, filename@);
                let nonce = final(self).files@[j].1.nonce;
                &&& nonce@.len() == NONCE_LEN
                &&& nonce@ != old(self).files@[j].1.nonce@
                &&& final(self).files@ == old(self).files@.update(
                    j,
                    (old(self).files@[j].0, with_nonce(old(self).files@[j].1, nonce)),
                )
            },
    {
        match find_name(&self.files, filename) {
            None => Err(ClogError::NotFound),
            Some(j) => {
                assert(self.files@[j as int].1.wf());
                self.files[j].1.update_nonce();
                proof {
                    assert(self.files@[j as int].1.wf());
                    lemma_same_names_unique(old(self).files@, self.files@);
                }
                proof {
                    assert(self.files@ =~= old(self).files@.update(j as int, self.files@[j as int]));
                }
                Ok(())
            },
        }
    }

    /// Moves the entry `filename` by `delta_offset` bytes.
    pub fn update_offset(&mut self, filename: &str, delta_offset: isize) -> (r: Result<(), ClogError>)
        requires
            old(self).wf(),
            forall|k: int|
                0 <= k < old(self).files@.len() && #[trigger] old(self).files@[k].0@ == filename@
                    ==> 0 <= old(self).files@[k].1.offset + delta_offset <= usize::MAX,
        ensures
            final(self).wf(),
            final(self).read_only == old(self).read_only,
            r is Err <==> !has_name(old(self).files@, filename@),
            r is Err ==> r->Err_0 == ClogError::NotFound && *final(self) == *old(self),
            r is Ok ==> {
                let j = index_of(old(self).files@, filename@);
                final(self).files@ == old(self).files@.update(
                    j,
                    (
                        old(self).files@[j].0,
                        with_offset(
                            old(self).files@[j].1,
                            (old(self).files@[j].1.offset + delta_offset) as usize,
                        ),
                    ),
                )
            },
    {
        match find_name(&self.files, filename) {
            None => Err(ClogError::NotFound),
            Some(j) => {
                assert(self.files@[j as int].1.wf());
                self.files[j].1.update_offset(delta_offset);
                proof {
                    assert(self.files@[j as int].1.wf());
                    lemma_same_names_unique(old(self).files@, self.files@);
                }
                proof {
                    assert(self.files@ =~= old(self).files@.update(j as int, self.files@[j as int]));
                }
                Ok(())
            },
        }
    }

    /// Sets the stored length of the entry `filename`.
    pub fn update_length(&mut self, filename: &str, length: usize) -> (r: Result<(), ClogError>)
        requires
            old(self).wf(),
        ensures
            final(self).wf(),
            final(self).read_only == old(self).read_only,
            r is Err <==> !has_name(old(self).files@, filename@),
            r is Err ==> r->Err_0 == ClogError::NotFound && *final(self) == *old(self),
            r is Ok ==> {
                let j = index_of(old(self).files@, filename@);
                final(self).files@ == old(self).files@.update(
                    j,
                    (old(self).files@[j].0, with_length(old(self).files@[j].1, length)),
                )
            },
    {
        match find_name(&self.files, filename) {
            None => Err(ClogError::NotFound),
            Some(j) => {
                assert(self.files@[j as int].1.wf());
                self.files[j].1.update_length(length);
                proof {
                    assert(self.files@[j as int].1.wf());
                    lemma_same_names_unique(old(self).files@, self.files@);
                }
                proof {
                    assert(self.files@ =~= old(self).files@.update(j as int, self.files@[j as int]));
                }
                Ok(())
            },
        }
    }
}

/// `b` is the folder list `a` with the entries of folder `i` replaced by
/// `files`; every other folder, and folder `i`'s name and state, unchanged.
pub open spec fn replaces_files(
    a: Seq<(String, Folder)>,
    b: Seq<(String, Folder)>,
    i: int,
    files: Seq<(String, File)>,
) -> bool {
    &&& a.len() == b.len()
    &&& 0 <= i < a.len()
    &&& forall|k: int| 0 <= k < a.len() && k != i ==> #[trigger] b[k] == a[k]
    &&& b[i].0 == a[i].0
    &&& b[i].1.read_only == a[i].1.read_only
    &&& b[i].1.files@ == files
}

/// The catalog: the store's folders, one per day, in the order they were
/// made.
pub struct Metadata {
    /// Folders by date name (`DD/MM/YYYY`), oldest first.
    pub folders: Vec<(String, Folder)>,
    /// Date on which the store was made.
    pub created_at: String,
}

/// Folder `i` holds an entry named `filename`.
pub open spec fn folder_has_file(m: Metadata, i: int, filename: Seq<char>) -> bool {
    has_name(m.folders@[i].1.files@, filename)
}

impl Metadata {
    /// Folder names are unique and every folder is well formed.
    pub open spec fn wf(&self) -> bool {
        &&& names_unique(self.folders@)
        &&& forall|i: int| 0 <= i < self.folders@.len() ==> #[trigger] self.folders@[i].1.wf()
    }

    /// Whether an entry `filename` exists in folder `foldername`.
    pub open spec fn has_file(&self, foldername: Seq<char>, filename: Seq<char>) -> bool {
        has_name(self.folders@, foldername) && folder_has_file(
            *self,
            index_of(self.folders@, foldername),
            filename,
        )
    }

    /// An empty catalog dated today.
    pub fn new() -> (r: Metadata)
        ensures
            r.folders@.len() == 0,
            r.wf(),
    {
        Metadata { folders: Vec::new(), created_at: local_time_text(FOLDER_DATE_PATTERN) }
    }

    /// Adds today's folder unless it exists already; gives back today's
    /// date as read from the clock, which now names a folder.
    pub fn add_latest_folder(&mut self) -> (r: String)
        requires
            old(self).wf(),
        ensures
            final(self).wf(),
            final(self).created_at == old(self).created_at,
            has_name(final(self).folders@, r@),
            has_name(old(self).folders@, r@) ==> final(self).folders@ == old(self).folders@,
            !has_name(old(self).folders@, r@) ==> {
                &&& final(self).folders@.len() == old(self).folders@.len() + 1
                &&& final(self).folders@.drop_last() == old(self).folders@
                &&& final(self).folders@.last().0@ == r@
                &&& final(self).folders@.last().1.files@.len() == 0
                &&& !final(self).folders@.last().1.read_only
            },
    {
        let date = local_time_text(FOLDER_DATE_PATTERN);
        let added = add_folder(self, date.as_str());
        proof {
            if added is Ok {
                let last = self.folders@.len() - 1;
                assert(self.folders@[last].0@ == date@);
            }
        }
        date
    }

    /// The entries of folder `foldername`, if it exists.
    pub fn get_all_files_under_folder(&self, foldername: &str) -> (r: Option<&Vec<(String, File)>>)
        requires
            self.wf(),
        ensures
            r is None <==> !has_name(self.folders@, foldername@),
            r is Some ==> *r->0 == self.folders@[index_of(self.folders@, foldername@)].1.files,
    {
        match find_name(&self.folders, foldername) {
            None => None,
            Some(i) => Some(&self.folders[i].1.files),
        }
    }

    /// Sets the stored length of entry `filename` of folder `foldername`.
    pub fn update_file_length(&mut self, foldername: &str, filename: &str, length: usize) -> (r:
        Result<(), ClogError>)
        requires
            old(self).wf(),
        ensures
            final(self).wf(),
            final(self).created_at == old(self).created_at,
            r is Err <==> !old(self).has_file(foldername@, filename@),
            r is Err ==> r->Err_0 == ClogError::NotFound && final(self).folders@ == old(
                self,
            ).folders@,
            r is Ok ==> {
                let i = index_of(old(self).folders@, foldername@);
                let files = old(self).folders@[i].1.files@;
                let j = index_of(files, filename@);
                replaces_files(
                    old(self).folders@,
                    final(self).folders@,
                    i,
                    files.update(j, (files[j].0, with_length(files[j].1, length))),
                )
            },
    {
        match find_name(&self.folders, foldername) {
            None => Err(ClogError::NotFound),
            Some(i) => {
                assert(self.folders@[i as int].1.wf());
                let r = self.folders[i].1.update_length(filename, length);
                proof {
                    self.lemma_replaced_folder_keeps_wf(*old(self), i as int);
                    if r is Err {
                        assert(self.folders@ =~= old(self).folders@);
                    }
                }
                r
            },
        }
    }

    /// Records a new entry `filename` in folder `foldername`, made now with
    /// a fresh key and nonce.
    pub fn add_file(&mut self, filename: &str, foldername: &str, offset: usize, length: usize) -> (r:
        Result<(), ClogError>)
        requires
            old(self).wf(),
        ensures
            final(self).wf(),
            final(self).created_at == old(self).created_at,
            r is Err <==> !has_name(old(self).folders@, foldername@) || old(self).has_file(
                foldername@,
                filename@,
            ),
            r is Err ==> *final(self) == *old(self),
            r is Err ==> (r->Err_0 == ClogError::NotFound <==> !has_name(
                old(self).folders@,
                foldername@,
            )),
            r is Err ==> (r->Err_0 == ClogError::NotFound || r->Err_0 == ClogError::AlreadyExists),
            r is Ok ==> {
                let i = index_of(old(self).folders@, foldername@);
                let files = old(self).folders@[i].1.files@;
                let fresh = final(self).folders@[i].1.files@.last();
                &&& replaces_files(old(self).folders@, final(self).folders@, i, files.push(fresh))
                &&& fresh.0@ == filename@
                &&& fresh.1.offset == offset
                &&& fresh.1.length == length
                &&& fresh.1.wf()
            },
    {
        match find_name(&self.folders, foldername) {
            None => Err(ClogError::NotFound),
            Some(i) => {
                if find_name(&self.folders[i].1.files, filename).is_some() {
                    return Err(ClogError::AlreadyExists);
                }
                assert(self.folders@[i as int].1.wf());
                let added = self.folders[i].1.add_file(filename, offset, length);
                proof {
                    self.lemma_replaced_folder_keeps_wf(*old(self), i as int);
                    let files = old(self).folders@[i as int].1.files@;
                    let now = self.folders@[i as int].1.files@;
                    assert(now =~= files.push(now.last()));
                    assert(now.last().1.wf());
                }
                added
            },
        }
    }

    /// Gives entry `filename` of folder `foldername` a fresh nonce.
    pub fn update_file_nonce(&mut self, filename: &str, foldername: &str) -> (r: Result<
        (),
        ClogError,
    >)
        requires
            old(self).wf(),
        ensures
            final(self).wf(),
            final(self).created_at == old(self).created_at,
            r is Err <==> !old(self).has_file(foldername@, filename@),
            r is Err ==> r->Err_0 == ClogError::NotFound && final(self).folders@ == old(
                self,
            ).folders@,
            r is Ok ==> {
                let i = index_of(old(self).folders@, foldername@);
                let files = old(self).folders@[i].1.files@;
                let j = index_of(files, filename@);
                let nonce = final(self).folders@[i].1.files@[j].1.nonce;
                &&& nonce@.len() == NONCE_LEN
                &&& nonce@ != files[j].1.nonce@
                &&& replaces_files(
                    old(self).folders@,
                    final(self).folders@,
                    i,
                    files.update(j, (files[j].0, with_nonce(files[j].1, nonce))),
                )
            },
    {
        match find_name(&self.folders, foldername) {
            None => Err(ClogError::NotFound),
            Some(i) => {
                assert(self.folders@[i as int].1.wf());
                let r = self.folders[i].1.update_nonce(filename);
                proof {
                    self.lemma_replaced_folder_keeps_wf(*old(self), i as int);
                    if r is Err {
                        assert(self.folders@ =~= old(self).folders@);
                    }
                }
                r
            },
        }
    }

    /// Replacing one folder by a well-formed folder of the same name keeps
    /// the catalog well formed.
    pub proof fn lemma_replaced_folder_keeps_wf(&self, before: Metadata, i: int)
        requires
            before.wf(),
            0 <= i < before.folders@.len(),
            self.folders@.len() == before.folders@.len(),
            forall|k: int|
                0 <= k < before.folders@.len() && k != i ==> #[trigger] self.folders@[k]
                    == before.folders@[k],
            self.folders@[i].0 == before.folders@[i].0,
            self.folders@[i].1.wf(),
        ensures
            self.wf(),
    {
        assert forall|a: int, b: int|
            0 <= a < self.folders@.len() && 0 <= b < self.folders@.len() && a != b
                implies #[trigger] self.folders@[a].0@ != #[trigger] self.folders@[b].0@ by {
            assert(self.folders@[a].0 == before.folders@[a].0);
            assert(self.folders@[b].0 == before.folders@[b].0);
        }
        assert forall|k: int| 0 <= k < self.folders@.len() implies #[trigger] self.folders@[k].1.wf() by {
            if k != i {
                assert(self.folders@[k] == before.folders@[k]);
            }
        }
    }

}

/// Adds an empty, writable folder named `date` after the others.
pub fn add_folder(metadata: &mut Metadata, date: &str) -> (r: Result<(), ClogError>)
    requires
        old(metadata).wf(),
    ensures
        final(metadata).wf(),
        final(metadata).created_at == old(metadata).created_at,
        r is Err <==> has_name(old(metadata).folders@, date@),
        r is Err ==> r->Err_0 == ClogError::AlreadyExists && *final(metadata) == *old(metadata),
        r is Ok ==> {
            &&& final(metadata).folders@.drop_last() == old(metadata).folders@
            &&& final(metadata).folders@.len() == old(metadata).folders@.len() + 1
            &&& final(metadata).folders@.last().0@ == date@
            &&& final(metadata).folders@.last().1.files@.len() == 0
            &&& !final(metadata).folders@.last().1.read_only
        },
{
    if find_name(&metadata.folders, date).is_some() {
        return Err(ClogError::AlreadyExists);
    }
    metadata.folders.push((date.to_owned(), Folder::new()));
    proof {
        assert(metadata.folders@.drop_last() =~= old(metadata).folders@);
        assert forall|a: int, b: int|
            0 <= a < metadata.folders@.len() && 0 <= b < metadata.folders@.len() && a != b
                implies #[trigger] metadata.folders@[a].0@ != #[trigger] metadata.folders@[b].0@ by {
            if a < old(metadata).folders@.len() && b < old(metadata).folders@.len() {
                assert(metadata.folders@[a] == old(metadata).folders@[a]);
                assert(metadata.folders@[b] == old(metadata).folders@[b]);
            } else if a < old(metadata).folders@.len() {
                assert(metadata.folders@[a] == old(metadata).folders@[a]);
            } else {
                assert(metadata.folders@[b] == old(metadata).folders@[b]);
            }
        }
    }
    Ok(())
}

/// `m2` is `m1` after the daily turnover for the day `today`: every folder
/// keeps its name and entries, each is closed unless it is today's and
/// the newest, and today's folder is added, empty and open, if missing.
pub open spec fn turned_over(m1: Metadata, m2: Metadata, today: Seq<char>) -> bool {
    &&& m2.created_at == m1.created_at
    &&& has_name(m2.folders@, today)
    &&& m2.folders@.len() == if has_name(m1.folders@, today) {
        m1.folders@.len()
    } else {
        m1.folders@.len() + 1
    }
    &&& forall|k: int|
        #![trigger m2.folders@[k]]
        0 <= k < m1.folders@.len() ==> {
            &&& m2.folders@[k].0 == m1.folders@[k].0
            &&& m2.folders@[k].1.files == m1.folders@[k].1.files
            &&& m2.folders@[k].1.read_only == (m1.folders@[k].1.read_only || m1.folders@[k].0@
                != today || k != m1.folders@.len() - 1)
        }
    &&& !has_name(m1.folders@, today) ==> {
        let t = m2.folders@.last();
        &&& t.0@ == today
        &&& t.1.files@.len() == 0
        &&& !t.1.read_only
    }
}

/// The catalog is already turned over for `today`: today's folder exists,
/// and every folder but the newest one named `today` is closed.
pub open spec fn is_current(m: Metadata, today: Seq<char>) -> bool {
    &&& has_name(m.folders@, today)
    &&& forall|k: int|
        0 <= k < m.folders@.len() ==> (#[trigger] m.folders@[k]).1.read_only || (m.folders@[k].0@
            == today && k == m.folders@.len() - 1)
}

/// The turnover of a catalog that is already current changes nothing.
pub proof fn lemma_turnover_of_current(m1: Metadata, m2: Metadata, today: Seq<char>)
    requires
        is_current(m1, today),
        turned_over(m1, m2, today),
    ensures
        m2.folders@ == m1.folders@,
{
    assert forall|k: int| 0 <= k < m1.folders@.len() implies #[trigger] m2.folders@[k]
        == m1.folders@[k] by {
        assert(m1.folders@[k].1.read_only == m2.folders@[k].1.read_only);
        assert(m2.folders@[k].1 == m1.folders@[k].1);
    }
    assert(m2.folders@ =~= m1.folders@);
}

/// After the turnover, a folder exists only if it existed before or is
/// today's.
pub proof fn lemma_turnover_names(m1: Metadata, m2: Metadata, today: Seq<char>, name: Seq<char>)
    requires
        turned_over(m1, m2, today),
        has_name(m2.folders@, name),
    ensures
        has_name(m1.folders@, name) || name == today,
{
    let w = choose|w: int| 0 <= w < m2.folders@.len() && #[trigger] m2.folders@[w].0@ == name;
    if w < m1.folders@.len() {
        assert(m2.folders@[w].0 == m1.folders@[w].0);
    } else {
        assert(!has_name(m1.folders@, today));
        assert(w == m2.folders@.len() - 1);
    }
}

/// The daily turnover: every folder but today's is closed to writes,
/// and today's folder is added if it is missing.  Only the newest folder
/// can stay open (content is append-only, so an entry written to an
/// older folder would land after the entries of newer ones): a folder
/// named `today` that is not the newest, which happens only when the
/// clock has gone back, is closed as well.
pub fn daily_check_and_update_metadata(metadata: &mut Metadata, today: &str)
    requires
        old(metadata).wf(),
    ensures
        final(metadata).wf(),
        turned_over(*old(metadata), *final(metadata), today@),
{
    let n = metadata.folders.len();
    let mut k: usize = 0;
    while k < n
        invariant
            0 <= k <= n,
            n == old(metadata).folders@.len(),
            metadata.folders@.len() == n,
            metadata.created_at == old(metadata).created_at,
            forall|q: int|
                #![trigger metadata.folders@[q]]
                0 <= q < n ==> {
                    &&& metadata.folders@[q].0 == old(metadata).folders@[q].0
                    &&& metadata.folders@[q].1.files == old(metadata).folders@[q].1.files
                    &&& metadata.folders@[q].1.read_only == if q < k {
                        old(metadata).folders@[q].1.read_only || old(metadata).folders@[q].0@
                            != today@ || q != n - 1
                    } else {
                        old(metadata).folders@[q].1.read_only
                    }
                },
        decreases n - k,
    {
        let keep_open = k + 1 == n && same_text(metadata.folders[k].0.as_str(), today);
        if !keep_open {
            metadata.folders[k].1.make_read_only();
        }
        k = k + 1;
    }
    proof {
        assert forall|a: int, b: int|
            0 <= a < metadata.folders@.len() && 0 <= b < metadata.folders@.len() && a != b
                implies #[trigger] metadata.folders@[a].0@ != #[trigger] metadata.folders@[b].0@ by {
            assert(metadata.folders@[a].0 == old(metadata).folders@[a].0);
            assert(metadata.folders@[b].0 == old(metadata).folders@[b].0);
        }
        assert forall|q: int| 0 <= q < metadata.folders@.len() implies #[trigger] metadata.folders@[q].1.wf() by {
            assert(metadata.folders@[q].1.files == old(metadata).folders@[q].1.files);
            assert(old(metadata).folders@[q].1.wf());
        }
        assert(has_name(metadata.folders@, today@) == has_name(old(metadata).folders@, today@)) by {
            if has_name(old(metadata).folders@, today@) {
                let w = choose|w: int| 0 <= w < n && #[trigger] old(metadata).folders@[w].0@ == today@;
                assert(metadata.folders@[w].0 == old(metadata).folders@[w].0);
            }
            if has_name(metadata.folders@, today@) {
                let w = choose|w: int| 0 <= w < n && #[trigger] metadata.folders@[w].0@ == today@;
                assert(metadata.folders@[w].0 == old(metadata).folders@[w].0);
            }
        }
    }
    let before = Ghost(*metadata);
    let added = add_folder(metadata, today);
    proof {
        if added is Ok {
            assert(metadata.folders@[before@.folders@.len() as int].0@ == today@);
            assert forall|k: int| 0 <= k < old(metadata).folders@.len() implies #[trigger] metadata.folders@[k]
                == before@.folders@[k] by {
                assert(metadata.folders@.drop_last()[k] == metadata.folders@[k]);
            }
        } else {
            let w = choose|w: int| 0 <= w < n && #[trigger] metadata.folders@[w].0@ == today@;
        }
    }
}

/// A new catalog dated today, holding today's empty folder.
pub fn init() -> (r: Metadata)
    ensures
        r.wf(),
        r.folders@.len() == 1,
        r.folders@[0].1.files@.len() == 0,
        !r.folders@[0].1.read_only,
{
    let mut metadata = Metadata::new();
    let _ = metadata.add_latest_folder();
    proof {
        if metadata.folders@.len() == 0 {
            assert(metadata.folders@ == Seq::<(String, Folder)>::empty());
        }
    }
    metadata
}

/// The catalog without its secrets: each folder's name and each entry's
/// name and time, in order.
pub struct Summary {
    /// Date on which the store was made.
    pub created_at: String,
    /// Folders by name, each with its entries' names and times.
    pub folders: Vec<(String, Vec<(String, String)>)>,
}

/// The catalog without keys, nonces, offsets or lengths.
pub fn get_clean_metadata(metadata: &Metadata) -> (r: Summary)
    ensures
        r.created_at == metadata.created_at,
        r.folders@.len() == metadata.folders@.len(),
        forall|i: int|
            #![trigger r.folders@[i]]
            0 <= i < metadata.folders@.len() ==> {
                let (name, files) = r.folders@[i];
                &&& name == metadata.folders@[i].0
                &&& files@.len() == metadata.folders@[i].1.files@.len()
                &&& forall|j: int|
                    0 <= j < files@.len() ==> #[trigger] files@[j] == (
                        metadata.folders@[i].1.files@[j].0,
                        metadata.folders@[i].1.files@[j].1.created_at,
                    )
            },
{
    let mut folders: Vec<(String, Vec<(String, String)>)> = Vec::new();
    let mut i: usize = 0;
    while i < metadata.folders.len()
        invariant
            0 <= i <= metadata.folders@.len(),
            folders@.len() == i,
            forall|a: int|
                #![trigger folders@[a]]
                0 <= a < i ==> {
                    let (name, files) = folders@[a];
                    &&& name == metadata.folders@[a].0
                    &&& files@.len() == metadata.folders@[a].1.files@.len()
                    &&& forall|j: int|
                        0 <= j < files@.len() ==> #[trigger] files@[j] == (
                            metadata.folders@[a].1.files@[j].0,
                            metadata.folders@[a].1.files@[j].1.created_at,
                        )
                },
        decreases metadata.folders@.len() - i,
    {
        let source = &metadata.folders[i].1.files;
        let mut files: Vec<(String, String)> = Vec::new();
        let mut j: usize = 0;
        while j < source.len()
            invariant
                0 <= j <= source@.len(),
                files@.len() == j,
                forall|b: int|
                    0 <= b < j ==> #[trigger] files@[b] == (source@[b].0, source@[b].1.created_at),
            decreases source@.len() - j,
        {
            files.push((source[j].0.clone(), source[j].1.created_at.clone()));
            j = j + 1;
        }
        folders.push((metadata.folders[i].0.clone(), files));
        i = i + 1;
    }
    Summary { created_at: metadata.created_at.clone(), folders }
}

} // verus!
