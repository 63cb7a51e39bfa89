//! The store in memory, and the content operations on it: appending an
//! entry, reading one back, and editing one in place with relocation of
//! everything stored after it.
use crate::crypto::{
    aead_decrypt, aead_encrypt, base64_len, base64_of, decode_base64, encode_base64, lemma_base64,
    sealed, KEY_LEN, MAX_PLAINTEXT, NONCE_LEN, TAG_LEN,
};
use crate::error::ClogError;
use crate::layout::{
    entries, files_of, lemma_entries_last, lemma_tiles_bounds, lemma_tiles_push,
    lemma_tiles_relocate, tiles, HEADER_LENGTH, MAX_FIELD,
};
use crate::metadata::{
    find_name, has_name, index_of, lemma_index_of_unique, replaces_files, File, Metadata,
};
use vstd::prelude::*;
use vstd::slice::slice_subrange;
use vstd::string::StringSliceAdditionalSpecFns;

verus! {

/// Length in bytes of the salt the catalog key is derived with.
pub const SALT_LEN: usize = 16;

/// A store in memory: the salt of its catalog key, its catalog, and its
/// CONTENT region, which starts right after the header.
pub struct Clog {
    /// Salt from which, with the password, the catalog key is derived.
    pub salt: Vec<u8>,
    /// Folders and entries.
    pub metadata: Metadata,
    /// The CONTENT bytes; absolute file position `p` is index `p - 72`.
    pub content: Vec<u8>,
}

/// The stored length of an entry whose plaintext is `n` bytes long.
pub open spec fn stored_len(n: nat) -> nat {
    base64_len(n + TAG_LEN as nat)
}

/// The bytes that `f` says hold its ciphertext.
pub open spec fn block_of(c: Clog, f: File) -> Seq<u8> {
    c.content@.subrange(f.offset - HEADER_LENGTH, f.offset - HEADER_LENGTH + f.length)
}

/// Record `f` of store `c` holds plaintext `p`: its bytes are the base64
/// text of `p` sealed under the record's key and nonce.
pub open spec fn holds(c: Clog, f: File, p: Seq<u8>) -> bool {
    &&& p.len() <= MAX_PLAINTEXT
    &&& f.length == stored_len(p.len())
    &&& block_of(c, f) == base64_of(sealed(f.key@, f.nonce@, p))
}

/// The record of entry `filename` of folder `foldername`.
pub open spec fn record(c: Clog, foldername: Seq<char>, filename: Seq<char>) -> File {
    let folder = c.metadata.folders@[index_of(c.metadata.folders@, foldername)].1;
    folder.files@[index_of(folder.files@, filename)].1
}

/// Entry `filename` of folder `foldername` exists and holds `p`.
pub open spec fn stores(c: Clog, foldername: Seq<char>, filename: Seq<char>, p: Seq<u8>) -> bool {
    c.metadata.has_file(foldername, filename) && holds(c, record(c, foldername, filename), p)
}

/// Folder `foldername` accepts writes: it is the newest and not closed.
pub open spec fn writable(m: Metadata, foldername: Seq<char>) -> bool {
    &&& m.folders@.len() > 0
    &&& m.folders@.last().0@ == foldername
    &&& !m.folders@.last().1.read_only
}

impl Clog {
    /// Absolute file position just past CONTENT, where the catalog starts.
    pub open spec fn end(&self) -> int {
        HEADER_LENGTH + self.content@.len()
    }

    /// The salt has its length, the catalog is well formed, its entries
    /// tile CONTENT exactly, and CONTENT's end fits the header's fields.
    pub open spec fn wf(&self) -> bool {
        &&& self.salt@.len() == SALT_LEN
        &&& self.metadata.wf()
        &&& tiles(entries(self.metadata.folders@), HEADER_LENGTH as int, self.end())
        &&& self.end() <= MAX_FIELD
    }
}

/// The base64 text of `content` sealed under `key` and `nonce`: the form
/// in which every entry, and the catalog, is stored.
pub fn encrypt_and_encode_content_to_base64(content: &[u8], key: &[u8], nonce: &[u8]) -> (r: Vec<u8>)
    requires
        key@.len() == KEY_LEN,
        nonce@.len() == NONCE_LEN,
        content@.len() <= MAX_FIELD,
    ensures
        r@ == base64_of(sealed(key@, nonce@, content@)),
        r@.len() == stored_len(content@.len()),
{
    match aead_encrypt(key, nonce, content) {
        Ok(ciphertext) => {
            proof {
                lemma_base64(ciphertext@);
            }
            encode_base64(ciphertext.as_slice())
        },
        Err(_) => Vec::new(),
    }
}

/// The plaintext whose sealed base64 text is `data`: decoded, then opened
/// with `key` and `nonce`.  `Format` exactly when `data` is not the base64
/// of any bytes, `Crypto` when it does not open; a plaintext comes back
/// only when `data` is its sealing under this key and nonce.
pub fn parse_base64_encrypted_data(data: &[u8], key: &[u8], nonce: &[u8]) -> (r: Result<
    Vec<u8>,
    ClogError,
>)
    requires
        key@.len() == KEY_LEN,
        nonce@.len() == NONCE_LEN,
    ensures
        r is Err ==> r->Err_0 == ClogError::Format || r->Err_0 == ClogError::Crypto,
        r == Err::<Vec<u8>, ClogError>(ClogError::Format) <==> !(exists|b: Seq<u8>|
            #[trigger] base64_of(b) == data@),
        r is Ok ==> data@ == base64_of(sealed(key@, nonce@, r->Ok_0@)),
        r is Ok ==> r->Ok_0@.len() < data@.len(),
        forall|p: Seq<u8>|
            p.len() <= MAX_PLAINTEXT && #[trigger] base64_of(sealed(key@, nonce@, p)) == data@ ==> (
            r is Ok && r->Ok_0@ == p),
{
    let ciphertext = match decode_base64(data) {
        Ok(ct) => ct,
        Err(_) => return Err(ClogError::Format),
    };
    match aead_decrypt(key, nonce, ciphertext.as_slice()) {
        Ok(plain) => Ok(plain),
        Err(_) => Err(ClogError::Crypto),
    }
}

/// Why adding entry `filename` of `n` plaintext bytes to folder
/// `foldername` is refused, if it is.
pub open spec fn add_error(c: Clog, foldername: Seq<char>, filename: Seq<char>, n: nat) -> Option<
    ClogError,
> {
    if !has_name(c.metadata.folders@, foldername) {
        Some(ClogError::NotFound)
    } else if c.metadata.has_file(foldername, filename) {
        Some(ClogError::AlreadyExists)
    } else if !writable(c.metadata, foldername) {
        Some(ClogError::ReadOnly)
    } else if c.end() + stored_len(n) > MAX_FIELD {
        Some(ClogError::Format)
    } else {
        None
    }
}

/// `c2` is `c1` with entry `filename` holding `p` appended to the newest
/// folder, under a fresh key and nonce, at the end of CONTENT.
pub open spec fn appended(c1: Clog, c2: Clog, filename: Seq<char>, p: Seq<u8>) -> bool {
    let i = c1.metadata.folders@.len() - 1;
    let files = c1.metadata.folders@[i].1.files@;
    let fresh = c2.metadata.folders@[i].1.files@.last();
    &&& replaces_files(c1.metadata.folders@, c2.metadata.folders@, i, files.push(fresh))
    &&& fresh.0@ == filename
    &&& fresh.1.wf()
    &&& fresh.1.offset == c1.end()
    &&& fresh.1.length == stored_len(p.len())
    &&& c2.content@ == c1.content@ + base64_of(sealed(fresh.1.key@, fresh.1.nonce@, p))
    &&& base64_of(sealed(fresh.1.key@, fresh.1.nonce@, p)).len() == stored_len(p.len())
    &&& c2.salt == c1.salt
    &&& c2.metadata.created_at == c1.metadata.created_at
}

/// Adds entry `filename` holding `file_content` to folder `foldername`:
/// seals it under a fresh key and nonce, appends its base64 text to
/// CONTENT and records it.  Refused when the folder is missing
/// (`NotFound`), the name is taken (`AlreadyExists`), the folder is closed
/// or not the newest (`ReadOnly`), or CONTENT would outgrow the header's
/// fields (`Format`); the store is then unchanged.
pub fn add_file_with_content(
    clog: &mut Clog,
    foldername: &str,
    filename: &str,
    file_content: &str,
) -> (r: Result<(), ClogError>)
    requires
        old(clog).wf(),
    ensures
        final(clog).wf(),
        match add_error(*old(clog), foldername@, filename@, file_content.spec_bytes().len()) {
            Some(e) => r == Err::<(), ClogError>(e) && *final(clog) == *old(clog),
            None => r is Ok && appended(*old(clog), *final(clog), filename@, file_content.spec_bytes())
                && stores(*final(clog), foldername@, filename@, file_content.spec_bytes()),
        },
{
    let ghost c1 = *clog;
    let plain = file_content.as_bytes();
    let fi = match find_name(&clog.metadata.folders, foldername) {
        None => return Err(ClogError::NotFound),
        Some(fi) => fi,
    };
    if find_name(&clog.metadata.folders[fi].1.files, filename).is_some() {
        return Err(ClogError::AlreadyExists);
    }
    if fi != clog.metadata.folders.len() - 1 || clog.metadata.folders[fi].1.read_only {
        return Err(ClogError::ReadOnly);
    }
    if plain.len() > MAX_FIELD {
        return Err(ClogError::Format);
    }
    let length: usize = 4 * ((plain.len() + TAG_LEN + 2) / 3);
    let offset: usize = HEADER_LENGTH + clog.content.len();
    if offset + length > MAX_FIELD {
        return Err(ClogError::Format);
    }
    let added = clog.metadata.add_file(filename, foldername, offset, length);
    if added.is_err() {
        return Err(ClogError::NotFound);
    }
    let j = clog.metadata.folders[fi].1.files.len() - 1;
    let mut block = {
        let fresh = &clog.metadata.folders[fi].1.files[j].1;
        encrypt_and_encode_content_to_base64(plain, fresh.key.as_slice(), fresh.nonce.as_slice())
    };
    clog.content.append(&mut block);
    proof {
        let i = fi as int;
        let files = c1.metadata.folders@[i].1.files@;
        let fresh = clog.metadata.folders@[i].1.files@.last();
        lemma_index_of_unique(clog.metadata.folders@, foldername@, i);
        assert(clog.metadata.folders@[i].1.wf());
        lemma_index_of_unique(clog.metadata.folders@[i].1.files@, filename@, j as int);
        lemma_entries_last(c1.metadata.folders@, clog.metadata.folders@, files.push(fresh));
        assert(files_of(files.push(fresh)) =~= files_of(files).push(fresh.1));
        assert(entries(c1.metadata.folders@) == entries(c1.metadata.folders@.drop_last())
            + files_of(files));
        assert(entries(clog.metadata.folders@) =~= entries(c1.metadata.folders@).push(fresh.1));
        lemma_tiles_push(
            entries(c1.metadata.folders@),
            HEADER_LENGTH as int,
            c1.end(),
            fresh.1,
        );
        assert(block_of(*clog, fresh.1) =~= base64_of(sealed(fresh.1.key@, fresh.1.nonce@, plain@)));
    }
    Ok(())
}

/// The record of entry `filename` of folder `foldername`, if it exists.
pub fn find_record<'a>(clog: &'a Clog, foldername: &str, filename: &str) -> (r: Option<&'a File>)
    requires
        clog.wf(),
    ensures
        r is None <==> !clog.metadata.has_file(foldername@, filename@),
        r is Some ==> *r->0 == record(*clog, foldername@, filename@),
{
    match find_name(&clog.metadata.folders, foldername) {
        None => None,
        Some(i) => {
            let files = &clog.metadata.folders[i].1.files;
            assert(clog.metadata.folders@[i as int].1.wf());
            match find_name(files, filename) {
                None => None,
                Some(j) => Some(&files[j].1),
            }
        },
    }
}

/// The plaintext of entry `filename` of folder `foldername`: its base64
/// text is read from CONTENT, decoded, and opened with the entry's key and
/// nonce.  `NotFound` when there is no such entry, `Format` exactly when
/// its bytes are not base64, `Crypto` when they do not open.
pub fn decrypt_content_from_file(clog: &Clog, foldername: &str, filename: &str) -> (r: Result<
    Vec<u8>,
    ClogError,
>)
    requires
        clog.wf(),
    ensures
        r == Err::<Vec<u8>, ClogError>(ClogError::NotFound) <==> !clog.metadata.has_file(
            foldername@,
            filename@,
        ),
        r is Err ==> r->Err_0 == ClogError::NotFound || r->Err_0 == ClogError::Format || r->Err_0
            == ClogError::Crypto,
        forall|p: Seq<u8>| #[trigger]
            stores(*clog, foldername@, filename@, p) ==> r is Ok && r->Ok_0@ == p,
        r is Ok ==> {
            let f = record(*clog, foldername@, filename@);
            block_of(*clog, f) == base64_of(sealed(f.key@, f.nonce@, r->Ok_0@))
        },
        r is Ok ==> r->Ok_0@.len() < MAX_FIELD,
        r == Err::<Vec<u8>, ClogError>(ClogError::Format) <==> clog.metadata.has_file(
            foldername@,
            filename@,
        ) && !(exists|b: Seq<u8>|
            #[trigger] base64_of(b) == block_of(*clog, record(*clog, foldername@, filename@))),
        clog.metadata.has_file(foldername@, filename@) ==> {
            let f = record(*clog, foldername@, filename@);
            forall|p: Seq<u8>|
                p.len() <= MAX_PLAINTEXT && #[trigger] base64_of(sealed(f.key@, f.nonce@, p))
                    == block_of(*clog, f) ==> r is Ok && r->Ok_0@ == p
        },
{
    let f = match find_record(clog, foldername, filename) {
        None => return Err(ClogError::NotFound),
        Some(f) => f,
    };
    proof {
        let i = index_of(clog.metadata.folders@, foldername@);
        let files = clog.metadata.folders@[i].1.files@;
        let j = index_of(files, filename@);
        assert(clog.metadata.folders@[i].1.wf());
        assert(files[j].1.wf());
        lemma_entry_in_content(*clog, i, j);
    }
    let start = f.offset - HEADER_LENGTH;
    let text = slice_subrange(clog.content.as_slice(), start, start + f.length);
    parse_base64_encrypted_data(text, f.key.as_slice(), f.nonce.as_slice())
}

/// Record `j` of folder `i` lies inside CONTENT.
pub proof fn lemma_entry_in_content(c: Clog, i: int, j: int)
    requires
        c.wf(),
        0 <= i < c.metadata.folders@.len(),
        0 <= j < c.metadata.folders@[i].1.files@.len(),
    ensures
        HEADER_LENGTH <= c.metadata.folders@[i].1.files@[j].1.offset,
        c.metadata.folders@[i].1.files@[j].1.offset + c.metadata.folders@[i].1.files@[j].1.length
            <= c.end(),
{
    let k = lemma_entry_position(c.metadata.folders@, i, j);
    lemma_tiles_bounds(entries(c.metadata.folders@), HEADER_LENGTH as int, c.end());
    assert(entries(c.metadata.folders@)[k] == c.metadata.folders@[i].1.files@[j].1);
}

/// Record `j` of folder `i` stands in `entries` at the returned position.
pub proof fn lemma_entry_position(folders: Seq<(String, crate::metadata::Folder)>, i: int, j: int) -> (k: int)
    requires
        0 <= i < folders.len(),
        0 <= j < folders[i].1.files@.len(),
    ensures
        0 <= k < entries(folders).len(),
        entries(folders)[k] == folders[i].1.files@[j].1,
        k == entries(folders.take(i)).len() + j,
    decreases folders.len(),
{
    if i == folders.len() - 1 {
        assert(folders.take(i) =~= folders.drop_last());
        entries(folders.drop_last()).len() + j
    } else {
        let k = lemma_entry_position(folders.drop_last(), i, j);
        assert(folders.drop_last().take(i) =~= folders.take(i));
        k
    }
}

/// Why replacing the content of entry `filename` of folder `foldername`
/// by `n` plaintext bytes is refused, if it is.
pub open spec fn edit_error(c: Clog, foldername: Seq<char>, filename: Seq<char>, n: nat) -> Option<
    ClogError,
> {
    if !c.metadata.has_file(foldername, filename) {
        Some(ClogError::NotFound)
    } else if !writable(c.metadata, foldername) {
        Some(ClogError::ReadOnly)
    } else if c.end() - record(c, foldername, filename).length + stored_len(n) > MAX_FIELD {
        Some(ClogError::Format)
    } else {
        None
    }
}

/// The records of a folder after record `j` is resealed under `nonce` into
/// `length` bytes: every later record moves by the change in length.
pub open spec fn relocated(files: Seq<(String, File)>, j: int, nonce: Vec<u8>, length: usize) -> Seq<
    (String, File),
> {
    let delta = length - files[j].1.length;
    Seq::new(
        files.len(),
        |k: int|
            if k < j {
                files[k]
            } else if k == j {
                (
                    files[j].0,
                    File {
                        created_at: files[j].1.created_at,
                        offset: files[j].1.offset,
                        length,
                        key: files[j].1.key,
                        nonce,
                    },
                )
            } else {
                (files[k].0, with_offset_by(files[k].1, delta))
            },
    )
}

/// `f` moved by `delta` bytes.
pub open spec fn with_offset_by(f: File, delta: int) -> File {
    File {
        created_at: f.created_at,
        offset: (f.offset + delta) as usize,
        length: f.length,
        key: f.key,
        nonce: f.nonce,
    }
}

/// `c2` is `c1` with entry `filename` of the newest folder resealed under
/// a fresh nonce (never the one it had) to hold `p`: its old bytes in CONTENT are replaced by the
/// new ones, everything after them moves by the change in length, and so
/// do the offsets of the entries made after it.
pub open spec fn edited(c1: Clog, c2: Clog, filename: Seq<char>, p: Seq<u8>) -> bool {
    let i = c1.metadata.folders@.len() - 1;
    let files = c1.metadata.folders@[i].1.files@;
    let j = index_of(files, filename);
    let before = files[j].1;
    let nonce = c2.metadata.folders@[i].1.files@[j].1.nonce;
    let start = before.offset - HEADER_LENGTH;
    &&& nonce@.len() == NONCE_LEN
    &&& nonce@ != before.nonce@
    &&& replaces_files(
        c1.metadata.folders@,
        c2.metadata.folders@,
        i,
        relocated(files, j, nonce, stored_len(p.len()) as usize),
    )
    &&& c2.content@ == c1.content@.subrange(0, start) + base64_of(sealed(before.key@, nonce@, p))
        + c1.content@.subrange(start + before.length, c1.content@.len() as int)
    &&& base64_of(sealed(before.key@, nonce@, p)).len() == stored_len(p.len())
    &&& c2.salt == c1.salt
    &&& c2.metadata.created_at == c1.metadata.created_at
}

/// Replaces the content of entry `filename` of folder `foldername` by
/// `new_content`, in place.  The entry gets a fresh nonce (a nonce is never
/// reused under a key), the new ciphertext replaces the old bytes, the
/// bytes after them are moved by the change in length, and so are the
/// offsets of the entries made after it.  Refused when there is no such
/// entry (`NotFound`), the folder is closed or not the newest (`ReadOnly`),
/// or CONTENT would outgrow the header's fields (`Format`); the store is
/// then unchanged.
pub fn edit_file_with_content(
    clog: &mut Clog,
    foldername: &str,
    filename: &str,
    new_content: &str,
) -> (r: Result<(), ClogError>)
    requires
        old(clog).wf(),
    ensures
        final(clog).wf(),
        match edit_error(*old(clog), foldername@, filename@, new_content.spec_bytes().len()) {
            Some(e) => r == Err::<(), ClogError>(e) && *final(clog) == *old(clog),
            None => r is Ok && edited(*old(clog), *final(clog), filename@, new_content.spec_bytes())
                && stores(*final(clog), foldername@, filename@, new_content.spec_bytes()),
        },
{
    let ghost c1 = *clog;
    let plain = new_content.as_bytes();
    let fi = match find_name(&clog.metadata.folders, foldername) {
        None => return Err(ClogError::NotFound),
        Some(fi) => fi,
    };
    assert(clog.metadata.folders@[fi as int].1.wf());
    let j = match find_name(&clog.metadata.folders[fi].1.files, filename) {
        None => return Err(ClogError::NotFound),
        Some(j) => j,
    };
    if fi != clog.metadata.folders.len() - 1 || clog.metadata.folders[fi].1.read_only {
        return Err(ClogError::ReadOnly);
    }
    let old_offset = clog.metadata.folders[fi].1.files[j].1.offset;
    let old_length = clog.metadata.folders[fi].1.files[j].1.length;
    let ghost files1 = c1.metadata.folders@[fi as int].1.files@;
    proof {
        lemma_entry_in_content(c1, fi as int, j as int);
        assert(files1[j as int].1.wf());
    }
    if plain.len() > MAX_FIELD {
        return Err(ClogError::Format);
    }
    let length: usize = 4 * ((plain.len() + TAG_LEN + 2) / 3);
    if HEADER_LENGTH + clog.content.len() - old_length + length > MAX_FIELD {
        return Err(ClogError::Format);
    }
    // A fresh nonce first: the old one must never seal a second plaintext.
    clog.metadata.folders[fi].1.files[j].1.update_nonce();
    let mut block = {
        let rec = &clog.metadata.folders[fi].1.files[j].1;
        encrypt_and_encode_content_to_base64(plain, rec.key.as_slice(), rec.nonce.as_slice())
    };
    let ghost nonce = clog.metadata.folders@[fi as int].1.files@[j as int].1.nonce;
    // Splice: the new bytes go where the old ones were, the tail after them.
    let start = old_offset - HEADER_LENGTH;
    let mut tail = clog.content.split_off(start + old_length);
    clog.content.truncate(start);
    clog.content.append(&mut block);
    clog.content.append(&mut tail);
    clog.metadata.folders[fi].1.files[j].1.update_length(length);
    let ghost spliced = clog.content@;
    proof {
        assert(spliced =~= c1.content@.subrange(0, start as int) + base64_of(
            sealed(files1[j as int].1.key@, nonce@, plain@),
        ) + c1.content@.subrange(start + old_length, c1.content@.len() as int));
    }
    // Entries made later lie after this one; they move with the tail.
    let delta: isize = length as isize - old_length as isize;
    let ghost target = relocated(files1, j as int, nonce, length);
    let n = clog.metadata.folders[fi].1.files.len();
    proof {
        let rec = clog.metadata.folders@[fi as int].1.files@[j as int];
        assert(rec == target[j as int]);
        assert forall|q: int| j < q < n implies old_offset + old_length <= #[trigger] files1[q].1.offset
            && files1[q].1.offset + files1[q].1.length <= c1.end() by {
            let p1 = lemma_entry_position(c1.metadata.folders@, fi as int, j as int);
            let p2 = lemma_entry_position(c1.metadata.folders@, fi as int, q);
            lemma_tiles_bounds(entries(c1.metadata.folders@), HEADER_LENGTH as int, c1.end());
            crate::layout::lemma_tiles_ordered(
                entries(c1.metadata.folders@),
                HEADER_LENGTH as int,
                c1.end(),
                p1,
                p2,
            );
        }
    }
    let mut k: usize = j + 1;
    while k < n
        invariant
            j < k <= n,
            n == files1.len(),
            fi == c1.metadata.folders@.len() - 1,
            delta == length - old_length,
            old_length == files1[j as int].1.length,
            target == relocated(files1, j as int, nonce, length),
            clog.content@ == spliced,
            clog.salt == c1.salt,
            clog.metadata.created_at == c1.metadata.created_at,
            clog.metadata.folders@.len() == c1.metadata.folders@.len(),
            forall|q: int|
                0 <= q < c1.metadata.folders@.len() && q != fi ==> #[trigger] clog.metadata.folders@[q]
                    == c1.metadata.folders@[q],
            clog.metadata.folders@[fi as int].0 == c1.metadata.folders@[fi as int].0,
            clog.metadata.folders@[fi as int].1.read_only == c1.metadata.folders@[fi as int].1.read_only,
            clog.metadata.folders@[fi as int].1.files@.len() == n,
            forall|q: int|
                0 <= q < k ==> #[trigger] clog.metadata.folders@[fi as int].1.files@[q] == target[q],
            forall|q: int|
                k <= q < n ==> #[trigger] clog.metadata.folders@[fi as int].1.files@[q] == files1[q],
            forall|q: int|
                j < q < n ==> old_offset + old_length <= #[trigger] files1[q].1.offset
                    && files1[q].1.offset + files1[q].1.length <= c1.end(),
            c1.end() <= MAX_FIELD,
        decreases n - k,
    {
        assert(clog.metadata.folders@[fi as int].1.files@[k as int] == files1[k as int]);
        let ghost files_before = clog.metadata.folders@[fi as int].1.files@;
        clog.metadata.folders[fi].1.files[k].1.update_offset(delta);
        proof {
            let files_now = clog.metadata.folders@[fi as int].1.files@;
            assert(files_now[k as int].0 == files1[k as int].0);
            assert(files_now[k as int].1 == with_offset_by(files1[k as int].1, delta as int));
            assert(target[k as int] == (files1[k as int].0, with_offset_by(files1[k as int].1, delta as int)));
            assert(files_now[k as int] == target[k as int]);
            assert forall|q: int| 0 <= q < n && q != k implies #[trigger] files_now[q] == files_before[q] by {}
        }
        k = k + 1;
    }
    proof {
        let folders1 = c1.metadata.folders@;
        let folders2 = clog.metadata.folders@;
        let files2 = folders2[fi as int].1.files@;
        assert(files2 =~= target);
        assert forall|a: int, b: int|
            0 <= a < files2.len() && 0 <= b < files2.len() && a != b
                implies #[trigger] files2[a].0@ != #[trigger] files2[b].0@ by {
            assert(files2[a].0 == files1[a].0);
            assert(files2[b].0 == files1[b].0);
        }
        assert forall|q: int| 0 <= q < files2.len() implies #[trigger] files2[q].1.wf() by {
            assert(files1[q].1.wf());
        }
        assert(folders2[fi as int].1.wf());
        clog.metadata.lemma_replaced_folder_keeps_wf(c1.metadata, fi as int);
        lemma_entries_last(folders1, folders2, target);
        assert(entries(folders1) == entries(folders1.drop_last()) + files_of(files1));
        let base = entries(folders1.drop_last()).len();
        let es1 = entries(folders1);
        let es2 = entries(folders2);
        let pre = entries(folders1.drop_last());
        assert(es2 == pre + files_of(target));
        assert forall|x: int| #![trigger es2[x]] 0 <= x < base + j implies es2[x].offset == es1[x].offset
            && es2[x].length == es1[x].length by {
            if x >= base {
                assert(es1[x] == files_of(files1)[x - base]);
                assert(es2[x] == files_of(target)[x - base]);
            }
        }
        assert forall|x: int| #![trigger es2[x]] base + j < x < es1.len() implies es2[x].offset
            == es1[x].offset + delta && es2[x].length == es1[x].length by {
            if base + j < x < es1.len() {
                assert(es1[x] == files_of(files1)[x - base]);
                assert(es2[x] == files_of(target)[x - base]);
            }
        }
        assert(es1[base + j] == files_of(files1)[j as int]);
        assert(es2[base + j] == files_of(target)[j as int]);
        lemma_tiles_relocate(es1, es2, base + j, HEADER_LENGTH as int, c1.end(), delta as int);
        lemma_index_of_unique(folders1, foldername@, fi as int);
        lemma_index_of_unique(folders2, foldername@, fi as int);
        lemma_index_of_unique(files1, filename@, j as int);
        lemma_index_of_unique(files2, filename@, j as int);
        assert(block_of(*clog, target[j as int].1) =~= base64_of(
            sealed(files1[j as int].1.key@, nonce@, plain@),
        ));
    }
    Ok(())
}

} // verus!
