//! The operations a user of the log performs on a store: creating one,
//! the daily turnover, adding, editing and reading entries.  Each write
//! starts with the daily turnover, so that only today's folder is open.
use crate::content::{
    add_error, add_file_with_content, appended, block_of, decrypt_content_from_file, edit_error,
    edit_file_with_content, edited, record, stores, Clog, SALT_LEN,
};
use crate::crypto::{base64_of, random_bytes, sealed, MAX_PLAINTEXT};
use crate::error::ClogError;
use crate::layout::{entries, lemma_entries_same_files};
use crate::metadata::{
    daily_check_and_update_metadata, has_name, init, is_current, lemma_turnover_names,
    lemma_turnover_of_current, turned_over,
};
use crate::text::utf8_to_string;
use vstd::prelude::*;
use vstd::string::StringSliceAdditionalSpecFns;
use vstd::utf8::{encode_utf8, encode_utf8_decode_utf8, encode_utf8_valid_utf8, valid_utf8};

verus! {

/// Name of the entry every new store starts with.
pub const WELCOME_NAME: &'static str = "Welcome";

/// Content of the entry every new store starts with.
pub const WELCOME_TEXT: &'static str = "This is the first log.\nEnjoy clog.\nWrite log everyday.\nMake note of everything.";

/// `c2` holds what `c1` holds: salt, catalog and CONTENT.
pub open spec fn unchanged(c1: Clog, c2: Clog) -> bool {
    &&& c2.salt == c1.salt
    &&& c2.metadata.folders@ == c1.metadata.folders@
    &&& c2.metadata.created_at == c1.metadata.created_at
    &&& c2.content == c1.content
}

/// `c2` is `c1` after the daily turnover for `today`; CONTENT unchanged.
pub open spec fn after_turnover(c1: Clog, c2: Clog, today: Seq<char>) -> bool {
    &&& c2.wf()
    &&& c2.salt == c1.salt
    &&& c2.content == c1.content
    &&& turned_over(c1.metadata, c2.metadata, today)
}

/// The daily turnover of a store for the day `today`: every other folder
/// is closed to writes, and today's folder is added if missing.
pub fn rotate_folders(clog: &mut Clog, today: &str)
    requires
        old(clog).wf(),
    ensures
        after_turnover(*old(clog), *final(clog), today@),
        is_current(old(clog).metadata, today@) ==> final(clog).metadata.folders@ == old(
            clog,
        ).metadata.folders@,
{
    daily_check_and_update_metadata(&mut clog.metadata, today);
    proof {
        lemma_entries_same_files(old(clog).metadata.folders@, clog.metadata.folders@);
        if is_current(old(clog).metadata, today@) {
            lemma_turnover_of_current(old(clog).metadata, clog.metadata, today@);
        }
    }
}

/// Adds entry `filename` holding `file_content` to folder `foldername`,
/// after the daily turnover for `today`.  A missing folder is `NotFound`
/// (unless it is today's, which the turnover makes).  The turnover stays
/// even when the entry is refused; on a store already turned over for
/// `today`, a refused entry leaves the store unchanged.
pub fn add_file(
    clog: &mut Clog,
    filename: &str,
    foldername: &str,
    file_content: &str,
    today: &str,
) -> (r: Result<(), ClogError>)
    requires
        old(clog).wf(),
    ensures
        final(clog).wf(),
        exists|mid: Clog|
            #[trigger] after_turnover(*old(clog), mid, today@) && match add_error(
                mid,
                foldername@,
                filename@,
                file_content.spec_bytes().len(),
            ) {
                Some(e) => r == Err::<(), ClogError>(e) && *final(clog) == mid,
                None => r is Ok && appended(mid, *final(clog), filename@, file_content.spec_bytes())
                    && stores(*final(clog), foldername@, filename@, file_content.spec_bytes()),
            },
        !has_name(old(clog).metadata.folders@, foldername@) && foldername@ != today@ ==> r
            == Err::<(), ClogError>(ClogError::NotFound),
        r is Err && is_current(old(clog).metadata, today@) ==> unchanged(*old(clog), *final(clog)),
{
    rotate_folders(clog, today);
    let ghost mid = *clog;
    let r = add_file_with_content(clog, foldername, filename, file_content);
    proof {
        assert(after_turnover(*old(clog), mid, today@));
        if has_name(mid.metadata.folders@, foldername@) {
            lemma_turnover_names(old(clog).metadata, mid.metadata, today@, foldername@);
        }
    }
    r
}

/// Replaces the content of entry `filename` of folder `foldername` by
/// `new_content`, after the daily turnover for `today`: only an entry of
/// today's folder can be edited.  The turnover stays even when the edit is
/// refused; on a store already turned over for `today`, a refused edit
/// leaves the store unchanged.
pub fn edit_file(
    clog: &mut Clog,
    filename: &str,
    foldername: &str,
    new_content: &str,
    today: &str,
) -> (r: Result<(), ClogError>)
    requires
        old(clog).wf(),
    ensures
        final(clog).wf(),
        exists|mid: Clog|
            #[trigger] after_turnover(*old(clog), mid, today@) && match edit_error(
                mid,
                foldername@,
                filename@,
                new_content.spec_bytes().len(),
            ) {
                Some(e) => r == Err::<(), ClogError>(e) && *final(clog) == mid,
                None => r is Ok && edited(mid, *final(clog), filename@, new_content.spec_bytes())
                    && stores(*final(clog), foldername@, filename@, new_content.spec_bytes()),
            },
        r is Err && is_current(old(clog).metadata, today@) ==> unchanged(*old(clog), *final(clog)),
{
    rotate_folders(clog, today);
    let ghost mid = *clog;
    let r = edit_file_with_content(clog, foldername, filename, new_content);
    assert(after_turnover(*old(clog), mid, today@));
    r
}

/// The text of entry `filename` of folder `foldername`.  `NotFound` when
/// there is no such entry, `Crypto` when it does not open, `Format`
/// exactly when its bytes are not base64 or the plaintext is not UTF-8.
pub fn get_file_content(clog: &Clog, filename: &str, foldername: &str) -> (r: Result<
    String,
    ClogError,
>)
    requires
        clog.wf(),
    ensures
        r == Err::<String, ClogError>(ClogError::NotFound) <==> !clog.metadata.has_file(
            foldername@,
            filename@,
        ),
        r is Err ==> r->Err_0 == ClogError::NotFound || r->Err_0 == ClogError::Format || r->Err_0
            == ClogError::Crypto,
        forall|text: Seq<char>| #[trigger]
            stores(*clog, foldername@, filename@, encode_utf8(text)) ==> r is Ok && r->Ok_0@ == text,
        r == Err::<String, ClogError>(ClogError::Format) <==> clog.metadata.has_file(
            foldername@,
            filename@,
        ) && {
            let f = record(*clog, foldername@, filename@);
            let stored = block_of(*clog, f);
            ||| !(exists|b: Seq<u8>| #[trigger] base64_of(b) == stored)
            ||| exists|p: Seq<u8>|
                p.len() <= MAX_PLAINTEXT && #[trigger] base64_of(sealed(f.key@, f.nonce@, p))
                    == stored && !valid_utf8(p)
        },
{
    let plain = match decrypt_content_from_file(clog, foldername, filename) {
        Ok(p) => p,
        Err(e) => return Err(e),
    };
    let ghost bytes = plain@;
    match utf8_to_string(plain) {
        Some(s) => {
            proof {
                assert forall|text: Seq<char>| #[trigger]
                    stores(*clog, foldername@, filename@, encode_utf8(text)) implies s@ == text by {
                    encode_utf8_decode_utf8(text);
                }
            }
            Ok(s)
        },
        None => {
            proof {
                assert forall|text: Seq<char>| #[trigger]
                    stores(*clog, foldername@, filename@, encode_utf8(text)) implies false by {
                    encode_utf8_valid_utf8(text);
                }
                let f = record(*clog, foldername@, filename@);
                assert(base64_of(sealed(f.key@, f.nonce@, bytes)) == block_of(*clog, f));
            }
            Err(ClogError::Format)
        },
    }
}

/// UTF-8 spends at most four bytes on a character.
proof fn lemma_utf8_len(chars: Seq<char>)
    ensures
        encode_utf8(chars).len() <= 4 * chars.len(),
    decreases chars.len(),
{
    if chars.len() > 0 {
        lemma_utf8_len(chars.drop_first());
        assert(vstd::utf8::encode_scalar(chars[0] as u32).len() <= 4);
    }
}

/// A new store: a fresh salt, a catalog holding today's folder, and in it
/// the welcome entry.
pub fn make_new_clogfile() -> (r: Clog)
    ensures
        r.wf(),
        r.metadata.folders@.len() == 1,
        !r.metadata.folders@[0].1.read_only,
        r.metadata.folders@[0].1.files@.len() == 1,
        stores(r, r.metadata.folders@[0].0@, WELCOME_NAME@, WELCOME_TEXT.spec_bytes()),
{
    let metadata = init();
    let salt = random_bytes(SALT_LEN);
    let mut clog = Clog { salt, metadata, content: Vec::new() };
    proof {
        let folders = clog.metadata.folders@;
        assert(entries(folders.drop_last()) == Seq::<crate::metadata::File>::empty());
        assert(crate::layout::files_of(folders.last().1.files@) =~= Seq::empty());
        assert(entries(folders) =~= Seq::empty());
    }
    let folder = clog.metadata.folders[0].0.clone();
    proof {
        reveal_strlit(
            "This is the first log.\nEnjoy clog.\nWrite log everyday.\nMake note of everything.",
        );
        lemma_utf8_len(WELCOME_TEXT@);
        crate::metadata::lemma_index_of_unique(clog.metadata.folders@, folder@, 0);
    }
    let added = add_file_with_content(&mut clog, folder.as_str(), WELCOME_NAME, WELCOME_TEXT);
    assert(added is Ok);
    clog
}

} // verus!
