//! What holds across operations: the laws of the store, proved from the
//! contracts of the operations.
use crate::content::{
    add_error, appended, block_of, edit_error, edited, lemma_entry_in_content,
    lemma_entry_position, record, relocated, stored_len, stores, writable, Clog,
};
use crate::crypto::NONCE_LEN;
use crate::error::ClogError;
use crate::layout::{entries, files_of, lemma_entries_last, lemma_tiles_ordered, HEADER_LENGTH};
use crate::metadata::{has_name, index_of, lemma_index_of_unique};
use crate::ops::after_turnover;
use vstd::prelude::*;

verus! {

/// Round trip: once `p` is added as entry `filename` of folder
/// `foldername`, that entry holds `p`, so reading it back yields `p`.
pub proof fn law_round_trip(
    c1: Clog,
    c2: Clog,
    foldername: Seq<char>,
    filename: Seq<char>,
    p: Seq<u8>,
)
    requires
        c1.wf(),
        c2.wf(),
        add_error(c1, foldername, filename, p.len()) is None,
        appended(c1, c2, filename, p),
    ensures
        stores(c2, foldername, filename, p),
{
    let i = c1.metadata.folders@.len() - 1;
    let files2 = c2.metadata.folders@[i].1.files@;
    let j = files2.len() - 1;
    assert(c2.metadata.folders@[i].0@ == foldername);
    lemma_index_of_unique(c2.metadata.folders@, foldername, i);
    assert(c2.metadata.folders@[i].1.wf());
    lemma_index_of_unique(files2, filename, j);
    let fresh = files2[j].1;
    assert(block_of(c2, fresh) =~= c2.content@.subrange(
        c1.content@.len() as int,
        c2.content@.len() as int,
    ));
    assert(c2.content@.subrange(c1.content@.len() as int, c2.content@.len() as int) =~= crate::crypto::base64_of(
        crate::crypto::sealed(fresh.key@, fresh.nonce@, p),
    ));
}

/// Editing an entry to the content it already holds: the entry still
/// holds it, under a fresh nonce different from the old one; CONTENT keeps
/// its length; and no entry's offset changes.
pub proof fn law_edit_same_content(
    c1: Clog,
    c2: Clog,
    foldername: Seq<char>,
    filename: Seq<char>,
    p: Seq<u8>,
)
    requires
        c1.wf(),
        c2.wf(),
        stores(c1, foldername, filename, p),
        edit_error(c1, foldername, filename, p.len()) is None,
        edited(c1, c2, filename, p),
    ensures
        stores(c2, foldername, filename, p),
        record(c2, foldername, filename).nonce@.len() == NONCE_LEN,
        record(c2, foldername, filename).nonce@ != record(c1, foldername, filename).nonce@,
        c2.content@.len() == c1.content@.len(),
        entries(c2.metadata.folders@).len() == entries(c1.metadata.folders@).len(),
        forall|k: int|
            0 <= k < entries(c1.metadata.folders@).len() ==> #[trigger] entries(
                c2.metadata.folders@,
            )[k].offset == entries(c1.metadata.folders@)[k].offset,
{
    let i = c1.metadata.folders@.len() - 1;
    let folders1 = c1.metadata.folders@;
    let folders2 = c2.metadata.folders@;
    let files1 = folders1[i].1.files@;
    let files2 = folders2[i].1.files@;
    assert(folders1[i].0@ == foldername);
    lemma_index_of_unique(folders1, foldername, i);
    assert(folders2[i].0@ == foldername);
    lemma_index_of_unique(folders2, foldername, i);
    let j = index_of(files1, filename);
    assert(folders1[i].1.wf());
    assert(folders2[i].1.wf());
    assert(files2[j].0 == files1[j].0);
    lemma_index_of_unique(files2, filename, j);
    let before = files1[j].1;
    let after = files2[j].1;
    lemma_entry_in_content(c1, i, j);
    lemma_entry_in_content(c2, i, j);
    let start = before.offset - HEADER_LENGTH;
    assert(block_of(c2, after) =~= c2.content@.subrange(start, start + after.length));
    assert(c2.content@.subrange(start, start + after.length) =~= crate::crypto::base64_of(
        crate::crypto::sealed(before.key@, after.nonce@, p),
    ));
    assert(files2 =~= relocated(files1, j, after.nonce, stored_len(p.len()) as usize));
    lemma_entries_last(folders1, folders2, files2);
    assert(entries(folders1) == entries(folders1.drop_last()) + files_of(files1));
    let base = entries(folders1.drop_last()).len();
    assert forall|k: int| 0 <= k < entries(folders1).len() implies #[trigger] entries(folders2)[k].offset
        == entries(folders1)[k].offset by {
        if k >= base {
            assert(entries(folders1)[k] == files_of(files1)[k - base]);
            assert(entries(folders2)[k] == files_of(files2)[k - base]);
        }
    }
}

/// The offset invariant: the entries, in the order they were made, have
/// strictly ascending, non-overlapping, contiguous ranges, the first at
/// the end of the header and the last ending where the catalog starts.
pub proof fn law_offsets(c: Clog)
    requires
        c.wf(),
    ensures
        ({
            let es = entries(c.metadata.folders@);
            &&& forall|a: int, b: int|
                0 <= a < b < es.len() ==> #[trigger] es[a].offset + es[a].length <= #[trigger] es[b].offset
                    && es[a].offset < es[b].offset
            &&& forall|a: int|
                0 <= a < es.len() - 1 ==> #[trigger] es[a].offset + es[a].length == es[a + 1].offset
            &&& es.len() > 0 ==> es[0].offset == HEADER_LENGTH
            &&& es.len() > 0 ==> es.last().offset + es.last().length == c.end()
            &&& es.len() == 0 ==> c.end() == HEADER_LENGTH
        }),
{
    let es = entries(c.metadata.folders@);
    assert forall|a: int, b: int| 0 <= a < b < es.len() implies #[trigger] es[a].offset + es[a].length
        <= #[trigger] es[b].offset && es[a].offset < es[b].offset by {
        lemma_tiles_ordered(es, HEADER_LENGTH as int, c.end(), a, b);
    }
    assert forall|a: int| 0 <= a < es.len() - 1 implies #[trigger] es[a].offset + es[a].length
        == es[a + 1].offset by {
        assert(es[a].offset + es[a].length == es[a + 1].offset);
    }
}

/// Folder rotation: after the turnover for a later day, a past day's folder
/// is closed, the new day's folder exists, and every write to the past
/// folder is refused.
pub proof fn law_folder_rotation(
    c1: Clog,
    c2: Clog,
    day: Seq<char>,
    next_day: Seq<char>,
    filename: Seq<char>,
    n: nat,
)
    requires
        c1.wf(),
        has_name(c1.metadata.folders@, day),
        day != next_day,
        after_turnover(c1, c2, next_day),
    ensures
        c2.metadata.folders@[index_of(c2.metadata.folders@, day)].1.read_only,
        has_name(c2.metadata.folders@, next_day),
        !writable(c2.metadata, day),
        add_error(c2, day, filename, n) == Some(ClogError::AlreadyExists) || add_error(
            c2,
            day,
            filename,
            n,
        ) == Some(ClogError::ReadOnly),
        edit_error(c2, day, filename, n) == Some(ClogError::NotFound) || edit_error(
            c2,
            day,
            filename,
            n,
        ) == Some(ClogError::ReadOnly),
{
    let d = index_of(c1.metadata.folders@, day);
    assert(c2.metadata.folders@[d].0 == c1.metadata.folders@[d].0);
    lemma_index_of_unique(c2.metadata.folders@, day, d);
    let m2 = c2.metadata;
    if writable(m2, day) {
        let last = m2.folders@.len() - 1;
        lemma_index_of_unique(m2.folders@, day, last);
    }
}

/// Editing one entry leaves every other entry holding what it held: the
/// bytes before the edited range stay where they were, and those after it
/// move together with the offsets that point at them.
pub proof fn law_edit_keeps_others(
    c1: Clog,
    c2: Clog,
    foldername: Seq<char>,
    filename: Seq<char>,
    p: Seq<u8>,
    other_folder: Seq<char>,
    other_name: Seq<char>,
    q: Seq<u8>,
)
    requires
        c1.wf(),
        c2.wf(),
        edit_error(c1, foldername, filename, p.len()) is None,
        edited(c1, c2, filename, p),
        stores(c1, other_folder, other_name, q),
        other_folder != foldername || other_name != filename,
    ensures
        stores(c2, other_folder, other_name, q),
{
    let folders1 = c1.metadata.folders@;
    let folders2 = c2.metadata.folders@;
    let i = folders1.len() - 1;
    let files1 = folders1[i].1.files@;
    let files2 = folders2[i].1.files@;
    assert(folders1[i].0@ == foldername);
    lemma_index_of_unique(folders1, foldername, i);
    let j = index_of(files1, filename);
    assert(folders1[i].1.wf());
    let i2 = index_of(folders1, other_folder);
    let j2 = index_of(folders1[i2].1.files@, other_name);
    assert(folders1[i2].1.wf());
    assert(folders2[i2].0 == folders1[i2].0);
    lemma_index_of_unique(folders2, other_folder, i2);
    assert(folders2[i2].1.files@[j2].0 == folders1[i2].1.files@[j2].0);
    assert(folders2[i2].1.wf());
    lemma_index_of_unique(folders2[i2].1.files@, other_name, j2);
    assert(i2 != i || j2 != j);
    let before = files1[j].1;
    let e1 = folders1[i2].1.files@[j2].1;
    let e2 = folders2[i2].1.files@[j2].1;
    let start = before.offset - HEADER_LENGTH;
    let es = entries(folders1);
    let k = lemma_entry_position(folders1, i, j);
    let k2 = lemma_entry_position(folders1, i2, j2);
    lemma_entry_in_content(c1, i, j);
    lemma_entry_in_content(c1, i2, j2);
    let block = crate::crypto::base64_of(crate::crypto::sealed(before.key@, files2[j].1.nonce@, p));
    if i2 < i || j2 < j {
        if i2 < i {
            assert(folders1.take(i2 + 1).len() <= folders1.take(i).len());
            lemma_entries_take_prefix(folders1, i2, i);
        }
        assert(k2 < k);
        lemma_tiles_ordered(es, HEADER_LENGTH as int, c1.end(), k2, k);
        assert(e2 == e1);
        assert(block_of(c2, e2) =~= block_of(c1, e1));
    } else {
        assert(i2 == i && j2 > j);
        assert(k2 > k);
        lemma_tiles_ordered(es, HEADER_LENGTH as int, c1.end(), k, k2);
        assert(e2.offset == e1.offset + (stored_len(p.len()) - before.length));
        assert(block_of(c2, e2) =~= block_of(c1, e1));
    }
}

/// The entries of a shorter prefix of folders come no later than those of
/// a longer one: the record `j` of folder `a` stands before every record of
/// a later folder.
proof fn lemma_entries_take_prefix(folders: Seq<(String, crate::metadata::Folder)>, a: int, b: int)
    requires
        0 <= a < b <= folders.len(),
    ensures
        entries(folders.take(a)).len() + folders[a].1.files@.len() <= entries(folders.take(b)).len(),
    decreases b - a,
{
    let t = folders.take(a + 1);
    assert(t.drop_last() =~= folders.take(a));
    assert(entries(t).len() == entries(folders.take(a)).len() + folders[a].1.files@.len());
    if a + 1 < b {
        lemma_entries_take_grows(folders, a + 1, b);
    }
}

/// `entries` of a prefix grows with the prefix.
proof fn lemma_entries_take_grows(folders: Seq<(String, crate::metadata::Folder)>, a: int, b: int)
    requires
        0 <= a <= b <= folders.len(),
    ensures
        entries(folders.take(a)).len() <= entries(folders.take(b)).len(),
    decreases b - a,
{
    if a < b {
        let t = folders.take(b);
        assert(t.drop_last() =~= folders.take(b - 1));
        lemma_entries_take_grows(folders, a, b - 1);
    }
}

} // verus!
