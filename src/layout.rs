//! Where entries lie in CONTENT: the offset invariant and its lemmas.
use crate::metadata::{File, Folder};
use vstd::prelude::*;

verus! {

/// Length in bytes of the fixed two-line header; CONTENT starts here.
pub const HEADER_LENGTH: usize = 72;

/// Largest value the header's zero-padded 8-digit fields can hold.
pub const MAX_FIELD: usize = 99999999;

/// The records of a folder, in order.
pub open spec fn files_of(files: Seq<(String, File)>) -> Seq<File> {
    files.map_values(|p: (String, File)| p.1)
}

/// Every record of the catalog, folder after folder, each folder's in the
/// order its entries were made: the order in which they were appended.
pub open spec fn entries(folders: Seq<(String, Folder)>) -> Seq<File>
    decreases folders.len(),
{
    if folders.len() == 0 {
        Seq::empty()
    } else {
        entries(folders.drop_last()) + files_of(folders.last().1.files@)
    }
}

/// The records cover `[start, end)` exactly: each non-empty, the first at
/// `start`, each next one where the one before ends, the last ending at
/// `end`.
pub open spec fn tiles(es: Seq<File>, start: int, end: int) -> bool {
    &&& es.len() == 0 ==> start == end
    &&& es.len() > 0 ==> es[0].offset == start && es.last().offset + es.last().length == end
    &&& forall|i: int| 0 <= i < es.len() ==> #[trigger] es[i].length > 0
    &&& forall|i: int, j: int|
        #![trigger es[i], es[j]]
        0 <= i && j == i + 1 && j < es.len() ==> es[i].offset + es[i].length == es[j].offset
}

/// Records that tile a region lie inside it.
pub proof fn lemma_tiles_bounds(es: Seq<File>, start: int, end: int)
    requires
        tiles(es, start, end),
    ensures
        forall|k: int|
            0 <= k < es.len() ==> start <= #[trigger] es[k].offset && es[k].offset + es[k].length
                <= end,
{
    assert forall|k: int| 0 <= k < es.len() implies start <= #[trigger] es[k].offset by {
        lemma_tiles_start(es, start, end, k);
    }
    assert forall|k: int| 0 <= k < es.len() implies #[trigger] es[k].offset + es[k].length <= end by {
        lemma_tiles_end(es, start, end, k);
    }
}

proof fn lemma_tiles_start(es: Seq<File>, start: int, end: int, k: int)
    requires
        tiles(es, start, end),
        0 <= k < es.len(),
    ensures
        start <= es[k].offset,
    decreases k,
{
    if k > 0 {
        lemma_tiles_start(es, start, end, k - 1);
        assert(es[k - 1].offset + es[k - 1].length == es[k].offset);
    }
}

proof fn lemma_tiles_end(es: Seq<File>, start: int, end: int, k: int)
    requires
        tiles(es, start, end),
        0 <= k < es.len(),
    ensures
        es[k].offset + es[k].length <= end,
    decreases es.len() - k,
{
    if k < es.len() - 1 {
        lemma_tiles_end(es, start, end, k + 1);
        assert(es[k].offset + es[k].length == es[k + 1].offset);
        assert(es[k + 1].length > 0);
    }
}

/// Records that tile a region are in strictly ascending, non-overlapping
/// order: each ends at or before the start of every later one.
pub proof fn lemma_tiles_ordered(es: Seq<File>, start: int, end: int, i: int, j: int)
    requires
        tiles(es, start, end),
        0 <= i < j < es.len(),
    ensures
        es[i].offset + es[i].length <= es[j].offset,
        es[i].offset < es[j].offset,
    decreases j - i,
{
    assert(es[i].length > 0);
    if j == i + 1 {
        assert(es[i].offset + es[i].length == es[j].offset);
    } else {
        lemma_tiles_ordered(es, start, end, i, j - 1);
        assert(es[j - 1].offset + es[j - 1].length == es[j].offset);
        assert(es[j - 1].length > 0);
    }
}

/// A non-empty record placed where the tiling ends extends it.
pub proof fn lemma_tiles_push(es: Seq<File>, start: int, end: int, f: File)
    requires
        tiles(es, start, end),
        f.offset == end,
        f.length > 0,
    ensures
        tiles(es.push(f), start, end + f.length),
{
    let es2 = es.push(f);
    assert forall|i: int| 0 <= i < es2.len() implies #[trigger] es2[i].length > 0 by {
        if i < es.len() {
            assert(es2[i] == es[i]);
        }
    }
    assert forall|i: int, j: int|
        #![trigger es2[i], es2[j]]
        0 <= i && j == i + 1 && j < es2.len() implies es2[i].offset + es2[i].length
            == es2[j].offset by {
        assert(es2[i] == es[i]);
        if j < es.len() {
            assert(es2[j] == es[j]);
            assert(es[i].offset + es[i].length == es[j].offset);
        }
    }
}

/// Resizing record `k` by `delta` bytes and moving every later record by
/// `delta` keeps the tiling, with its end moved by `delta`.
pub proof fn lemma_tiles_relocate(
    es: Seq<File>,
    es2: Seq<File>,
    k: int,
    start: int,
    end: int,
    delta: int,
)
    requires
        tiles(es, start, end),
        0 <= k < es.len(),
        es2.len() == es.len(),
        forall|i: int|
            #![trigger es2[i]]
            0 <= i < k ==> es2[i].offset == es[i].offset && es2[i].length == es[i].length,
        es2[k].offset == es[k].offset,
        es2[k].length == es[k].length + delta,
        es2[k].length > 0,
        forall|i: int|
            #![trigger es2[i]]
            k < i < es.len() ==> es2[i].offset == es[i].offset + delta && es2[i].length
                == es[i].length,
    ensures
        tiles(es2, start, end + delta),
{
    assert(es2.last() == es2[es2.len() - 1]);
    assert forall|i: int| 0 <= i < es2.len() implies #[trigger] es2[i].length > 0 by {
        assert(es[i].length > 0);
    }
    assert forall|i: int, j: int|
        #![trigger es2[i], es2[j]]
        0 <= i && j == i + 1 && j < es2.len() implies es2[i].offset + es2[i].length
            == es2[j].offset by {
        assert(es[i].offset + es[i].length == es[j].offset);
    }
}

/// Replacing the records of the last folder changes only the tail of
/// `entries`.
pub proof fn lemma_entries_last(
    a: Seq<(String, Folder)>,
    b: Seq<(String, Folder)>,
    files: Seq<(String, File)>,
)
    requires
        a.len() > 0,
        a.len() == b.len(),
        forall|k: int| 0 <= k < a.len() - 1 ==> #[trigger] b[k] == a[k],
        b.last().1.files@ == files,
    ensures
        entries(b) == entries(a.drop_last()) + files_of(files),
{
    assert(b.drop_last() =~= a.drop_last());
}

/// Folder lists holding the same records in the same order, followed by
/// any number of empty folders, have the same entries.
pub proof fn lemma_entries_same_files(a: Seq<(String, Folder)>, b: Seq<(String, Folder)>)
    requires
        a.len() <= b.len(),
        forall|k: int| 0 <= k < a.len() ==> (#[trigger] b[k]).1.files@ == a[k].1.files@,
        forall|k: int| a.len() <= k < b.len() ==> (#[trigger] b[k]).1.files@.len() == 0,
    ensures
        entries(b) == entries(a),
    decreases b.len(),
{
    if b.len() == 0 {
    } else if b.len() > a.len() {
        assert(files_of(b.last().1.files@) =~= Seq::<File>::empty());
        lemma_entries_same_files(a, b.drop_last());
        assert(entries(b) =~= entries(b.drop_last()));
    } else {
        lemma_entries_same_files(a.drop_last(), b.drop_last());
        assert(files_of(b.last().1.files@) =~= files_of(a.last().1.files@));
    }
}

} // verus!
