//! Checking a catalog that came from outside (decoded from a file) before
//! it becomes a store: every invariant of a store, tested at run time.
use crate::content::{Clog, SALT_LEN};
use crate::crypto::{KEY_LEN, NONCE_LEN};
use crate::error::ClogError;
use crate::layout::{entries, files_of, tiles, HEADER_LENGTH, MAX_FIELD};
use crate::metadata::{names_unique, File, Folder, Metadata};
use crate::text::same_text;
use vstd::prelude::*;

verus! {

/// Whether no two items of the list share a name.
pub fn names_are_unique<T>(s: &Vec<(String, T)>) -> (r: bool)
    ensures
        r == names_unique(s@),
{
    let mut a: usize = 0;
    while a < s.len()
        invariant
            0 <= a <= s@.len(),
            forall|x: int, y: int|
                0 <= x < a && 0 <= y < s@.len() && x != y ==> #[trigger] s@[x].0@ != #[trigger] s@[y].0@,
        decreases s@.len() - a,
    {
        let mut b: usize = 0;
        while b < s.len()
            invariant
                0 <= a < s@.len(),
                0 <= b <= s@.len(),
                forall|x: int, y: int|
                    0 <= x < a && 0 <= y < s@.len() && x != y ==> #[trigger] s@[x].0@ != #[trigger] s@[y].0@,
                forall|y: int| 0 <= y < b && a != y ==> s@[a as int].0@ != #[trigger] s@[y].0@,
            decreases s@.len() - b,
        {
            if a != b && same_text(s[a].0.as_str(), s[b].0.as_str()) {
                return false;
            }
            b = b + 1;
        }
        a = a + 1;
    }
    true
}

/// Offsets and lengths of records, in order.
pub open spec fn spans(es: Seq<File>) -> Seq<(usize, usize)> {
    es.map_values(|f: File| (f.offset, f.length))
}

/// The offsets and lengths of every entry, in `entries` order; `None` when
/// a record's key or nonce has the wrong length.
fn collect_spans(folders: &Vec<(String, Folder)>) -> (r: Option<Vec<(usize, usize)>>)
    ensures
        r is Some <==> forall|i: int, j: int|
            0 <= i < folders@.len() && 0 <= j < folders@[i].1.files@.len() ==> (
            #[trigger] folders@[i].1.files@[j]).1.wf(),
        r is Some ==> r->0@ == spans(entries(folders@)),
{
    let mut out: Vec<(usize, usize)> = Vec::new();
    let mut i: usize = 0;
    while i < folders.len()
        invariant
            0 <= i <= folders@.len(),
            out@ == spans(entries(folders@.take(i as int))),
            forall|a: int, b: int|
                0 <= a < i && 0 <= b < folders@[a].1.files@.len() ==> (
                #[trigger] folders@[a].1.files@[b]).1.wf(),
        decreases folders@.len() - i,
    {
        let files = &folders[i].1.files;
        let mut j: usize = 0;
        while j < files.len()
            invariant
                0 <= i < folders@.len(),
                *files == folders@[i as int].1.files,
                0 <= j <= files@.len(),
                out@ == spans(entries(folders@.take(i as int)) + files_of(files@.take(j as int))),
                forall|a: int, b: int|
                    0 <= a < i && 0 <= b < folders@[a].1.files@.len() ==> (
                    #[trigger] folders@[a].1.files@[b]).1.wf(),
                forall|b: int| 0 <= b < j ==> (#[trigger] files@[b]).1.wf(),
            decreases files@.len() - j,
        {
            let f = &files[j].1;
            if f.key.len() != KEY_LEN || f.nonce.len() != NONCE_LEN {
                return None;
            }
            out.push((f.offset, f.length));
            proof {
                let pre = entries(folders@.take(i as int));
                assert(files_of(files@.take(j + 1)) =~= files_of(files@.take(j as int)).push(*f));
                assert(pre + files_of(files@.take(j + 1)) =~= (pre + files_of(files@.take(j as int))).push(*f));
                assert(out@ =~= spans(pre + files_of(files@.take(j + 1))));
            }
            j = j + 1;
        }
        proof {
            let t = folders@.take(i + 1);
            assert(t.drop_last() =~= folders@.take(i as int));
            assert(files@.take(files@.len() as int) =~= files@);
            assert(entries(t) == entries(t.drop_last()) + files_of(t.last().1.files@));
        }
        i = i + 1;
    }
    assert(folders@.take(folders@.len() as int) =~= folders@);
    Some(out)
}

/// A tiling's prefix ends where the next record starts (or at the end).
proof fn lemma_prefix_end(es: Seq<File>, start: int, end: int, k: int, p: int)
    requires
        tiles(es, start, end),
        0 <= k <= es.len(),
        tiles(es.take(k), start, p),
    ensures
        k < es.len() ==> es[k].offset == p,
        k == es.len() ==> p == end,
{
    if k > 0 {
        assert(es.take(k).last() == es[k - 1]);
        if k < es.len() {
            assert(es[k - 1].offset + es[k - 1].length == es[k].offset);
        }
    }
}

/// A record out of place ends the walk: the records do not tile.
proof fn lemma_walk_fails(es: Seq<File>, end: int, k: int, pos: int)
    requires
        0 <= k < es.len(),
        end <= usize::MAX,
        tiles(es.take(k), HEADER_LENGTH as int, pos),
        es[k].offset != pos || es[k].length == 0 || es[k].length > usize::MAX - pos,
    ensures
        !tiles(es, HEADER_LENGTH as int, end),
{
    if tiles(es, HEADER_LENGTH as int, end) {
        lemma_prefix_end(es, HEADER_LENGTH as int, end, k, pos);
        assert(es[k].length > 0);
        crate::layout::lemma_tiles_bounds(es, HEADER_LENGTH as int, end);
        assert(es[k].offset + es[k].length <= end);
    }
}

/// Whether the records tile `[HEADER_LENGTH, end)` exactly.
fn spans_tile(spans_v: &Vec<(usize, usize)>, end: usize, records: Ghost<Seq<File>>) -> (r: bool)
    requires
        spans_v@ == spans(records@),
    ensures
        r == tiles(records@, HEADER_LENGTH as int, end as int),
{
    let ghost es = records@;
    let mut pos: usize = HEADER_LENGTH;
    let mut k: usize = 0;
    proof {
        assert(es.take(0) =~= Seq::<File>::empty());
    }
    while k < spans_v.len()
        invariant
            es == records@,
            spans_v@ == spans(es),
            0 <= k <= es.len(),
            HEADER_LENGTH <= pos,
            tiles(es.take(k as int), HEADER_LENGTH as int, pos as int),
        decreases es.len() - k,
    {
        let (offset, length) = spans_v[k];
        assert(offset == es[k as int].offset && length == es[k as int].length);
        if offset != pos || length == 0 || length > usize::MAX - pos {
            proof {
                lemma_walk_fails(es, end as int, k as int, pos as int);
            }
            return false;
        }
        proof {
            crate::layout::lemma_tiles_push(es.take(k as int), HEADER_LENGTH as int, pos as int, es[k as int]);
            assert(es.take(k + 1) =~= es.take(k as int).push(es[k as int]));
        }
        pos = pos + length;
        k = k + 1;
    }
    proof {
        assert(es.take(es.len() as int) =~= es);
        if tiles(es, HEADER_LENGTH as int, end as int) {
            lemma_prefix_end(es, HEADER_LENGTH as int, end as int, k as int, pos as int);
        }
    }
    pos == end
}

impl Clog {
    /// A store from a salt, a catalog and CONTENT, after checking every
    /// invariant of a store; `Format` when one fails.
    pub fn from_parts(salt: Vec<u8>, metadata: Metadata, content: Vec<u8>) -> (r: Result<Clog, ClogError>)
        ensures
            r is Ok <==> (Clog { salt, metadata, content }).wf(),
            r is Ok ==> r->Ok_0 == (Clog { salt, metadata, content }),
            r is Err ==> r->Err_0 == ClogError::Format,
    {
        let ghost c = Clog { salt, metadata, content };
        if salt.len() != SALT_LEN || content.len() > MAX_FIELD - HEADER_LENGTH {
            return Err(ClogError::Format);
        }
        if !names_are_unique(&metadata.folders) {
            return Err(ClogError::Format);
        }
        let mut i: usize = 0;
        while i < metadata.folders.len()
            invariant
                0 <= i <= metadata.folders@.len(),
                c == (Clog { salt, metadata, content }),
                forall|a: int| 0 <= a < i ==> names_unique(#[trigger] metadata.folders@[a].1.files@),
            decreases metadata.folders@.len() - i,
        {
            if !names_are_unique(&metadata.folders[i].1.files) {
                proof {
                    if c.wf() {
                        assert(metadata.folders@[i as int].1.wf());
                    }
                }
                return Err(ClogError::Format);
            }
            i = i + 1;
        }
        let spans_v = match collect_spans(&metadata.folders) {
            None => {
                proof {
                    if c.wf() {
                        assert forall|a: int, b: int|
                            0 <= a < metadata.folders@.len() && 0 <= b < metadata.folders@[a].1.files@.len()
                                implies (#[trigger] metadata.folders@[a].1.files@[b]).1.wf() by {
                            assert(metadata.folders@[a].1.wf());
                        }
                    }
                }
                return Err(ClogError::Format);
            },
            Some(v) => v,
        };
        let end = HEADER_LENGTH + content.len();
        if !spans_tile(&spans_v, end, Ghost(entries(metadata.folders@))) {
            return Err(ClogError::Format);
        }
        proof {
            assert forall|a: int| 0 <= a < metadata.folders@.len() implies #[trigger] metadata.folders@[a].1.wf() by {
                assert forall|b: int| 0 <= b < metadata.folders@[a].1.files@.len() implies #[trigger] metadata.folders@[a].1.files@[b].1.wf() by {
                    assert(metadata.folders@[a].1.files@[b].1.wf());
                }
            }
        }
        Ok(Clog { salt, metadata, content })
    }
}

} // verus!
