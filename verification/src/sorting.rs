//! The order of a directory's music files: by their tags, and stable.

use crate::music_file::MusicFile;
use crate::music_metadata::{lemma_tag_order_is_rank_order, rank};
use std::cmp::Ordering;
use vstd::prelude::*;

verus! {

/// The rank of a file's tags.
pub open spec fn file_rank(file: MusicFile) -> int
    recommends
        file.music_metadata is Some,
{
    rank(file.music_metadata->0@)
}

/// The test for a file with metadata of rank `r` as a predicate value.
pub open spec fn ranked(r: int) -> spec_fn(MusicFile) -> bool {
    |file: MusicFile| file.music_metadata is Some && file_rank(file) == r
}

/// The test for a file with metadata as a predicate value.
pub open spec fn has_metadata() -> spec_fn(MusicFile) -> bool {
    |file: MusicFile| file.music_metadata is Some
}

/// Whether every file has metadata.
pub open spec fn all_tagged(files: Seq<MusicFile>) -> bool {
    forall|i: int| 0 <= i < files.len() ==> (#[trigger] files[i]).music_metadata is Some
}

/// Whether no file comes before one of lower rank.
pub open spec fn is_sorted(files: Seq<MusicFile>) -> bool {
    forall|i: int, j: int|
        0 <= i < j < files.len() ==> file_rank(#[trigger] files[i]) <= file_rank(
            #[trigger] files[j],
        )
}

/// Whether `sorted` holds the files of `files` that have metadata, ordered by
/// their tags, those that compare equal in the order they had in `files`: for
/// every rank, the files of that rank are the same in both, in the same order.
pub open spec fn is_stable_sort_of(sorted: Seq<MusicFile>, files: Seq<MusicFile>) -> bool {
    &&& all_tagged(sorted)
    &&& is_sorted(sorted)
    &&& sorted.len() == files.filter(has_metadata()).len()
    &&& forall|r: int| #[trigger] sorted.filter(ranked(r)) == files.filter(ranked(r))
}

/// Filtering a sequence with one more element keeps or drops that element.
proof fn lemma_filter_push(files: Seq<MusicFile>, file: MusicFile, pred: spec_fn(MusicFile) -> bool)
    ensures
        files.push(file).filter(pred) == if pred(file) {
            files.filter(pred).push(file)
        } else {
            files.filter(pred)
        },
{
    reveal(Seq::filter);
    assert(files.push(file).drop_last() =~= files);
}

/// Putting a file into a sorted sequence, behind the files of lower rank and
/// in front of all others, keeps the sequence sorted and puts the file in
/// front of the files of its rank.
proof fn lemma_insert_sorted(sorted: Seq<MusicFile>, file: MusicFile, p: int)
    requires
        all_tagged(sorted),
        is_sorted(sorted),
        file.music_metadata is Some,
        0 <= p <= sorted.len(),
        forall|k: int| 0 <= k < p ==> file_rank(#[trigger] sorted[k]) < file_rank(file),
        p < sorted.len() ==> file_rank(sorted[p]) >= file_rank(file),
    ensures
        all_tagged(sorted.insert(p, file)),
        is_sorted(sorted.insert(p, file)),
        forall|r: int|
            r != file_rank(file) ==> #[trigger] sorted.insert(p, file).filter(ranked(r))
                == sorted.filter(ranked(r)),
        sorted.insert(p, file).filter(ranked(file_rank(file))) == seq![file] + sorted.filter(
            ranked(file_rank(file)),
        ),
{
    let ins = sorted.insert(p, file);
    let head = sorted.subrange(0, p);
    let tail = sorted.subrange(p, sorted.len() as int);
    assert(sorted =~= head + tail);
    assert(ins =~= head.push(file) + tail);
    assert forall|k: int| 0 <= k < ins.len() implies (#[trigger] ins[k]).music_metadata is Some by {
        if k < p {
            assert(ins[k] == sorted[k]);
        } else if k > p {
            assert(ins[k] == sorted[k - 1]);
        }
    }
    assert forall|i: int, j: int| 0 <= i < j < ins.len() implies file_rank(#[trigger] ins[i])
        <= file_rank(#[trigger] ins[j]) by {
        if i < p {
            assert(ins[i] == sorted[i]);
        } else if i > p {
            assert(ins[i] == sorted[i - 1]);
        }
        if j < p {
            assert(ins[j] == sorted[j]);
        } else if j > p {
            assert(ins[j] == sorted[j - 1]);
            if i == p && j - 1 > p {
                assert(file_rank(sorted[p]) <= file_rank(sorted[j - 1]));
            }
        }
    }
    assert forall|r: int| r != file_rank(file) implies #[trigger] ins.filter(ranked(r))
        == sorted.filter(ranked(r)) by {
        let pred = ranked(r);
        Seq::filter_distributes_over_add(head, tail, pred);
        Seq::filter_distributes_over_add(head.push(file), tail, pred);
        lemma_filter_push(head, file, pred);
    }
    let own = ranked(file_rank(file));
    Seq::filter_distributes_over_add(head, tail, own);
    Seq::filter_distributes_over_add(head.push(file), tail, own);
    lemma_filter_push(head, file, own);
    assert forall|k: int| 0 <= k < head.len() implies !own(#[trigger] head[k]) by {
        assert(head[k] == sorted[k]);
    }
    head.lemma_all_neg_filter_empty(own);
    assert(head.filter(own) =~= Seq::<MusicFile>::empty());
    assert(ins.filter(own) =~= seq![file] + sorted.filter(own));
}

/// What one step of sorting keeps true: of the files still to come, of those
/// put in place, and of both together, rank by rank.
spec fn sorting(files: Seq<MusicFile>, rest: Seq<MusicFile>, sorted: Seq<MusicFile>) -> bool {
    &&& all_tagged(sorted)
    &&& is_sorted(sorted)
    &&& sorted.len() + rest.filter(has_metadata()).len() == files.filter(has_metadata()).len()
    &&& forall|r: int|
        #[trigger] files.filter(ranked(r)) == rest.filter(ranked(r)) + sorted.filter(ranked(r))
}

/// Sorting starts with every file still to come.
proof fn lemma_sorting_start(files: Seq<MusicFile>)
    ensures
        sorting(files, files, Seq::empty()),
{
    let none = Seq::<MusicFile>::empty();
    assert forall|r: int|
        #[trigger] files.filter(ranked(r)) == files.filter(ranked(r)) + none.filter(ranked(r)) by {
        none.lemma_filter_len(ranked(r));
        assert(files.filter(ranked(r)) + none.filter(ranked(r)) =~= files.filter(ranked(r)));
    }
}

/// Sorting goes on where the last file to come has no metadata and is dropped.
proof fn lemma_sorting_drop(
    files: Seq<MusicFile>,
    rest: Seq<MusicFile>,
    file: MusicFile,
    sorted: Seq<MusicFile>,
)
    requires
        sorting(files, rest.push(file), sorted),
        file.music_metadata is None,
    ensures
        sorting(files, rest, sorted),
{
    lemma_filter_push(rest, file, has_metadata());
    assert forall|r: int|
        #[trigger] files.filter(ranked(r)) == rest.filter(ranked(r)) + sorted.filter(
            ranked(r),
        ) by {
        lemma_filter_push(rest, file, ranked(r));
    }
}

/// Sorting goes on where the last file to come is put in its place.
proof fn lemma_sorting_insert(
    files: Seq<MusicFile>,
    rest: Seq<MusicFile>,
    file: MusicFile,
    sorted: Seq<MusicFile>,
    p: int,
)
    requires
        sorting(files, rest.push(file), sorted),
        file.music_metadata is Some,
        0 <= p <= sorted.len(),
        forall|k: int| 0 <= k < p ==> file_rank(#[trigger] sorted[k]) < file_rank(file),
        p < sorted.len() ==> file_rank(sorted[p]) >= file_rank(file),
    ensures
        sorting(files, rest, sorted.insert(p, file)),
{
    let ins = sorted.insert(p, file);
    lemma_insert_sorted(sorted, file, p);
    lemma_filter_push(rest, file, has_metadata());
    assert(ins.len() == sorted.len() + 1);
    assert forall|r: int|
        #[trigger] files.filter(ranked(r)) == rest.filter(ranked(r)) + ins.filter(ranked(r)) by {
        let pred = ranked(r);
        lemma_filter_push(rest, file, pred);
        assert(files.filter(pred) == rest.push(file).filter(pred) + sorted.filter(pred));
        if r == file_rank(file) {
            assert(rest.filter(pred).push(file) + sorted.filter(pred) =~= rest.filter(pred) + (
            seq![file] + sorted.filter(pred)));
        } else {
            assert(ins.filter(pred) == sorted.filter(pred));
        }
    }
}

/// Sorting is done when no file is still to come.
proof fn lemma_sorting_end(files: Seq<MusicFile>, sorted: Seq<MusicFile>)
    requires
        sorting(files, Seq::empty(), sorted),
    ensures
        is_stable_sort_of(sorted, files),
{
    let none = Seq::<MusicFile>::empty();
    none.lemma_filter_len(has_metadata());
    assert forall|r: int| #[trigger] sorted.filter(ranked(r)) == files.filter(ranked(r)) by {
        none.lemma_filter_len(ranked(r));
        assert(files.filter(ranked(r)) == none.filter(ranked(r)) + sorted.filter(ranked(r)));
        assert(none.filter(ranked(r)) + sorted.filter(ranked(r)) =~= sorted.filter(ranked(r)));
    }
}

/// Drops the files without metadata and sorts the others by their tags: by
/// disk number, a missing one first, then by track number. Files that compare
/// equal keep their order.
pub fn sort_music_files(files: Vec<MusicFile>) -> (sorted: Vec<MusicFile>)
    ensures
        is_stable_sort_of(sorted@, files@),
{
    let mut rest = files;
    let mut sorted: Vec<MusicFile> = Vec::new();
    proof {
        lemma_sorting_start(files@);
    }
    while rest.len() > 0
        invariant
            sorting(files@, rest@, sorted@),
        decreases rest.len(),
    {
        let ghost rest_before = rest@;
        let file = rest.pop().unwrap();
        assert(rest@.push(file) =~= rest_before);
        if file.music_metadata.is_some() {
            let p: usize = insertion_point(&sorted, &file);
            proof {
                lemma_sorting_insert(files@, rest@, file, sorted@, p as int);
            }
            sorted.insert(p, file);
        } else {
            proof {
                lemma_sorting_drop(files@, rest@, file, sorted@);
            }
        }
    }
    proof {
        assert(rest@ =~= Seq::<MusicFile>::empty());
        lemma_sorting_end(files@, sorted@);
    }
    sorted
}

/// Where `file` goes in `sorted`: behind the files of lower rank, in front of
/// all others.
fn insertion_point(sorted: &Vec<MusicFile>, file: &MusicFile) -> (p: usize)
    requires
        all_tagged(sorted@),
        file.music_metadata is Some,
    ensures
        p <= sorted@.len(),
        forall|k: int| 0 <= k < p ==> file_rank(#[trigger] sorted@[k]) < file_rank(*file),
        p < sorted@.len() ==> file_rank(sorted@[p as int]) >= file_rank(*file),
{
    let mut p: usize = 0;
    while p < sorted.len() && is_before(&sorted[p], file)
        invariant
            p <= sorted@.len(),
            all_tagged(sorted@),
            file.music_metadata is Some,
            forall|k: int| 0 <= k < p ==> file_rank(#[trigger] sorted@[k]) < file_rank(*file),
        decreases sorted@.len() - p,
    {
        p += 1;
    }
    p
}

/// Whether `left` comes before `right` in the order by tags.
fn is_before(left: &MusicFile, right: &MusicFile) -> (b: bool)
    requires
        left.music_metadata is Some,
        right.music_metadata is Some,
    ensures
        b == (file_rank(*left) < file_rank(*right)),
{
    proof {
        lemma_tag_order_is_rank_order(left.music_metadata->0@, right.music_metadata->0@);
    }
    match MusicFile::sort_func(left, right) {
        Ordering::Less => true,
        _ => false,
    }
}

} // verus!
