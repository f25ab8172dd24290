//! The contents of one directory, and what its music files share: an artist,
//! an album.

use crate::music_file::MusicFile;
use crate::music_metadata::Tags;
use crate::ordinary_file::OrdinaryFile;
use crate::sorting::{all_tagged, has_metadata, is_sorted, is_stable_sort_of, sort_music_files};
use vstd::prelude::*;

verus! {

/// The tags of the files that have metadata, in the files' order.
pub open spec fn tagged(files: Seq<MusicFile>) -> Seq<Tags>
    decreases files.len(),
{
    if files.len() == 0 {
        Seq::empty()
    } else {
        let rest = tagged(files.drop_last());
        match files.last().music_metadata {
            Some(m) => rest.push(m@),
            None => rest,
        }
    }
}

/// The album of `tags` where `album` is set, else their artist.
pub open spec fn field(tags: Tags, album: bool) -> Seq<char> {
    if album {
        tags.album
    } else {
        tags.artist
    }
}

/// Whether all tags have the field of the first.
pub open spec fn all_match(tags: Seq<Tags>, album: bool) -> bool {
    forall|j: int| 0 <= j < tags.len() ==> field(#[trigger] tags[j], album) == field(tags[0], album)
}

/// Whether there are tags and all have the field of the first.
pub open spec fn agree(tags: Seq<Tags>, album: bool) -> bool {
    tags.len() > 0 && all_match(tags, album)
}

/// With one more, all tags match where they did before and the new one has
/// the field of the first.
proof fn lemma_all_match_push(tags: Seq<Tags>, last: Tags, album: bool)
    ensures
        all_match(tags.push(last), album) == (all_match(tags, album) && (tags.len() == 0 || field(
            last,
            album,
        ) == field(tags[0], album))),
{
    let after = tags.push(last);
    assert(after[tags.len() as int] == last);
    if all_match(after, album) {
        assert forall|j: int| 0 <= j < tags.len() implies field(#[trigger] tags[j], album)
            == field(tags[0], album) by {
            assert(after[j] == tags[j]);
            assert(after[0] == tags[0]);
        }
        if tags.len() > 0 {
            assert(after[0] == tags[0]);
            assert(field(after[tags.len() as int], album) == field(after[0], album));
        }
    }
    if all_match(tags, album) && (tags.len() == 0 || field(last, album) == field(tags[0], album)) {
        assert forall|j: int| 0 <= j < after.len() implies field(#[trigger] after[j], album)
            == field(after[0], album) by {
            if j < tags.len() {
                assert(after[j] == tags[j]);
                assert(after[0] == tags[0]);
            }
        }
    }
}

/// Whether some file has metadata and every file that has names the artist
/// that the first of them names.
pub open spec fn have_same_artist(files: Seq<MusicFile>) -> bool {
    agree(tagged(files), false)
}

/// The album that every file with metadata names, if some file has metadata
/// and all name the album that the first of them names.
pub open spec fn common_album(files: Seq<MusicFile>) -> Option<Seq<char>> {
    if agree(tagged(files), true) {
        Some(tagged(files)[0].album)
    } else {
        None
    }
}

/// Where every file has metadata, the tags are those of the files, one for
/// one.
pub proof fn lemma_tagged_all(files: Seq<MusicFile>)
    requires
        all_tagged(files),
    ensures
        tagged(files).len() == files.len(),
        forall|i: int|
            0 <= i < files.len() ==> #[trigger] tagged(files)[i] == files[i].music_metadata->0@,
    decreases files.len(),
{
    if files.len() > 0 {
        let front = files.drop_last();
        assert forall|i: int| 0 <= i < front.len() implies (
        #[trigger] front[i]).music_metadata is Some by {
            assert(front[i] == files[i]);
        }
        lemma_tagged_all(front);
        assert(files.last().music_metadata is Some);
        assert forall|i: int| 0 <= i < files.len() implies #[trigger] tagged(files)[i]
            == files[i].music_metadata->0@ by {
            if i < front.len() {
                assert(tagged(front)[i] == front[i].music_metadata->0@);
                assert(front[i] == files[i]);
            }
        }
    }
}

/// Files that all have metadata have the same artist exactly where there is
/// a file and every file names the artist that the first names: not where
/// there is no file, and not where one artist differs.
pub proof fn lemma_same_artist(files: Seq<MusicFile>)
    requires
        all_tagged(files),
    ensures
        files.len() == 0 ==> !have_same_artist(files),
        have_same_artist(files) <==> files.len() > 0 && forall|i: int|
            0 <= i < files.len() ==> (#[trigger] files[i]).music_metadata->0.artist@
                == files[0].music_metadata->0.artist@,
{
    lemma_tagged_all(files);
    let t = tagged(files);
    if have_same_artist(files) {
        assert forall|i: int| 0 <= i < files.len() implies (
        #[trigger] files[i]).music_metadata->0.artist@ == files[0].music_metadata->0.artist@ by {
            assert(field(t[i], false) == field(t[0], false));
        }
    }
    if files.len() > 0 && forall|i: int|
        0 <= i < files.len() ==> (#[trigger] files[i]).music_metadata->0.artist@
            == files[0].music_metadata->0.artist@ {
        assert forall|j: int| 0 <= j < t.len() implies field(#[trigger] t[j], false) == field(
            t[0],
            false,
        ) by {
            assert(files[j].music_metadata->0.artist@ == files[0].music_metadata->0.artist@);
        }
    }
}

/// The place of the first file with metadata, if there is one and every file
/// with metadata has its field.
fn first_if_all_agree(music_files: &[MusicFile], album: bool) -> (res: Option<usize>)
    ensures
        res is Some == agree(tagged(music_files@), album),
        res matches Some(k) ==> k < music_files@.len() && music_files@[k as int].music_metadata
            is Some && tagged(music_files@)[0] == music_files@[k as int].music_metadata->0@
            && forall|j: int| 0 <= j < k ==> (#[trigger] music_files@[j]).music_metadata is None,
{
    let mut first: Option<usize> = None;
    let mut same = true;
    let mut i: usize = 0;
    assert(music_files@.take(0) =~= Seq::<MusicFile>::empty());
    while i < music_files.len()
        invariant
            i <= music_files@.len(),
            first is None == (tagged(music_files@.take(i as int)).len() == 0),
            first matches Some(k) ==> k < i && music_files@[k as int].music_metadata is Some
                && tagged(music_files@.take(i as int))[0]
                == music_files@[k as int].music_metadata->0@ && forall|j: int|
                0 <= j < k ==> (#[trigger] music_files@[j]).music_metadata is None,
            first is None ==> forall|j: int|
                0 <= j < i ==> (#[trigger] music_files@[j]).music_metadata is None,
            same == all_match(tagged(music_files@.take(i as int)), album),
        decreases music_files@.len() - i,
    {
        let ghost before = tagged(music_files@.take(i as int));
        assert(music_files@.take(i + 1).drop_last() =~= music_files@.take(i as int));
        assert(music_files@.take(i + 1).last() == music_files@[i as int]);
        if let Some(metadata) = &music_files[i].music_metadata {
            let ghost after = before.push(metadata@);
            assert(tagged(music_files@.take(i + 1)) == after);
            proof {
                lemma_all_match_push(before, metadata@, album);
            }
            match first {
                None => {
                    first = Some(i);
                    assert(after[0] == metadata@);
                },
                Some(k) => {
                    let first_metadata = music_files[k].music_metadata.as_ref().unwrap();
                    let equal = if album {
                        metadata.album == first_metadata.album
                    } else {
                        metadata.artist == first_metadata.artist
                    };
                    assert(equal == (field(metadata@, album) == field(before[0], album)));
                    assert(after[0] == before[0]);
                    if !equal {
                        same = false;
                    }
                },
            }
        } else {
            assert(tagged(music_files@.take(i + 1)) == before);
        }
        i += 1;
    }
    assert(music_files@.take(i as int) =~= music_files@);
    if same {
        first
    } else {
        None
    }
}

/// Has the whole directory the same artist for every music file?
pub fn same_artists(music_files: &[MusicFile]) -> (b: bool)
    ensures
        b == have_same_artist(music_files@),
{
    first_if_all_agree(music_files, false).is_some()
}

/// Which album name does the whole directory have for all music files?
pub fn same_album_title(music_files: &[MusicFile]) -> (res: Option<&String>)
    ensures
        match res {
            Some(title) => common_album(music_files@) == Some(title@),
            None => common_album(music_files@) is None,
        },
{
    match first_if_all_agree(music_files, true) {
        None => None,
        Some(k) => Some(&music_files[k].music_metadata.as_ref().unwrap().album),
    }
}

/// The music files and the other files of one directory. A directory counts
/// only where it holds a music file with metadata.
pub struct DirectoryContents {
    /// Where the directory is.
    pub directory: String,
    /// The music files with metadata, in the order of their tags.
    pub music_files: Vec<MusicFile>,
    pub ordinary_files: Vec<OrdinaryFile>,
}

impl DirectoryContents {
    /// Whether there is a music file, every music file has metadata, and they
    /// are in the order of their tags.
    pub open spec fn is_well_formed(&self) -> bool {
        &&& self.music_files@.len() > 0
        &&& all_tagged(self.music_files@)
        &&& is_sorted(self.music_files@)
    }

    /// The contents of `directory`, given its files with a music extension
    /// and its other files: the music files without metadata are dropped and
    /// the others sorted by their tags. None where no music file has metadata.
    pub fn new(
        directory: String,
        music_files: Vec<MusicFile>,
        ordinary_files: Vec<OrdinaryFile>,
    ) -> (res: Option<DirectoryContents>)
        ensures
            match res {
                None => music_files@.filter(has_metadata()).len() == 0,
                Some(contents) => contents.is_well_formed() && contents.directory == directory
                    && contents.ordinary_files == ordinary_files && is_stable_sort_of(
                    contents.music_files@,
                    music_files@,
                ),
            },
    {
        let sorted = sort_music_files(music_files);
        if sorted.len() == 0 {
            None
        } else {
            Some(DirectoryContents { directory, music_files: sorted, ordinary_files })
        }
    }
}

} // verus!
