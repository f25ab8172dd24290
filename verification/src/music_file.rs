//! A music file, and the canonical name that its tags give it.

use crate::config::Config;
use crate::music_metadata::{described, tag_order, MusicMetadata, Tags};
use crate::text::{
    concat, decimal, decimal_digits, from_chars, lemma_decimal_len, lemma_zero_padded_len,
    pad_with_zeros, pow10, to_chars, zero_padded,
};
use crate::util::{extension, path_extension};
use std::cmp::Ordering;
use vstd::prelude::*;

verus! {

/// A file with a music extension, and its tags where it has complete ones.
pub struct MusicFile {
    /// Where the file is.
    pub path: String,
    pub music_metadata: Option<MusicMetadata>,
}

/// A music file as plain values.
pub struct MusicFileView {
    pub path: Seq<char>,
    pub metadata: Option<Tags>,
}

impl View for MusicFile {
    type V = MusicFileView;

    open spec fn view(&self) -> MusicFileView {
        MusicFileView {
            path: self.path@,
            metadata: match self.music_metadata {
                Some(m) => Some(m@),
                None => None,
            },
        }
    }
}

/// What `str::to_lowercase` returns for a text.
pub uninterp spec fn lowercase(text: Seq<char>) -> Seq<char>;

/// `str::to_lowercase` returns the lower case equivalent of a string, by
/// Unicode's rules. The result depends on the text alone; nothing more is
/// claimed of it here.
pub assume_specification[ str::to_lowercase ](s: &str) -> (res: String)
    ensures
        res@ == lowercase(s@),
;

/// The number of digits that track numbers are padded to on a disk, or in a
/// directory without disk numbers, of `files` music files: the number of
/// digits of `files`.
pub open spec fn track_width(files: nat) -> nat {
    decimal(files).len()
}

/// Track numbers get one digit in a group of up to 9 files, two in one of 10
/// to 99 and three in one of 100 to 999: as many as the number of files has.
pub proof fn lemma_track_width(files: nat)
    ensures
        files <= 9 ==> track_width(files) == 1,
        10 <= files <= 99 ==> track_width(files) == 2,
        100 <= files <= 999 ==> track_width(files) == 3,
        forall|d: nat|
            d >= 1 && pow10((d - 1) as nat) <= files < #[trigger] pow10(d) ==> track_width(files)
                == d,
{
    assert(pow10(0) == 1 && pow10(1) == 10 && pow10(2) == 100 && pow10(3) == 1000) by {
        reveal_with_fuel(pow10, 4);
    }
    if files <= 9 {
        lemma_decimal_len(files, 1);
    }
    if 10 <= files <= 99 {
        lemma_decimal_len(files, 2);
    }
    if 100 <= files <= 999 {
        lemma_decimal_len(files, 3);
    }
    assert forall|d: nat|
        d >= 1 && pow10((d - 1) as nat) <= files < #[trigger] pow10(d) implies track_width(files)
        == d by {
        lemma_decimal_len(files, d);
    }
}

/// In a canonical name the track number takes at least `track_width`
/// characters, and exactly that many where it has no more digits.
pub proof fn lemma_track_number_is_padded(track_number: u16, track_width: nat)
    ensures
        zero_padded(track_number as nat, track_width).len() >= track_width,
        decimal(track_number as nat).len() <= track_width ==> zero_padded(
            track_number as nat,
            track_width,
        ).len() == track_width,
{
    lemma_zero_padded_len(track_number as nat, track_width);
}

/// The canonical name built from its parts: the disk number, padded to
/// `disc_width` and followed by ` - `, where the tags have one; the track
/// number, padded to `track_width`; the artist between a space and ` -`, where
/// asked for; a space and the title; and the extension.
pub open spec fn composed_name(
    tags: Tags,
    with_artist: bool,
    disc_width: nat,
    track_width: nat,
    extension: Seq<char>,
) -> Seq<char> {
    let disk = match tags.disk_number {
        None => Seq::empty(),
        Some(n) => zero_padded(n as nat, disc_width) + " - "@,
    };
    let artist = if with_artist {
        " "@ + tags.artist + " -"@
    } else {
        Seq::empty()
    };
    disk + zero_padded(tags.track_number as nat, track_width) + artist + " "@ + tags.title
        + extension
}

/// The extension that a canonical name ends with: a full stop and the
/// extension of `path` in lower case; empty where the path has none.
pub open spec fn dotted_extension(path: Seq<char>) -> Seq<char> {
    match extension(path) {
        None => Seq::empty(),
        Some(e) => "."@ + lowercase(e),
    }
}

/// Whether the artist stands in the names of a directory: not where the
/// configuration asks to remove it and the whole directory has one artist.
pub open spec fn keeps_artist(config: Config, is_same_artist_for_whole_album: bool) -> bool {
    !(config.remove_artist && is_same_artist_for_whole_album)
}

/// The canonical name of the file at `path` with tags `tags`.
pub open spec fn canonical(
    path: Seq<char>,
    tags: Tags,
    config: Config,
    is_same_artist_for_whole_album: bool,
    number_of_digits_for_disc_number: nat,
    number_of_music_files_in_this_disk: nat,
) -> Seq<char> {
    composed_name(
        tags,
        keeps_artist(config, is_same_artist_for_whole_album),
        number_of_digits_for_disc_number,
        track_width(number_of_music_files_in_this_disk),
        dotted_extension(path),
    )
}

/// The file in words: its path, and its tags or that it has none.
pub open spec fn described_file(file: MusicFileView) -> Seq<char> {
    "File Name:    "@ + file.path + "\n"@ + match file.metadata {
        None => "No tags found.\n"@,
        Some(tags) => described(tags) + "\n"@,
    }
}

/// Builds a canonical name from its parts.
pub fn compose_name(
    metadata: &MusicMetadata,
    with_artist: bool,
    disc_width: usize,
    track_width: usize,
    extension: &str,
) -> (res: String)
    ensures
        res@ == composed_name(
            metadata@,
            with_artist,
            disc_width as nat,
            track_width as nat,
            extension@,
        ),
{
    let disk: Vec<char> = match metadata.disk_number {
        None => Vec::new(),
        Some(num) => concat(&pad_with_zeros(num as u64, disc_width), &to_chars(" - ")),
    };
    let track = pad_with_zeros(metadata.track_number as u64, track_width);
    let artist: Vec<char> = if with_artist {
        let head = concat(&to_chars(" "), &to_chars(metadata.artist.as_str()));
        concat(&head, &to_chars(" -"))
    } else {
        Vec::new()
    };
    let name = concat(&disk, &track);
    let name = concat(&name, &artist);
    let name = concat(&name, &to_chars(" "));
    let name = concat(&name, &to_chars(metadata.title.as_str()));
    from_chars(&concat(&name, &to_chars(extension)))
}

impl MusicFile {
    /// The music file at `path` with the metadata read from it, if any.
    pub fn new(path: String, music_metadata: Option<MusicMetadata>) -> (res: MusicFile)
        ensures
            res.path == path,
            res.music_metadata == music_metadata,
    {
        MusicFile { path, music_metadata }
    }

    /// The file in words.
    pub fn describe(&self) -> (text: String)
        ensures
            text@ == described_file(self@),
    {
        let head = concat(&to_chars("File Name:    "), &to_chars(self.path.as_str()));
        let head = concat(&head, &to_chars("\n"));
        let tail: Vec<char> = match &self.music_metadata {
            None => to_chars("No tags found.\n"),
            Some(tags) => concat(&to_chars(tags.describe().as_str()), &to_chars("\n")),
        };
        from_chars(&concat(&head, &tail))
    }

    /// Compares two files by their tags: by disk number, then by track number.
    pub fn sort_func(left: &MusicFile, right: &MusicFile) -> (res: Ordering)
        requires
            left.music_metadata is Some,
            right.music_metadata is Some,
        ensures
            res == tag_order(left.music_metadata->0@, right.music_metadata->0@),
    {
        MusicMetadata::sort_func(&left.music_metadata, &right.music_metadata)
    }

    /// The extension that the file's canonical name ends with.
    pub fn dotted_extension(&self) -> (res: String)
        ensures
            res@ == dotted_extension(self.path@),
    {
        match path_extension(&to_chars(self.path.as_str())) {
            None => String::new(),
            Some(ext) => {
                let lower = from_chars(&ext).as_str().to_lowercase();
                from_chars(&concat(&to_chars("."), &to_chars(lower.as_str())))
            },
        }
    }

    /// The canonical name of the file; none where it has no metadata.
    pub fn canonical_name(
        self: &MusicFile,
        config: &Config,
        is_same_artist_for_whole_album: bool,
        number_of_digits_for_disc_number: usize,
        number_of_music_files_in_this_disk: usize,
    ) -> (res: Option<String>)
        ensures
            match self.music_metadata {
                None => res is None,
                Some(metadata) => res is Some && res->0@ == canonical(
                    self.path@,
                    metadata@,
                    *config,
                    is_same_artist_for_whole_album,
                    number_of_digits_for_disc_number as nat,
                    number_of_music_files_in_this_disk as nat,
                ),
            },
    {
        if let Some(metadata) = &self.music_metadata {
            // number of digits to zero-pad the track number
            let num_digits: usize = decimal_digits(number_of_music_files_in_this_disk as u64).len();
            let with_artist = !(config.remove_artist && is_same_artist_for_whole_album);
            let extension = self.dotted_extension();
            let result = compose_name(
                metadata,
                with_artist,
                number_of_digits_for_disc_number,
                num_digits,
                extension.as_str(),
            );
            return Some(result);
        }
        None
    }
}

} // verus!
