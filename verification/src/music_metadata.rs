//! The tags of one music file, and the order that files are put in by them.

use crate::text::{concat, decimal, decimal_digits, from_chars, to_chars};
use std::cmp::Ordering;
use vstd::prelude::*;

verus! {

/// What a tag reader found in one file. Every field may be missing.
pub struct TagData {
    pub album: Option<String>,
    pub artist: Option<String>,
    pub title: Option<String>,
    pub track_number: Option<u16>,
    pub disc_number: Option<u16>,
}

/// The complete tags of one music file. Only the disk number may be missing.
pub struct MusicMetadata {
    pub album: String,
    pub artist: String,
    pub disk_number: Option<u16>,
    pub title: String,
    pub track_number: u16,
}

/// The tags of a music file as plain values.
pub struct Tags {
    pub album: Seq<char>,
    pub artist: Seq<char>,
    pub disk_number: Option<u16>,
    pub title: Seq<char>,
    pub track_number: u16,
}

impl View for MusicMetadata {
    type V = Tags;

    open spec fn view(&self) -> Tags {
        Tags {
            album: self.album@,
            artist: self.artist@,
            disk_number: self.disk_number,
            title: self.title@,
            track_number: self.track_number,
        }
    }
}

/// Why a file has no metadata.
pub enum MetadataError {
    /// The tags could not be read; the reader's message.
    Unreadable(String),
    /// Album, artist, title or track number is missing.
    IncompleteTags,
}

/// The characters of an optional string.
pub open spec fn text_of(s: Option<String>) -> Option<Seq<char>> {
    match s {
        Some(s) => Some(s@),
        None => None,
    }
}

/// Whether album, artist, title and track number are all there.
pub open spec fn is_complete(tags: TagData) -> bool {
    tags.album is Some && tags.artist is Some && tags.title is Some && tags.track_number is Some
}

/// The metadata that complete tags hold.
pub open spec fn complete_tags(tags: TagData) -> Tags
    recommends
        is_complete(tags),
{
    Tags {
        album: tags.album->0@,
        artist: tags.artist->0@,
        disk_number: tags.disc_number,
        title: tags.title->0@,
        track_number: tags.track_number->0,
    }
}

/// The order of two numbers.
pub open spec fn number_order(left: u16, right: u16) -> Ordering {
    if left < right {
        Ordering::Less
    } else if left == right {
        Ordering::Equal
    } else {
        Ordering::Greater
    }
}

/// The order of two disk numbers: a missing one comes before any number.
pub open spec fn disk_order(left: Option<u16>, right: Option<u16>) -> Ordering {
    match (left, right) {
        (None, None) => Ordering::Equal,
        (Some(_), None) => Ordering::Greater,
        (None, Some(_)) => Ordering::Less,
        (Some(l), Some(r)) => number_order(l, r),
    }
}

/// The order of two files by their tags: by disk number, then by track
/// number.
pub open spec fn tag_order(left: Tags, right: Tags) -> Ordering {
    match disk_order(left.disk_number, right.disk_number) {
        Ordering::Equal => number_order(left.track_number, right.track_number),
        other => other,
    }
}

/// The place of a file in the order by tags, as one number: files compare as
/// their ranks do.
pub open spec fn rank(tags: Tags) -> int {
    match tags.disk_number {
        None => tags.track_number + 0,
        Some(d) => (d + 1) * 65536 + tags.track_number,
    }
}

/// The order by tags is the order of the ranks.
pub proof fn lemma_tag_order_is_rank_order(left: Tags, right: Tags)
    ensures
        tag_order(left, right) == Ordering::Less <==> rank(left) < rank(right),
        tag_order(left, right) == Ordering::Equal <==> rank(left) == rank(right),
        tag_order(left, right) == Ordering::Greater <==> rank(left) > rank(right),
{
}

/// The tags in words, a line for each: album, disk number where there is
/// one, track number, artist and title.
pub open spec fn described(tags: Tags) -> Seq<char> {
    let disk = match tags.disk_number {
        Some(n) => "Disk Number:  "@ + decimal(n as nat) + "\n"@,
        None => Seq::empty(),
    };
    "Album:        "@ + tags.album + "\n"@ + disk + "Track Number: "@ + decimal(
        tags.track_number as nat,
    ) + "\n"@ + "Artist:       "@ + tags.artist + "\n"@ + "Title:        "@ + tags.title + "\n"@
}

/// The line that reports `error` for the file at `path`.
pub open spec fn report_line(error: MetadataError, path: Seq<char>) -> Seq<char> {
    match error {
        MetadataError::Unreadable(reason) => path + ": "@ + reason@,
        MetadataError::IncompleteTags => "Error: Incomplete tags found in "@ + path
            + " -- need album, artist, title, and track number."@,
    }
}

impl MetadataError {
    /// The line that reports this error for the file at `path`.
    pub fn report(&self, path: &str) -> (line: String)
        ensures
            line@ == report_line(*self, path@),
    {
        let path = to_chars(path);
        match self {
            MetadataError::Unreadable(reason) => {
                let head = concat(&path, &to_chars(": "));
                from_chars(&concat(&head, &to_chars(reason.as_str())))
            },
            MetadataError::IncompleteTags => {
                let head = concat(&to_chars("Error: Incomplete tags found in "), &path);
                from_chars(
                    &concat(&head, &to_chars(" -- need album, artist, title, and track number.")),
                )
            },
        }
    }
}

impl MusicMetadata {
    /// Validates what a tag reader returned for one file: its tags, or the
    /// reason why it could read none. Metadata exists only where album, artist,
    /// title and track number are all there; the disk number may be missing.
    pub fn new(read: Result<TagData, String>) -> (res: Result<MusicMetadata, MetadataError>)
        ensures
            match read {
                Err(reason) => res == Err::<MusicMetadata, MetadataError>(
                    MetadataError::Unreadable(reason),
                ),
                Ok(tags) => if is_complete(tags) {
                    res is Ok && res->Ok_0@ == complete_tags(tags)
                } else {
                    res == Err::<MusicMetadata, MetadataError>(MetadataError::IncompleteTags)
                },
            },
    {
        let tags = match read {
            Ok(tags) => tags,
            Err(reason) => {
                return Err(MetadataError::Unreadable(reason));
            },
        };
        // metadata is all or nothing
        if let Some(album) = tags.album {
            if let Some(artist) = tags.artist {
                if let Some(title) = tags.title {
                    if let Some(track_number) = tags.track_number {
                        return Ok(
                            MusicMetadata {
                                album,
                                artist,
                                disk_number: tags.disc_number,
                                title,
                                track_number,
                            },
                        );
                    }
                }
            }
        }
        Err(MetadataError::IncompleteTags)
    }

    /// The tags in words.
    pub fn describe(&self) -> (text: String)
        ensures
            text@ == described(self@),
    {
        let newline = to_chars("\n");
        let disk: Vec<char> = match self.disk_number {
            Some(n) => {
                let line = concat(&to_chars("Disk Number:  "), &decimal_digits(n as u64));
                concat(&line, &newline)
            },
            None => Vec::new(),
        };
        let text = concat(&to_chars("Album:        "), &to_chars(self.album.as_str()));
        let text = concat(&text, &newline);
        let text = concat(&text, &disk);
        let text = concat(&text, &to_chars("Track Number: "));
        let text = concat(&text, &decimal_digits(self.track_number as u64));
        let text = concat(&text, &newline);
        let text = concat(&text, &to_chars("Artist:       "));
        let text = concat(&text, &to_chars(self.artist.as_str()));
        let text = concat(&text, &newline);
        let text = concat(&text, &to_chars("Title:        "));
        let text = concat(&text, &to_chars(self.title.as_str()));
        from_chars(&concat(&text, &newline))
    }

    /// A copy of these tags.
    pub fn duplicate(&self) -> (res: MusicMetadata)
        ensures
            res@ == self@,
    {
        MusicMetadata {
            album: self.album.clone(),
            artist: self.artist.clone(),
            disk_number: self.disk_number,
            title: self.title.clone(),
            track_number: self.track_number,
        }
    }

    /// Compares two files by their tags: by disk number, then by track number.
    pub fn sort_func(a: &Option<MusicMetadata>, b: &Option<MusicMetadata>) -> (res: Ordering)
        requires
            a is Some,
            b is Some,
        ensures
            res == tag_order(a->0@, b->0@),
    {
        let left = a.as_ref().unwrap();
        let right = b.as_ref().unwrap();

        let disk_number_comparison = MusicMetadata::sort_by_disk_number_func(
            &left.disk_number,
            &right.disk_number,
        );
        match disk_number_comparison {
            Ordering::Equal => {},
            _ => {
                return disk_number_comparison;
            },
        }

        if left.track_number < right.track_number {
            Ordering::Less
        } else if left.track_number == right.track_number {
            Ordering::Equal
        } else {
            Ordering::Greater
        }
    }

    /// Compares two disk numbers: a missing one comes before any number.
    pub fn sort_by_disk_number_func(left: &Option<u16>, right: &Option<u16>) -> (res: Ordering)
        ensures
            res == disk_order(*left, *right),
    {
        match (*left, *right) {
            (None, None) => Ordering::Equal,
            (Some(_), None) => Ordering::Greater,
            (None, Some(_)) => Ordering::Less,
            (Some(left_disk_number), Some(right_disk_number)) => {
                if left_disk_number < right_disk_number {
                    Ordering::Less
                } else if left_disk_number == right_disk_number {
                    Ordering::Equal
                } else {
                    Ordering::Greater
                }
            },
        }
    }
}

} // verus!
