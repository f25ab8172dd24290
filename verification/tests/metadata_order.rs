use mp3rename::music_metadata::{MetadataError, MusicMetadata, TagData};
use std::cmp::Ordering;

fn tags(disk_number: Option<u16>, track_number: u16) -> Option<MusicMetadata> {
    Some(MusicMetadata {
        album: "".to_string(),
        artist: "".to_string(),
        disk_number,
        title: "".to_string(),
        track_number,
    })
}

#[test]
fn test_sort_func_empty() {
    assert_eq!(
        MusicMetadata::sort_func(
            &Some(MusicMetadata {
                album: "".to_string(),
                artist: "".to_string(),
                disk_number: None,
                title: "".to_string(),
                track_number: 0,
            }),
            &Some(MusicMetadata {
                album: "".to_string(),
                artist: "".to_string(),
                disk_number: None,
                title: "".to_string(),
                track_number: 0,
            }),
        ),
        Ordering::Equal
    );
}

#[test]
fn test_sort_func_disc_number() {
    assert_eq!(
        MusicMetadata::sort_func(
            &Some(MusicMetadata {
                album: "".to_string(),
                artist: "".to_string(),
                disk_number: Some(1),
                title: "".to_string(),
                track_number: 0
            }),
            &Some(MusicMetadata {
                album: "".to_string(),
                artist: "".to_string(),
                disk_number: None,
                title: "".to_string(),
                track_number: 0
            }),
        ),
        Ordering::Greater,
    );
    assert_eq!(
        MusicMetadata::sort_func(
            &Some(MusicMetadata {
                album: "".to_string(),
                artist: "".to_string(),
                disk_number: None,
                title: "".to_string(),
                track_number: 0
            }),
            &Some(MusicMetadata {
                album: "".to_string(),
                artist: "".to_string(),
                disk_number: Some(1),
                title: "".to_string(),
                track_number: 0
            }),
        ),
        Ordering::Less,
    );
    assert_eq!(
        MusicMetadata::sort_func(
            &Some(MusicMetadata {
                album: "".to_string(),
                artist: "".to_string(),
                disk_number: Some(1),
                title: "".to_string(),
                track_number: 0
            }),
            &Some(MusicMetadata {
                album: "".to_string(),
                artist: "".to_string(),
                disk_number: Some(2),
                title: "".to_string(),
                track_number: 0
            }),
        ),
        Ordering::Less,
    );
    assert_eq!(
        MusicMetadata::sort_func(
            &Some(MusicMetadata {
                album: "".to_string(),
                artist: "".to_string(),
                disk_number: Some(2),
                title: "".to_string(),
                track_number: 0
            }),
            &Some(MusicMetadata {
                album: "".to_string(),
                artist: "".to_string(),
                disk_number: Some(1),
                title: "".to_string(),
                track_number: 0
            }),
        ),
        Ordering::Greater,
    );
}

#[test]
fn test_sort_func_track_number() {
    assert_eq!(
        MusicMetadata::sort_func(
            &Some(MusicMetadata {
                album: "".to_string(),
                artist: "".to_string(),
                disk_number: None,
                title: "".to_string(),
                track_number: 1
            }),
            &Some(MusicMetadata {
                album: "".to_string(),
                artist: "".to_string(),
                disk_number: None,
                title: "".to_string(),
                track_number: 2
            })
        ),
        Ordering::Less
    );
    assert_eq!(
        MusicMetadata::sort_func(
            &Some(MusicMetadata {
                album: "".to_string(),
                artist: "".to_string(),
                disk_number: None,
                title: "".to_string(),
                track_number: 2
            }),
            &Some(MusicMetadata {
                album: "".to_string(),
                artist: "".to_string(),
                disk_number: None,
                title: "".to_string(),
                track_number: 1
            })
        ),
        Ordering::Greater
    );
    assert_eq!(
        MusicMetadata::sort_func(
            &Some(MusicMetadata {
                album: "".to_string(),
                artist: "".to_string(),
                disk_number: None,
                title: "".to_string(),
                track_number: 1
            }),
            &Some(MusicMetadata {
                album: "".to_string(),
                artist: "".to_string(),
                disk_number: None,
                title: "".to_string(),
                track_number: 1
            })
        ),
        Ordering::Equal
    );
}

#[test]
fn disk_number_decides_before_track_number() {
    assert_eq!(
        MusicMetadata::sort_func(&tags(Some(1), 9), &tags(Some(2), 1)),
        Ordering::Less
    );
    assert_eq!(
        MusicMetadata::sort_func(&tags(None, 65535), &tags(Some(0), 0)),
        Ordering::Less
    );
    assert_eq!(
        MusicMetadata::sort_func(&tags(Some(65535), 0), &tags(Some(65535), 1)),
        Ordering::Less
    );
    assert_eq!(
        MusicMetadata::sort_by_disk_number_func(&None, &None),
        Ordering::Equal
    );
    assert_eq!(
        MusicMetadata::sort_by_disk_number_func(&Some(0), &None),
        Ordering::Greater
    );
    assert_eq!(
        MusicMetadata::sort_by_disk_number_func(&None, &Some(0)),
        Ordering::Less
    );
    assert_eq!(
        MusicMetadata::sort_by_disk_number_func(&Some(3), &Some(3)),
        Ordering::Equal
    );
}

fn full_tags() -> TagData {
    TagData {
        album: Some("Album X".to_string()),
        artist: Some("The Foos".to_string()),
        title: Some("Song A".to_string()),
        track_number: Some(1),
        disc_number: None,
    }
}

#[test]
fn complete_tags_give_metadata() {
    let metadata = MusicMetadata::new(Ok(full_tags())).ok().unwrap();
    assert_eq!(metadata.album, "Album X");
    assert_eq!(metadata.artist, "The Foos");
    assert_eq!(metadata.title, "Song A");
    assert_eq!(metadata.track_number, 1);
    assert_eq!(metadata.disk_number, None);

    let metadata = MusicMetadata::new(Ok(TagData {
        disc_number: Some(2),
        ..full_tags()
    }))
    .ok()
    .unwrap();
    assert_eq!(metadata.disk_number, Some(2));
    assert_eq!(metadata.duplicate().title, "Song A");
}

#[test]
fn a_missing_mandatory_tag_gives_no_metadata() {
    let cases = vec![
        TagData {
            album: None,
            ..full_tags()
        },
        TagData {
            artist: None,
            ..full_tags()
        },
        TagData {
            title: None,
            ..full_tags()
        },
        TagData {
            track_number: None,
            ..full_tags()
        },
    ];
    for tags in cases {
        match MusicMetadata::new(Ok(tags)) {
            Err(MetadataError::IncompleteTags) => {}
            _ => panic!("incomplete tags were accepted"),
        }
    }
}

#[test]
fn an_unreadable_file_gives_the_readers_message() {
    match MusicMetadata::new(Err("no tag found".to_string())) {
        Err(MetadataError::Unreadable(reason)) => assert_eq!(reason, "no tag found"),
        _ => panic!("a failed read was accepted"),
    }
}

#[test]
fn errors_are_reported_with_the_path() {
    assert_eq!(
        MetadataError::Unreadable("no tag found".to_string()).report("/music/a.mp3"),
        "/music/a.mp3: no tag found"
    );
    assert_eq!(
        MetadataError::IncompleteTags.report("/music/a.mp3"),
        "Error: Incomplete tags found in /music/a.mp3 -- need album, artist, title, and track number."
    );
}
