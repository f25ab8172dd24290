use mp3rename::config::Config;
use mp3rename::dir_contents::{same_album_title, same_artists, DirectoryContents};
use mp3rename::disk_group::{disc_number_width, group_by_disk, largest_disc_number, DiskGroup};
use mp3rename::music_file::MusicFile;
use mp3rename::music_metadata::MusicMetadata;
use mp3rename::ordinary_file::OrdinaryFile;
use mp3rename::sorting::sort_music_files;
use mp3rename::{handle_directory, rename_file_or_directory, RenameAction};

fn file(
    path: &str,
    artist: &str,
    album: &str,
    title: &str,
    disk_number: Option<u16>,
    track_number: u16,
) -> MusicFile {
    MusicFile::new(
        path.to_string(),
        Some(MusicMetadata {
            album: album.to_string(),
            artist: artist.to_string(),
            disk_number,
            title: title.to_string(),
            track_number,
        }),
    )
}

fn untagged(path: &str) -> MusicFile {
    MusicFile::new(path.to_string(), None)
}

fn renamed(action: &RenameAction) -> Option<&str> {
    match action {
        RenameAction::Rename(name) => Some(name.as_str()),
        _ => None,
    }
}

fn is_keep(action: &RenameAction) -> bool {
    matches!(action, RenameAction::Keep)
}

#[test]
fn no_music_files_have_no_common_artist_or_album() {
    let none: Vec<MusicFile> = Vec::new();
    assert_eq!(same_artists(&none), false);
    assert_eq!(same_album_title(&none), None);
    let only_untagged = vec![untagged("/m/a.mp3")];
    assert_eq!(same_artists(&only_untagged), false);
    assert_eq!(same_album_title(&only_untagged), None);
}

#[test]
fn one_artist_everywhere_is_the_same_artist() {
    let files = vec![
        file("/m/a.mp3", "The Foos", "X", "A", None, 1),
        file("/m/b.mp3", "The Foos", "Y", "B", None, 2),
        untagged("/m/c.mp3"),
        file("/m/d.mp3", "The Foos", "X", "D", None, 3),
    ];
    assert_eq!(same_artists(&files), true);
    assert_eq!(same_album_title(&files), None);
    assert_eq!(same_artists(&files[..1]), true);
}

#[test]
fn one_differing_artist_is_not_the_same_artist() {
    for at in 0..3 {
        let mut files = vec![
            file("/m/a.mp3", "The Foos", "X", "A", None, 1),
            file("/m/b.mp3", "The Foos", "X", "B", None, 2),
            file("/m/c.mp3", "The Foos", "X", "C", None, 3),
        ];
        files[at].music_metadata.as_mut().unwrap().artist = "the foos".to_string();
        assert_eq!(same_artists(&files), false);
        assert_eq!(same_album_title(&files), Some(&"X".to_string()));
    }
}

#[test]
fn the_common_album_is_that_of_the_first_file() {
    let files = vec![
        untagged("/m/0.mp3"),
        file("/m/a.mp3", "A", "Album X", "A", None, 1),
        file("/m/b.mp3", "B", "Album X", "B", None, 2),
    ];
    assert_eq!(same_album_title(&files), Some(&"Album X".to_string()));
    assert_eq!(same_artists(&files), false);
}

#[test]
fn sorting_orders_by_disk_then_track_and_is_stable() {
    let files = vec![
        file("/m/1.mp3", "A", "X", "d2t1", Some(2), 1),
        file("/m/2.mp3", "A", "X", "t2", None, 2),
        untagged("/m/3.mp3"),
        file("/m/4.mp3", "A", "X", "d1t2", Some(1), 2),
        file("/m/5.mp3", "A", "X", "t1", None, 1),
        file("/m/6.mp3", "A", "X", "d1t2 again", Some(1), 2),
        file("/m/7.mp3", "A", "X", "d1t1", Some(1), 1),
        file("/m/8.mp3", "A", "X", "d0t9", Some(0), 9),
    ];
    let sorted = sort_music_files(files);
    let titles: Vec<&str> = sorted
        .iter()
        .map(|f| f.music_metadata.as_ref().unwrap().title.as_str())
        .collect();
    assert_eq!(
        titles,
        vec!["t1", "t2", "d0t9", "d1t1", "d1t2", "d1t2 again", "d2t1"]
    );
    assert_eq!(sort_music_files(Vec::new()).len(), 0);
}

#[test]
fn a_directory_counts_only_with_a_tagged_music_file() {
    assert!(DirectoryContents::new(
        "/m".to_string(),
        vec![untagged("/m/a.mp3")],
        vec![OrdinaryFile::new("/m/cover.jpg".to_string())],
    )
    .is_none());
    assert!(DirectoryContents::new("/m".to_string(), Vec::new(), Vec::new()).is_none());
    let contents = DirectoryContents::new(
        "/m".to_string(),
        vec![
            file("/m/b.mp3", "A", "X", "B", None, 2),
            untagged("/m/c.mp3"),
            file("/m/a.mp3", "A", "X", "A", None, 1),
        ],
        vec![OrdinaryFile::new("/m/cover.jpg".to_string())],
    )
    .unwrap();
    assert_eq!(contents.directory, "/m");
    assert_eq!(contents.music_files.len(), 2);
    assert_eq!(contents.music_files[0].path, "/m/a.mp3");
    assert_eq!(contents.music_files[1].path, "/m/b.mp3");
    assert_eq!(contents.ordinary_files.len(), 1);
    assert_eq!(contents.ordinary_files[0].path, "/m/cover.jpg");
}

#[test]
fn groups_are_by_disk_with_the_unnumbered_files_last() {
    let files = vec![
        file("/m/1.mp3", "A", "X", "a", None, 1),
        file("/m/2.mp3", "A", "X", "b", Some(2), 1),
        untagged("/m/3.mp3"),
        file("/m/4.mp3", "A", "X", "c", Some(1), 1),
        file("/m/5.mp3", "A", "X", "d", Some(2), 2),
        file("/m/6.mp3", "A", "X", "e", None, 2),
        file("/m/7.mp3", "A", "X", "f", Some(10), 1),
    ];
    let groups = group_by_disk(&files);
    let found: Vec<(Option<u16>, Vec<usize>)> = groups
        .iter()
        .map(|g| (g.disk_number, g.members.clone()))
        .collect();
    assert_eq!(
        found,
        vec![
            (Some(1), vec![3]),
            (Some(2), vec![1, 4]),
            (Some(10), vec![6]),
            (None, vec![0, 5]),
        ]
    );
    assert_eq!(largest_disc_number(&groups), Some(10));
    assert_eq!(disc_number_width(&groups), 2);
    assert_eq!(group_by_disk(&[]).len(), 0);
}

#[test]
fn the_disc_width_is_the_digit_count_of_the_largest_disk() {
    let group = |disk_number: Option<u16>| DiskGroup {
        disk_number,
        members: vec![0],
    };
    assert_eq!(disc_number_width(&vec![]), 0);
    assert_eq!(largest_disc_number(&vec![]), None);
    assert_eq!(disc_number_width(&vec![group(None)]), 0);
    assert_eq!(largest_disc_number(&vec![group(None)]), None);
    assert_eq!(disc_number_width(&vec![group(Some(0)), group(None)]), 1);
    assert_eq!(largest_disc_number(&vec![group(Some(0)), group(None)]), None);
    assert_eq!(disc_number_width(&vec![group(Some(9))]), 1);
    assert_eq!(disc_number_width(&vec![group(Some(3)), group(Some(10))]), 2);
    assert_eq!(disc_number_width(&vec![group(Some(100)), group(Some(7))]), 3);
    assert_eq!(
        largest_disc_number(&vec![group(Some(100)), group(Some(7))]),
        Some(100)
    );
    assert_eq!(disc_number_width(&vec![group(Some(65535))]), 5);
}

#[test]
fn a_name_is_kept_renamed_or_missing() {
    let config = Config::default();
    assert!(is_keep(&rename_file_or_directory(
        "/m/1 Song A.mp3",
        &config,
        "1 Song A.mp3"
    )));
    assert_eq!(
        renamed(&rename_file_or_directory(
            "/m/track01.MP3",
            &config,
            "1 What?.mp3"
        )),
        Some("1 What.mp3")
    );
    assert_eq!(
        renamed(&rename_file_or_directory(
            "/m/track01.mp3",
            &config,
            "1 Foo....mp3"
        )),
        Some("1 Foo.mp3")
    );
    assert_eq!(
        renamed(&rename_file_or_directory("/m/old", &config, "AC/DC: Live")),
        Some("AC & DC - Live")
    );
    assert!(matches!(
        rename_file_or_directory("/", &config, "Album"),
        RenameAction::NoOldName
    ));
    assert!(matches!(
        rename_file_or_directory("/m/..", &config, "Album"),
        RenameAction::NoOldName
    ));
    assert!(matches!(
        rename_file_or_directory("/m/..", &config, "..."),
        RenameAction::NoOldName
    ));
    assert!(matches!(
        rename_file_or_directory("/m/old", &config, " ... "),
        RenameAction::NoNewName
    ));
}

#[test]
fn names_are_shortened_only_where_a_limit_is_set() {
    let limit = |shorten_names: bool, name_length: u32| Config {
        shorten_names,
        name_length,
        ..Config::default()
    };
    let long = "1 A very long title.mp3";
    assert_eq!(
        renamed(&rename_file_or_directory("/m/a.mp3", &limit(true, 10), long)),
        Some("1 A ve.mp3")
    );
    assert_eq!(
        renamed(&rename_file_or_directory("/m/a.mp3", &limit(true, 8), "1 A B.mp3")),
        Some("1 A.mp3")
    );
    assert_eq!(
        renamed(&rename_file_or_directory("/m/a.mp3", &limit(true, 0), long)),
        Some(long)
    );
    assert_eq!(
        renamed(&rename_file_or_directory("/m/a.mp3", &limit(false, 10), long)),
        Some(long)
    );
    assert_eq!(
        renamed(&rename_file_or_directory("/m/dir", &limit(true, 5), "Album X")),
        Some("Album")
    );
}

#[test]
fn two_files_of_one_artist_and_album() {
    let contents = DirectoryContents::new(
        "/music/old".to_string(),
        vec![
            file("/music/old/b.mp3", "The Foos", "Album X", "Song B", None, 2),
            file("/music/old/a.mp3", "The Foos", "Album X", "Song A", None, 1),
        ],
        vec![OrdinaryFile::new("/music/old/cover.jpg".to_string())],
    )
    .unwrap();
    let config = Config {
        remove_artist: true,
        rename_directory: true,
        ..Config::default()
    };
    let plan = handle_directory(&contents, &config);
    assert_eq!(plan.apply, true);
    assert_eq!(plan.same_artist, true);
    assert_eq!(plan.groups.len(), 1);
    assert_eq!(plan.groups[0].disk_number, None);
    assert_eq!(plan.groups[0].members, vec![0, 1]);
    assert_eq!(plan.renames.len(), 1);
    assert_eq!(plan.renames[0].len(), 2);
    assert_eq!(plan.renames[0][0].file, 0);
    assert_eq!(plan.renames[0][0].canonical_name, "1 Song A.mp3");
    assert_eq!(renamed(&plan.renames[0][0].action), Some("1 Song A.mp3"));
    assert_eq!(plan.renames[0][1].file, 1);
    assert_eq!(plan.renames[0][1].canonical_name, "2 Song B.mp3");
    assert_eq!(renamed(&plan.renames[0][1].action), Some("2 Song B.mp3"));
    assert_eq!(plan.removals.len(), 0);
    assert_eq!(plan.album_title, Some("Album X".to_string()));
    assert_eq!(
        renamed(plan.directory_rename.as_ref().unwrap()),
        Some("Album X")
    );
}

#[test]
fn a_plan_goes_disk_by_disk_with_widths_per_disk() {
    let mut music_files = Vec::new();
    for track in 1..=10 {
        music_files.push(file(
            &format!("/m/d1-{}.flac", track),
            "A",
            "X",
            &format!("One {}", track),
            Some(1),
            track,
        ));
    }
    music_files.push(file("/m/d12.flac", "B", "X", "Twelve", Some(12), 1));
    music_files.push(file("/m/x.flac", "A", "Y", "Loose", None, 1));
    let contents = DirectoryContents::new(
        "/m".to_string(),
        music_files,
        vec![
            OrdinaryFile::new("/m/cover.jpg".to_string()),
            OrdinaryFile::new("/m/notes.txt".to_string()),
        ],
    )
    .unwrap();
    let config = Config {
        remove_artist: true,
        remove_ordinary_files: true,
        rename_directory: true,
        ..Config::default()
    };
    let plan = handle_directory(&contents, &config);
    assert_eq!(plan.same_artist, false);
    let disks: Vec<Option<u16>> = plan.groups.iter().map(|g| g.disk_number).collect();
    assert_eq!(disks, vec![Some(1), Some(12), None]);
    assert_eq!(plan.renames[0].len(), 10);
    assert_eq!(plan.renames[0][0].canonical_name, "01 - 01 A - One 1.flac");
    assert_eq!(plan.renames[0][9].canonical_name, "01 - 10 A - One 10.flac");
    assert_eq!(plan.renames[1].len(), 1);
    assert_eq!(plan.renames[1][0].canonical_name, "12 - 1 B - Twelve.flac");
    assert_eq!(plan.renames[2].len(), 1);
    assert_eq!(plan.renames[2][0].canonical_name, "1 A - Loose.flac");
    assert_eq!(
        plan.removals,
        vec!["/m/cover.jpg".to_string(), "/m/notes.txt".to_string()]
    );
    assert_eq!(plan.album_title, None);
    assert!(plan.directory_rename.is_none());
}

#[test]
fn a_plan_keeps_names_that_are_canonical_already() {
    let contents = DirectoryContents::new(
        "/music/Album X".to_string(),
        vec![file(
            "/music/Album X/1 The Foos - Song A.mp3",
            "The Foos",
            "Album X",
            "Song A",
            None,
            1,
        )],
        vec![OrdinaryFile::new("/music/Album X/cover.jpg".to_string())],
    )
    .unwrap();
    let config = Config {
        rename_directory: true,
        ..Config::default()
    };
    let plan = handle_directory(&contents, &config);
    assert!(is_keep(&plan.renames[0][0].action));
    assert!(is_keep(plan.directory_rename.as_ref().unwrap()));
    assert_eq!(plan.removals.len(), 0);

    let dry = handle_directory(
        &contents,
        &Config {
            dry_run: true,
            remove_ordinary_files: true,
            ..Config::default()
        },
    );
    assert_eq!(dry.apply, false);
    assert_eq!(dry.removals, vec!["/music/Album X/cover.jpg".to_string()]);

    let plain = handle_directory(&contents, &Config::default());
    assert_eq!(plain.album_title, Some("Album X".to_string()));
    assert!(plain.directory_rename.is_none());
}
