use mp3rename::config::{parse_length, Arguments, Config, ConfigError};
use mp3rename::music_file::MusicFile;
use mp3rename::music_metadata::MusicMetadata;
use mp3rename::util::partition_paths;

fn arguments() -> Arguments {
    Arguments {
        dry_run: false,
        length: None,
        omit_artist: false,
        remove_artist: false,
        remove_ordinary_files: false,
        rename_directory: false,
        start_dir: "music".to_string(),
        resolved_start_dir: Some("/home/foo/music".to_string()),
        use_fat_names: false,
        verbose: false,
    }
}

#[test]
fn the_default_configuration_asks_for_nothing() {
    let config = Config::default();
    assert!(!config.dry_run);
    assert_eq!(config.name_length, 0);
    assert!(!config.omit_artist);
    assert!(!config.remove_artist);
    assert!(!config.remove_ordinary_files);
    assert!(!config.rename_directory);
    assert!(!config.shorten_names);
    assert_eq!(config.start_dir, "");
    assert!(!config.use_fat_names);
    assert!(!config.verbose);
    assert!(!config.is_shortening_enabled());
}

#[test]
fn lengths_are_decimal_numbers_that_fit() {
    assert_eq!(parse_length("0"), Some(0));
    assert_eq!(parse_length("8"), Some(8));
    assert_eq!(parse_length("+8"), Some(8));
    assert_eq!(parse_length("007"), Some(7));
    assert_eq!(parse_length("255"), Some(255));
    assert_eq!(parse_length("4294967295"), Some(4294967295));
    assert_eq!(parse_length("4294967296"), None);
    assert_eq!(parse_length("42949672950"), None);
    assert_eq!(parse_length("99999999999999999999999"), None);
    assert_eq!(parse_length(""), None);
    assert_eq!(parse_length("+"), None);
    assert_eq!(parse_length("-1"), None);
    assert_eq!(parse_length("++1"), None);
    assert_eq!(parse_length(" 1"), None);
    assert_eq!(parse_length("1 "), None);
    assert_eq!(parse_length("1a"), None);
    assert_eq!(parse_length("12.5"), None);
    assert_eq!(parse_length("\u{661}"), None);
}

#[test]
fn lengths_agree_with_the_standard_parser() {
    for text in [
        "0", "1", "+1", "-0", "00", "10", "4294967295", "4294967296", "4294967300", "", "+", "x",
        "1x", "0x10", "1_000", "+-1",
    ] {
        assert_eq!(parse_length(text), text.parse::<u32>().ok(), "{:?}", text);
    }
}

#[test]
fn arguments_become_a_configuration() {
    let config = Config::new(Arguments {
        dry_run: true,
        length: Some("12".to_string()),
        remove_artist: true,
        verbose: true,
        ..arguments()
    })
    .ok()
    .unwrap();
    assert!(config.dry_run);
    assert_eq!(config.name_length, 12);
    assert!(config.shorten_names);
    assert!(config.is_shortening_enabled());
    assert!(config.remove_artist);
    assert!(!config.omit_artist);
    assert!(!config.remove_ordinary_files);
    assert!(!config.rename_directory);
    assert!(config.verbose);
    assert_eq!(config.start_dir, "/home/foo/music");

    let config = Config::new(Arguments {
        omit_artist: true,
        remove_ordinary_files: true,
        rename_directory: true,
        use_fat_names: true,
        ..arguments()
    })
    .ok()
    .unwrap();
    assert_eq!(config.name_length, 0);
    assert!(!config.shorten_names);
    assert!(!config.is_shortening_enabled());
    assert!(config.omit_artist);
    assert!(config.remove_ordinary_files);
    assert!(config.rename_directory);
    assert!(config.use_fat_names);
    assert!(!config.dry_run);
}

#[test]
fn a_limit_of_zero_switches_shortening_off() {
    let config = Config::new(Arguments {
        length: Some("0".to_string()),
        ..arguments()
    })
    .ok()
    .unwrap();
    assert!(config.shorten_names);
    assert_eq!(config.name_length, 0);
    assert!(!config.is_shortening_enabled());
    let unasked = Config {
        name_length: 8,
        ..Config::default()
    };
    assert!(!unasked.is_shortening_enabled());
}

#[test]
fn a_start_directory_that_was_not_found_is_an_error() {
    match Config::new(Arguments {
        resolved_start_dir: None,
        length: Some("x".to_string()),
        ..arguments()
    }) {
        Err(ConfigError::StartDirNotFound(path)) => assert_eq!(path, "music"),
        _ => panic!("a missing start directory was accepted"),
    }
    assert_eq!(
        ConfigError::StartDirNotFound("music".to_string()).report(),
        "Couldn't find the path \"music\""
    );
}

#[test]
fn a_length_that_is_no_number_is_an_error() {
    match Config::new(Arguments {
        length: Some("eight".to_string()),
        ..arguments()
    }) {
        Err(ConfigError::InvalidLength(text)) => assert_eq!(text, "eight"),
        _ => panic!("a length that is no number was accepted"),
    }
    assert_eq!(
        ConfigError::InvalidLength("eight".to_string()).report(),
        "Cannot parse length \"eight\""
    );
}

#[test]
fn paths_are_split_by_extension_in_order() {
    let paths: Vec<String> = [
        "/m/cover.jpg",
        "/m/02.MP3",
        "/m/01.flac",
        "/m/notes.txt",
        "/m/03.m4a",
        "/m/mp3",
        "/m/x.mp3.bak",
    ]
    .iter()
    .map(|p| p.to_string())
    .collect();
    let (music, others) = partition_paths(&paths);
    assert_eq!(music, vec!["/m/02.MP3", "/m/01.flac", "/m/03.m4a"]);
    assert_eq!(
        others,
        vec!["/m/cover.jpg", "/m/notes.txt", "/m/mp3", "/m/x.mp3.bak"]
    );
    let (music, others) = partition_paths(&Vec::new());
    assert!(music.is_empty() && others.is_empty());
}

#[test]
fn tags_and_files_are_described_line_by_line() {
    let metadata = MusicMetadata {
        album: "Album X".to_string(),
        artist: "The Foos".to_string(),
        disk_number: Some(2),
        title: "Song A".to_string(),
        track_number: 11,
    };
    assert_eq!(
        metadata.describe(),
        "Album:        Album X\nDisk Number:  2\nTrack Number: 11\nArtist:       The Foos\nTitle:        Song A\n"
    );
    let plain = MusicMetadata {
        disk_number: None,
        ..metadata.duplicate()
    };
    assert_eq!(
        plain.describe(),
        "Album:        Album X\nTrack Number: 11\nArtist:       The Foos\nTitle:        Song A\n"
    );
    assert_eq!(
        MusicFile::new("/m/a.mp3".to_string(), Some(plain)).describe(),
        "File Name:    /m/a.mp3\nAlbum:        Album X\nTrack Number: 11\nArtist:       The Foos\nTitle:        Song A\n\n"
    );
    assert_eq!(
        MusicFile::new("/m/a.mp3".to_string(), None).describe(),
        "File Name:    /m/a.mp3\nNo tags found.\n"
    );
}
