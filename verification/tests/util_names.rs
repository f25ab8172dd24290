use mp3rename::config::Config;
use mp3rename::util::{
    get_extension, get_name_stem, is_music_file, is_music_filename, sanitize_file_or_directory_name,
    shorten_names,
};

#[test]
fn test_is_music_filename() {
    assert_eq!(is_music_filename("/tmp/music.mp3"), true);
    assert_eq!(is_music_filename("/tmp/music.mp33"), false);
    assert_eq!(is_music_filename("/tmp/music.Mp3"), true);
    assert_eq!(is_music_filename("/tmp/music.FlAc"), true);
    assert_eq!(is_music_filename("/tmp/music.m4a"), true);
    assert_eq!(is_music_filename("/tmp/music.m4p"), true);
    assert_eq!(is_music_filename("/tmp/music.m4v"), true);
    assert_eq!(is_music_filename("/tmp/music.mp4"), false);
}

#[test]
fn test_sanitize_file_or_directory_name() {
    assert_eq!(
        sanitize_file_or_directory_name("$foo $$ bar$"),
        "_foo __ bar_"
    );

    // special handling for "The Three ???"
    assert_eq!(
        sanitize_file_or_directory_name("foo ??? bar"),
        "foo Fragezeichen bar"
    );

    assert_eq!(sanitize_file_or_directory_name("foo\\bar"), "foobar");

    assert_eq!(sanitize_file_or_directory_name("foo/bar"), "foo & bar");
    assert_eq!(sanitize_file_or_directory_name("foo/"), "foo &");

    assert_eq!(sanitize_file_or_directory_name("foo: bar"), "foo - bar");
    assert_eq!(sanitize_file_or_directory_name("foo:"), "foo -");

    assert_eq!(
        sanitize_file_or_directory_name("*foo * bar*"),
        "_foo _ bar_"
    );
    assert_eq!(
        sanitize_file_or_directory_name("*foo ** bar*"),
        "_foo __ bar_"
    );

    assert_eq!(sanitize_file_or_directory_name("foo ? bar"), "foo bar");
    assert_eq!(sanitize_file_or_directory_name("?foo bar?"), "foo bar");

    assert_eq!(sanitize_file_or_directory_name("\"foo bar\""), "foo bar");

    assert_eq!(sanitize_file_or_directory_name("<foo bar>"), "foo bar");

    assert_eq!(sanitize_file_or_directory_name("foo|bar"), "foo, bar");

    // whitespace
    assert_eq!(sanitize_file_or_directory_name("foo\tbar"), "foo bar");
    assert_eq!(sanitize_file_or_directory_name("foo   bar"), "foo bar");
    assert_eq!(sanitize_file_or_directory_name("foo \t \t bar"), "foo bar");
    assert_eq!(sanitize_file_or_directory_name(" foo bar "), "foo bar");

    // leading and trailing dots
    assert_eq!(sanitize_file_or_directory_name("...foo bar"), "foo bar");
    assert_eq!(sanitize_file_or_directory_name(".foo bar"), "foo bar");
    assert_eq!(sanitize_file_or_directory_name("foo bar..."), "foo bar");
    assert_eq!(sanitize_file_or_directory_name("foo bar."), "foo bar");

    // example with french punctuation marks
    assert_eq!(
        sanitize_file_or_directory_name("O\u{ccab} est le bien ? O\u{ccab} est le mal ?"),
        "O\u{ccab} est le bien O\u{ccab} est le mal"
    );
}

#[test]
fn test_shorten_names() {
    let config = Config {
        name_length: 8,
        ..Config::default()
    };

    assert_eq!(shorten_names("/foo/bar.mp3", "foo.mp3", &config), "foo.mp3");
    assert_eq!(
        shorten_names("/foo/bar.flac", "123456789.flac", &config),
        "123.flac"
    );
    assert_eq!(
        shorten_names("/foo/bar.mp3", "foo bar.mp3", &config),
        "foo.mp3"
    );
    assert_eq!(
        shorten_names(
            "/foo/bar.mp3",
            "foo bar.mp3",
            &Config {
                name_length: 9,
                ..Config::default()
            },
        ),
        "foo b.mp3"
    );
    assert_eq!(
        shorten_names(
            "/foo/bar.mp3",
            "foo bar.mp3",
            &Config {
                name_length: 1,
                ..Config::default()
            },
        ),
        ".mp3"
    );
    assert_eq!(
        shorten_names(
            "/foo/bar.mp3",
            "foo bar.mp3",
            &Config {
                name_length: 4,
                ..Config::default()
            },
        ),
        ".mp3"
    );
    assert_eq!(
        shorten_names(
            "/foo/bar.mp3",
            "foo bar.mp3",
            &Config {
                name_length: 5,
                ..Config::default()
            },
        ),
        "f.mp3"
    );
    assert_eq!(
        shorten_names("/foo/bar.mp3", "foo bar.blah.mp3", &config),
        "foo.mp3"
    );
    assert_eq!(shorten_names("/foo/bar", "foo bar", &config), "foo bar");
    assert_eq!(shorten_names("/foo/bar", "foo bar   ", &config), "foo bar");
    assert_eq!(shorten_names("/foo/bar", "123456789", &config), "12345678");
}

#[test]
fn test_get_extension() {
    assert_eq!(
        get_extension("Foo Bar"),
        (String::from(""), 0),
        "wrong handling of names without extension"
    );
    assert_eq!(
        get_extension("Titan A.E."),
        (String::from(""), 0),
        "wrong handling of names without music file extension"
    );
    assert_eq!(get_extension("E.T."), (String::from(""), 0));
    assert_eq!(
        get_extension("Titan.flac"),
        (String::from(".flac"), 5),
        "wrong handling of names with extension"
    );
}

#[test]
fn test_get_name_stem() {
    assert_eq!(get_name_stem("foo.mp3", ".mp3"), "foo");
    assert_eq!(get_name_stem("foo.mp3", "mp3"), "foo.");
    assert_eq!(get_name_stem("foo.mp3", ""), "foo.mp3");
}

#[test]
fn music_extensions_in_any_letter_case() {
    for ext in ["mp3", "flac", "m4a", "m4b", "m4p", "m4v"] {
        assert!(is_music_filename(&format!("song.{}", ext)));
        assert!(is_music_filename(&format!("song.{}", ext.to_uppercase())));
    }
    assert!(is_music_filename("a.b.M4B"));
    assert!(is_music_filename(".mp3"));
    assert!(!is_music_filename("song.ogg"));
    assert!(!is_music_filename("mp3"));
    assert!(!is_music_filename("song.mp3.txt"));
    assert!(!is_music_filename(""));
    assert!(is_music_file(Some("/music/a.FLAC")));
    assert!(!is_music_file(Some("/music/a.txt")));
    assert!(!is_music_file(None));
}

#[test]
fn sanitize_handles_question_marks_in_order() {
    assert_eq!(sanitize_file_or_directory_name("????"), "Fragezeichen");
    assert_eq!(
        sanitize_file_or_directory_name("??????"),
        "FragezeichenFragezeichen"
    );
    assert_eq!(sanitize_file_or_directory_name("??"), "");
    // the backslash leaves only after the triple was looked for
    assert_eq!(sanitize_file_or_directory_name("?\\??"), "");
}

#[test]
fn sanitize_strips_dots_after_trimming_and_collapses_last() {
    assert_eq!(sanitize_file_or_directory_name("...foo bar..."), "foo bar");
    assert_eq!(sanitize_file_or_directory_name("  ..foo.. "), "foo");
    assert_eq!(sanitize_file_or_directory_name("..."), "");
    assert_eq!(sanitize_file_or_directory_name(""), "");
    assert_eq!(sanitize_file_or_directory_name("a\u{a0}\u{2003}\u{3000}b"), "a b");
    assert_eq!(sanitize_file_or_directory_name("a\nb\r\nc"), "a b c");
    assert_eq!(sanitize_file_or_directory_name("a.b"), "a.b");
    assert_eq!(sanitize_file_or_directory_name(".a. .b."), "a. .b");
    assert_eq!(sanitize_file_or_directory_name("Foo..."), "Foo");
}

#[test]
fn sanitize_twice_is_sanitize_once() {
    for name in [
        "$foo $$ bar$",
        "foo ??? bar",
        "foo/bar",
        "a: b | c",
        " foo \t bar ",
        "...foo bar...",
        "<<a>>",
        "",
    ] {
        let once = sanitize_file_or_directory_name(name);
        assert_eq!(sanitize_file_or_directory_name(&once), once);
    }
}

#[test]
fn sanitize_twice_strips_a_dot_that_white_space_shielded() {
    let once = sanitize_file_or_directory_name(". .a");
    assert_eq!(once, ".a");
    assert_eq!(sanitize_file_or_directory_name(&once), "a");
    let once = sanitize_file_or_directory_name("a. .");
    assert_eq!(once, "a.");
    assert_eq!(sanitize_file_or_directory_name(&once), "a");
}

#[test]
fn shorten_counts_characters_and_keeps_the_extension() {
    let config = Config {
        name_length: 8,
        ..Config::default()
    };
    assert_eq!(
        shorten_names("/foo/bar.mp3", "123456789.mp3", &config),
        "1234.mp3"
    );
    assert_eq!(
        shorten_names("/foo/bar.MP3", "123456789.mp3", &config),
        "1234.mp3"
    );
    assert_eq!(
        shorten_names("/foo/bar.mp3", "\u{e4}\u{f6}\u{fc}\u{df}xyz.mp3", &config),
        "\u{e4}\u{f6}\u{fc}\u{df}.mp3"
    );
    assert_eq!(
        shorten_names(
            "/foo/bar.mp3",
            "abc.mp3",
            &Config {
                name_length: 0,
                ..Config::default()
            }
        ),
        ".mp3"
    );
    assert_eq!(
        shorten_names(
            "/foo/bar.flac",
            "abc.flac",
            &Config {
                name_length: 3,
                ..Config::default()
            }
        ),
        ".flac"
    );
    assert_eq!(
        shorten_names(
            "/foo/bar.mp3",
            "abc.mp3",
            &Config {
                name_length: 4000000000,
                ..Config::default()
            }
        ),
        "abc.mp3"
    );
    // only trailing white space leaves the cut stem
    assert_eq!(shorten_names("/foo/bar.mp3", " ab  cd.mp3", &config), " ab.mp3");
}

#[test]
fn extension_follows_the_last_component() {
    assert_eq!(get_extension("/a/b.mp3/"), (String::from(".mp3"), 4));
    assert_eq!(get_extension("/a/b.mp3/."), (String::from(".mp3"), 4));
    assert_eq!(get_extension("/a/b.mp3/.."), (String::new(), 0));
    assert_eq!(get_extension("/a.mp3/b"), (String::new(), 0));
    assert_eq!(get_extension(".mp3"), (String::new(), 0));
    assert_eq!(get_extension("a/.flac"), (String::new(), 0));
    assert_eq!(get_extension("x.tar.M4A"), (String::from(".m4a"), 4));
    assert_eq!(get_extension("x.mp3.txt"), (String::new(), 0));
    assert_eq!(get_extension(""), (String::new(), 0));
    assert_eq!(get_extension("/"), (String::new(), 0));
    assert_eq!(get_extension("..mp3"), (String::from(".mp3"), 4));
}

#[test]
fn name_stem_removes_every_occurrence() {
    assert_eq!(get_name_stem("a.mp3b.mp3", ".mp3"), "ab");
    assert_eq!(get_name_stem("aaa", "aa"), "a");
    assert_eq!(get_name_stem("", ".mp3"), "");
    assert_eq!(get_name_stem("abc", "abcd"), "abc");
}
