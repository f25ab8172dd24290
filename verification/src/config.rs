//! The settings of one run.

use crate::text::{concat, from_chars, to_chars};
use vstd::prelude::*;

verus! {

/// What was given on the command line, before it is checked.
pub struct Arguments {
    pub dry_run: bool,
    /// The length limit as it was written, if one was given.
    pub length: Option<String>,
    pub omit_artist: bool,
    pub remove_artist: bool,
    pub remove_ordinary_files: bool,
    pub rename_directory: bool,
    /// The start directory as it was written.
    pub start_dir: String,
    /// The full path of the start directory, if it was found.
    pub resolved_start_dir: Option<String>,
    pub use_fat_names: bool,
    pub verbose: bool,
}

/// Why there is no configuration to run with.
pub enum ConfigError {
    /// The start directory, as it was written, was not found.
    StartDirNotFound(String),
    /// The length limit, as it was written, is no number that fits.
    InvalidLength(String),
}

/// The value of the decimal digit `c`.
pub open spec fn digit_value(c: char) -> nat
    recommends
        '0' <= c <= '9',
{
    (c as u32 - 48) as nat
}

/// Whether `t` is made of decimal digits, at least one.
pub open spec fn is_digits(t: Seq<char>) -> bool {
    t.len() > 0 && forall|i: int| 0 <= i < t.len() ==> '0' <= #[trigger] t[i] <= '9'
}

/// The number that the digits `t` stand for.
pub open spec fn digits_value(t: Seq<char>) -> nat
    decreases t.len(),
{
    if t.len() == 0 {
        0
    } else {
        digits_value(t.drop_last()) * 10 + digit_value(t.last())
    }
}

/// `t` without a plus sign in front of it.
pub open spec fn unsigned_part(t: Seq<char>) -> Seq<char> {
    if t.len() > 0 && t[0] == '+' {
        t.skip(1)
    } else {
        t
    }
}

/// The length limit that `t` stands for: the value of its decimal digits,
/// before which a plus sign may stand, where that value is at most
/// 4294967295; none for any other text.
pub open spec fn parsed_length(t: Seq<char>) -> Option<u32> {
    let digits = unsigned_part(t);
    if is_digits(digits) && digits_value(digits) <= u32::MAX {
        Some(digits_value(digits) as u32)
    } else {
        None
    }
}

/// Digits stand for at least the number that any of their prefixes stands for.
proof fn lemma_digits_value_grows(t: Seq<char>, n: int)
    requires
        0 <= n <= t.len(),
    ensures
        digits_value(t.take(n)) <= digits_value(t),
    decreases t.len() - n,
{
    if n < t.len() {
        lemma_digits_value_grows(t, n + 1);
        assert(t.take(n + 1).drop_last() =~= t.take(n));
        assert(digits_value(t.take(n)) <= digits_value(t.take(n + 1))) by (nonlinear_arith)
            requires
                digits_value(t.take(n + 1)) == digits_value(t.take(n)) * 10 + digit_value(
                    t.take(n + 1).last(),
                ),
        ;
    } else {
        assert(t.take(n) =~= t);
    }
}

/// Reads a length limit.
pub fn parse_length(text: &str) -> (res: Option<u32>)
    ensures
        res == parsed_length(text@),
{
    let chars = to_chars(text);
    let start: usize = if chars.len() > 0 && chars[0] == '+' {
        1
    } else {
        0
    };
    let ghost digits = unsigned_part(text@);
    assert(digits =~= chars@.skip(start as int));
    if start == chars.len() {
        return None;
    }
    let mut value: u32 = 0;
    let mut i: usize = start;
    assert(digits.take(0) =~= Seq::<char>::empty());
    while i < chars.len()
        invariant
            start <= i <= chars@.len(),
            digits == unsigned_part(text@),
            digits == chars@.skip(start as int),
            digits.len() > 0,
            forall|k: int| 0 <= k < i - start ==> '0' <= #[trigger] digits[k] <= '9',
            value == digits_value(digits.take(i - start)),
        decreases chars@.len() - i,
    {
        let c = chars[i];
        assert(digits[i - start] == c);
        if !('0' <= c && c <= '9') {
            assert(!is_digits(digits));
            return None;
        }
        let d: u32 = c as u32 - 48;
        assert(digits.take(i - start + 1).drop_last() =~= digits.take(i - start));
        assert(digits.take(i - start + 1).last() == c);
        assert(digit_value(c) == d);
        assert(digits_value(digits.take(i - start + 1)) == value * 10 + d);
        if value > (u32::MAX - d) / 10 {
            proof {
                lemma_digits_value_grows(digits, i - start + 1);
                assert(value * 10 + d > u32::MAX);
                assert(digits_value(digits) > u32::MAX);
            }
            return None;
        }
        value = value * 10 + d;
        i += 1;
    }
    assert(digits.take(i - start) =~= digits);
    Some(value)
}

/// The line that reports `error`.
pub open spec fn error_line(error: ConfigError) -> Seq<char> {
    match error {
        ConfigError::StartDirNotFound(path) => "Couldn't find the path \""@ + path@ + "\""@,
        ConfigError::InvalidLength(text) => "Cannot parse length \""@ + text@ + "\""@,
    }
}

impl ConfigError {
    /// The line that reports this error.
    pub fn report(&self) -> (line: String)
        ensures
            line@ == error_line(*self),
    {
        let (head, text) = match self {
            ConfigError::StartDirNotFound(path) => (to_chars("Couldn't find the path \""), path),
            ConfigError::InvalidLength(text) => (to_chars("Cannot parse length \""), text),
        };
        let line = concat(&head, &to_chars(text.as_str()));
        from_chars(&concat(&line, &to_chars("\"")))
    }
}

/// The configuration that `arguments` ask for, as far as it is made of them:
/// everything but the start directory.
pub open spec fn asks_for(arguments: Arguments, config: Config, name_length: u32) -> bool {
    &&& config.dry_run == arguments.dry_run
    &&& config.name_length == name_length
    &&& config.omit_artist == arguments.omit_artist
    &&& config.remove_artist == arguments.remove_artist
    &&& config.remove_ordinary_files == arguments.remove_ordinary_files
    &&& config.rename_directory == arguments.rename_directory
    &&& config.shorten_names == arguments.length is Some
    &&& config.use_fat_names == arguments.use_fat_names
    &&& config.verbose == arguments.verbose
}

/// What a run is asked to do.
pub struct Config {
    /// Report renames and removals without carrying them out.
    pub dry_run: bool,
    /// The longest name, extension included, that shortening leaves; 0 switches
    /// shortening off.
    pub name_length: u32,
    /// Set by callers that ask to leave the artist out; no rule reads it.
    pub omit_artist: bool,
    /// Leave the artist out of file names where a directory has one artist.
    pub remove_artist: bool,
    /// Remove the files of a music directory that are no music files.
    pub remove_ordinary_files: bool,
    /// Rename a directory to the album title its music files share.
    pub rename_directory: bool,
    /// Whether a length limit was asked for.
    pub shorten_names: bool,
    /// The directory that the run starts from.
    pub start_dir: String,
    /// Ask for names fit for FAT file systems. Sanitized names already are, so
    /// the flag changes no name.
    pub use_fat_names: bool,
    pub verbose: bool,
}

impl Config {
    /// Checks the arguments of a run. The start directory must have been
    /// found; that is looked at first. The length limit, where one was given,
    /// must be a number; without one the limit is 0.
    pub fn new(arguments: Arguments) -> (res: Result<Config, ConfigError>)
        ensures
            match res {
                Ok(config) => arguments.resolved_start_dir == Some(config.start_dir)
                    && match arguments.length {
                    None => asks_for(arguments, config, 0),
                    Some(text) => parsed_length(text@) is Some && asks_for(
                        arguments,
                        config,
                        parsed_length(text@)->0,
                    ),
                },
                Err(ConfigError::StartDirNotFound(path)) => arguments.resolved_start_dir is None
                    && path == arguments.start_dir,
                Err(ConfigError::InvalidLength(text)) => arguments.resolved_start_dir is Some
                    && arguments.length == Some(text) && parsed_length(text@) is None,
            },
    {
        // the directory is mandatory
        let start_dir = match arguments.resolved_start_dir {
            Some(path) => path,
            None => {
                return Err(ConfigError::StartDirNotFound(arguments.start_dir));
            },
        };
        let shorten_names = arguments.length.is_some();
        let name_length: u32 = match arguments.length {
            None => 0,
            Some(text) => match parse_length(text.as_str()) {
                Some(value) => value,
                None => {
                    return Err(ConfigError::InvalidLength(text));
                },
            },
        };
        Ok(
            Config {
                dry_run: arguments.dry_run,
                name_length,
                omit_artist: arguments.omit_artist,
                remove_artist: arguments.remove_artist,
                remove_ordinary_files: arguments.remove_ordinary_files,
                rename_directory: arguments.rename_directory,
                shorten_names,
                start_dir,
                use_fat_names: arguments.use_fat_names,
                verbose: arguments.verbose,
            },
        )
    }

    /// Whether names are shortened: a limit was asked for and is not 0.
    pub open spec fn shortening_enabled(&self) -> bool {
        self.shorten_names && self.name_length > 0
    }

    /// Whether names are shortened.
    pub fn is_shortening_enabled(&self) -> (b: bool)
        ensures
            b == self.shortening_enabled(),
    {
        self.shorten_names && self.name_length > 0
    }
}

impl Default for Config {
    /// Every flag off, no length limit, an empty start directory.
    fn default() -> (config: Config)
        ensures
            !config.dry_run,
            config.name_length == 0,
            !config.omit_artist,
            !config.remove_artist,
            !config.remove_ordinary_files,
            !config.rename_directory,
            !config.shorten_names,
            config.start_dir@.len() == 0,
            !config.use_fat_names,
            !config.verbose,
    {
        Config {
            dry_run: false,
            name_length: 0,
            omit_artist: false,
            remove_artist: false,
            remove_ordinary_files: false,
            rename_directory: false,
            shorten_names: false,
            start_dir: String::new(),
            use_fat_names: false,
            verbose: false,
        }
    }
}

} // verus!
