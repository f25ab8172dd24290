//! File-name rules: which names are music files, how a name is made safe for
//! common file systems, and how it is shortened to a length limit.

use crate::config::Config;
use crate::text::{
    ascii_lower, ascii_lowercase, avoids, chars_of, collapse_whitespace, concat, dot, drop_leading,
    drop_trailing, ends_with, from_chars, has_suffix, is_collapsed, is_whitespace,
    lemma_collapse_whitespace, lemma_collapse_whitespace_unchanged, lemma_drop_leading,
    lemma_drop_trailing, lemma_drop_trailing_rest, lemma_replace_all_avoids,
    lemma_replace_all_removes, lemma_replace_all_unchanged, lemma_subrange_keeps, remove_all,
    replace, replace_all, slice, to_ascii_lowercase, to_chars, trim, trim_end, trim_end_whitespace,
    trim_whitespace, whitespace,
};
use vstd::prelude::*;

verus! {

/// Whether `t` ends, letter case aside, with one of the music extensions:
/// `.mp3`, `.flac`, `.m4a`, `.m4b`, `.m4p`, `.m4v`.
pub open spec fn is_music_name(t: Seq<char>) -> bool {
    let l = ascii_lowercase(t);
    ||| ends_with(l, ".mp3"@)
    ||| ends_with(l, ".flac"@)
    ||| ends_with(l, ".m4a"@)
    ||| ends_with(l, ".m4b"@)
    ||| ends_with(l, ".m4p"@)
    ||| ends_with(l, ".m4v"@)
}

/// Checks if a name's extension is one of the music file extensions.
pub fn is_music_filename(file_name: &str) -> (b: bool)
    ensures
        b == is_music_name(file_name@),
{
    let lower = to_ascii_lowercase(&to_chars(file_name));
    has_suffix(&lower, &to_chars(".mp3")) || has_suffix(&lower, &to_chars(".flac")) || has_suffix(
        &lower,
        &to_chars(".m4a"),
    ) || has_suffix(&lower, &to_chars(".m4b")) || has_suffix(&lower, &to_chars(".m4p"))
        || has_suffix(&lower, &to_chars(".m4v"))
}

/// Whether a directory entry is a music file, by its path; an entry whose
/// path is no valid text is none.
pub fn is_music_file(path: Option<&str>) -> (b: bool)
    ensures
        b == match path {
            Some(p) => is_music_name(p@),
            None => false,
        },
{
    match path {
        None => false,
        Some(file_name) => is_music_filename(file_name),
    }
}

/// The test for a path with a music extension as a predicate value.
pub open spec fn music_path() -> spec_fn(String) -> bool {
    |path: String| is_music_name(path@)
}

/// The test for a path without a music extension as a predicate value.
pub open spec fn other_path() -> spec_fn(String) -> bool {
    |path: String| !is_music_name(path@)
}

/// Splits the paths of a directory's files into those with a music extension
/// and the others, each kind in the order it came in.
pub fn partition_paths(paths: &Vec<String>) -> (res: (Vec<String>, Vec<String>))
    ensures
        res.0@ == paths@.filter(music_path()),
        res.1@ == paths@.filter(other_path()),
{
    let mut music: Vec<String> = Vec::new();
    let mut others: Vec<String> = Vec::new();
    let mut i: usize = 0;
    proof {
        reveal(Seq::filter);
        assert(paths@.take(0) =~= Seq::<String>::empty());
    }
    while i < paths.len()
        invariant
            i <= paths@.len(),
            music@ == paths@.take(i as int).filter(music_path()),
            others@ == paths@.take(i as int).filter(other_path()),
        decreases paths@.len() - i,
    {
        proof {
            reveal(Seq::filter);
            assert(paths@.take(i + 1).drop_last() =~= paths@.take(i as int));
            assert(paths@.take(i + 1).last() == paths@[i as int]);
        }
        if is_music_file(Some(paths[i].as_str())) {
            music.push(paths[i].clone());
        } else {
            others.push(paths[i].clone());
        }
        i += 1;
    }
    assert(paths@.take(i as int) =~= paths@);
    (music, others)
}

/// The test for any character but `/` as a predicate value.
pub open spec fn non_slash() -> spec_fn(char) -> bool {
    |c: char| c != '/'
}

/// The test for any character but a full stop as a predicate value.
pub open spec fn non_dot() -> spec_fn(char) -> bool {
    |c: char| c != '.'
}

/// The file name of a path whose components `/` separates: its last component
/// that is neither empty nor `.`; none if there is no such component or if it
/// is `..`.
pub open spec fn file_name(path: Seq<char>) -> Option<Seq<char>>
    decreases path.len(),
    via file_name_decreases
{
    let head = drop_trailing(path, non_slash());
    let last = path.skip(head.len() as int);
    if last.len() == 0 || last == seq!['.'] {
        if head.len() == 0 {
            None
        } else {
            file_name(head.drop_last())
        }
    } else if last == seq!['.', '.'] {
        None
    } else {
        Some(last)
    }
}

#[via_fn]
proof fn file_name_decreases(path: Seq<char>) {
    lemma_drop_trailing(path, non_slash());
}

/// The extension of a path: the part of its file name after the last full
/// stop; none if it has no file name, if the file name holds no full stop, or
/// if its only full stop is its first character.
pub open spec fn extension(path: Seq<char>) -> Option<Seq<char>> {
    match file_name(path) {
        None => None,
        Some(name) => {
            let head = drop_trailing(name, non_dot());
            if head.len() <= 1 {
                None
            } else {
                Some(name.skip(head.len() as int))
            }
        },
    }
}

/// The music extension of a path: a full stop and the path's extension in
/// lower case where that is a music extension, else empty.
pub open spec fn music_extension(path: Seq<char>) -> Seq<char> {
    match extension(path) {
        None => Seq::empty(),
        Some(e) => {
            let ext = seq!['.'] + ascii_lowercase(e);
            if is_music_name(ext) {
                ext
            } else {
                Seq::empty()
            }
        },
    }
}

/// The end of the longest prefix of `text[..end]` that is empty or ends with
/// `sep`.
fn last_separator(text: &Vec<char>, end: usize, sep: char) -> (j: usize)
    requires
        end <= text.len(),
    ensures
        j <= end,
        drop_trailing(text@.take(end as int), |c: char| c != sep) == text@.take(j as int),
{
    let ghost p = |c: char| c != sep;
    let mut j: usize = end;
    while j > 0 && text[j - 1] != sep
        invariant
            j <= end <= text.len(),
            p == |c: char| c != sep,
            drop_trailing(text@.take(end as int), p) == drop_trailing(text@.take(j as int), p),
        decreases j,
    {
        assert(text@.take(j as int).last() == text@[j - 1]);
        assert(text@.take(j as int).drop_last() =~= text@.take(j - 1));
        j -= 1;
    }
    if j > 0 {
        assert(text@.take(j as int).last() == text@[j - 1]);
    }
    j
}

/// The file name of `path`.
pub fn path_file_name(path: &Vec<char>) -> (res: Option<Vec<char>>)
    ensures
        chars_of(res) == file_name(path@),
{
    let mut end: usize = path.len();
    assert(path@.take(end as int) =~= path@);
    loop
        invariant
            end <= path.len(),
            file_name(path@) == file_name(path@.take(end as int)),
        decreases end,
    {
        let ghost cur = path@.take(end as int);
        let j: usize = last_separator(path, end, '/');
        assert(non_slash() == (|c: char| c != '/'));
        let last = slice(path, j, end);
        assert(last@ =~= cur.skip(j as int));
        assert(drop_trailing(cur, non_slash()) == path@.take(j as int));
        let is_dot = last.len() == 1 && last[0] == '.';
        let is_dot_dot = last.len() == 2 && last[0] == '.' && last[1] == '.';
        assert(is_dot == (last@ == seq!['.'])) by {
            if is_dot {
                assert(last@ =~= seq!['.']);
            }
        }
        assert(is_dot_dot == (last@ == seq!['.', '.'])) by {
            if is_dot_dot {
                assert(last@ =~= seq!['.', '.']);
            }
        }
        if last.len() == 0 || is_dot {
            if j == 0 {
                return None;
            }
            assert(path@.take(j as int).drop_last() =~= path@.take(j - 1));
            end = j - 1;
        } else if is_dot_dot {
            return None;
        } else {
            return Some(last);
        }
    }
}

/// The extension of `path`.
pub fn path_extension(path: &Vec<char>) -> (res: Option<Vec<char>>)
    ensures
        chars_of(res) == extension(path@),
{
    match path_file_name(path) {
        None => None,
        Some(name) => {
            let j: usize = last_separator(&name, name.len(), '.');
            assert(name@.take(name.len() as int) =~= name@);
            assert(non_dot() == (|c: char| c != '.'));
            if j <= 1 {
                None
            } else {
                let ext = slice(&name, j, name.len());
                assert(ext@ =~= name@.skip(j as int));
                Some(ext)
            }
        },
    }
}

/// Returns the path's music extension in lower case with leading full stop,
/// or the empty string, and its length.
pub fn get_extension(path: &str) -> (res: (String, usize))
    ensures
        res.0@ == music_extension(path@),
        res.1 == res.0@.len(),
{
    match path_extension(&to_chars(path)) {
        None => (String::new(), 0),
        Some(e) => {
            let lower = to_ascii_lowercase(&e);
            let mut ext: Vec<char> = Vec::new();
            ext.push('.');
            let mut i: usize = 0;
            while i < lower.len()
                invariant
                    i <= lower.len(),
                    ext@ == seq!['.'] + lower@.subrange(0, i as int),
                decreases lower.len() - i,
            {
                ext.push(lower[i]);
                i += 1;
                assert(ext@ =~= seq!['.'] + lower@.subrange(0, i as int));
            }
            assert(lower@.subrange(0, i as int) =~= lower@);
            let name = from_chars(&ext);
            if is_music_filename(name.as_str()) {
                let len: usize = ext.len();
                (name, len)
            } else {
                (String::new(), 0)
            }
        },
    }
}

/// Returns the file name's stem: the name without the extension given as
/// second argument, wherever it occurs in the name.
pub fn get_name_stem(name: &str, extension: &str) -> (res: String)
    ensures
        res@ == remove_all(name@, extension@),
{
    let none: Vec<char> = Vec::new();
    from_chars(&replace(&to_chars(name), &to_chars(extension), &none))
}

/// The number of characters left for the stem of a name with an extension of
/// `extension_len` characters under a limit of `limit`.
pub open spec fn stem_room(limit: nat, extension_len: nat) -> nat {
    if limit > extension_len {
        (limit - extension_len) as nat
    } else {
        0
    }
}

/// `name` shortened to `limit` characters for the file at `path`: the stem
/// of `name`, which is `name` without the path's music extension, cut to the
/// room that the extension leaves under the limit; trailing white space
/// trimmed from it; and the extension put behind it.
pub open spec fn shortened(path: Seq<char>, name: Seq<char>, limit: nat) -> Seq<char> {
    let ext = music_extension(path);
    let stem = remove_all(name, ext);
    let room = stem_room(limit, ext.len());
    let len = if room < stem.len() {
        room
    } else {
        stem.len()
    };
    trim_end(stem.take(len as int)) + ext
}

/// Shortens a file name so that it, together with the extension, fits in the
/// length limit of `config`. Combines the path's extension with the stem from
/// the name.
pub fn shorten_names(path: &str, name: &str, config: &Config) -> (res: String)
    ensures
        res@ == shortened(path@, name@, config.name_length as nat),
{
    let (extension, extension_len) = get_extension(path);
    let stem = to_chars(get_name_stem(name, extension.as_str()).as_str());
    let limit: usize = config.name_length as usize;
    let room: usize = if limit > extension_len {
        limit - extension_len
    } else {
        0
    };
    let len: usize = if room < stem.len() {
        room
    } else {
        stem.len()
    };
    let cut = slice(&stem, 0, len);
    assert(cut@ =~= stem@.take(len as int));
    let cut = trim_end_whitespace(&cut);
    from_chars(&concat(&cut, &to_chars(extension.as_str())))
}

/// Whether `e` is, letter case aside, a music extension without its full
/// stop: `mp3`, `flac`, `m4a`, `m4b`, `m4p`, `m4v`.
pub open spec fn is_music_extension(e: Seq<char>) -> bool {
    let l = ascii_lowercase(e);
    ||| l == "mp3"@
    ||| l == "flac"@
    ||| l == "m4a"@
    ||| l == "m4b"@
    ||| l == "m4p"@
    ||| l == "m4v"@
}

/// Whether `t` holds no full stop.
pub open spec fn has_no_dot(t: Seq<char>) -> bool {
    forall|i: int| 0 <= i < t.len() ==> #[trigger] t[i] != '.'
}

/// A name that ends with a full stop and `e`, which holds none, ends in lower
/// case with a full stop and `x`, which holds none, exactly where `e` in lower
/// case is `x`.
proof fn lemma_dotted_suffix(stem: Seq<char>, e: Seq<char>, x: Seq<char>)
    requires
        has_no_dot(e),
        has_no_dot(x),
    ensures
        ends_with(ascii_lowercase(stem + seq!['.'] + e), seq!['.'] + x) == (ascii_lowercase(e)
            == x),
{
    let name = stem + seq!['.'] + e;
    let l = ascii_lowercase(name);
    let n = l.len() as int;
    let d = stem.len() as int;
    let sfx = seq!['.'] + x;
    let k = sfx.len() as int;
    assert(name[d] == '.');
    assert(l[d] == '.');
    assert forall|j: int| 0 <= j < e.len() implies l[d + 1 + j] == ascii_lower(e[j]) && l[d + 1
        + j] != '.' by {
        assert(name[d + 1 + j] == e[j]);
    }
    if ends_with(l, sfx) {
        let tail = l.subrange(n - k, n);
        assert(tail[0] == sfx[0]);
        assert(l[n - k] == '.');
        if n - k < d {
            assert(tail[d - (n - k)] == sfx[d - (n - k)]);
            assert(sfx[d - (n - k)] == x[d - (n - k) - 1]);
        }
        if n - k > d {
            assert(l[d + 1 + (n - k - d - 1)] != '.');
        }
        assert(n - k == d);
        assert forall|j: int| 0 <= j < e.len() implies ascii_lowercase(e)[j] == x[j] by {
            assert(tail[j + 1] == sfx[j + 1]);
        }
        assert(ascii_lowercase(e) =~= x);
    }
    if ascii_lowercase(e) == x {
        assert(l.subrange(n - k, n) =~= sfx);
    }
}

/// A name made of any stem, a full stop and an extension that holds no full
/// stop is a music name exactly where the extension is, in any letter case,
/// one of `mp3`, `flac`, `m4a`, `m4b`, `m4p`, `m4v`.
pub proof fn lemma_music_name_by_extension(stem: Seq<char>, e: Seq<char>)
    requires
        has_no_dot(e),
    ensures
        is_music_name(stem + seq!['.'] + e) == is_music_extension(e),
{
    reveal_strlit(".mp3");
    reveal_strlit(".flac");
    reveal_strlit(".m4a");
    reveal_strlit(".m4b");
    reveal_strlit(".m4p");
    reveal_strlit(".m4v");
    reveal_strlit("mp3");
    reveal_strlit("flac");
    reveal_strlit("m4a");
    reveal_strlit("m4b");
    reveal_strlit("m4p");
    reveal_strlit("m4v");
    assert(".mp3"@ =~= seq!['.'] + "mp3"@);
    assert(".flac"@ =~= seq!['.'] + "flac"@);
    assert(".m4a"@ =~= seq!['.'] + "m4a"@);
    assert(".m4b"@ =~= seq!['.'] + "m4b"@);
    assert(".m4p"@ =~= seq!['.'] + "m4p"@);
    assert(".m4v"@ =~= seq!['.'] + "m4v"@);
    lemma_dotted_suffix(stem, e, "mp3"@);
    lemma_dotted_suffix(stem, e, "flac"@);
    lemma_dotted_suffix(stem, e, "m4a"@);
    lemma_dotted_suffix(stem, e, "m4b"@);
    lemma_dotted_suffix(stem, e, "m4p"@);
    lemma_dotted_suffix(stem, e, "m4v"@);
}

/// The music extension of a path is empty or one of `.mp3`, `.flac`, `.m4a`,
/// `.m4b`, `.m4p`, `.m4v`; it is not empty exactly where the path has an
/// extension that is, in any letter case, a music extension.
pub proof fn lemma_music_extension(path: Seq<char>)
    ensures
        music_extension(path).len() > 0 <==> extension(path) is Some && is_music_extension(
            extension(path)->0,
        ),
        ({
            let ext = music_extension(path);
            ||| ext.len() == 0
            ||| ext == ".mp3"@
            ||| ext == ".flac"@
            ||| ext == ".m4a"@
            ||| ext == ".m4b"@
            ||| ext == ".m4p"@
            ||| ext == ".m4v"@
        }),
{
    if let Some(e) = extension(path) {
        let name = file_name(path)->0;
        lemma_drop_trailing_rest(name, non_dot());
        let head = drop_trailing(name, non_dot());
        assert forall|i: int| 0 <= i < e.len() implies #[trigger] e[i] != '.' by {
            assert(e[i] == name[head.len() + i]);
        }
        let lower = ascii_lowercase(e);
        assert forall|i: int| 0 <= i < lower.len() implies #[trigger] lower[i] != '.' by {
            assert(e[i] != '.');
        }
        assert(ascii_lowercase(lower) =~= lower);
        let none = Seq::<char>::empty();
        lemma_music_name_by_extension(none, lower);
        assert(none + seq!['.'] + lower =~= seq!['.'] + lower);
        reveal_strlit(".mp3");
        reveal_strlit(".flac");
        reveal_strlit(".m4a");
        reveal_strlit(".m4b");
        reveal_strlit(".m4p");
        reveal_strlit(".m4v");
        reveal_strlit("mp3");
        reveal_strlit("flac");
        reveal_strlit("m4a");
        reveal_strlit("m4b");
        reveal_strlit("m4p");
        reveal_strlit("m4v");
        assert(".mp3"@ =~= seq!['.'] + "mp3"@);
        assert(".flac"@ =~= seq!['.'] + "flac"@);
        assert(".m4a"@ =~= seq!['.'] + "m4a"@);
        assert(".m4b"@ =~= seq!['.'] + "m4b"@);
        assert(".m4p"@ =~= seq!['.'] + "m4p"@);
        assert(".m4v"@ =~= seq!['.'] + "m4v"@);
    }
}

/// A shortened name ends with the path's music extension, which is never cut;
/// its stem is no longer than the room that the extension leaves under the
/// limit; and under a limit that leaves no room it is the extension alone.
pub proof fn lemma_shortened(path: Seq<char>, name: Seq<char>, limit: nat)
    ensures
        ends_with(shortened(path, name, limit), music_extension(path)),
        shortened(path, name, limit).len() <= stem_room(limit, music_extension(path).len())
            + music_extension(path).len(),
        limit <= music_extension(path).len() ==> shortened(path, name, limit) == music_extension(
            path,
        ),
{
    let ext = music_extension(path);
    let stem = remove_all(name, ext);
    let room = stem_room(limit, ext.len());
    let len = if room < stem.len() {
        room
    } else {
        stem.len()
    };
    let cut = trim_end(stem.take(len as int));
    lemma_drop_trailing(stem.take(len as int), whitespace());
    let s = cut + ext;
    assert(s.subrange(s.len() - ext.len(), s.len() as int) =~= ext);
    if limit <= ext.len() {
        assert(cut =~= Seq::<char>::empty());
        assert(s =~= ext);
    }
}

/// The characters that sanitization leaves in no name.
pub open spec fn reserved() -> Set<char> {
    set!['$', '\\', '/', ':', '*', '?', '"', '<', '>', '|']
}

/// `t` after the substitutions, applied one after the other: `$` becomes `_`;
/// `???` becomes the word `Fragezeichen`, before single question marks are
/// looked at; `\` is removed; `/` becomes ` & `; `:` becomes ` -`; `*` becomes
/// `_`; `?`, `"`, `<` and `>` are removed; `|` becomes `, `.
pub open spec fn substituted(t: Seq<char>) -> Seq<char> {
    let t = replace_all(t, "$"@, "_"@);
    let t = replace_all(t, "???"@, "Fragezeichen"@);
    let t = replace_all(t, "\\"@, ""@);
    let t = replace_all(t, "/"@, " & "@);
    let t = replace_all(t, ":"@, " -"@);
    let t = replace_all(t, "*"@, "_"@);
    let t = replace_all(t, "?"@, ""@);
    let t = replace_all(t, "\""@, ""@);
    let t = replace_all(t, "<"@, ""@);
    let t = replace_all(t, ">"@, ""@);
    replace_all(t, "|"@, ", "@)
}

/// `t` without leading and trailing full stops.
pub open spec fn without_outer_dots(t: Seq<char>) -> Seq<char> {
    drop_trailing(drop_leading(t, dot()), dot())
}

/// The sanitized form of `name`: the substitutions; then white space trimmed
/// at both ends; then leading and trailing full stops stripped; then every
/// run of white space collapsed to one space; then white space trimmed again.
pub open spec fn sanitized(name: Seq<char>) -> Seq<char> {
    trim(collapse_whitespace(without_outer_dots(trim(substituted(name)))))
}

/// The patterns and replacements that `regex_replace_all` is called with.
pub open spec fn is_supported_replacement(pattern: Seq<char>, replacement: Seq<char>) -> bool {
    ||| pattern == "^[.]*"@ && replacement == ""@
    ||| pattern == "[.]*$"@ && replacement == ""@
    ||| pattern == "\\s+"@ && replacement == " "@
}

/// Compiles `pattern` with `regex::Regex::new` and replaces every match in
/// `text` with `Regex::replace_all`. Believed of the regex crate, not proved:
/// the three patterns compile; `^[.]*` matches once, at the start, the longest
/// run of full stops there; `[.]*$` matches the run of full stops that reaches
/// the end of the text; `\s+` matches each longest run of characters with
/// Unicode's `White_Space` property; and a replacement without `$` is put in
/// as it stands.
#[verifier::external_body]
fn regex_replace_all(pattern: &str, text: &str, replacement: &str) -> (res: String)
    requires
        is_supported_replacement(pattern@, replacement@),
    ensures
        pattern@ == "^[.]*"@ ==> res@ == drop_leading(text@, dot()),
        pattern@ == "[.]*$"@ ==> res@ == drop_trailing(text@, dot()),
        pattern@ == "\\s+"@ ==> res@ == collapse_whitespace(text@),
{
    regex::Regex::new(pattern).unwrap().replace_all(text, replacement).into_owned()
}

/// `text` with every occurrence of `pat` replaced by `to`.
fn substitute(text: &Vec<char>, pat: &str, to: &str) -> (res: Vec<char>)
    ensures
        res@ == replace_all(text@, pat@, to@),
{
    let pat_chars = to_chars(pat);
    let to_chars = to_chars(to);
    replace(text, &pat_chars, &to_chars)
}

/// Makes `filename` safe for common file systems.
pub fn sanitize_file_or_directory_name(filename: &str) -> (res: String)
    ensures
        res@ == sanitized(filename@),
{
    let name = to_chars(filename);
    let name = substitute(&name, "$", "_");
    let name = substitute(&name, "???", "Fragezeichen");
    let name = substitute(&name, "\\", "");
    let name = substitute(&name, "/", " & ");
    let name = substitute(&name, ":", " -");
    let name = substitute(&name, "*", "_");
    let name = substitute(&name, "?", "");
    let name = substitute(&name, "\"", "");
    let name = substitute(&name, "<", "");
    let name = substitute(&name, ">", "");
    let name = substitute(&name, "|", ", ");
    let name = trim_whitespace(&name);
    let name = from_chars(&name);
    let name = regex_replace_all("^[.]*", name.as_str(), "");
    let name = regex_replace_all("[.]*$", name.as_str(), "");
    let name = regex_replace_all("\\s+", name.as_str(), " ");
    let name = to_chars(name.as_str());
    from_chars(&trim_whitespace(&name))
}

/// Whether `t` starts or ends with a full stop.
pub open spec fn has_outer_dot(t: Seq<char>) -> bool {
    t.len() > 0 && (t[0] == '.' || t.last() == '.')
}

/// Whether `t` is in sanitized shape: it holds no reserved character, white
/// space occurs in it only as single spaces, and none at either end.
pub open spec fn is_clean(t: Seq<char>) -> bool {
    &&& avoids(t, reserved())
    &&& is_collapsed(t)
    &&& t.len() > 0 ==> !is_whitespace(t[0]) && !is_whitespace(t.last())
}

/// The substitutions leave no reserved character.
pub proof fn lemma_substituted_avoids_reserved(t: Seq<char>)
    ensures
        avoids(substituted(t), reserved()),
{
    reveal_strlit("$");
    reveal_strlit("_");
    reveal_strlit("???");
    reveal_strlit("Fragezeichen");
    reveal_strlit("\\");
    reveal_strlit("");
    reveal_strlit("/");
    reveal_strlit(" & ");
    reveal_strlit(":");
    reveal_strlit(" -");
    reveal_strlit("*");
    reveal_strlit("?");
    reveal_strlit("\"");
    reveal_strlit("<");
    reveal_strlit(">");
    reveal_strlit("|");
    reveal_strlit(", ");
    let word = seq!['F', 'r', 'a', 'g', 'e', 'z', 'e', 'i', 'c', 'h', 'e', 'n'];
    assert("Fragezeichen"@ =~= word);
    assert("_"@ =~= seq!['_']);
    assert(""@ =~= Seq::<char>::empty());
    assert(" & "@ =~= seq![' ', '&', ' ']);
    assert(" -"@ =~= seq![' ', '-']);
    assert(", "@ =~= seq![',', ' ']);
    assert("$"@ =~= seq!['$']);
    assert("\\"@ =~= seq!['\\']);
    assert("/"@ =~= seq!['/']);
    assert(":"@ =~= seq![':']);
    assert("*"@ =~= seq!['*']);
    assert("?"@ =~= seq!['?']);
    assert("\""@ =~= seq!['"']);
    assert("<"@ =~= seq!['<']);
    assert(">"@ =~= seq!['>']);
    assert("|"@ =~= seq!['|']);

    let s0 = Set::<char>::empty();
    let t1 = replace_all(t, "$"@, "_"@);
    lemma_replace_all_removes(t, '$', "_"@, s0);
    let s1 = s0.insert('$');
    let t2 = replace_all(t1, "???"@, "Fragezeichen"@);
    lemma_replace_all_avoids(t1, "???"@, "Fragezeichen"@, s1);
    let t3 = replace_all(t2, "\\"@, ""@);
    lemma_replace_all_removes(t2, '\\', ""@, s1);
    let s2 = s1.insert('\\');
    let t4 = replace_all(t3, "/"@, " & "@);
    lemma_replace_all_removes(t3, '/', " & "@, s2);
    let s3 = s2.insert('/');
    let t5 = replace_all(t4, ":"@, " -"@);
    lemma_replace_all_removes(t4, ':', " -"@, s3);
    let s4 = s3.insert(':');
    let t6 = replace_all(t5, "*"@, "_"@);
    lemma_replace_all_removes(t5, '*', "_"@, s4);
    let s5 = s4.insert('*');
    let t7 = replace_all(t6, "?"@, ""@);
    lemma_replace_all_removes(t6, '?', ""@, s5);
    let s6 = s5.insert('?');
    let t8 = replace_all(t7, "\""@, ""@);
    lemma_replace_all_removes(t7, '"', ""@, s6);
    let s7 = s6.insert('"');
    let t9 = replace_all(t8, "<"@, ""@);
    lemma_replace_all_removes(t8, '<', ""@, s7);
    let s8 = s7.insert('<');
    let t10 = replace_all(t9, ">"@, ""@);
    lemma_replace_all_removes(t9, '>', ""@, s8);
    let s9 = s8.insert('>');
    let t11 = replace_all(t10, "|"@, ", "@);
    lemma_replace_all_removes(t10, '|', ", "@, s9);
    let s10 = s9.insert('|');
    assert(s10 =~= reserved());
    assert(t11 == substituted(t));
}

/// A text without reserved characters is left unchanged by the substitutions.
pub proof fn lemma_substituted_unchanged(t: Seq<char>)
    requires
        avoids(t, reserved()),
    ensures
        substituted(t) == t,
{
    reveal_strlit("$");
    reveal_strlit("???");
    reveal_strlit("\\");
    reveal_strlit("/");
    reveal_strlit(":");
    reveal_strlit("*");
    reveal_strlit("?");
    reveal_strlit("\"");
    reveal_strlit("<");
    reveal_strlit(">");
    reveal_strlit("|");
    let s = reserved();
    lemma_replace_all_unchanged(t, "$"@, "_"@, s);
    lemma_replace_all_unchanged(t, "???"@, "Fragezeichen"@, s);
    lemma_replace_all_unchanged(t, "\\"@, ""@, s);
    lemma_replace_all_unchanged(t, "/"@, " & "@, s);
    lemma_replace_all_unchanged(t, ":"@, " -"@, s);
    lemma_replace_all_unchanged(t, "*"@, "_"@, s);
    lemma_replace_all_unchanged(t, "?"@, ""@, s);
    lemma_replace_all_unchanged(t, "\""@, ""@, s);
    lemma_replace_all_unchanged(t, "<"@, ""@, s);
    lemma_replace_all_unchanged(t, ">"@, ""@, s);
    lemma_replace_all_unchanged(t, "|"@, ", "@, s);
}

/// Trimming keeps a text free of the characters it lacked and keeps white
/// space single where it was; what it returns has no white space at either
/// end and is no longer than the text.
pub proof fn lemma_trim(t: Seq<char>, s: Set<char>)
    ensures
        trim(t).len() <= t.len(),
        avoids(t, s) ==> avoids(trim(t), s),
        is_collapsed(t) ==> is_collapsed(trim(t)),
        trim(t).len() > 0 ==> !is_whitespace(trim(t)[0]) && !is_whitespace(trim(t).last()),
{
    let a = drop_leading(t, whitespace());
    let b = drop_trailing(a, whitespace());
    lemma_drop_leading(t, whitespace());
    lemma_drop_trailing(a, whitespace());
    assert(a == t.subrange(t.len() - a.len(), t.len() as int));
    assert(b == a.subrange(0, b.len() as int));
    lemma_subrange_keeps(t, t.len() - a.len(), t.len() as int, s);
    lemma_subrange_keeps(a, 0, b.len() as int, s);
    if b.len() > 0 {
        assert(b[0] == a[0]);
    }
}

/// Stripping the outer full stops keeps a text free of the characters it
/// lacked and never lengthens it.
pub proof fn lemma_without_outer_dots(t: Seq<char>, s: Set<char>)
    ensures
        without_outer_dots(t).len() <= t.len(),
        has_outer_dot(t) ==> without_outer_dots(t).len() < t.len(),
        avoids(t, s) ==> avoids(without_outer_dots(t), s),
{
    let a = drop_leading(t, dot());
    let b = drop_trailing(a, dot());
    lemma_drop_leading(t, dot());
    lemma_drop_trailing(a, dot());
    assert(a == t.subrange(t.len() - a.len(), t.len() as int));
    assert(b == a.subrange(0, b.len() as int));
    lemma_subrange_keeps(t, t.len() - a.len(), t.len() as int, s);
    lemma_subrange_keeps(a, 0, b.len() as int, s);
    if t.len() > 0 && t.last() == '.' && a.len() > 0 {
        assert(a.last() == t.last());
    }
}

/// Every sanitized name is in sanitized shape.
pub proof fn lemma_sanitized_is_clean(name: Seq<char>)
    ensures
        is_clean(sanitized(name)),
{
    let s = reserved();
    let a = substituted(name);
    lemma_substituted_avoids_reserved(name);
    let b = trim(a);
    lemma_trim(a, s);
    let c = without_outer_dots(b);
    lemma_without_outer_dots(b, s);
    let d = collapse_whitespace(c);
    lemma_collapse_whitespace(c, s);
    lemma_trim(d, s);
}

/// A text in sanitized shape that neither starts nor ends with a full stop is
/// its own sanitized form.
pub proof fn lemma_sanitized_fixed_point(t: Seq<char>)
    requires
        is_clean(t),
        !has_outer_dot(t),
    ensures
        sanitized(t) == t,
{
    lemma_substituted_unchanged(t);
    assert(trim(t) == t);
    assert(without_outer_dots(t) == t);
    lemma_collapse_whitespace_unchanged(t);
}

/// Sanitization is idempotent wherever the sanitized name neither starts nor
/// ends with a full stop: sanitizing it again changes nothing.
pub proof fn lemma_sanitize_idempotent(name: Seq<char>)
    requires
        !has_outer_dot(sanitized(name)),
    ensures
        sanitized(sanitized(name)) == sanitized(name),
{
    lemma_sanitized_is_clean(name);
    lemma_sanitized_fixed_point(sanitized(name));
}

/// Where the sanitized name starts or ends with a full stop, which white
/// space between full stops at an end of the name brings about, sanitizing it
/// again strips that full stop and so gives a shorter name.
pub proof fn lemma_sanitize_again_strips_outer_dot(name: Seq<char>)
    requires
        has_outer_dot(sanitized(name)),
    ensures
        sanitized(sanitized(name)).len() < sanitized(name).len(),
{
    let t = sanitized(name);
    let s = reserved();
    lemma_sanitized_is_clean(name);
    lemma_substituted_unchanged(t);
    assert(trim(t) == t);
    let c = without_outer_dots(t);
    lemma_without_outer_dots(t, s);
    lemma_collapse_whitespace(c, s);
    lemma_trim(collapse_whitespace(c), s);
}

} // verus!
