//! Renames music files to a canonical form derived from their tags.
//!
//! The library holds the naming engine: classification of directory entries,
//! validation of tag data, per-directory aggregates, name sanitization and
//! shortening, and the plan of renames and removals for one directory. It
//! touches no file: callers hand it paths and tag values as plain data and
//! carry out the plan it returns.

use crate::config::Config;
use crate::dir_contents::{
    common_album, have_same_artist, same_album_title, same_artists, DirectoryContents,
};
use crate::disk_group::{
    disc_number_width, disc_width, group_by_disk, is_grouping, lemma_members_are_on_disk, DiskGroup,
};
use crate::music_file::{canonical, MusicFile};
use crate::music_metadata::text_of;
use crate::ordinary_file::OrdinaryFile;
use crate::text::{concat, from_chars, remove_all, to_chars};
use crate::util::{
    file_name, get_extension, get_name_stem, music_extension, path_file_name,
    sanitize_file_or_directory_name, sanitized, shorten_names, shortened,
};
use vstd::prelude::*;

pub mod config;
pub mod dir_contents;
pub mod disk_group;
pub mod music_file;
pub mod music_metadata;
pub mod ordinary_file;
pub mod sorting;
pub mod text;
pub mod util;

verus! {

/// What is to be done about the name of a file or directory.
pub enum RenameAction {
    /// It has its new name already.
    Keep,
    /// It gets this name.
    Rename(String),
    /// The path has no file name, so there is nothing to rename.
    NoOldName,
    /// The new name would be empty.
    NoNewName,
}

/// What is to be done about a name, as plain values.
pub enum Renaming {
    Keep,
    Rename(Seq<char>),
    NoOldName,
    NoNewName,
}

impl View for RenameAction {
    type V = Renaming;

    open spec fn view(&self) -> Renaming {
        match self {
            RenameAction::Keep => Renaming::Keep,
            RenameAction::Rename(name) => Renaming::Rename(name@),
            RenameAction::NoOldName => Renaming::NoOldName,
            RenameAction::NoNewName => Renaming::NoNewName,
        }
    }
}

/// The name that the file or directory at `old_path` gets for the wanted
/// `to_name`: the stem of `to_name`, which is `to_name` without the music
/// extension of the old path, sanitized, and the extension behind it; and
/// that name shortened, where shortening is enabled.
pub open spec fn target_name(old_path: Seq<char>, config: Config, to_name: Seq<char>) -> Seq<
    char,
> {
    let extension = music_extension(old_path);
    let name = sanitized(remove_all(to_name, extension)) + extension;
    if config.shortening_enabled() {
        shortened(old_path, name, config.name_length as nat)
    } else {
        name
    }
}

/// What is to be done about the name of the file or directory at `old_path`,
/// for the wanted `to_name`: nothing can be done where the path has no file
/// name or the new name would be empty; the name is kept where it is the new
/// name already; else it is renamed.
pub open spec fn renaming(old_path: Seq<char>, config: Config, to_name: Seq<char>) -> Renaming {
    let target = target_name(old_path, config, to_name);
    match file_name(old_path) {
        None => Renaming::NoOldName,
        Some(old_name) => if target.len() == 0 {
            Renaming::NoNewName
        } else if target == old_name {
            Renaming::Keep
        } else {
            Renaming::Rename(target)
        },
    }
}

/// Decides how to rename the file or directory at `old_path` to `to_name`.
pub fn rename_file_or_directory(old_path: &str, config: &Config, to_name: &str) -> (action:
    RenameAction)
    ensures
        action@ == renaming(old_path@, *config, to_name@),
{
    // the wanted name is sanitized without its extension, so that a name like
    // "Foo....mp3" becomes "Foo.mp3"
    let (extension, _) = get_extension(old_path);
    let stem = get_name_stem(to_name, extension.as_str());
    let stem = sanitize_file_or_directory_name(stem.as_str());

    // the extension is put back before shortening, which counts it
    let mut new_name = from_chars(&concat(&to_chars(stem.as_str()), &to_chars(extension.as_str())));
    if config.is_shortening_enabled() {
        new_name = shorten_names(old_path, new_name.as_str(), config);
    }
    match path_file_name(&to_chars(old_path)) {
        None => RenameAction::NoOldName,
        Some(old_name) => {
            let old_name = from_chars(&old_name);
            if new_name.as_str().unicode_len() == 0 {
                RenameAction::NoNewName
            } else if new_name == old_name {
                RenameAction::Keep
            } else {
                RenameAction::Rename(new_name)
            }
        },
    }
}

/// The rename planned for one music file.
pub struct PlannedRename {
    /// The file's place in the directory's list of music files.
    pub file: usize,
    pub canonical_name: String,
    pub action: RenameAction,
}

/// The rename planned for one music file, as plain values.
pub struct PlannedRenameView {
    pub file: usize,
    pub canonical_name: Seq<char>,
    pub action: Renaming,
}

impl View for PlannedRename {
    type V = PlannedRenameView;

    open spec fn view(&self) -> PlannedRenameView {
        PlannedRenameView {
            file: self.file,
            canonical_name: self.canonical_name@,
            action: self.action@,
        }
    }
}

/// What is to be done in one directory.
pub struct DirectoryPlan {
    /// Whether the renames and removals are to be carried out: not in a dry
    /// run, in which they are only reported.
    pub apply: bool,
    /// Whether all music files name one artist.
    pub same_artist: bool,
    /// The music files by disk, in the order in which they are renamed.
    pub groups: Vec<DiskGroup>,
    /// For each group, the renames of its files, in the group's order.
    pub renames: Vec<Vec<PlannedRename>>,
    /// The paths of the ordinary files to remove.
    pub removals: Vec<String>,
    /// The album that all music files name, if they name one.
    pub album_title: Option<String>,
    /// What is to be done about the directory's name, where it is to be
    /// renamed.
    pub directory_rename: Option<RenameAction>,
}

/// The rename of member `m` of `group`: its canonical name, with the track
/// number padded for the number of files in the group, and what is to be done
/// about its name.
pub open spec fn planned(
    files: Seq<MusicFile>,
    config: Config,
    same_artist: bool,
    disc_width: nat,
    group: DiskGroup,
    m: int,
) -> PlannedRenameView {
    let file = group.members@[m];
    let name = canonical(
        files[file as int].path@,
        files[file as int].music_metadata->0@,
        config,
        same_artist,
        disc_width,
        group.members@.len(),
    );
    PlannedRenameView {
        file,
        canonical_name: name,
        action: renaming(files[file as int].path@, config, name),
    }
}

/// Whether `renames` are the renames of the files of `group`, in its order.
pub open spec fn is_group_plan(
    renames: Seq<PlannedRename>,
    files: Seq<MusicFile>,
    config: Config,
    same_artist: bool,
    disc_width: nat,
    group: DiskGroup,
) -> bool {
    &&& renames.len() == group.members@.len()
    &&& forall|m: int|
        0 <= m < renames.len() ==> (#[trigger] renames[m])@ == planned(
            files,
            config,
            same_artist,
            disc_width,
            group,
            m,
        )
}

/// The paths of the ordinary files that are removed: all of them where the
/// configuration asks for it, else none.
pub open spec fn is_removals(
    removals: Seq<String>,
    ordinary_files: Seq<OrdinaryFile>,
    config: Config,
) -> bool {
    if config.remove_ordinary_files {
        &&& removals.len() == ordinary_files.len()
        &&& forall|i: int|
            0 <= i < removals.len() ==> (#[trigger] removals[i])@ == ordinary_files[i].path@
    } else {
        removals.len() == 0
    }
}

/// Whether `plan` is the plan for the directory `contents` under `config`.
pub open spec fn is_plan_of(
    plan: DirectoryPlan,
    contents: DirectoryContents,
    config: Config,
) -> bool {
    let files = contents.music_files@;
    &&& plan.apply == !config.dry_run
    &&& plan.same_artist == have_same_artist(files)
    &&& is_grouping(plan.groups@, files)
    &&& plan.renames@.len() == plan.groups@.len()
    &&& forall|g: int|
        0 <= g < plan.groups@.len() ==> is_group_plan(
            (#[trigger] plan.renames@[g])@,
            files,
            config,
            plan.same_artist,
            disc_width(plan.groups@),
            plan.groups@[g],
        )
    &&& is_removals(plan.removals@, contents.ordinary_files@, config)
    &&& text_of(plan.album_title) == common_album(files)
    &&& match plan.directory_rename {
        Some(action) => config.rename_directory && common_album(files) is Some && action@
            == renaming(contents.directory@, config, common_album(files)->0),
        None => !config.rename_directory || common_album(files) is None,
    }
}

/// The renames of the files of one group.
fn plan_group(
    music_files: &[MusicFile],
    group: &DiskGroup,
    config: &Config,
    same_artist: bool,
    disc_width: usize,
) -> (renames: Vec<PlannedRename>)
    requires
        forall|m: int|
            0 <= m < group.members@.len() ==> (#[trigger] group.members@[m]) < music_files@.len()
                && music_files@[group.members@[m] as int].music_metadata is Some,
    ensures
        is_group_plan(renames@, music_files@, *config, same_artist, disc_width as nat, *group),
{
    let mut renames: Vec<PlannedRename> = Vec::new();
    let mut m: usize = 0;
    while m < group.members.len()
        invariant
            m <= group.members@.len(),
            renames@.len() == m,
            forall|k: int|
                0 <= k < group.members@.len() ==> (#[trigger] group.members@[k])
                    < music_files@.len() && music_files@[group.members@[k] as int].music_metadata
                    is Some,
            forall|k: int|
                0 <= k < m ==> (#[trigger] renames@[k])@ == planned(
                    music_files@,
                    *config,
                    same_artist,
                    disc_width as nat,
                    *group,
                    k,
                ),
        decreases group.members@.len() - m,
    {
        let file: usize = group.members[m];
        assert(file == group.members@[m as int]);
        let music_file = &music_files[file];
        let canonical_name = music_file.canonical_name(
            config,
            same_artist,
            disc_width,
            group.members.len(),
        ).unwrap();
        let action = rename_file_or_directory(
            music_file.path.as_str(),
            config,
            canonical_name.as_str(),
        );
        renames.push(PlannedRename { file, canonical_name, action });
        m += 1;
    }
    renames
}

/// Plans what is to be done in one directory: the renames of its music
/// files, disk by disk; the removal of its ordinary files, where asked for;
/// and the rename of the directory to the album title, where asked for and
/// the music files name one album. Nothing is touched; in a dry run the plan
/// says that nothing shall be.
pub fn handle_directory(contents: &DirectoryContents, config: &Config) -> (plan: DirectoryPlan)
    ensures
        is_plan_of(plan, *contents, *config),
{
    let music_files = contents.music_files.as_slice();
    let count: usize = music_files.len();
    let same_artist = same_artists(music_files);
    let groups = group_by_disk(music_files);
    let width = disc_number_width(&groups);

    // rename music files
    let mut renames: Vec<Vec<PlannedRename>> = Vec::new();
    let mut g: usize = 0;
    while g < groups.len()
        invariant
            g <= groups@.len(),
            renames@.len() == g,
            music_files@ == contents.music_files@,
            music_files@.len() == count,
            is_grouping(groups@, music_files@),
            width == disc_width(groups@),
            forall|h: int|
                0 <= h < g ==> is_group_plan(
                    (#[trigger] renames@[h])@,
                    music_files@,
                    *config,
                    same_artist,
                    width as nat,
                    groups@[h],
                ),
        decreases groups@.len() - g,
    {
        proof {
            lemma_members_are_on_disk(music_files@, groups@[g as int].disk_number);
        }
        let group_renames = plan_group(music_files, &groups[g], config, same_artist, width);
        renames.push(group_renames);
        g += 1;
    }

    // remove ordinary files
    let mut removals: Vec<String> = Vec::new();
    if config.remove_ordinary_files {
        let mut i: usize = 0;
        while i < contents.ordinary_files.len()
            invariant
                i <= contents.ordinary_files@.len(),
                removals@.len() == i,
                forall|k: int|
                    0 <= k < i ==> (#[trigger] removals@[k])@ == contents.ordinary_files@[k].path@,
            decreases contents.ordinary_files@.len() - i,
        {
            removals.push(contents.ordinary_files[i].path.clone());
            i += 1;
        }
    }

    // rename the directory
    let (album_title, directory_rename) = match same_album_title(music_files) {
        None => (None, None),
        Some(title) => {
            let action = if config.rename_directory {
                Some(rename_file_or_directory(contents.directory.as_str(), config, title.as_str()))
            } else {
                None
            };
            (Some(title.clone()), action)
        },
    };
    DirectoryPlan {
        apply: !config.dry_run,
        same_artist,
        groups,
        renames,
        removals,
        album_title,
        directory_rename,
    }
}

} // verus!
