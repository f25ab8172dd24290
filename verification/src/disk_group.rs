//! The music files of a directory by disk: one group for each disk number,
//! and one for the files without.

use crate::music_file::MusicFile;
use crate::text::{decimal, decimal_digits};
use vstd::prelude::*;

verus! {

/// The music files of one disk: the files that share a disk number, or that
/// all have none.
pub struct DiskGroup {
    pub disk_number: Option<u16>,
    /// The places of the group's files in the directory's list of music files,
    /// ascending.
    pub members: Vec<usize>,
}

/// Whether `file` has metadata with disk number `disk`.
pub open spec fn on_disk(file: MusicFile, disk: Option<u16>) -> bool {
    file.music_metadata is Some && file.music_metadata->0.disk_number == disk
}

/// The places of the files on disk `disk`, ascending.
pub open spec fn members_of(files: Seq<MusicFile>, disk: Option<u16>) -> Seq<usize>
    decreases files.len(),
{
    if files.len() == 0 {
        Seq::empty()
    } else {
        let rest = members_of(files.drop_last(), disk);
        if on_disk(files.last(), disk) {
            rest.push((files.len() - 1) as usize)
        } else {
            rest
        }
    }
}

/// The place of a disk among the groups: the numbered disks ascending, the
/// files without disk number behind them.
pub open spec fn group_rank(disk: Option<u16>) -> int {
    match disk {
        Some(d) => d + 0,
        None => 65536,
    }
}

/// The disk with place `r` among the groups.
pub open spec fn disk_of_rank(r: u32) -> Option<u16> {
    if r >= 65536 {
        None
    } else {
        Some(r as u16)
    }
}

/// Whether one of `groups` is for disk `disk`.
pub open spec fn has_group(groups: Seq<DiskGroup>, disk: Option<u16>) -> bool {
    exists|g: int| 0 <= g < groups.len() && (#[trigger] groups[g]).disk_number == disk
}

/// Whether `groups` are the disk groups of `files`: each holds the places of
/// all files on its disk and is not empty; they come in the order of their
/// disks; and every disk that a file is on has its group.
pub open spec fn is_grouping(groups: Seq<DiskGroup>, files: Seq<MusicFile>) -> bool {
    &&& forall|g: int|
        0 <= g < groups.len() ==> (#[trigger] groups[g]).members@ == members_of(
            files,
            groups[g].disk_number,
        ) && groups[g].members@.len() > 0
    &&& forall|g: int, h: int|
        0 <= g < h < groups.len() ==> group_rank((#[trigger] groups[g]).disk_number) < group_rank(
            (#[trigger] groups[h]).disk_number,
        )
    &&& forall|disk: Option<u16>|
        (#[trigger] members_of(files, disk)).len() > 0 ==> has_group(groups, disk)
}

/// Every member of a disk is the place of a file on that disk.
pub proof fn lemma_members_are_on_disk(files: Seq<MusicFile>, disk: Option<u16>)
    requires
        files.len() <= usize::MAX,
    ensures
        forall|m: int|
            0 <= m < members_of(files, disk).len() ==> (#[trigger] members_of(files, disk)[m])
                < files.len() && on_disk(files[members_of(files, disk)[m] as int], disk),
    decreases files.len(),
{
    if files.len() > 0 {
        let front = files.drop_last();
        lemma_members_are_on_disk(front, disk);
        assert forall|m: int| 0 <= m < members_of(files, disk).len() implies (
        #[trigger] members_of(files, disk)[m]) < files.len() && on_disk(
            files[members_of(files, disk)[m] as int],
            disk,
        ) by {
            if m < members_of(front, disk).len() {
                let i = members_of(front, disk)[m];
                assert(members_of(files, disk)[m] == i);
                assert(files[i as int] == front[i as int]);
            }
        }
    }
}

/// The largest disk number among the groups; none where no group has one.
pub open spec fn largest_disk(groups: Seq<DiskGroup>) -> Option<u16>
    decreases groups.len(),
{
    if groups.len() == 0 {
        None
    } else {
        let rest = largest_disk(groups.drop_last());
        match (groups.last().disk_number, rest) {
            (Some(d), Some(m)) => if d > m {
                Some(d)
            } else {
                rest
            },
            (Some(d), None) => Some(d),
            (None, _) => rest,
        }
    }
}

/// The number of digits that disk numbers are padded to: those of the largest
/// disk number among the groups; 0 where no group has a disk number.
pub open spec fn disc_width(groups: Seq<DiskGroup>) -> nat {
    match largest_disk(groups) {
        Some(m) => decimal(m as nat).len(),
        None => 0,
    }
}

/// The largest disk number is the disk number of a group and no group has a
/// larger one; there is none only where no group has a disk number.
pub proof fn lemma_largest_disk(groups: Seq<DiskGroup>)
    ensures
        match largest_disk(groups) {
            Some(m) => has_group(groups, Some(m)) && forall|g: int|
                0 <= g < groups.len() ==> match (#[trigger] groups[g]).disk_number {
                    Some(d) => d <= m,
                    None => true,
                },
            None => forall|g: int|
                0 <= g < groups.len() ==> (#[trigger] groups[g]).disk_number is None,
        },
    decreases groups.len(),
{
    if groups.len() > 0 {
        let front = groups.drop_last();
        lemma_largest_disk(front);
        let last = groups.len() - 1;
        assert forall|g: int| 0 <= g < last implies #[trigger] groups[g] == front[g] by {}
        match largest_disk(groups) {
            Some(m) => {
                if groups.last().disk_number == Some(m) {
                    assert(groups[last].disk_number == Some(m));
                } else {
                    let g = choose|g: int|
                        0 <= g < front.len() && (#[trigger] front[g]).disk_number == Some(m);
                    assert(groups[g].disk_number == Some(m));
                }
                assert forall|g: int| 0 <= g < groups.len() implies match (
                #[trigger] groups[g]).disk_number {
                    Some(d) => d <= m,
                    None => true,
                } by {
                    if g < last {
                        assert(groups[g] == front[g]);
                    }
                }
            },
            None => {
                assert forall|g: int| 0 <= g < groups.len() implies (
                #[trigger] groups[g]).disk_number is None by {
                    if g < last {
                        assert(groups[g] == front[g]);
                    }
                }
            },
        }
    }
}

/// Whether a group has a disk number, and the largest of the disk numbers, 0
/// where no group has one.
fn scan_disk_numbers(groups: &Vec<DiskGroup>) -> (res: (bool, u16))
    ensures
        match largest_disk(groups@) {
            Some(m) => res.0 && res.1 == m,
            None => !res.0 && res.1 == 0,
        },
{
    let mut numbered = false;
    let mut largest: u16 = 0;
    let mut g: usize = 0;
    assert(groups@.take(0) =~= Seq::<DiskGroup>::empty());
    while g < groups.len()
        invariant
            g <= groups@.len(),
            match largest_disk(groups@.take(g as int)) {
                Some(m) => numbered && largest == m,
                None => !numbered && largest == 0,
            },
        decreases groups@.len() - g,
    {
        assert(groups@.take(g + 1).drop_last() =~= groups@.take(g as int));
        assert(groups@.take(g + 1).last() == groups@[g as int]);
        if let Some(disk_number) = groups[g].disk_number {
            if !numbered || disk_number > largest {
                largest = disk_number;
            }
            numbered = true;
        }
        g += 1;
    }
    assert(groups@.take(g as int) =~= groups@);
    (numbered, largest)
}

/// The number of digits that the disk numbers of a directory are padded to.
pub fn disc_number_width(groups: &Vec<DiskGroup>) -> (width: usize)
    ensures
        width == disc_width(groups@),
{
    let (numbered, largest) = scan_disk_numbers(groups);
    if numbered {
        decimal_digits(largest as u64).len()
    } else {
        0
    }
}

/// The largest disk number above 0 among the groups, if there is one.
pub fn largest_disc_number(groups: &Vec<DiskGroup>) -> (res: Option<u16>)
    ensures
        res == match largest_disk(groups@) {
            Some(m) => if m > 0 {
                Some(m)
            } else {
                None
            },
            None => None,
        },
{
    let (_, largest) = scan_disk_numbers(groups);
    if largest > 0 {
        return Some(largest);
    }
    None
}

/// Whether `r` is among `ranks`.
spec fn has_rank(ranks: Seq<u32>, r: int) -> bool {
    exists|a: int| 0 <= a < ranks.len() && #[trigger] ranks[a] == r
}

/// Whether `ranks` ascend.
spec fn ascending(ranks: Seq<u32>) -> bool {
    forall|a: int, b: int| 0 <= a < b < ranks.len() ==> #[trigger] ranks[a] < #[trigger] ranks[b]
}

/// Whether each of `ranks` is the place of a disk that one of the first `n`
/// files is on.
spec fn all_present(ranks: Seq<u32>, files: Seq<MusicFile>, n: int) -> bool {
    forall|a: int|
        0 <= a < ranks.len() ==> #[trigger] ranks[a] <= 65536 && members_of(
            files.take(n),
            disk_of_rank(ranks[a]),
        ).len() > 0
}

/// Whether the place of every disk that one of the first `n` files is on is
/// among `ranks`.
spec fn all_covered(ranks: Seq<u32>, files: Seq<MusicFile>, n: int) -> bool {
    forall|disk: Option<u16>|
        (#[trigger] members_of(files.take(n), disk)).len() > 0 ==> has_rank(
            ranks,
            group_rank(disk),
        )
}

/// Whether `ranks` are the places of the disks that one of the first `n`
/// files is on, ascending.
spec fn ranks_cover(ranks: Seq<u32>, files: Seq<MusicFile>, n: int) -> bool {
    &&& ascending(ranks)
    &&& all_present(ranks, files, n)
    &&& all_covered(ranks, files, n)
}

/// One more file adds its place to the members of its disk and to no other.
proof fn lemma_members_step(files: Seq<MusicFile>, n: int, disk: Option<u16>)
    requires
        0 <= n < files.len(),
    ensures
        members_of(files.take(n + 1), disk) == if on_disk(files[n], disk) {
            members_of(files.take(n), disk).push(n as usize)
        } else {
            members_of(files.take(n), disk)
        },
{
    assert(files.take(n + 1).drop_last() =~= files.take(n));
    assert(files.take(n + 1).last() == files[n]);
}

/// A file that is on no disk leaves the ranks as they are.
proof fn lemma_ranks_skip(ranks: Seq<u32>, files: Seq<MusicFile>, n: int)
    requires
        0 <= n < files.len(),
        ranks_cover(ranks, files, n),
        files[n].music_metadata is None,
    ensures
        ranks_cover(ranks, files, n + 1),
{
    assert forall|a: int| 0 <= a < ranks.len() implies #[trigger] ranks[a] <= 65536 && members_of(
        files.take(n + 1),
        disk_of_rank(ranks[a]),
    ).len() > 0 by {
        lemma_members_step(files, n, disk_of_rank(ranks[a]));
    }
    assert forall|disk: Option<u16>|
        (#[trigger] members_of(files.take(n + 1), disk)).len() > 0 implies has_rank(
        ranks,
        group_rank(disk),
    ) by {
        lemma_members_step(files, n, disk);
        assert(members_of(files.take(n), disk).len() > 0);
    }
}

/// A file on a disk whose rank is known leaves the ranks as they are.
proof fn lemma_ranks_known(ranks: Seq<u32>, files: Seq<MusicFile>, n: int, p: int)
    requires
        0 <= n < files.len(),
        ranks_cover(ranks, files, n),
        files[n].music_metadata is Some,
        0 <= p < ranks.len(),
        ranks[p] == group_rank(files[n].music_metadata->0.disk_number),
    ensures
        ranks_cover(ranks, files, n + 1),
{
    let own = files[n].music_metadata->0.disk_number;
    assert forall|a: int| 0 <= a < ranks.len() implies #[trigger] ranks[a] <= 65536 && members_of(
        files.take(n + 1),
        disk_of_rank(ranks[a]),
    ).len() > 0 by {
        lemma_members_step(files, n, disk_of_rank(ranks[a]));
    }
    assert forall|disk: Option<u16>|
        (#[trigger] members_of(files.take(n + 1), disk)).len() > 0 implies has_rank(
        ranks,
        group_rank(disk),
    ) by {
        lemma_members_step(files, n, disk);
        if disk == own {
            assert(ranks[p] == group_rank(disk));
        } else {
            assert(members_of(files.take(n), disk).len() > 0);
        }
    }
}

/// A rank put between the lower and the higher ranks keeps them ascending.
proof fn lemma_insert_ascending(ranks: Seq<u32>, p: int, r: u32)
    requires
        ascending(ranks),
        0 <= p <= ranks.len(),
        forall|k: int| 0 <= k < p ==> #[trigger] ranks[k] < r,
        p < ranks.len() ==> ranks[p] > r,
    ensures
        ascending(ranks.insert(p, r)),
{
    let ins = ranks.insert(p, r);
    ranks.insert_ensures(p, r);
    assert forall|a: int, b: int| 0 <= a < b < ins.len() implies #[trigger] ins[a]
        < #[trigger] ins[b] by {
        if a < p {
            assert(ins[a] == ranks[a]);
        } else if a > p {
            assert(ins[a] == ranks[a - 1]);
        }
        if b < p {
            assert(ins[b] == ranks[b]);
        } else if b > p {
            assert(ins[b] == ranks[b - 1]);
            if a == p && b - 1 > p {
                assert(ranks[p] < ranks[b - 1]);
            }
        }
    }
}

/// With the rank of the next file's disk put in, every rank is that of a
/// disk that a file is on.
proof fn lemma_insert_present(ranks: Seq<u32>, files: Seq<MusicFile>, n: int, p: int, r: u32)
    requires
        0 <= n < files.len(),
        all_present(ranks, files, n),
        files[n].music_metadata is Some,
        r == group_rank(files[n].music_metadata->0.disk_number),
        0 <= p <= ranks.len(),
    ensures
        all_present(ranks.insert(p, r), files, n + 1),
{
    let ins = ranks.insert(p, r);
    ranks.insert_ensures(p, r);
    assert forall|a: int| 0 <= a < ins.len() implies #[trigger] ins[a] <= 65536 && members_of(
        files.take(n + 1),
        disk_of_rank(ins[a]),
    ).len() > 0 by {
        lemma_members_step(files, n, disk_of_rank(ins[a]));
        if a < p {
            assert(ins[a] == ranks[a]);
        } else if a > p {
            assert(ins[a] == ranks[a - 1]);
        } else {
            assert(disk_of_rank(r) == files[n].music_metadata->0.disk_number);
        }
    }
}

/// With the rank of the next file's disk put in, the rank of every disk that
/// a file is on is there.
proof fn lemma_insert_covered(ranks: Seq<u32>, files: Seq<MusicFile>, n: int, p: int, r: u32)
    requires
        0 <= n < files.len(),
        all_covered(ranks, files, n),
        files[n].music_metadata is Some,
        r == group_rank(files[n].music_metadata->0.disk_number),
        0 <= p <= ranks.len(),
    ensures
        all_covered(ranks.insert(p, r), files, n + 1),
{
    let own = files[n].music_metadata->0.disk_number;
    let ins = ranks.insert(p, r);
    ranks.insert_ensures(p, r);
    assert forall|disk: Option<u16>|
        (#[trigger] members_of(files.take(n + 1), disk)).len() > 0 implies has_rank(
        ins,
        group_rank(disk),
    ) by {
        lemma_members_step(files, n, disk);
        if disk == own {
            assert(ins[p] == group_rank(disk));
        } else {
            assert(members_of(files.take(n), disk).len() > 0);
            let a = choose|a: int| 0 <= a < ranks.len() && #[trigger] ranks[a] == group_rank(disk);
            if a < p {
                assert(ins[a] == ranks[a]);
            } else {
                assert(ins[a + 1] == ranks[a]);
            }
        }
    }
}

/// A file on a disk whose rank is new has that rank put in its place.
proof fn lemma_ranks_new(ranks: Seq<u32>, files: Seq<MusicFile>, n: int, p: int, r: u32)
    requires
        0 <= n < files.len(),
        ranks_cover(ranks, files, n),
        files[n].music_metadata is Some,
        r == group_rank(files[n].music_metadata->0.disk_number),
        0 <= p <= ranks.len(),
        forall|k: int| 0 <= k < p ==> #[trigger] ranks[k] < r,
        p < ranks.len() ==> ranks[p] > r,
    ensures
        ranks_cover(ranks.insert(p, r), files, n + 1),
{
    lemma_insert_ascending(ranks, p, r);
    lemma_insert_present(ranks, files, n, p, r);
    lemma_insert_covered(ranks, files, n, p, r);
}

/// The places of the disks that a file is on, ascending.
fn disk_ranks(music_files: &[MusicFile]) -> (ranks: Vec<u32>)
    ensures
        ranks_cover(ranks@, music_files@, music_files@.len() as int),
{
    let mut ranks: Vec<u32> = Vec::new();
    let mut i: usize = 0;
    assert(music_files@.take(0) =~= Seq::<MusicFile>::empty());
    while i < music_files.len()
        invariant
            i <= music_files@.len(),
            ranks_cover(ranks@, music_files@, i as int),
        decreases music_files@.len() - i,
    {
        match &music_files[i].music_metadata {
            None => {
                proof {
                    lemma_ranks_skip(ranks@, music_files@, i as int);
                }
            },
            Some(metadata) => {
                let r: u32 = match metadata.disk_number {
                    Some(d) => d as u32,
                    None => 65536,
                };
                let mut p: usize = 0;
                while p < ranks.len() && ranks[p] < r
                    invariant
                        p <= ranks@.len(),
                        forall|k: int| 0 <= k < p ==> #[trigger] ranks@[k] < r,
                    decreases ranks@.len() - p,
                {
                    p += 1;
                }
                if p < ranks.len() && ranks[p] == r {
                    proof {
                        lemma_ranks_known(ranks@, music_files@, i as int, p as int);
                    }
                } else {
                    proof {
                        lemma_ranks_new(ranks@, music_files@, i as int, p as int, r);
                    }
                    ranks.insert(p, r);
                }
            },
        }
        i += 1;
    }
    ranks
}

/// The places of the files on disk `disk`, ascending.
fn collect_members(music_files: &[MusicFile], disk: Option<u16>) -> (members: Vec<usize>)
    ensures
        members@ == members_of(music_files@, disk),
{
    let mut members: Vec<usize> = Vec::new();
    let mut i: usize = 0;
    assert(music_files@.take(0) =~= Seq::<MusicFile>::empty());
    while i < music_files.len()
        invariant
            i <= music_files@.len(),
            members@ == members_of(music_files@.take(i as int), disk),
        decreases music_files@.len() - i,
    {
        proof {
            lemma_members_step(music_files@, i as int, disk);
        }
        if let Some(metadata) = &music_files[i].music_metadata {
            let same = match (metadata.disk_number, disk) {
                (None, None) => true,
                (Some(a), Some(b)) => a == b,
                _ => false,
            };
            if same {
                members.push(i);
            }
        }
        i += 1;
    }
    assert(music_files@.take(i as int) =~= music_files@);
    members
}

/// Groups the music files by disk number. The files without disk number
/// form a group of their own, which comes last; files without metadata are
/// in no group.
pub fn group_by_disk(music_files: &[MusicFile]) -> (groups: Vec<DiskGroup>)
    ensures
        is_grouping(groups@, music_files@),
{
    let ranks = disk_ranks(music_files);
    assert(music_files@.take(music_files@.len() as int) =~= music_files@);
    let mut groups: Vec<DiskGroup> = Vec::new();
    let mut a: usize = 0;
    while a < ranks.len()
        invariant
            a <= ranks@.len(),
            groups@.len() == a,
            ranks_cover(ranks@, music_files@, music_files@.len() as int),
            music_files@.take(music_files@.len() as int) == music_files@,
            forall|g: int|
                0 <= g < a ==> (#[trigger] groups@[g]).disk_number == disk_of_rank(ranks@[g])
                    && groups@[g].members@ == members_of(music_files@, groups@[g].disk_number),
        decreases ranks@.len() - a,
    {
        let r: u32 = ranks[a];
        let disk_number: Option<u16> = if r >= 65536 {
            None
        } else {
            Some(r as u16)
        };
        let members = collect_members(music_files, disk_number);
        groups.push(DiskGroup { disk_number, members });
        a += 1;
    }
    proof {
        assert forall|disk: Option<u16>|
            (#[trigger] members_of(music_files@, disk)).len() > 0 implies has_group(
            groups@,
            disk,
        ) by {
            let a = choose|a: int|
                0 <= a < ranks@.len() && #[trigger] ranks@[a] == group_rank(disk);
            assert(groups@[a].disk_number == disk);
        }
    }
    groups
}

} // verus!
