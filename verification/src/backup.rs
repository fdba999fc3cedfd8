//! The snapshot engine's planning step.
//!
//! A snapshot materializes one file-list line into a new timestamp-named
//! record directory under `backup_folder/world_name` and prunes the oldest
//! pre-existing records beyond the retention count.  Everything the engine
//! decides — the directory names, each file's source, destination and
//! authoritative size, and which old records to delete — is computed here;
//! the caller performs the file operations.
use crate::chars::join;
use crate::chars::joined;
use crate::chars::sub_chars;
use crate::file_list::all_fit;
use crate::file_list::digits_val;
use crate::file_list::entries_match;
use crate::file_list::parse_file_list;
use crate::file_list::scan;
use crate::file_list::FileEntry;
use crate::file_list::Token;
use crate::record_name::format_name;
use crate::record_name::name_of;
use crate::record_name::Timestamp;
use crate::retention::plan_prune;
use crate::retention::prune_plan;
use crate::BackupError;
use vstd::prelude::*;

verus! {

/// The snapshot engine: where backups live, where the live world's files
/// come from, and how many records to retain per world.
pub struct Backuper {
    pub backup_folder: Vec<char>,
    pub origin_folder: Vec<char>,
    pub backup_count: usize,
}

/// One planned file copy: read all of `source`, write it to `dest`, then
/// set the destination's length to exactly `size`.
#[derive(Debug)]
pub struct CopyItem {
    pub source: Vec<char>,
    pub dest: Vec<char>,
    pub size: u64,
}

/// One planned snapshot, ready to execute.
#[derive(Debug)]
pub struct BackupPlan {
    /// The world's directory under the backup root; created if absent.
    pub world_dir: Vec<char>,
    /// The new record directory; its prior existence is fatal.
    pub record_dir: Vec<char>,
    /// One copy per file entry, in file-list order.
    pub copies: Vec<CopyItem>,
    /// Old records to delete, oldest first, as full paths.
    pub deletes: Vec<Vec<char>>,
}

/// First position of a path separator, or the end.
pub open spec fn sep_end(l: Seq<char>, i: int) -> int
    decreases l.len() - i,
    when 0 <= i <= l.len()
{
    if i == l.len() || l[i] == '/' {
        i
    } else {
        sep_end(l, i + 1)
    }
}

proof fn lemma_sep_end_is(l: Seq<char>, i: int, e: int)
    requires
        0 <= i <= e <= l.len(),
        forall|k: int| i <= k < e ==> l[k] != '/',
        e == l.len() || l[e] == '/',
    ensures
        sep_end(l, i) == e,
    decreases e - i,
{
    if i < e {
        lemma_sep_end_is(l, i + 1, e);
    }
}

/// The world name of a file-list line: everything before the first slash,
/// or the whole line when it has none.
pub open spec fn world_name_spec(l: Seq<char>) -> Seq<char> {
    l.subrange(0, sep_end(l, 0))
}

/// Extracts the world name from a file-list line.
pub fn world_name_of(l: &Vec<char>) -> (r: Vec<char>)
    ensures
        r@ == world_name_spec(l@),
{
    let n = l.len();
    let mut i: usize = 0;
    while i < n && l[i] != '/'
        invariant
            n == l@.len(),
            i <= n,
            forall|k: int| 0 <= k < i ==> l@[k] != '/',
        decreases n - i,
    {
        i += 1;
    }
    proof {
        lemma_sep_end_is(l@, 0, i as int);
    }
    sub_chars(l, 0, i)
}

/// The copies carry out exactly the scanned file list: one item per token,
/// source under the origin, destination under the new record, and the
/// token's size as the authoritative length.
pub open spec fn copies_match(
    copies: Seq<CopyItem>,
    toks: Seq<Token>,
    origin: Seq<char>,
    record_dir: Seq<char>,
) -> bool {
    &&& copies.len() == toks.len()
    &&& forall|i: int|
        0 <= i < toks.len() ==> (#[trigger] copies[i]).source@ == joined(origin, toks[i].path)
            && copies[i].dest@ == joined(record_dir, toks[i].path) && copies[i].size == digits_val(
            toks[i].digits,
        )
}

impl Backuper {
    pub fn new(backup_folder: Vec<char>, origin_folder: Vec<char>, backup_count: usize) -> (b:
        Backuper)
        ensures
            b.backup_folder@ == backup_folder@,
            b.origin_folder@ == origin_folder@,
            b.backup_count == backup_count,
    {
        Backuper { backup_folder, origin_folder, backup_count }
    }

    /// Parses one file-list line into entries, in token order; a size that
    /// overflows 64 bits is a protocol violation.
    pub fn parse_backup_files(&self, line: &Vec<char>) -> (r: Result<Vec<FileEntry>, BackupError>)
        ensures
            match r {
                Ok(v) => all_fit(scan(line@, 0)) && entries_match(v@, scan(line@, 0)),
                Err(e) => e == BackupError::ProtocolViolation && !all_fit(scan(line@, 0)),
            },
    {
        parse_file_list(line)
    }

    /// Plans one snapshot of the world named by the file-list line, taken
    /// at time `now`, with `existing` the directory names currently under
    /// the world's backup directory.  Succeeds exactly when the file list
    /// is well formed and no existing directory already bears the new
    /// record's name: two snapshots within the naming resolution must not
    /// silently merge, and a deletion must never target the new record.
    pub fn plan_backup(&self, line: &Vec<char>, now: &Timestamp, existing: &Vec<Vec<char>>) -> (r:
        Result<BackupPlan, BackupError>)
        requires
            now.wf(),
        ensures
            match r {
                Ok(p) => {
                    &&& all_fit(scan(line@, 0))
                    &&& !existing@.map_values(|n: Vec<char>| n@).contains(name_of(*now))
                    &&& p.world_dir@ == joined(self.backup_folder@, world_name_spec(line@))
                    &&& p.record_dir@ == joined(p.world_dir@, name_of(*now))
                    &&& copies_match(p.copies@, scan(line@, 0), self.origin_folder@, p.record_dir@)
                    &&& p.deletes@.map_values(|n: Vec<char>| n@) == prune_plan(
                        existing@.map_values(|n: Vec<char>| n@),
                        self.backup_count as int,
                    ).map_values(|n: Seq<char>| joined(p.world_dir@, n))
                    &&& forall|i: int|
                        0 <= i < p.deletes@.len() ==> (#[trigger] p.deletes@[i])@ != p.record_dir@
                },
                Err(e) => (e == BackupError::ProtocolViolation && !all_fit(scan(line@, 0))) || (e
                    == BackupError::FilesystemError && all_fit(scan(line@, 0))
                    && existing@.map_values(|n: Vec<char>| n@).contains(name_of(*now))),
            },
    {
        let entries = match parse_file_list(line) {
            Ok(v) => v,
            Err(e) => {
                return Err(e);
            },
        };
        let world = world_name_of(line);
        let world_dir = join(&self.backup_folder, &world);
        let rec_name = format_name(now);
        let ghost ex_names = existing@.map_values(|n: Vec<char>| n@);
        let mut c: usize = 0;
        while c < existing.len()
            invariant
                c <= existing@.len(),
                all_fit(scan(line@, 0)),
                rec_name@ == name_of(*now),
                ex_names == existing@.map_values(|n: Vec<char>| n@),
                forall|j: int| 0 <= j < c ==> #[trigger] ex_names[j] != name_of(*now),
            decreases existing@.len() - c,
        {
            if crate::chars::eq_chars(&existing[c], &rec_name) {
                proof {
                    assert(ex_names[c as int] == name_of(*now));
                    assert(ex_names.contains(name_of(*now)));
                }
                return Err(BackupError::FilesystemError);
            }
            c += 1;
        }
        proof {
            assert(!ex_names.contains(name_of(*now))) by {
                if ex_names.contains(name_of(*now)) {
                    let j = choose|j: int|
                        0 <= j < ex_names.len() && ex_names[j] == name_of(*now);
                    assert(ex_names[j] != name_of(*now));
                }
            }
        }
        let record_dir = join(&world_dir, &rec_name);
        let ghost toks = scan(line@, 0);
        let mut copies: Vec<CopyItem> = Vec::new();
        let mut i: usize = 0;
        while i < entries.len()
            invariant
                i <= entries@.len(),
                entries_match(entries@, toks),
                copies@.len() == i,
                forall|j: int|
                    0 <= j < i ==> (#[trigger] copies@[j]).source@ == joined(
                        self.origin_folder@,
                        toks[j].path,
                    ) && copies@[j].dest@ == joined(record_dir@, toks[j].path)
                        && copies@[j].size == digits_val(toks[j].digits),
            decreases entries@.len() - i,
        {
            let source = join(&self.origin_folder, &entries[i].path);
            let dest = join(&record_dir, &entries[i].path);
            copies.push(CopyItem { source, dest, size: entries[i].size });
            i += 1;
        }
        let names = plan_prune(existing, self.backup_count);
        let mut deletes: Vec<Vec<char>> = Vec::new();
        let mut d: usize = 0;
        while d < names.len()
            invariant
                d <= names@.len(),
                deletes@.len() == d,
                forall|j: int|
                    0 <= j < d ==> (#[trigger] deletes@[j])@ == joined(world_dir@, names@[j]@),
            decreases names@.len() - d,
        {
            deletes.push(join(&world_dir, &names[d]));
            d += 1;
        }
        let plan = BackupPlan { world_dir, record_dir, copies, deletes };
        proof {
            let pruned = prune_plan(
                existing@.map_values(|n: Vec<char>| n@),
                self.backup_count as int,
            );
            assert(names@.map_values(|n: Vec<char>| n@).len() == names@.len());
            let lhs = plan.deletes@.map_values(|n: Vec<char>| n@);
            let rhs = pruned.map_values(|n: Seq<char>| joined(plan.world_dir@, n));
            assert forall|j: int| 0 <= j < names@.len() implies #[trigger] lhs[j] == rhs[j] by {
                assert(names@.map_values(|n: Vec<char>| n@)[j] == names@[j]@);
                assert(pruned[j] == names@[j]@);
                assert(lhs[j] == plan.deletes@[j]@);
                assert(rhs[j] == joined(plan.world_dir@, pruned[j]));
            }
            assert(lhs =~= rhs);
            // No planned deletion targets the new record: a deleted name is
            // one of the existing names, none of which is the new name.
            crate::retention::lemma_prune_plan_from(ex_names, self.backup_count as int);
            assert forall|i: int|
                0 <= i < plan.deletes@.len() implies (#[trigger] plan.deletes@[i])@
                != plan.record_dir@ by {
                assert(plan.deletes@[i]@ == joined(plan.world_dir@, pruned[i]));
                assert(ex_names.contains(pruned[i]));
                if plan.deletes@[i]@ == plan.record_dir@ {
                    crate::chars::lemma_joined_cancel(plan.world_dir@, pruned[i], name_of(*now));
                }
            }
        }
        Ok(plan)
    }
}

} // verus!
