//! The integrity report of the index.
use vstd::prelude::*;
use vstd::string::StringExecFns;
use crate::text::{dec, int_dec, push_dec, push_str};

verus! {

/// What was found on disk for one indexed path.
#[derive(Clone, Copy, PartialEq, Eq, Debug)]
pub enum FileStatus {
    /// The file exists and opens.
    Readable,
    /// Nothing is at the path.
    Missing,
    /// A symbolic link whose target is gone.
    BrokenSymlink,
    /// The file exists but does not open.
    Unreadable,
}

/// How an indexed path is classified from what the file system says about it: nothing
/// there (`is_symlink` is `None`) is missing; a symbolic link is broken when its target is
/// gone; any other file is unreadable when it does not open; the rest is readable.
pub open spec fn file_status_of(is_symlink: Option<bool>, target_exists: bool, opens: bool) -> FileStatus {
    match is_symlink {
        None => FileStatus::Missing,
        Some(true) => if target_exists {
            FileStatus::Readable
        } else {
            FileStatus::BrokenSymlink
        },
        Some(false) => if opens {
            FileStatus::Readable
        } else {
            FileStatus::Unreadable
        },
    }
}

/// Classifies an indexed path (see `file_status_of`).
pub fn classify_file(is_symlink: Option<bool>, target_exists: bool, opens: bool) -> (r: FileStatus)
    ensures
        r == file_status_of(is_symlink, target_exists, opens),
{
    match is_symlink {
        None => FileStatus::Missing,
        Some(true) => if target_exists {
            FileStatus::Readable
        } else {
            FileStatus::BrokenSymlink
        },
        Some(false) => if opens {
            FileStatus::Readable
        } else {
            FileStatus::Unreadable
        },
    }
}

/// How many statuses are `s`.
pub open spec fn status_count(statuses: Seq<FileStatus>, s: FileStatus) -> nat
    decreases statuses.len(),
{
    if statuses.len() == 0 {
        0
    } else {
        status_count(statuses.drop_last(), s) + if statuses.last() == s {
            1nat
        } else {
            0nat
        }
    }
}

/// The result of checking the index.
#[derive(Clone, PartialEq, Eq, Debug)]
pub struct VerifyReport {
    pub db_readable: bool,
    pub integrity_ok: bool,
    pub total_entries: u64,
    pub existing_files: u64,
    pub missing_files: u64,
    pub unreadable_files: u64,
    pub broken_symlinks: u64,
    pub duplicate_db_entries: i64,
    pub pass: bool,
}

proof fn lemma_status_counts(statuses: Seq<FileStatus>)
    ensures
        status_count(statuses, FileStatus::Missing) + status_count(statuses, FileStatus::BrokenSymlink)
            + status_count(statuses, FileStatus::Unreadable) + status_count(statuses, FileStatus::Readable)
            == statuses.len(),
    decreases statuses.len(),
{
    if statuses.len() > 0 {
        lemma_status_counts(statuses.drop_last());
    }
}

/// Sums up a check: counts of missing, unreadable and broken files among the entries, the
/// rows that repeat a path, and whether the check passes (store readable, integrity fine, no
/// repeated path). Files that exist are those not missing.
pub fn summarize_verify(
    db_readable: bool,
    integrity_ok: bool,
    statuses: &Vec<FileStatus>,
    total_rows: i64,
    distinct_paths: i64,
) -> (r: VerifyReport)
    requires
        i64::MIN <= total_rows - distinct_paths <= i64::MAX,
    ensures
        r.db_readable == db_readable,
        r.integrity_ok == integrity_ok,
        r.total_entries == statuses@.len(),
        r.missing_files == status_count(statuses@, FileStatus::Missing),
        r.existing_files == statuses@.len() - status_count(statuses@, FileStatus::Missing),
        r.unreadable_files == status_count(statuses@, FileStatus::Unreadable),
        r.broken_symlinks == status_count(statuses@, FileStatus::BrokenSymlink),
        r.duplicate_db_entries == total_rows - distinct_paths,
        r.pass == (db_readable && integrity_ok && total_rows == distinct_paths),
{
    let mut missing: u64 = 0;
    let mut unreadable: u64 = 0;
    let mut broken: u64 = 0;
    let mut i: usize = 0;
    while i < statuses.len()
        invariant
            i <= statuses@.len(),
            missing == status_count(statuses@.take(i as int), FileStatus::Missing),
            unreadable == status_count(statuses@.take(i as int), FileStatus::Unreadable),
            broken == status_count(statuses@.take(i as int), FileStatus::BrokenSymlink),
            missing + unreadable + broken <= i,
        decreases statuses@.len() - i,
    {
        assert(statuses@.take(i + 1).drop_last() =~= statuses@.take(i as int));
        match statuses[i] {
            FileStatus::Missing => missing = missing + 1,
            FileStatus::Unreadable => unreadable = unreadable + 1,
            FileStatus::BrokenSymlink => broken = broken + 1,
            FileStatus::Readable => {},
        }
        i = i + 1;
    }
    assert(statuses@.take(i as int) =~= statuses@);
    let duplicates = total_rows - distinct_paths;
    VerifyReport {
        db_readable,
        integrity_ok,
        total_entries: statuses.len() as u64,
        existing_files: statuses.len() as u64 - missing,
        missing_files: missing,
        unreadable_files: unreadable,
        broken_symlinks: broken,
        duplicate_db_entries: duplicates,
        pass: db_readable && integrity_ok && duplicates == 0,
    }
}

/// A check line: "✓ 0 <what>" when the count is zero, else "⚠ <n> <what>".
pub open spec fn count_line(n: int, what: Seq<char>) -> Seq<char> {
    if n > 0 {
        "⚠ "@ + int_dec(n) + seq![' '] + what
    } else {
        "✓ 0 "@ + what
    }
}

/// The report as printed, each item followed by a blank line, ending in PASS or FAIL.
pub open spec fn report_text(r: VerifyReport) -> Seq<char> {
    (if r.db_readable {
        "✓ Database readable"@
    } else {
        "✗ Database unreadable"@
    }) + "\n\n"@ + (if r.integrity_ok {
        "✓ SQLite integrity OK"@
    } else {
        "✗ SQLite integrity check FAILED"@
    }) + "\n\n"@ + dec(r.total_entries as nat) + " entries checked\n\n"@ + "✓ "@ + dec(
        r.existing_files as nat,
    ) + " files exist\n\n"@ + count_line(r.missing_files as int, "missing files"@) + "\n\n"@
        + count_line(r.unreadable_files as int, "unreadable files"@) + "\n\n"@ + count_line(
        r.duplicate_db_entries as int,
        "duplicate DB entries"@,
    ) + "\n\n"@ + count_line(r.broken_symlinks as int, "broken symlinks"@) + "\n\n"@ + (if r.pass {
        "PASS"@
    } else {
        "FAIL"@
    }) + "\n"@
}

fn push_count_line(s: &mut String, n: i64, what: &str)
    ensures
        final(s)@ == old(s)@ + count_line(n as int, what@),
{
    if n > 0 {
        push_str(s, "⚠ ");
        let t = crate::text::i64_to_dec(n);
        push_str(s, t.as_str());
        push_str(s, " ");
        push_str(s, what);
        proof {
            reveal_strlit(" ");
        }
        assert(final(s)@ =~= old(s)@ + count_line(n as int, what@));
    } else {
        push_str(s, "✓ 0 ");
        push_str(s, what);
        assert(final(s)@ =~= old(s)@ + count_line(n as int, what@));
    }
}

fn push_count_line_u64(s: &mut String, n: u64, what: &str)
    ensures
        final(s)@ == old(s)@ + count_line(n as int, what@),
{
    if n > 0 {
        push_str(s, "⚠ ");
        push_dec(s, n);
        push_str(s, " ");
        push_str(s, what);
        proof {
            reveal_strlit(" ");
        }
        assert(final(s)@ =~= old(s)@ + count_line(n as int, what@));
    } else {
        push_str(s, "✓ 0 ");
        push_str(s, what);
        assert(final(s)@ =~= old(s)@ + count_line(n as int, what@));
    }
}

/// The report as printed.
pub fn render_verify(r: &VerifyReport) -> (t: String)
    ensures
        t@ == report_text(*r),
{
    let mut s = if r.db_readable {
        String::from_str("✓ Database readable")
    } else {
        String::from_str("✗ Database unreadable")
    };
    push_str(&mut s, "\n\n");
    if r.integrity_ok {
        push_str(&mut s, "✓ SQLite integrity OK");
    } else {
        push_str(&mut s, "✗ SQLite integrity check FAILED");
    }
    push_str(&mut s, "\n\n");
    push_dec(&mut s, r.total_entries);
    push_str(&mut s, " entries checked\n\n");
    push_str(&mut s, "✓ ");
    push_dec(&mut s, r.existing_files);
    push_str(&mut s, " files exist\n\n");
    push_count_line_u64(&mut s, r.missing_files, "missing files");
    push_str(&mut s, "\n\n");
    push_count_line_u64(&mut s, r.unreadable_files, "unreadable files");
    push_str(&mut s, "\n\n");
    push_count_line(&mut s, r.duplicate_db_entries, "duplicate DB entries");
    push_str(&mut s, "\n\n");
    push_count_line_u64(&mut s, r.broken_symlinks, "broken symlinks");
    push_str(&mut s, "\n\n");
    if r.pass {
        push_str(&mut s, "PASS");
    } else {
        push_str(&mut s, "FAIL");
    }
    push_str(&mut s, "\n");
    assert(s@ =~= report_text(*r));
    s
}

} // verus!
