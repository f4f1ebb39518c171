use wl::verify::{classify_file, render_verify, summarize_verify, FileStatus};

#[test]
fn summary_counts_each_status() {
    let statuses = vec![
        FileStatus::Readable,
        FileStatus::Missing,
        FileStatus::Missing,
        FileStatus::Unreadable,
        FileStatus::BrokenSymlink,
        FileStatus::Readable,
    ];
    let r = summarize_verify(true, true, &statuses, 6, 6);
    assert_eq!(r.total_entries, 6);
    assert_eq!(r.existing_files, 4);
    assert_eq!(r.missing_files, 2);
    assert_eq!(r.unreadable_files, 1);
    assert_eq!(r.broken_symlinks, 1);
    assert_eq!(r.duplicate_db_entries, 0);
    assert!(r.pass);
}

#[test]
fn repeated_paths_or_a_bad_store_fail() {
    assert!(!summarize_verify(true, true, &Vec::new(), 3, 2).pass);
    assert_eq!(summarize_verify(true, true, &Vec::new(), 3, 2).duplicate_db_entries, 1);
    assert!(!summarize_verify(false, true, &Vec::new(), 0, 0).pass);
    assert!(!summarize_verify(true, false, &Vec::new(), 0, 0).pass);
}

#[test]
fn report_text_of_a_passing_check() {
    let statuses: Vec<FileStatus> = (0..6483)
        .map(|i| if i < 3 { FileStatus::Missing } else { FileStatus::Readable })
        .collect();
    let r = summarize_verify(true, true, &statuses, 6483, 6483);
    let expected = "✓ Database readable\n\n✓ SQLite integrity OK\n\n6483 entries checked\n\n✓ 6480 files exist\n\n⚠ 3 missing files\n\n✓ 0 unreadable files\n\n✓ 0 duplicate DB entries\n\n✓ 0 broken symlinks\n\nPASS\n";
    assert_eq!(render_verify(&r), expected);
}

#[test]
fn report_text_of_a_failing_check() {
    let statuses = vec![FileStatus::BrokenSymlink, FileStatus::Unreadable];
    let r = summarize_verify(false, false, &statuses, 4, 2);
    let expected = "✗ Database unreadable\n\n✗ SQLite integrity check FAILED\n\n2 entries checked\n\n✓ 2 files exist\n\n✓ 0 missing files\n\n⚠ 1 unreadable files\n\n⚠ 2 duplicate DB entries\n\n⚠ 1 broken symlinks\n\nFAIL\n";
    assert_eq!(render_verify(&r), expected);
}

#[test]
fn files_are_classified_from_the_file_system() {
    assert_eq!(classify_file(None, false, false), FileStatus::Missing);
    assert_eq!(classify_file(Some(true), false, false), FileStatus::BrokenSymlink);
    assert_eq!(classify_file(Some(true), true, false), FileStatus::Readable);
    assert_eq!(classify_file(Some(false), false, false), FileStatus::Unreadable);
    assert_eq!(classify_file(Some(false), false, true), FileStatus::Readable);
}
