use wl::db::{add_tag_to_wordlist, get_all, known_tags, load_entry, get_entry_by_path, get_tags_for_wordlist, upsert, Index, WordlistEntry};
use wl::indexer::{
    category_from_relative, compute_sha256, count_lines, decide_file, get_valid_extension, is_compressed, is_hidden,
    make_entry, record_all, record_file, scan_summary, source_repo_name, split_file_name, to_hex, FileDecision,
    FoundFile, ScanMode, ScanState, ScannedFile, MAX_FILE_SIZE,
};

fn scanned(repo_dir: &str, relative: &str, size: u64, mtime: i64, sha: Option<&str>) -> ScannedFile {
    let file_name = relative.rsplit('/').next().unwrap().to_string();
    let extension = get_valid_extension(&file_name).unwrap();
    ScannedFile {
        file_name,
        path: format!("{}/{}", repo_dir, relative),
        relative: relative.to_string(),
        source_repo: source_repo_name(repo_dir.rsplit('/').next()),
        extension,
        size,
        mtime,
        line_count: Some(1),
        sha256: sha.map(|s| s.to_string()),
    }
}

#[test]
fn hidden_names_start_with_a_dot() {
    assert!(is_hidden(Some(".git")));
    assert!(is_hidden(Some(".")));
    assert!(!is_hidden(Some("wordlists")));
    assert!(!is_hidden(Some("")));
    assert!(!is_hidden(None));
}

#[test]
fn file_names_split_like_paths() {
    assert_eq!(split_file_name("rockyou.txt"), ("rockyou".to_string(), Some("txt".to_string())));
    assert_eq!(split_file_name("a.tar.gz"), ("a.tar".to_string(), Some("gz".to_string())));
    assert_eq!(split_file_name(".bashrc"), (".bashrc".to_string(), None));
    assert_eq!(split_file_name("README"), ("README".to_string(), None));
    assert_eq!(split_file_name("a."), ("a".to_string(), Some(String::new())));
    assert_eq!(split_file_name(".."), ("..".to_string(), None));
}

#[test]
fn valid_extensions_are_lowercased() {
    assert_eq!(get_valid_extension("common.TXT"), Some("txt".to_string()));
    assert_eq!(get_valid_extension("x.wordlist"), Some("wordlist".to_string()));
    assert_eq!(get_valid_extension("big.Gz"), Some("gz".to_string()));
    assert_eq!(get_valid_extension("notes.md"), None);
    assert_eq!(get_valid_extension("archive.tar"), None);
    assert_eq!(get_valid_extension("noext"), None);
    assert_eq!(get_valid_extension(".txt"), None);
}

#[test]
fn compressed_extensions() {
    for e in ["gz", "zip", "tar", "bz2", "xz"] {
        assert!(is_compressed(e), "{e}");
    }
    for e in ["txt", "lst", "GZ", ""] {
        assert!(!is_compressed(e), "{e}");
    }
}

#[test]
fn lines_are_counted_across_chunks() {
    let data = b"password\n123456\nqwerty\n";
    assert_eq!(count_lines(0, data), 3);
    let (a, b) = data.split_at(10);
    assert_eq!(count_lines(count_lines(0, a), b), 3);
    assert_eq!(count_lines(0, b"no newline"), 0);
    assert_eq!(count_lines(7, b""), 7);
}

#[test]
fn category_is_the_relative_parent() {
    assert_eq!(category_from_relative("Discovery/Web-Content/common.txt"), "Discovery/Web-Content");
    assert_eq!(category_from_relative("Passwords/rockyou.txt"), "Passwords");
    assert_eq!(category_from_relative("rockyou.txt"), ".");
}

#[test]
fn source_repo_falls_back_to_unknown() {
    assert_eq!(source_repo_name(Some("SecLists")), "SecLists");
    assert_eq!(source_repo_name(None), "unknown");
}

#[test]
fn sha256_of_known_inputs() {
    assert_eq!(
        compute_sha256(b"abc"),
        "ba7816bf8f01cfea414140de5dae2223b00361a396177a9cb410ff61f20015ad"
    );
    assert_eq!(
        compute_sha256(b""),
        "e3b0c44298fc1c149afbf4c8996fb92427ae41e4649b934ca495991b7852b855"
    );
    assert_eq!(to_hex(&[0x00, 0x0f, 0xa5, 0xff]), "000fa5ff");
}

#[test]
fn scan_summary_line() {
    assert_eq!(
        scan_summary(3, 12, 1),
        "[+] 3 added  |  12 skipped (unchanged)  |  1 skipped (too large)"
    );
}

#[test]
fn make_entry_fills_every_field() {
    let f = scanned("/w/repo", "Discovery/Web-Content/common.txt", 6, 42, Some("ab"));
    let e = make_entry(&f, 1000);
    assert_eq!(
        e,
        WordlistEntry {
            id: None,
            filename: "common.txt".to_string(),
            stem: "common".to_string(),
            path: "/w/repo/Discovery/Web-Content/common.txt".to_string(),
            extension: Some("txt".to_string()),
            size_bytes: 6,
            source_repo: Some("repo".to_string()),
            category: Some("Discovery/Web-Content".to_string()),
            compressed: false,
            line_count: Some(1),
            mtime: 42,
            last_indexed: 1000,
            sha256: Some("ab".to_string()),
        }
    );
    let mut g = scanned("/w/repo", "big.gz", 6, 42, None);
    g.line_count = Some(9);
    let e = make_entry(&g, 1);
    assert!(e.compressed);
    assert_eq!(e.line_count, None);
    assert_eq!(e.category, Some(".".to_string()));
}

#[test]
fn decisions_of_full_and_incremental_scans() {
    let mut index = Index::new();
    let f = scanned("/w/repo", "a.txt", 6, 42, Some("ab"));
    upsert(&mut index, &make_entry(&f, 1)).unwrap();
    let p = "/w/repo/a.txt";
    assert_eq!(decide_file(&index, p, 6, 42, ScanMode::Incremental), FileDecision::Unchanged);
    assert_eq!(decide_file(&index, p, 6, 42, ScanMode::Full), FileDecision::Index);
    assert_eq!(decide_file(&index, p, 7, 42, ScanMode::Incremental), FileDecision::Index);
    assert_eq!(decide_file(&index, p, 6, 43, ScanMode::Incremental), FileDecision::Index);
    assert_eq!(decide_file(&index, "/w/repo/new.txt", 6, 42, ScanMode::Incremental), FileDecision::Index);
    assert_eq!(decide_file(&index, p, MAX_FILE_SIZE, 42, ScanMode::Full), FileDecision::Index);
    assert_eq!(
        decide_file(&index, p, MAX_FILE_SIZE + 1, 42, ScanMode::Incremental),
        FileDecision::TooLarge
    );
    let nohash = scanned("/w/repo", "b.txt", 6, 42, None);
    upsert(&mut index, &make_entry(&nohash, 1)).unwrap();
    assert_eq!(decide_file(&index, "/w/repo/b.txt", 6, 42, ScanMode::Incremental), FileDecision::Index);
}

#[test]
fn recording_tags_from_the_path() {
    let mut index = Index::new();
    let f = scanned("/w/repo", "Discovery/Web-Content/common.txt", 6, 42, None);
    let id = record_file(&mut index, &make_entry(&f, 1), &f.relative).unwrap();
    assert_eq!(
        get_tags_for_wordlist(&index, id),
        vec!["discovery".to_string(), "webcontent".to_string(), "web".to_string()]
    );
}

#[test]
fn manual_tag_and_id_survive_reindexing_a_modified_file() {
    let mut index = Index::new();
    let f = scanned("/w/repo", "Discovery/Web-Content/common.txt", 6, 42, Some("aa"));
    let id = record_file(&mut index, &make_entry(&f, 1), &f.relative).unwrap();
    add_tag_to_wordlist(&mut index, id, "my-custom").unwrap();
    let modified = scanned("/w/repo", "Discovery/Web-Content/common.txt", 11, 50, Some("bb"));
    let again = record_file(&mut index, &make_entry(&modified, 2), &modified.relative).unwrap();
    assert_eq!(again, id);
    let tags = get_tags_for_wordlist(&index, id);
    assert!(tags.contains(&"my-custom".to_string()));
    assert!(tags.contains(&"webcontent".to_string()));
    let stored = get_entry_by_path(&index, "/w/repo/Discovery/Web-Content/common.txt").unwrap();
    assert_eq!(stored.size_bytes, 11);
    assert_eq!(stored.sha256, Some("bb".to_string()));
}

#[test]
fn a_scan_keeps_seen_files_and_drops_the_rest() {
    let mut index = Index::new();
    for rel in ["a.txt", "b.txt", "c.txt"] {
        let f = scanned("/w/repo", rel, 6, 42, Some("ab"));
        record_file(&mut index, &make_entry(&f, 1), &f.relative).unwrap();
    }
    let mut state = ScanState::new();
    state.begin_repo();
    assert_eq!(
        state.observe(&index, "/w/repo/a.txt".to_string(), 6, 42, ScanMode::Incremental),
        FileDecision::Unchanged
    );
    assert_eq!(
        state.observe(&index, "/w/repo/b.txt".to_string(), MAX_FILE_SIZE + 1, 42, ScanMode::Incremental),
        FileDecision::TooLarge
    );
    assert_eq!(
        state.observe(&index, "/w/repo/d.txt".to_string(), 6, 42, ScanMode::Incremental),
        FileDecision::Index
    );
    let d = scanned("/w/repo", "d.txt", 6, 42, Some("cd"));
    record_file(&mut index, &make_entry(&d, 1), &d.relative).unwrap();
    assert_eq!((state.added, state.unchanged, state.too_large), (1, 1, 1));
    assert_eq!(
        state.summary(),
        "[+] 1 added  |  1 skipped (unchanged)  |  1 skipped (too large)"
    );
    state.finish(&mut index).unwrap();
    let paths: Vec<String> = get_all(&index).into_iter().map(|e| e.path).collect();
    assert_eq!(paths, vec!["/w/repo/a.txt".to_string(), "/w/repo/d.txt".to_string()]);
    state.begin_repo();
    assert_eq!((state.added, state.unchanged, state.too_large), (0, 0, 0));
    assert_eq!(state.seen.len(), 2);
}

#[test]
fn recording_fails_only_when_ids_run_out() {
    let mut index = Index::new();
    let mut full = make_entry(&scanned("/w/repo", "a.txt", 6, 42, None), 1);
    full.id = Some(i64::MAX);
    load_entry(&mut index, full).unwrap();
    let again = make_entry(&scanned("/w/repo", "a.txt", 7, 43, None), 2);
    assert_eq!(record_file(&mut index, &again, "a.txt"), Ok(i64::MAX));
    let fresh = make_entry(&scanned("/w/repo", "Fuzzing/b.txt", 6, 42, None), 2);
    assert_eq!(
        record_file(&mut index, &fresh, "Fuzzing/b.txt"),
        Err(wl::error::WlError::Db("database or disk is full".to_string()))
    );
    assert_eq!(get_all(&index).len(), 1);
    assert!(!known_tags(&index).contains(&"fuzzing".to_string()));
}

#[test]
fn a_second_update_changes_nothing() {
    let mut index = Index::new();
    let files = [("Discovery/DNS/a.txt", 6u64, 42i64), ("Passwords/b.txt", 9, 43)];
    let mut state = ScanState::new();
    for (rel, size, mtime) in files {
        let f = scanned("/w/repo", rel, size, mtime, Some("aa"));
        assert_eq!(state.observe(&index, f.path.clone(), size, mtime, ScanMode::Incremental), FileDecision::Index);
        record_file(&mut index, &make_entry(&f, 1), rel).unwrap();
    }
    state.finish(&mut index).unwrap();
    let id = get_entry_by_path(&index, "/w/repo/Passwords/b.txt").unwrap().id.unwrap();
    add_tag_to_wordlist(&mut index, id, "mine").unwrap();
    let before = get_all(&index);
    let before_tags = get_tags_for_wordlist(&index, id);
    let mut second = ScanState::new();
    for (rel, size, mtime) in files {
        let path = format!("/w/repo/{}", rel);
        assert_eq!(second.observe(&index, path, size, mtime, ScanMode::Incremental), FileDecision::Unchanged);
    }
    second.finish(&mut index).unwrap();
    assert_eq!(get_all(&index), before);
    assert_eq!(get_tags_for_wordlist(&index, id), before_tags);
    assert_eq!(second.summary(), "[+] 0 added  |  2 skipped (unchanged)  |  0 skipped (too large)");
}

fn found(path: &str, size: u64, mtime: i64) -> FoundFile {
    FoundFile { path: path.to_string(), size, mtime }
}

#[test]
fn a_planned_scan_indexes_what_it_finds_and_a_second_one_reads_nothing() {
    let mut index = Index::new();
    let stale = scanned("/w/repo", "old/gone.txt", 3, 1, Some("00"));
    record_file(&mut index, &make_entry(&stale, 1), &stale.relative).unwrap();
    let walk = vec![
        found("/w/repo/Discovery/a.txt", 6, 42),
        found("/w/repo/huge.txt", MAX_FILE_SIZE + 1, 42),
        found("/w/repo/Passwords/b.txt", 9, 43),
    ];
    let mut state = ScanState::new();
    state.begin_repo();
    let to_read = state.plan(&index, &walk, ScanMode::Incremental);
    assert_eq!(to_read, vec![0, 2]);
    assert_eq!((state.added, state.unchanged, state.too_large), (2, 0, 1));
    assert_eq!(state.seen, vec!["/w/repo/Discovery/a.txt".to_string(), "/w/repo/Passwords/b.txt".to_string()]);
    let files: Vec<ScannedFile> = to_read
        .iter()
        .map(|&k| {
            let rel = walk[k].path.strip_prefix("/w/repo/").unwrap();
            scanned("/w/repo", rel, walk[k].size, walk[k].mtime, Some("ff"))
        })
        .collect();
    assert_eq!(record_all(&mut index, &files, 7), Ok(()));
    state.finish(&mut index).unwrap();
    let all = get_all(&index);
    let paths: Vec<&str> = all.iter().map(|e| e.path.as_str()).collect();
    assert_eq!(paths, vec!["/w/repo/Discovery/a.txt", "/w/repo/Passwords/b.txt"]);
    assert!(all.iter().all(|e| e.last_indexed == 7 && e.sha256.as_deref() == Some("ff")));
    assert_eq!(all[1].size_bytes, 9);
    assert_eq!(all[1].mtime, 43);
    let mut second = ScanState::new();
    second.begin_repo();
    assert_eq!(second.plan(&index, &walk, ScanMode::Incremental), Vec::<usize>::new());
    assert_eq!((second.added, second.unchanged, second.too_large), (0, 2, 1));
    second.finish(&mut index).unwrap();
    assert_eq!(get_all(&index), all);
    let mut full = ScanState::new();
    assert_eq!(full.plan(&index, &walk, ScanMode::Full), vec![0, 2]);
}

#[test]
fn recording_many_keeps_the_last_of_a_path_and_tags_by_hand() {
    let mut index = Index::new();
    let a = scanned("/w/repo", "Fuzzing/a.txt", 6, 42, Some("aa"));
    let id = record_file(&mut index, &make_entry(&a, 1), &a.relative).unwrap();
    add_tag_to_wordlist(&mut index, id, "mine").unwrap();
    let files = vec![
        scanned("/w/repo", "Fuzzing/a.txt", 7, 50, Some("bb")),
        scanned("/w/repo", "Passwords/p.txt", 1, 2, None),
        scanned("/w/repo", "Passwords/p.txt", 3, 4, Some("cc")),
    ];
    assert_eq!(record_all(&mut index, &files, 9), Ok(()));
    let a_now = get_entry_by_path(&index, "/w/repo/Fuzzing/a.txt").unwrap();
    assert_eq!((a_now.id, a_now.size_bytes, a_now.mtime), (Some(id), 7, 50));
    let tags = get_tags_for_wordlist(&index, id);
    assert!(tags.contains(&"mine".to_string()));
    assert!(tags.contains(&"fuzzing".to_string()));
    let p = get_entry_by_path(&index, "/w/repo/Passwords/p.txt").unwrap();
    assert_eq!((p.size_bytes, p.mtime, p.sha256), (3, 4, Some("cc".to_string())));
    assert_eq!(get_all(&index).len(), 2);
}

#[test]
fn recording_many_stops_when_ids_run_out() {
    let mut index = Index::new();
    let mut full = make_entry(&scanned("/w/repo", "a.txt", 6, 42, None), 1);
    full.id = Some(i64::MAX);
    load_entry(&mut index, full).unwrap();
    let files = vec![scanned("/w/repo", "a.txt", 7, 43, None), scanned("/w/repo", "b.txt", 1, 1, None)];
    assert_eq!(
        record_all(&mut index, &files, 2),
        Err(wl::error::WlError::Db("database or disk is full".to_string()))
    );
    assert_eq!(get_entry_by_path(&index, "/w/repo/a.txt").unwrap().size_bytes, 7);
    assert_eq!(get_all(&index).len(), 1);
}
