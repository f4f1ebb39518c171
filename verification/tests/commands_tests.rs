use wl::commands::{info_block, info_matches, remove_missing, removed_message, render_info, repos_to_scan, run_lookup, LookupOutput};
use wl::output::OutputMode;
use wl::db::{add_tag_to_wordlist, get_all, upsert, Index, WordlistEntry};
use wl::error::WlError;
use wl::indexer::{make_entry, record_file, ScannedFile};
use wl::listing::{filter_entries, split_list};

fn sample() -> WordlistEntry {
    WordlistEntry {
        id: Some(3),
        filename: "rockyou.txt".to_string(),
        stem: "rockyou".to_string(),
        path: "/w/Passwords/rockyou.txt".to_string(),
        extension: Some("txt".to_string()),
        size_bytes: 1536,
        source_repo: Some("w".to_string()),
        category: Some("Passwords".to_string()),
        compressed: false,
        line_count: Some(2),
        mtime: 0,
        last_indexed: 0,
        sha256: None,
    }
}

fn scanned(relative: &str, ext: &str) -> ScannedFile {
    ScannedFile {
        file_name: relative.rsplit('/').next().unwrap().to_string(),
        path: format!("/t/repo/{}", relative),
        relative: relative.to_string(),
        source_repo: "repo".to_string(),
        extension: ext.to_string(),
        size: 6,
        mtime: 1,
        line_count: Some(1),
        sha256: None,
    }
}

fn tags_index() -> Index {
    let mut index = Index::new();
    for (rel, ext) in [
        ("Discovery/Web-Content/common.txt", "txt"),
        ("Fuzzing/XSS/payload.txt", "txt"),
        ("Passwords/rockyou.txt", "txt"),
        ("Passwords/leak.lst", "lst"),
    ] {
        record_file(&mut index, &make_entry(&scanned(rel, ext), 1), rel).unwrap();
    }
    index
}

fn names(v: &[WordlistEntry]) -> Vec<&str> {
    v.iter().map(|e| e.filename.as_str()).collect()
}

#[test]
fn repos_to_scan_prefers_the_given_path() {
    let repos = vec!["/a".to_string(), "/b".to_string()];
    assert_eq!(repos_to_scan(Some("/x".to_string()), &repos), Ok(vec!["/x".to_string()]));
    assert_eq!(repos_to_scan(None, &repos), Ok(repos.clone()));
    assert_eq!(repos_to_scan(Some("/x".to_string()), &Vec::new()), Ok(vec!["/x".to_string()]));
    assert_eq!(repos_to_scan(None, &Vec::new()), Err(WlError::NoReposConfigured));
    assert_eq!(
        WlError::NoReposConfigured.message(),
        "No repos configured. Run: wl config add-repo <path>"
    );
}

#[test]
fn lists_split_on_commas() {
    assert_eq!(split_list("xss,passwords"), vec!["xss".to_string(), "passwords".to_string()]);
    assert_eq!(split_list(",web,,"), vec!["web".to_string()]);
    assert!(split_list("").is_empty());
}

#[test]
fn tag_filter_is_an_or() {
    let index = tags_index();
    let r = filter_entries(&index, None, None, Some("xss,passwords"));
    assert_eq!(names(&r), vec!["payload.txt", "leak.lst", "rockyou.txt"]);
    assert!(!names(&r).contains(&"common.txt"));
    let r = filter_entries(&index, None, None, Some("web"));
    assert_eq!(names(&r), vec!["common.txt"]);
    assert_eq!(filter_entries(&index, None, None, None).len(), 4);
    assert!(filter_entries(&index, None, None, Some("")).is_empty());
}

#[test]
fn repo_and_extension_filters_ignore_case() {
    let mut index = tags_index();
    let r = filter_entries(&index, Some("REPO"), Some("LST"), None);
    assert_eq!(names(&r), vec!["leak.lst"]);
    assert!(filter_entries(&index, Some("other"), None, None).is_empty());
    let mut no_repo = sample();
    no_repo.id = None;
    no_repo.source_repo = None;
    no_repo.path = "/elsewhere/x.txt".to_string();
    upsert(&mut index, &no_repo).unwrap();
    assert_eq!(filter_entries(&index, Some("w"), None, None).len(), 0);
    assert_eq!(filter_entries(&index, None, Some("txt"), None).len(), 4);
}

#[test]
fn manual_tags_count_in_the_filter() {
    let mut index = tags_index();
    let common = filter_entries(&index, None, None, Some("web"));
    add_tag_to_wordlist(&mut index, common[0].id.unwrap(), "my-custom").unwrap();
    assert_eq!(names(&filter_entries(&index, None, None, Some("my-custom"))), vec!["common.txt"]);
}

#[test]
fn info_block_lists_every_field() {
    let e = sample();
    let tags = vec!["passwords".to_string(), "mine".to_string()];
    let text = info_block(&e, &tags, &Some("1970-01-01T00:00:00+00:00".to_string()));
    let expected = "Filename:      rockyou.txt\n\
                    Stem:          rockyou\n\
                    Path:          /w/Passwords/rockyou.txt\n\
                    Extension:     txt\n\
                    Size:          1.5 KB (1536 bytes)\n\
                    Repository:    w\n\
                    Category:      Passwords\n\
                    Compressed:    No\n\
                    Line Count:    2\n\
                    Last Modified: 1970-01-01T00:00:00+00:00\n\
                    SHA-256:       -\n\
                    Tags:          passwords, mine\n";
    assert_eq!(text, expected);
}

#[test]
fn info_block_for_missing_values() {
    let mut e = sample();
    e.extension = None;
    e.source_repo = None;
    e.category = None;
    e.compressed = true;
    e.line_count = None;
    e.size_bytes = 1023;
    e.sha256 = Some("abc".to_string());
    let text = info_block(&e, &Vec::new(), &None);
    assert!(text.contains("Extension:     -\n"));
    assert!(text.contains("Size:          1023 bytes\n"));
    assert!(text.contains("Repository:    -\n"));
    assert!(text.contains("Category:      -\n"));
    assert!(text.contains("Compressed:    Yes\n"));
    assert!(text.contains("Line Count:    -\n"));
    assert!(text.contains("Last Modified: unknown\n"));
    assert!(text.contains("SHA-256:       abc\n"));
    assert!(text.ends_with("Tags:          -\n"));
}

#[test]
fn info_sizes_follow_one_decimal_formatting() {
    for (bytes, want) in [
        (0i64, "0 bytes".to_string()),
        (1024, "1.0 KB (1024 bytes)".to_string()),
        (1048575, "1024.0 KB (1048575 bytes)".to_string()),
        (1048576, "1.0 MB (1048576 bytes)".to_string()),
        (5 * 1073741824, "5120.0 MB (5368709120 bytes)".to_string()),
        (-3, "-3 bytes".to_string()),
    ] {
        let mut e = sample();
        e.size_bytes = bytes;
        let text = info_block(&e, &Vec::new(), &None);
        assert!(text.contains(&format!("Size:          {}\n", want)), "{bytes}: {text}");
    }
}

#[test]
fn render_info_shows_time_and_tags() {
    let index = tags_index();
    let common = filter_entries(&index, None, None, Some("webcontent"));
    let text = render_info(&index, &common);
    assert!(text.contains("Last Modified: 1970-01-01T00:00:01+00:00\n"), "{text}");
    assert!(text.contains("Tags:          discovery, webcontent, web\n"), "{text}");
    let two = filter_entries(&index, None, None, Some("passwords"));
    let text = render_info(&index, &two);
    assert_eq!(text.matches("Filename:").count(), 2);
    assert!(text.contains("\n\nFilename:      rockyou.txt\n"));
}

#[test]
fn remove_missing_counts_what_left() {
    let mut index = tags_index();
    let keep = vec!["/t/repo/Passwords/rockyou.txt".to_string()];
    assert_eq!(remove_missing(&mut index, &keep), 3);
    assert_eq!(get_all(&index).len(), 1);
    assert_eq!(remove_missing(&mut index, &keep), 0);
    assert_eq!(removed_message(3), "Removed 3 stale entries.");
}

fn dup_index() -> Index {
    let mut index = Index::new();
    for (path, name) in [
        ("/t/repo1/dup.txt", "dup.txt"),
        ("/t/repo2/dup.txt", "dup.txt"),
        ("/t/repo1/fuzzy_match_target.txt", "fuzzy_match_target.txt"),
    ] {
        let mut e = sample();
        e.id = None;
        e.path = path.to_string();
        e.filename = name.to_string();
        e.stem = name.trim_end_matches(".txt").to_string();
        upsert(&mut index, &e).unwrap();
    }
    index
}

#[test]
fn name_lookup_in_plain_mode_prints_one_path() {
    let index = dup_index();
    match run_lookup(&index, "dup", OutputMode::Plain) {
        Ok(LookupOutput::Path { path, note }) => {
            assert_eq!(path, "/t/repo1/dup.txt");
            assert!(note.unwrap().contains("note: also matches"));
        }
        other => panic!("unexpected {:?}", other),
    }
    match run_lookup(&index, "fuzzy_match_targ", OutputMode::Plain) {
        Ok(LookupOutput::Path { path, note }) => {
            assert!(path.contains("fuzzy_match_target.txt"));
            assert!(note.unwrap().contains("note: fuzzy match"));
        }
        other => panic!("unexpected {:?}", other),
    }
    let err = run_lookup(&index, "nonexistent", OutputMode::Plain).unwrap_err();
    assert_eq!(err.message(), "Wordlist not found: nonexistent");
}

#[test]
fn name_lookup_as_a_table_lists_exact_matches() {
    let index = dup_index();
    match run_lookup(&index, "DUP.txt", OutputMode::Table) {
        Ok(LookupOutput::Entries(v)) => assert_eq!(v.len(), 2),
        other => panic!("unexpected {:?}", other),
    }
    assert_eq!(
        run_lookup(&index, "fuzzy_match_targ", OutputMode::Json),
        Err(WlError::NotFound("fuzzy_match_targ".to_string()))
    );
    assert_eq!(info_matches(&index, "dup").unwrap().len(), 2);
    assert_eq!(info_matches(&index, "nope"), Err(WlError::NotFound("nope".to_string())));
}

#[test]
fn index_then_look_up_and_search() {
    let mut index = Index::new();
    for name in ["rockyou.txt", "common.txt"] {
        let f = ScannedFile {
            file_name: name.to_string(),
            path: format!("/tmp/wl/wordlists/{}", name),
            relative: name.to_string(),
            source_repo: "wordlists".to_string(),
            extension: "txt".to_string(),
            size: 24,
            mtime: 5,
            line_count: Some(3),
            sha256: None,
        };
        record_file(&mut index, &make_entry(&f, 9), &f.relative).unwrap();
    }
    match run_lookup(&index, "rockyou", OutputMode::Plain) {
        Ok(LookupOutput::Path { path, note }) => {
            assert_eq!(path, "/tmp/wl/wordlists/rockyou.txt");
            assert_eq!(note, None);
        }
        other => panic!("unexpected {:?}", other),
    }
    let found = wl::search::fuzzy_search(&index, "rock");
    let text = wl::output::render_fuzzy(&found, OutputMode::Plain, 80).unwrap();
    assert!(text.contains("rockyou.txt"));
    let err = run_lookup(&index, "nonexistent", OutputMode::Plain).unwrap_err();
    assert!(err.message().contains("Wordlist not found"));
}

#[test]
fn repo_and_extension_filters_take_comma_lists() {
    let mut index = tags_index();
    let mut other = sample();
    other.id = None;
    other.source_repo = Some("SecLists".to_string());
    other.extension = Some("dict".to_string());
    other.path = "/s/x.dict".to_string();
    upsert(&mut index, &other).unwrap();
    assert_eq!(filter_entries(&index, Some("seclists,repo"), None, None).len(), 5);
    assert_eq!(names(&filter_entries(&index, Some("nope,SECLISTS"), None, None)), vec!["rockyou.txt"]);
    assert_eq!(names(&filter_entries(&index, None, Some("lst,DICT"), None)), vec!["rockyou.txt", "leak.lst"]);
    assert!(filter_entries(&index, Some(","), None, None).is_empty());
}
