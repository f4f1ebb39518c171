use wl::db::WordlistEntry;
use wl::duplicates::{duplicate_key, find_duplicates, render_duplicates, DupMode, DuplicateGroup};
use wl::output::OutputMode;

fn entry(path: &str, size: i64, sha: Option<&str>) -> WordlistEntry {
    let filename = path.rsplit('/').next().unwrap().to_string();
    WordlistEntry {
        id: None,
        filename: filename.clone(),
        stem: filename,
        path: path.to_string(),
        extension: None,
        size_bytes: size,
        source_repo: None,
        category: None,
        compressed: false,
        line_count: None,
        mtime: 0,
        last_indexed: 0,
        sha256: sha.map(|s| s.to_string()),
    }
}

fn entries() -> Vec<WordlistEntry> {
    vec![
        entry("/r2/dup.txt", 10, Some("aa")),
        entry("/r1/dup.txt", 20, Some("bb")),
        entry("/r1/other.txt", 10, Some("aa")),
        entry("/r1/solo.txt", 30, None),
        entry("/r3/solo2.txt", 30, None),
        entry("/r3/z.txt", 20, None),
    ]
}

fn groups(gs: &[DuplicateGroup]) -> Vec<(&str, Vec<&str>)> {
    gs.iter().map(|g| (g.key.as_str(), g.paths.iter().map(|p| p.as_str()).collect())).collect()
}

#[test]
fn mode_from_flags() {
    assert_eq!(DupMode::from_flags(false, false), DupMode::Name);
    assert_eq!(DupMode::from_flags(true, true), DupMode::Size);
    assert_eq!(DupMode::from_flags(false, true), DupMode::Hash);
}

#[test]
fn keys_by_mode() {
    let e = entry("/a/x.txt", 42, None);
    assert_eq!(duplicate_key(&e, DupMode::Name), "x.txt");
    assert_eq!(duplicate_key(&e, DupMode::Size), "42");
    assert_eq!(duplicate_key(&e, DupMode::Hash), "");
}

#[test]
fn duplicates_by_name() {
    let r = find_duplicates(&entries(), DupMode::Name);
    assert_eq!(groups(&r), vec![("dup.txt", vec!["/r1/dup.txt", "/r2/dup.txt"])]);
}

#[test]
fn duplicates_by_size_are_ordered_by_key() {
    let r = find_duplicates(&entries(), DupMode::Size);
    assert_eq!(
        groups(&r),
        vec![
            ("10", vec!["/r1/other.txt", "/r2/dup.txt"]),
            ("20", vec!["/r1/dup.txt", "/r3/z.txt"]),
            ("30", vec!["/r1/solo.txt", "/r3/solo2.txt"]),
        ]
    );
}

#[test]
fn duplicates_by_hash_skip_missing_hashes() {
    let r = find_duplicates(&entries(), DupMode::Hash);
    assert_eq!(groups(&r), vec![("aa", vec!["/r1/other.txt", "/r2/dup.txt"])]);
    assert!(find_duplicates(&Vec::new(), DupMode::Hash).is_empty());
}

#[test]
fn plain_and_table_output() {
    let r = find_duplicates(&entries(), DupMode::Size);
    let mut plain = String::new();
    for g in &r {
        plain.push_str(&format!("{}\n", g.key));
        for p in &g.paths {
            plain.push_str(&format!("    {}\n", p));
        }
        plain.push_str("\n-----------------------------------\n");
    }
    assert_eq!(render_duplicates(&r, OutputMode::Plain), Some(plain));
    let mut w = [13usize, 4];
    for g in &r {
        w[0] = w[0].max(g.key.len());
        for p in &g.paths {
            w[1] = w[1].max(p.len());
        }
    }
    let mut table = format!("{:<width$}  PATH\n", "DUPLICATE KEY", width = w[0]);
    table.push_str(&format!("{}  {}\n", "-".repeat(w[0]), "-".repeat(w[1])));
    for g in &r {
        for p in &g.paths {
            table.push_str(&format!("{:<width$}  {}\n", g.key, p, width = w[0]));
        }
    }
    assert_eq!(render_duplicates(&r, OutputMode::Table), Some(table));
    assert_eq!(render_duplicates(&Vec::new(), OutputMode::Table), Some(String::new()));
    assert_eq!(render_duplicates(&r, OutputMode::Json), None);
}

#[test]
fn duplicates_of_the_index() {
    let mut index = wl::db::Index::new();
    for e in entries() {
        wl::db::upsert(&mut index, &e).unwrap();
    }
    let (groups_found, text) = wl::duplicates::run_duplicates(&index, DupMode::Name, OutputMode::Plain);
    assert_eq!(groups(&groups_found), vec![("dup.txt", vec!["/r1/dup.txt", "/r2/dup.txt"])]);
    assert_eq!(text, Some("dup.txt\n    /r1/dup.txt\n    /r2/dup.txt\n\n-----------------------------------\n".to_string()));
    let (_, json) = wl::duplicates::run_duplicates(&index, DupMode::Hash, OutputMode::Json);
    assert_eq!(json, None);
}
