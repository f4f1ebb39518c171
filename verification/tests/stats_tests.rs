use wl::db::{upsert, Index, WordlistEntry};
use wl::error::WlError;
use wl::stats::{
    count_by, format_plain_table, general_stats, query_counts, query_largest, render_counts, render_largest,
    render_overview, render_stats, run_stats, Stat, StatField, StatsReport,
};

// The plain table of the statistics, as the command line tool prints it.
fn reference_plain(headers: &[&str], rows: &[Vec<String>]) -> String {
    let mut out = String::new();
    if headers.is_empty() {
        return out;
    }
    let n = headers.len();
    let mut w: Vec<usize> = headers.iter().map(|h| h.len()).collect();
    for row in rows {
        for (i, cell) in row.iter().enumerate() {
            if cell.len() > w[i] {
                w[i] = cell.len();
            }
        }
    }
    for (i, h) in headers.iter().enumerate() {
        if i == n - 1 {
            out.push_str(h);
        } else {
            out.push_str(&format!("{:<width$}  ", h, width = w[i]));
        }
    }
    out.push('\n');
    for (i, x) in w.iter().enumerate() {
        out.push_str(&"-".repeat(*x));
        if i != n - 1 {
            out.push_str("  ");
        }
    }
    out.push('\n');
    for row in rows {
        for (i, cell) in row.iter().enumerate() {
            if i == n - 1 {
                out.push_str(cell);
            } else {
                out.push_str(&format!("{:<width$}  ", cell, width = w[i]));
            }
        }
        out.push('\n');
    }
    out
}

fn entry(path: &str, size: i64, repo: Option<&str>, cat: Option<&str>, ext: Option<&str>, compressed: bool) -> WordlistEntry {
    let filename = path.rsplit('/').next().unwrap().to_string();
    WordlistEntry {
        id: None,
        filename: filename.clone(),
        stem: filename,
        path: path.to_string(),
        extension: ext.map(|s| s.to_string()),
        size_bytes: size,
        source_repo: repo.map(|s| s.to_string()),
        category: cat.map(|s| s.to_string()),
        compressed,
        line_count: None,
        mtime: 0,
        last_indexed: 0,
        sha256: None,
    }
}

fn sample_index() -> Index {
    let mut index = Index::new();
    for e in [
        entry("/a/x/1.txt", 100, Some("a"), Some("x"), Some("txt"), false),
        entry("/a/x/2.txt", 300, Some("a"), Some("x"), Some("txt"), false),
        entry("/a/3.gz", 2048, Some("a"), None, Some("gz"), true),
        entry("/b/y/4.lst", 50, Some("b"), Some("y"), Some("lst"), false),
        entry("/c/5", 50, None, Some("y"), None, false),
    ] {
        upsert(&mut index, &e).unwrap();
    }
    index
}

fn pairs(v: &[Stat]) -> Vec<(&str, u64)> {
    v.iter().map(|s| (s.label.as_str(), s.count)).collect()
}

#[test]
fn counts_by_column() {
    let index = sample_index();
    assert_eq!(pairs(&query_counts(&index, StatField::Repository)), vec![("a", 3), ("b", 1), ("unknown", 1)]);
    assert_eq!(pairs(&query_counts(&index, StatField::Category)), vec![("x", 2), ("y", 2), (".", 1)]);
    assert_eq!(pairs(&query_counts(&index, StatField::Extension)), vec![("txt", 2), ("gz", 1), ("lst", 1), ("none", 1)]);
}

#[test]
fn count_by_keeps_missing_values_apart() {
    let keys = vec![Some("unknown".to_string()), None, Some("k".to_string()), None];
    assert_eq!(pairs(&count_by(&keys, "unknown")), vec![("unknown", 2), ("k", 1), ("unknown", 1)]);
    assert!(count_by(&Vec::new(), "none").is_empty());
}

#[test]
fn largest_files_first() {
    let index = sample_index();
    let l = query_largest(&index);
    let got: Vec<(&str, i64, &str)> = l.iter().map(|x| (x.path.as_str(), x.size_bytes, x.repo.as_str())).collect();
    assert_eq!(
        got,
        vec![("/a/3.gz", 2048, "a"), ("/a/x/2.txt", 300, "a"), ("/a/x/1.txt", 100, "a"), ("/b/y/4.lst", 50, "b"), ("/c/5", 50, "unknown")]
    );
    let mut big = Index::new();
    for i in 0..25 {
        upsert(&mut big, &entry(&format!("/r/{:02}.txt", i), i, Some("r"), None, None, false)).unwrap();
    }
    let l = query_largest(&big);
    assert_eq!(l.len(), 20);
    assert_eq!(l[0].size_bytes, 24);
    assert_eq!(l[19].size_bytes, 5);
}

#[test]
fn overview_figures() {
    let index = sample_index();
    let g = general_stats(&index).unwrap();
    assert_eq!(g.repositories_count, 2);
    assert_eq!(g.wordlists_count, 5);
    assert_eq!(g.total_disk_usage, 2548);
    assert_eq!(g.compressed_count, 1);
    assert_eq!(g.text_count, 4);
    let text = render_overview(&g);
    let expected = format!(
        "Number of repositories:      2\nNumber of indexed wordlists: 5\nTotal disk usage:            2.5 KB\nNumber of compressed files:  1\nNumber of indexed text files: 4\n\nRepository Breakdown:\n{}\nCategory Breakdown:\n{}",
        reference_plain(&["Repository", "Files"], &[vec!["a".into(), "3".into()], vec!["b".into(), "1".into()], vec!["unknown".into(), "1".into()]]),
        reference_plain(&["Category", "Files"], &[vec!["x".into(), "2".into()], vec!["y".into(), "2".into()], vec![".".into(), "1".into()]]),
    );
    assert_eq!(text, expected);
}

#[test]
fn overview_of_an_empty_index() {
    let g = general_stats(&Index::new()).unwrap();
    assert_eq!((g.repositories_count, g.wordlists_count, g.total_disk_usage), (0, 0, 0));
    assert!(render_overview(&g).contains("Total disk usage:            0 B\n"));
}

#[test]
fn total_beyond_i64_is_an_error() {
    let mut index = Index::new();
    upsert(&mut index, &entry("/a", i64::MAX, None, None, None, false)).unwrap();
    upsert(&mut index, &entry("/b", 1, None, None, None, false)).unwrap();
    assert_eq!(general_stats(&index), Err(WlError::Db("integer overflow".to_string())));
    assert!(matches!(run_stats(&index, false, false, false, false), Err(_)));
    assert!(matches!(run_stats(&index, true, false, false, false), Ok(StatsReport::Repositories(_))));
}

#[test]
fn flags_choose_the_report() {
    let index = sample_index();
    assert!(matches!(run_stats(&index, true, true, true, true), Ok(StatsReport::Repositories(_))));
    assert!(matches!(run_stats(&index, false, true, true, true), Ok(StatsReport::Categories(_))));
    assert!(matches!(run_stats(&index, false, false, true, true), Ok(StatsReport::Largest(_))));
    assert!(matches!(run_stats(&index, false, false, false, true), Ok(StatsReport::Extensions(_))));
    assert!(matches!(run_stats(&index, false, false, false, false), Ok(StatsReport::Overview(_))));
    let r = run_stats(&index, false, false, false, true).unwrap();
    assert_eq!(
        render_stats(&r),
        reference_plain(
            &["Extension", "Files"],
            &[vec!["txt".into(), "2".into()], vec!["gz".into(), "1".into()], vec!["lst".into(), "1".into()], vec!["none".into(), "1".into()]]
        )
    );
}

#[test]
fn tables_match_the_layout() {
    let stats = vec![Stat { label: "SecLists".to_string(), count: 6483 }, Stat { label: "é".to_string(), count: 1 }];
    let rows: Vec<Vec<String>> = stats.iter().map(|s| vec![s.label.clone(), s.count.to_string()]).collect();
    assert_eq!(render_counts("Repository", &stats), reference_plain(&["Repository", "Files"], &rows));
    let index = sample_index();
    let l = query_largest(&index);
    let rows: Vec<Vec<String>> = vec![
        vec!["3.gz".into(), "2.0 KB".into(), "a".into(), "/a/3.gz".into()],
        vec!["2.txt".into(), "300 B".into(), "a".into(), "/a/x/2.txt".into()],
        vec!["1.txt".into(), "100 B".into(), "a".into(), "/a/x/1.txt".into()],
        vec!["4.lst".into(), "50 B".into(), "b".into(), "/b/y/4.lst".into()],
        vec!["5".into(), "50 B".into(), "unknown".into(), "/c/5".into()],
    ];
    assert_eq!(render_largest(&l), reference_plain(&["FILENAME", "SIZE", "REPOSITORY", "PATH"], &rows));
    let h = vec!["A".to_string(), "B".to_string()];
    assert_eq!(format_plain_table(&h, &Vec::new()), "A  B\n-  -\n");
    assert_eq!(format_plain_table(&Vec::new(), &Vec::new()), "");
}
