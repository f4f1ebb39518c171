use wl::db::WordlistEntry;
use wl::error::WlError;
use wl::output::{format_size, format_table, json_entries, render_entries, render_fuzzy, truncate, OutputMode};
use wl::search::FuzzyResult;

// The size text as the float formatting of the command line tool computes it.
fn float_size(bytes: i64) -> String {
    const KB: f64 = 1024.0;
    const MB: f64 = 1024.0 * 1024.0;
    const GB: f64 = 1024.0 * 1024.0 * 1024.0;
    let b = bytes as f64;
    if b >= GB {
        format!("{:.1} GB", b / GB)
    } else if b >= MB {
        format!("{:.1} MB", b / MB)
    } else if b >= KB {
        format!("{:.1} KB", b / KB)
    } else {
        format!("{} B", bytes)
    }
}

fn char_truncate(s: &str, max: usize) -> String {
    if max == 0 {
        return String::new();
    }
    let chars: Vec<char> = s.chars().collect();
    if chars.len() <= max {
        s.to_string()
    } else {
        let cut: String = chars[..max.saturating_sub(1)].iter().collect();
        format!("{}…", cut)
    }
}

// The table layout of the command line tool, written to a string.
fn reference_table(headers: &[&str], rows: &[Vec<String>], caps: &[usize], term_w: usize) -> String {
    let mut out = String::new();
    let n = headers.len();
    let sep = 2usize;
    let mut w: Vec<usize> = headers.iter().enumerate().map(|(i, h)| h.len().min(caps[i])).collect();
    for row in rows {
        for (i, cell) in row.iter().enumerate() {
            let x = cell.len().min(caps[i]);
            if x > w[i] {
                w[i] = x;
            }
        }
    }
    let fixed: usize = w[..n - 1].iter().sum::<usize>() + sep * (n - 1);
    w[n - 1] = term_w.saturating_sub(fixed + sep).max(20);
    for (i, h) in headers.iter().enumerate() {
        if i == n - 1 {
            out.push_str(h);
        } else {
            out.push_str(&format!("{:<width$}{}", h, " ".repeat(sep), width = w[i]));
        }
    }
    out.push('\n');
    for (i, &x) in w.iter().enumerate() {
        let total = if i == n - 1 { x } else { x + sep };
        out.push_str(&"─".repeat(total));
    }
    out.push('\n');
    for row in rows {
        for (i, cell) in row.iter().enumerate() {
            let t = char_truncate(cell, w[i]);
            if i == n - 1 {
                out.push_str(&t);
            } else {
                out.push_str(&format!("{:<width$}{}", t, " ".repeat(sep), width = w[i]));
            }
        }
        out.push('\n');
    }
    out
}

fn entry(id: Option<i64>, filename: &str, size: i64, repo: Option<&str>, cat: Option<&str>, path: &str) -> WordlistEntry {
    WordlistEntry {
        id,
        filename: filename.to_string(),
        stem: filename.to_string(),
        path: path.to_string(),
        extension: None,
        size_bytes: size,
        source_repo: repo.map(|s| s.to_string()),
        category: cat.map(|s| s.to_string()),
        compressed: false,
        line_count: None,
        mtime: 0,
        last_indexed: 0,
        sha256: None,
    }
}

#[test]
fn format_size_examples() {
    assert_eq!(format_size(0), "0 B");
    assert_eq!(format_size(1023), "1023 B");
    assert_eq!(format_size(1024), "1.0 KB");
    assert_eq!(format_size(1536), "1.5 KB");
    assert_eq!(format_size(1048576), "1.0 MB");
    assert_eq!(format_size(1073741824), "1.0 GB");
    assert_eq!(format_size(139921507), "133.4 MB");
    assert_eq!(format_size(-7), "-7 B");
}

#[test]
fn format_size_agrees_with_float_formatting() {
    let mut values: Vec<i64> = vec![0, 1, 999, 1023, 1024, 1025, 1075, 1076, 1126, 1127, 10240, 1048575, 1048576];
    let mut x: i64 = 1;
    while x < (1i64 << 50) {
        values.push(x);
        values.push(x * 3 + 17);
        values.push(x * 7 - 1);
        x = x * 5 + 3;
    }
    for k in 0..2000i64 {
        values.push(k * 523);
        values.push(1048576 + k * 104857);
        values.push(1073741824 + k * 53687091);
    }
    for v in values {
        assert_eq!(format_size(v), float_size(v), "{v}");
    }
}

#[test]
fn truncate_examples() {
    assert_eq!(truncate("hello", 0), "");
    assert_eq!(truncate("hello", 5), "hello");
    assert_eq!(truncate("hello", 4), "hel…");
    assert_eq!(truncate("hello", 1), "…");
    assert_eq!(truncate("héllo wörld", 4), "hél…");
    assert_eq!(truncate("", 3), "");
}

#[test]
fn output_mode_from_flags() {
    assert_eq!(OutputMode::from_flags(false, false), Ok(OutputMode::Plain));
    assert_eq!(OutputMode::from_flags(false, true), Ok(OutputMode::Table));
    assert_eq!(OutputMode::from_flags(true, false), Ok(OutputMode::Json));
    let err = OutputMode::from_flags(true, true).unwrap_err();
    assert_eq!(err, WlError::Usage("--json and --table cannot be used together".to_string()));
    assert_eq!(err.exit_code(), 2);
    assert_eq!(err.message(), "Usage error: --json and --table cannot be used together");
}

#[test]
fn plain_entries_are_paths() {
    let es = vec![
        entry(Some(1), "a.txt", 1, None, None, "/r/a.txt"),
        entry(Some(2), "b.txt", 1, None, None, "/r/b.txt"),
    ];
    assert_eq!(render_entries(&es, OutputMode::Plain, 80), Some("/r/a.txt\n/r/b.txt\n".to_string()));
    assert_eq!(render_entries(&es, OutputMode::Json, 80), None);
    assert_eq!(render_entries(&Vec::new(), OutputMode::Plain, 80), Some(String::new()));
}

#[test]
fn entry_table_matches_the_layout() {
    let es = vec![
        entry(Some(12), "common.txt", 6, Some("repo"), Some("Discovery/Web-Content"), "/t/repo/Discovery/Web-Content/common.txt"),
        entry(None, "a-very-long-file-name-that-goes-past-the-cap-of-the-column.txt", 2_000_000, None, None, "/p"),
    ];
    let rows: Vec<Vec<String>> = es
        .iter()
        .map(|e| {
            vec![
                e.id.unwrap_or(0).to_string(),
                e.filename.clone(),
                float_size(e.size_bytes),
                e.source_repo.clone().unwrap_or_else(|| ".".to_string()),
                e.category.clone().unwrap_or_else(|| ".".to_string()),
                e.path.clone(),
            ]
        })
        .collect();
    let headers = ["ID", "FILENAME", "SIZE", "REPO", "CATEGORY", "PATH"];
    let caps = [20, 38, 9, 15, 32, usize::MAX];
    for term in [0usize, 40, 120, 200] {
        assert_eq!(
            render_entries(&es, OutputMode::Table, term),
            Some(reference_table(&headers, &rows, &caps, term)),
            "width {term}"
        );
    }
    let table = render_entries(&es, OutputMode::Table, 120).unwrap();
    let id = table.lines().find(|l| l.contains("common.txt")).and_then(|l| l.split_whitespace().next());
    assert_eq!(id, Some("12"));
}

#[test]
fn entry_table_keeps_long_ids_whole() {
    let es = vec![
        entry(Some(1234567), "a.txt", 10, Some("r"), None, "/r/a.txt"),
        entry(Some(i64::MIN), "b.txt", 10, None, None, "/b.txt"),
        entry(Some(i64::MAX), "c.txt", 10, None, None, "/c.txt"),
    ];
    for term in [0usize, 60, 200] {
        let table = render_entries(&es, OutputMode::Table, term).unwrap();
        let lines: Vec<&str> = table.lines().collect();
        assert_eq!(lines.len(), 2 + es.len());
        for (i, e) in es.iter().enumerate() {
            let first = lines[i + 2].split_whitespace().next();
            assert_eq!(first, Some(e.id.unwrap().to_string().as_str()), "width {term}");
            assert!(lines[i + 2].starts_with(&format!("{}  ", e.id.unwrap())));
        }
    }
}

#[test]
fn fuzzy_output() {
    let rs = vec![
        FuzzyResult { score: 120, filename: "raft.txt".to_string(), repo: "r".to_string(), path: "/r/raft.txt".to_string() },
        FuzzyResult { score: -3, filename: "x".to_string(), repo: "unknown".to_string(), path: "/x".to_string() },
    ];
    assert_eq!(render_fuzzy(&rs, OutputMode::Plain, 80), Some("/r/raft.txt\n/x\n".to_string()));
    assert_eq!(render_fuzzy(&rs, OutputMode::Json, 80), None);
    let rows: Vec<Vec<String>> =
        rs.iter().map(|r| vec![r.score.to_string(), r.filename.clone(), r.repo.clone(), r.path.clone()]).collect();
    assert_eq!(
        render_fuzzy(&rs, OutputMode::Table, 100),
        Some(reference_table(&["SCORE", "FILENAME", "REPO", "PATH"], &rows, &[6, 38, 15, usize::MAX], 100))
    );
}

#[test]
fn generic_table_layout() {
    let headers = vec!["NAME".to_string(), "VALUE".to_string(), "NOTE".to_string()];
    let rows = vec![
        vec!["α".to_string(), "1".to_string(), "short".to_string()],
        vec!["longer name".to_string(), "22".to_string(), "x".repeat(50)],
    ];
    let caps = vec![5usize, 10, usize::MAX];
    assert_eq!(
        format_table(&headers, &rows, &caps, 30),
        reference_table(&["NAME", "VALUE", "NOTE"], &rows, &[5, 10, usize::MAX], 30)
    );
    assert_eq!(format_table(&Vec::new(), &Vec::new(), &Vec::new(), 30), "");
}

#[test]
fn json_records() {
    let es = vec![entry(Some(1), "a.txt", 5, None, None, "/a"), entry(Some(2), "b.txt", 6, Some("r"), None, "/b")];
    let js = json_entries(&es);
    assert_eq!(js.len(), 2);
    assert_eq!((js[0].filename.as_str(), js[0].path.as_str(), js[0].repo.as_str(), js[0].size_bytes), ("a.txt", "/a", "unknown", 5));
    assert_eq!(js[1].repo, "r");
}
