use wl::db::{add_tag_to_wordlist, upsert, Index, WordlistEntry};
use wl::error::WlError;
use wl::search::{
    exact_lookup, fuzzy_search, fuzzy_search_tagged, lookup, rank_fuzzy, resolution_note, resolve_lookup, FuzzyResult,
    Resolution,
};

fn entry(path: &str, filename: &str, repo: Option<&str>) -> WordlistEntry {
    let stem = filename.rsplit_once('.').map(|(s, _)| s).unwrap_or(filename).to_string();
    WordlistEntry {
        id: None,
        filename: filename.to_string(),
        stem,
        path: path.to_string(),
        extension: Some("txt".to_string()),
        size_bytes: 1,
        source_repo: repo.map(|r| r.to_string()),
        category: Some(".".to_string()),
        compressed: false,
        line_count: None,
        mtime: 0,
        last_indexed: 0,
        sha256: None,
    }
}

fn result(score: i64, path: &str) -> FuzzyResult {
    FuzzyResult { score, filename: "f".to_string(), repo: "r".to_string(), path: path.to_string() }
}

fn resolution_index() -> Index {
    let mut index = Index::new();
    upsert(&mut index, &entry("/t/repo1/dup.txt", "dup.txt", Some("repo1"))).unwrap();
    upsert(&mut index, &entry("/t/repo2/dup.txt", "dup.txt", Some("repo2"))).unwrap();
    upsert(&mut index, &entry("/t/repo1/fuzzy_match_target.txt", "fuzzy_match_target.txt", Some("repo1"))).unwrap();
    index
}

#[test]
fn rank_orders_by_score_then_path_and_keeps_ten() {
    let entries: Vec<WordlistEntry> =
        (0..12).map(|i| entry(&format!("/p/{:02}.txt", i), &format!("{:02}.txt", i), None)).collect();
    let mut scores: Vec<Option<i64>> = (0..12).map(|i| Some(i as i64 % 3)).collect();
    scores[5] = None;
    let r = rank_fuzzy(&entries, &scores);
    let got: Vec<(i64, &str)> = r.iter().map(|x| (x.score, x.path.as_str())).collect();
    assert_eq!(
        got,
        vec![
            (2, "/p/02.txt"),
            (2, "/p/08.txt"),
            (2, "/p/11.txt"),
            (1, "/p/01.txt"),
            (1, "/p/04.txt"),
            (1, "/p/07.txt"),
            (1, "/p/10.txt"),
            (0, "/p/00.txt"),
            (0, "/p/03.txt"),
            (0, "/p/06.txt"),
        ]
    );
    assert_eq!(r[0].repo, "unknown");
}

#[test]
fn fuzzy_search_scores_file_names_with_skim() {
    let index = resolution_index();
    let r = fuzzy_search(&index, "fuzzy_match_targ");
    assert_eq!(r.len(), 1);
    assert_eq!(r[0].path, "/t/repo1/fuzzy_match_target.txt");
    assert_eq!(r[0].repo, "repo1");
    assert!(r[0].score >= 50);
    let r = fuzzy_search(&index, "dup");
    let paths: Vec<&str> = r.iter().map(|x| x.path.as_str()).collect();
    assert_eq!(paths, vec!["/t/repo1/dup.txt", "/t/repo2/dup.txt"]);
    assert!(fuzzy_search(&index, "zzz").is_empty());
}

#[test]
fn tagged_fuzzy_search_keeps_tagged_wordlists() {
    let mut index = resolution_index();
    let all = exact_lookup(&index, "dup");
    add_tag_to_wordlist(&mut index, all[1].id.unwrap(), "webcontent").unwrap();
    let r = fuzzy_search_tagged(&index, "dup", Some("xss,webcontent"));
    let paths: Vec<&str> = r.iter().map(|x| x.path.as_str()).collect();
    assert_eq!(paths, vec!["/t/repo2/dup.txt"]);
    assert_eq!(fuzzy_search_tagged(&index, "dup", None).len(), 2);
    assert!(fuzzy_search_tagged(&index, "dup", Some("passwords")).is_empty());
}

#[test]
fn several_exact_matches_resolve_to_the_first_with_a_note() {
    let index = resolution_index();
    let r = lookup(&index, "dup");
    assert_eq!(r, Resolution::Exact { path: "/t/repo1/dup.txt".to_string(), others: 1 });
    let note = resolution_note(&r).unwrap();
    assert!(note.contains("note: also matches"));
    assert_eq!(note, "note: also matches 1 other wordlist(s); use `wl info <name>` to list them");
}

#[test]
fn a_clear_fuzzy_winner_stands_in() {
    let index = resolution_index();
    let r = lookup(&index, "fuzzy_match_targ");
    assert_eq!(
        r,
        Resolution::Fuzzy {
            path: "/t/repo1/fuzzy_match_target.txt".to_string(),
            filename: "fuzzy_match_target.txt".to_string(),
        }
    );
    assert_eq!(resolution_note(&r).unwrap(), "note: fuzzy match: fuzzy_match_target.txt");
}

#[test]
fn no_match_is_not_found() {
    let index = resolution_index();
    let r = lookup(&index, "nonexistent");
    assert_eq!(r, Resolution::NotFound);
    assert_eq!(resolution_note(&r), None);
    assert_eq!(WlError::NotFound("nonexistent".to_string()).message(), "Wordlist not found: nonexistent");
}

#[test]
fn single_exact_match_has_no_note() {
    let index = resolution_index();
    let r = lookup(&index, "FUZZY_MATCH_TARGET");
    assert_eq!(r, Resolution::Exact { path: "/t/repo1/fuzzy_match_target.txt".to_string(), others: 0 });
    assert_eq!(resolution_note(&r), None);
}

#[test]
fn fuzzy_results_need_a_clear_lead() {
    let exact: Vec<WordlistEntry> = Vec::new();
    let close = vec![result(80, "/a"), result(70, "/b")];
    assert_eq!(resolve_lookup(&exact, &close), Resolution::NotFound);
    let clear = vec![result(80, "/a"), result(60, "/b")];
    assert!(matches!(resolve_lookup(&exact, &clear), Resolution::Fuzzy { ref path, .. } if path == "/a"));
    let weak = vec![result(49, "/a")];
    assert_eq!(resolve_lookup(&exact, &weak), Resolution::NotFound);
    let single = vec![result(50, "/a")];
    assert!(matches!(resolve_lookup(&exact, &single), Resolution::Fuzzy { .. }));
    assert_eq!(resolve_lookup(&exact, &Vec::new()), Resolution::NotFound);
}
