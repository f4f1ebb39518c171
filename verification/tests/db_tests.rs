use wl::db::{
    add_tag_to_wordlist, delete_entry, delete_missing, get_all, get_by_name, get_entry_by_path, get_tag_links,
    get_tags_for_wordlist, known_tags, load_entry, load_link, pending_migrations, register_tag, remove_tag_from_wordlist,
    set_tags_for_wordlist, upsert, Index, WordlistEntry,
};
use wl::error::WlError;

fn entry(path: &str, filename: &str, stem: &str) -> WordlistEntry {
    WordlistEntry {
        id: None,
        filename: filename.to_string(),
        stem: stem.to_string(),
        path: path.to_string(),
        extension: Some("txt".to_string()),
        size_bytes: 10,
        source_repo: Some("repo".to_string()),
        category: Some(".".to_string()),
        compressed: false,
        line_count: Some(1),
        mtime: 100,
        last_indexed: 200,
        sha256: None,
    }
}

fn strings(v: &[&str]) -> Vec<String> {
    v.iter().map(|s| s.to_string()).collect()
}

#[test]
fn upsert_gives_new_paths_increasing_ids() {
    let mut index = Index::new();
    assert_eq!(upsert(&mut index, &entry("/r/b.txt", "b.txt", "b")), Ok(1));
    assert_eq!(upsert(&mut index, &entry("/r/a.txt", "a.txt", "a")), Ok(2));
    let all = get_all(&index);
    let paths: Vec<&str> = all.iter().map(|e| e.path.as_str()).collect();
    assert_eq!(paths, vec!["/r/a.txt", "/r/b.txt"]);
    assert_eq!(all[0].id, Some(2));
    assert_eq!(all[1].id, Some(1));
}

#[test]
fn upsert_of_known_path_keeps_id_and_tags() {
    let mut index = Index::new();
    let id = upsert(&mut index, &entry("/r/common.txt", "common.txt", "common")).unwrap();
    upsert(&mut index, &entry("/r/other.txt", "other.txt", "other")).unwrap();
    add_tag_to_wordlist(&mut index, id, "my-custom").unwrap();
    let mut changed = entry("/r/common.txt", "common.txt", "common");
    changed.size_bytes = 99;
    changed.mtime = 555;
    assert_eq!(upsert(&mut index, &changed), Ok(id));
    let stored = get_entry_by_path(&index, "/r/common.txt").unwrap();
    assert_eq!(stored.id, Some(id));
    assert_eq!(stored.size_bytes, 99);
    assert_eq!(stored.mtime, 555);
    assert_eq!(get_tags_for_wordlist(&index, id), strings(&["my-custom"]));
    assert_eq!(get_all(&index).len(), 2);
}

#[test]
fn read_after_upsert_gives_the_entry_back() {
    let mut index = Index::new();
    let e = entry("/r/x.lst", "x.lst", "x");
    let id = upsert(&mut index, &e).unwrap();
    let mut expected = e.clone();
    expected.id = Some(id);
    assert_eq!(get_entry_by_path(&index, "/r/x.lst"), Some(expected));
    assert_eq!(get_entry_by_path(&index, "/r/y.lst"), None);
}

#[test]
fn upsert_when_ids_are_exhausted_is_refused() {
    let mut index = Index::new();
    let mut e = entry("/r/a.txt", "a.txt", "a");
    e.id = Some(i64::MAX);
    load_entry(&mut index, e).unwrap();
    let r = upsert(&mut index, &entry("/r/b.txt", "b.txt", "b"));
    assert_eq!(r, Err(WlError::Db("database or disk is full".to_string())));
    assert_eq!(get_all(&index).len(), 1);
}

#[test]
fn get_by_name_matches_file_name_or_stem_ignoring_case() {
    let mut index = Index::new();
    upsert(&mut index, &entry("/r2/rockyou.txt", "rockyou.txt", "rockyou")).unwrap();
    upsert(&mut index, &entry("/r1/RockYou.txt", "RockYou.txt", "RockYou")).unwrap();
    upsert(&mut index, &entry("/r1/rock.txt", "rock.txt", "rock")).unwrap();
    let by_stem: Vec<String> = get_by_name(&index, "ROCKYOU").into_iter().map(|e| e.path).collect();
    assert_eq!(by_stem, strings(&["/r1/RockYou.txt", "/r2/rockyou.txt"]));
    let by_name: Vec<String> = get_by_name(&index, "rock.TXT").into_iter().map(|e| e.path).collect();
    assert_eq!(by_name, strings(&["/r1/rock.txt"]));
    assert!(get_by_name(&index, "roc").is_empty());
}

#[test]
fn manual_tags_survive_automatic_retagging() {
    let mut index = Index::new();
    let id = upsert(&mut index, &entry("/r/a.txt", "a.txt", "a")).unwrap();
    set_tags_for_wordlist(&mut index, id, &strings(&["web", "discovery"]), false).unwrap();
    add_tag_to_wordlist(&mut index, id, "my-custom").unwrap();
    set_tags_for_wordlist(&mut index, id, &strings(&["dns"]), false).unwrap();
    assert_eq!(get_tags_for_wordlist(&index, id), strings(&["my-custom", "dns"]));
    assert_eq!(
        get_tag_links(&index, id),
        vec![("my-custom".to_string(), true), ("dns".to_string(), false)]
    );
}

#[test]
fn manual_tagging_keeps_existing_tags() {
    let mut index = Index::new();
    let id = upsert(&mut index, &entry("/r/a.txt", "a.txt", "a")).unwrap();
    set_tags_for_wordlist(&mut index, id, &strings(&["web"]), false).unwrap();
    set_tags_for_wordlist(&mut index, id, &strings(&["mine", "web"]), true).unwrap();
    assert_eq!(
        get_tag_links(&index, id),
        vec![("web".to_string(), true), ("mine".to_string(), true)]
    );
    assert_eq!(known_tags(&index), strings(&["web", "mine"]));
}

#[test]
fn removed_tag_is_gone_and_others_stay() {
    let mut index = Index::new();
    let id = upsert(&mut index, &entry("/r/a.txt", "a.txt", "a")).unwrap();
    set_tags_for_wordlist(&mut index, id, &strings(&["xss", "fuzzing", "injection"]), false).unwrap();
    remove_tag_from_wordlist(&mut index, id, "fuzzing").unwrap();
    assert_eq!(get_tags_for_wordlist(&index, id), strings(&["xss", "injection"]));
}

#[test]
fn removing_an_unknown_tag_is_an_error() {
    let mut index = Index::new();
    let id = upsert(&mut index, &entry("/r/a.txt", "a.txt", "a")).unwrap();
    let r = remove_tag_from_wordlist(&mut index, id, "never-seen");
    assert_eq!(r, Err(WlError::Db("Query returned no rows".to_string())));
    register_tag(&mut index, "seen");
    assert_eq!(remove_tag_from_wordlist(&mut index, id, "seen"), Ok(()));
}

#[test]
fn tags_of_an_unknown_id_are_empty() {
    let index = Index::new();
    assert!(get_tags_for_wordlist(&index, 7).is_empty());
}

#[test]
fn delete_entry_removes_the_path_only() {
    let mut index = Index::new();
    upsert(&mut index, &entry("/r/a.txt", "a.txt", "a")).unwrap();
    upsert(&mut index, &entry("/r/b.txt", "b.txt", "b")).unwrap();
    delete_entry(&mut index, "/r/a.txt").unwrap();
    delete_entry(&mut index, "/r/zzz.txt").unwrap();
    let paths: Vec<String> = get_all(&index).into_iter().map(|e| e.path).collect();
    assert_eq!(paths, strings(&["/r/b.txt"]));
}

#[test]
fn delete_missing_keeps_listed_paths() {
    let mut index = Index::new();
    for p in ["/r/a.txt", "/r/b.txt", "/r/c.txt"] {
        upsert(&mut index, &entry(p, "x.txt", "x")).unwrap();
    }
    delete_missing(&mut index, &strings(&["/r/c.txt", "/r/a.txt", "/elsewhere"])).unwrap();
    let paths: Vec<String> = get_all(&index).into_iter().map(|e| e.path).collect();
    assert_eq!(paths, strings(&["/r/a.txt", "/r/c.txt"]));
    delete_missing(&mut index, &[]).unwrap();
    assert!(get_all(&index).is_empty());
}

#[test]
fn load_entry_refuses_repeats_and_missing_ids() {
    let mut index = Index::new();
    let mut a = entry("/r/a.txt", "a.txt", "a");
    a.id = Some(5);
    assert!(load_entry(&mut index, a.clone()).is_ok());
    assert!(load_entry(&mut index, a.clone()).is_err());
    let mut same_id = entry("/r/b.txt", "b.txt", "b");
    same_id.id = Some(5);
    assert!(load_entry(&mut index, same_id).is_err());
    assert!(load_entry(&mut index, entry("/r/c.txt", "c.txt", "c")).is_err());
    assert_eq!(upsert(&mut index, &entry("/r/d.txt", "d.txt", "d")), Ok(6));
}

#[test]
fn pending_migrations_follow_the_stored_version() {
    assert_eq!(pending_migrations(0), vec![1, 2, 3, 4]);
    assert_eq!(pending_migrations(-3), vec![1, 2, 3, 4]);
    assert_eq!(pending_migrations(2), vec![3, 4]);
    assert_eq!(pending_migrations(4), Vec::<u32>::new());
    assert_eq!(pending_migrations(9), Vec::<u32>::new());
}

#[test]
fn stored_links_are_restored_with_their_flags() {
    let mut index = Index::new();
    let mut a = entry("/r/a.txt", "a.txt", "a");
    a.id = Some(4);
    load_entry(&mut index, a).unwrap();
    load_link(&mut index, 4, "web", false);
    load_link(&mut index, 4, "mine", true);
    load_link(&mut index, 4, "web", false);
    load_link(&mut index, 9, "orphan", true);
    assert_eq!(
        get_tag_links(&index, 4),
        vec![("web".to_string(), false), ("mine".to_string(), true)]
    );
    assert_eq!(known_tags(&index), strings(&["web", "mine", "orphan"]));
    set_tags_for_wordlist(&mut index, 4, &strings(&["dns"]), false).unwrap();
    assert_eq!(get_tags_for_wordlist(&index, 4), strings(&["mine", "dns"]));
}

#[test]
fn manual_tags_stay_manual_when_the_automatic_pass_names_them() {
    let mut index = Index::new();
    let id = upsert(&mut index, &entry("/r/a.txt", "a.txt", "a")).unwrap();
    add_tag_to_wordlist(&mut index, id, "web").unwrap();
    set_tags_for_wordlist(&mut index, id, &strings(&["web", "discovery"]), false).unwrap();
    assert_eq!(
        get_tag_links(&index, id),
        vec![("web".to_string(), true), ("discovery".to_string(), false)]
    );
    set_tags_for_wordlist(&mut index, id, &strings(&["dns"]), false).unwrap();
    assert_eq!(get_tags_for_wordlist(&index, id), strings(&["web", "dns"]));
    set_tags_for_wordlist(&mut index, id, &[], false).unwrap();
    assert_eq!(get_tag_links(&index, id), vec![("web".to_string(), true)]);
}
