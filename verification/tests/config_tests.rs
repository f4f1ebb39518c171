use wl::config::{add_repo, default_config, expand_tilde, paths_equal, remove_repo, render_config_list, Config};

fn config(repos: &[&str]) -> Config {
    Config { repos: repos.iter().map(|s| s.to_string()).collect(), db_path: "~/db".to_string() }
}

#[test]
fn default_config_uses_the_environment_path() {
    let c = default_config(None);
    assert!(c.repos.is_empty());
    assert_eq!(c.db_path, "~/.local/share/wl/index.db");
    assert_eq!(default_config(Some("/tmp/x.db".to_string())).db_path, "/tmp/x.db");
}

#[test]
fn tilde_expansion() {
    assert_eq!(expand_tilde("~", Some("/home/u")), "/home/u");
    assert_eq!(expand_tilde("~/.local/share/wl/index.db", Some("/home/u")), "/home/u/.local/share/wl/index.db");
    assert_eq!(expand_tilde("~/x", Some("/home/u/")), "/home/u/x");
    assert_eq!(expand_tilde("~//abs", Some("/home/u")), "/abs");
    assert_eq!(expand_tilde("~x/y", Some("/home/u")), "~x/y");
    assert_eq!(expand_tilde("/data/index.db", Some("/home/u")), "/data/index.db");
    assert_eq!(expand_tilde("~/x", None), "~/x");
}

#[test]
fn same_paths_compare_by_components() {
    assert!(paths_equal("/a/b", "/a/b/"));
    assert!(paths_equal("/a//b", "/a/./b"));
    assert!(paths_equal("./a", "./a/"));
    assert!(!paths_equal("./a", "a"));
    assert!(!paths_equal("/a", "a"));
    assert!(!paths_equal("/a/b", "/a/c"));
    assert!(!paths_equal("/a/../b", "/b"));
}

#[test]
fn add_repo_skips_the_same_path() {
    let mut c = config(&["/w/a"]);
    assert!(!add_repo(&mut c, "/w/a/".to_string()));
    assert!(add_repo(&mut c, "/w/b".to_string()));
    assert!(!add_repo(&mut c, "/w/b".to_string()));
    assert_eq!(c.repos, vec!["/w/a".to_string(), "/w/b".to_string()]);
    assert_eq!(c.db_path, "~/db");
}

#[test]
fn remove_repo_removes_every_same_path() {
    let mut c = config(&["/w/a", "/w/b", "/w/a/"]);
    assert!(remove_repo(&mut c, "/w/a"));
    assert_eq!(c.repos, vec!["/w/b".to_string()]);
    assert!(!remove_repo(&mut c, "/w/zzz"));
    assert_eq!(c.repos, vec!["/w/b".to_string()]);
}

#[test]
fn removing_what_was_added_restores_the_list() {
    let mut c = config(&["/w/a", "/w/b"]);
    let before = c.clone();
    assert!(add_repo(&mut c, "/w/new".to_string()));
    assert!(remove_repo(&mut c, "/w/new"));
    assert_eq!(c, before);
}

#[test]
fn config_list_text() {
    assert_eq!(
        render_config_list("/home/u/.local/share/wl/index.db", &Vec::new()),
        "Database Path: /home/u/.local/share/wl/index.db\nRepositories:\n  (none)\n"
    );
    assert_eq!(
        render_config_list("/db", &vec!["/w/a".to_string(), "/w/b".to_string()]),
        "Database Path: /db\nRepositories:\n  - /w/a\n  - /w/b\n"
    );
}
