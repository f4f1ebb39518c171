//! The configuration: which repositories are scanned and where the index is kept.
use vstd::prelude::*;
use vstd::string::StringExecFns;
use crate::text::{chars_of, lemma_filter_all, lemma_filter_push, push_str, segments, split_on, str_eq, views};

verus! {

/// The configuration.
#[derive(Clone, PartialEq, Eq, Debug)]
pub struct Config {
    /// The repositories to scan, as paths.
    pub repos: Vec<String>,
    /// Where the index is kept; may start with "~".
    pub db_path: String,
}

/// Where the index is kept unless the environment says otherwise.
pub open spec fn default_db_path() -> Seq<char> {
    "~/.local/share/wl/index.db"@
}

/// The configuration written on first use: no repositories, and the index where `WL_DB_PATH`
/// says, else at the default place.
pub fn default_config(env_db_path: Option<String>) -> (r: Config)
    ensures
        r.repos@.len() == 0,
        r.db_path@ == (match env_db_path {
            Some(p) => p@,
            None => default_db_path(),
        }),
{
    let db_path = match env_db_path {
        Some(p) => p,
        None => String::from_str("~/.local/share/wl/index.db"),
    };
    Config { repos: Vec::new(), db_path }
}

/// Whether a path is absolute (starts at the root).
pub open spec fn is_absolute(p: Seq<char>) -> bool {
    p.len() > 0 && p[0] == '/'
}

/// `PathBuf::join`: an absolute `rel` replaces `base`; otherwise `rel` is appended, with a
/// '/' between them unless `base` is empty or already ends in one.
pub open spec fn join_path(base: Seq<char>, rel: Seq<char>) -> Seq<char> {
    if is_absolute(rel) {
        rel
    } else if base.len() > 0 && base.last() != '/' {
        base + seq!['/'] + rel
    } else {
        base + rel
    }
}

/// A leading "~" made the home directory: "~" is the home directory, "~/x" is x under it;
/// anything else, or no known home, leaves the path as it is.
pub open spec fn tilde_expanded(path: Seq<char>, home: Option<Seq<char>>) -> Seq<char> {
    match home {
        Some(h) => if path == "~"@ {
            h
        } else if path.len() >= 2 && path[0] == '~' && path[1] == '/' {
            join_path(h, path.skip(2))
        } else {
            path
        },
        None => path,
    }
}

/// Expands a leading "~" with the given home directory.
pub fn expand_tilde(path: &str, home: Option<&str>) -> (r: String)
    ensures
        r@ == tilde_expanded(
            path@,
            match home {
                Some(h) => Some(h@),
                None => None,
            },
        ),
{
    let h = match home {
        Some(h) => h,
        None => {
            return path.to_owned();
        },
    };
    if str_eq(path, "~") {
        return h.to_owned();
    }
    let cs = chars_of(path);
    if cs.len() >= 2 && cs[0] == '~' && cs[1] == '/' {
        let rel = crate::text::substring(&cs, 2, cs.len());
        assert(rel@ =~= path@.skip(2));
        let rc = chars_of(rel.as_str());
        if rc.len() > 0 && rc[0] == '/' {
            return rel;
        }
        let hc = chars_of(h);
        let mut out = h.to_owned();
        if hc.len() > 0 && hc[hc.len() - 1] != '/' {
            push_str(&mut out, "/");
            proof {
                reveal_strlit("/");
            }
        }
        push_str(&mut out, rel.as_str());
        assert(out@ =~= join_path(h@, rel@));
        return out;
    }
    path.to_owned()
}

/// Whether the piece at `i` of a path is a component: empty pieces and "." are not, except
/// a "." at the start of a relative path.
pub open spec fn keeps_part(parts: Seq<Seq<char>>, i: int, rooted: bool) -> bool {
    parts[i].len() > 0 && (parts[i] != "."@ || (i == 0 && !rooted))
}

/// The components of the first `n` pieces of a path.
pub open spec fn kept_parts(parts: Seq<Seq<char>>, n: int, rooted: bool) -> Seq<Seq<char>>
    decreases n,
{
    if n <= 0 {
        Seq::empty()
    } else {
        let before = kept_parts(parts, n - 1, rooted);
        if keeps_part(parts, n - 1, rooted) {
            before.push(parts[n - 1])
        } else {
            before
        }
    }
}

/// A path as `Path::components` reads it: whether it starts at the root, and its components.
pub open spec fn components(p: Seq<char>) -> (bool, Seq<Seq<char>>) {
    let parts = segments(p, '/');
    (is_absolute(p), kept_parts(parts, parts.len() as int, is_absolute(p)))
}

/// Two paths are the same path when their components are (as `PathBuf`'s `==`).
pub open spec fn same_path(a: Seq<char>, b: Seq<char>) -> bool {
    components(a) == components(b)
}

/// The components of a path.
fn components_exec(p: &str) -> (r: (bool, Vec<String>))
    ensures
        r.0 == components(p@).0,
        views(r.1@) == components(p@).1,
{
    let cs = chars_of(p);
    let rooted = cs.len() > 0 && cs[0] == '/';
    let parts = split_on(p, '/');
    let mut kept: Vec<String> = Vec::new();
    let mut i: usize = 0;
    while i < parts.len()
        invariant
            i <= parts@.len(),
            rooted == is_absolute(p@),
            views(parts@) == segments(p@, '/'),
            views(kept@) == kept_parts(views(parts@), i as int, rooted),
        decreases parts@.len() - i,
    {
        let ghost before = views(kept@);
        let is_empty = parts[i].as_str().is_empty();
        let is_dot = str_eq(parts[i].as_str(), ".");
        assert(views(parts@)[i as int] == parts@[i as int]@);
        if !is_empty && (!is_dot || (i == 0 && !rooted)) {
            kept.push(parts[i].clone());
            assert(views(kept@) =~= before.push(parts@[i as int]@));
        }
        i = i + 1;
    }
    (rooted, kept)
}

/// Whether two paths are the same path, component by component.
pub fn paths_equal(a: &str, b: &str) -> (r: bool)
    ensures
        r == same_path(a@, b@),
{
    let (ra, ca) = components_exec(a);
    let (rb, cb) = components_exec(b);
    if ra != rb || ca.len() != cb.len() {
        assert(views(ca@).len() == ca@.len() && views(cb@).len() == cb@.len());
        return false;
    }
    let mut i: usize = 0;
    while i < ca.len()
        invariant
            i <= ca@.len(),
            ca@.len() == cb@.len(),
            ra == rb,
            ra == components(a@).0,
            rb == components(b@).0,
            views(ca@) == components(a@).1,
            views(cb@) == components(b@).1,
            forall|k: int| 0 <= k < i ==> ca@[k]@ == cb@[k]@,
        decreases ca@.len() - i,
    {
        if !str_eq(ca[i].as_str(), cb[i].as_str()) {
            assert(views(ca@)[i as int] != views(cb@)[i as int]);
            assert(views(ca@) != views(cb@));
            return false;
        }
        i = i + 1;
    }
    assert(views(ca@) =~= views(cb@));
    assert(components(a@) == components(b@));
    true
}

/// Whether some repository is the same path as `path`.
pub open spec fn has_repo(repos: Seq<String>, path: Seq<char>) -> bool {
    exists|i: int| 0 <= i < repos.len() && same_path(repos[i]@, path)
}

/// The repositories after adding `path`: unchanged when the same path is already there.
pub open spec fn added_repos(repos: Seq<String>, path: String) -> Seq<String> {
    if has_repo(repos, path@) {
        repos
    } else {
        repos.push(path)
    }
}

/// The repositories after removing every one that is the same path as `path`.
pub open spec fn removed_repos(repos: Seq<String>, path: Seq<char>) -> Seq<String> {
    repos.filter(|r: String| !same_path(r@, path))
}

/// Adds a repository unless the same path is already there; tells whether it was added.
pub fn add_repo(config: &mut Config, path: String) -> (changed: bool)
    ensures
        changed == !has_repo(old(config).repos@, path@),
        final(config).repos@ == added_repos(old(config).repos@, path),
        final(config).db_path == old(config).db_path,
{
    let mut i: usize = 0;
    while i < config.repos.len()
        invariant
            i <= config.repos@.len(),
            config.repos@ == old(config).repos@,
            config.db_path == old(config).db_path,
            forall|k: int| 0 <= k < i ==> !same_path(config.repos@[k]@, path@),
        decreases config.repos@.len() - i,
    {
        if paths_equal(config.repos[i].as_str(), path.as_str()) {
            return false;
        }
        i = i + 1;
    }
    config.repos.push(path);
    true
}

/// Removes every repository that is the same path as `path`; tells whether any was.
pub fn remove_repo(config: &mut Config, path: &str) -> (changed: bool)
    ensures
        final(config).repos@ == removed_repos(old(config).repos@, path@),
        changed == (final(config).repos@.len() != old(config).repos@.len()),
        final(config).db_path == old(config).db_path,
{
    let ghost pred = |r: String| !same_path(r@, path@);
    let mut kept: Vec<String> = Vec::new();
    let mut i: usize = 0;
    while i < config.repos.len()
        invariant
            i <= config.repos@.len(),
            pred == (|r: String| !same_path(r@, path@)),
            kept@ == config.repos@.take(i as int).filter(pred),
        decreases config.repos@.len() - i,
    {
        proof {
            lemma_filter_push(config.repos@.take(i as int), config.repos@[i as int], pred);
        }
        assert(config.repos@.take(i + 1) =~= config.repos@.take(i as int).push(config.repos@[i as int]));
        if !paths_equal(config.repos[i].as_str(), path) {
            kept.push(config.repos[i].clone());
        }
        i = i + 1;
    }
    assert(config.repos@.take(i as int) =~= config.repos@);
    let changed = kept.len() != config.repos.len();
    config.repos = kept;
    changed
}

/// A path is the same path as itself.
proof fn lemma_same_path_reflexive(p: Seq<char>)
    ensures
        same_path(p, p),
{
}

/// Removing a repository that was just added, where no repository had the same path,
/// gives back the repositories as they were.
pub proof fn law_remove_undoes_add(repos: Seq<String>, path: String)
    requires
        !has_repo(repos, path@),
    ensures
        removed_repos(added_repos(repos, path), path@) == repos,
{
    let pred = |r: String| !same_path(r@, path@);
    lemma_filter_push(repos, path, pred);
    lemma_same_path_reflexive(path@);
    assert forall|i: int| 0 <= i < repos.len() implies pred(#[trigger] repos[i]) by {
        if same_path(repos[i]@, path@) {
            assert(has_repo(repos, path@));
        }
    }
    lemma_filter_all(repos, pred);
}

/// Adding the same repository twice is adding it once.
pub proof fn law_add_repo_idempotent(repos: Seq<String>, path: String)
    ensures
        added_repos(added_repos(repos, path), path) == added_repos(repos, path),
{
    lemma_same_path_reflexive(path@);
    if !has_repo(repos, path@) {
        let a = repos.push(path);
        assert(a[repos.len() as int] == path);
        assert(has_repo(a, path@));
    }
}

/// After removing a path, no repository is the same path as it.
pub proof fn law_removed_repo_is_gone(repos: Seq<String>, path: Seq<char>)
    ensures
        !has_repo(removed_repos(repos, path), path),
{
    let pred = |r: String| !same_path(r@, path);
    repos.filter_lemma(pred);
}

/// The text of `wl config list`: the index's path, then the repositories or "(none)".
pub open spec fn config_list_text(db_path: Seq<char>, repos: Seq<Seq<char>>) -> Seq<char> {
    "Database Path: "@ + db_path + "\nRepositories:\n"@ + if repos.len() == 0 {
        "  (none)\n"@
    } else {
        repo_lines(repos)
    }
}

/// One "  - <repo>" line per repository.
pub open spec fn repo_lines(repos: Seq<Seq<char>>) -> Seq<char>
    decreases repos.len(),
{
    if repos.len() == 0 {
        Seq::empty()
    } else {
        repo_lines(repos.drop_last()) + "  - "@ + repos.last() + "\n"@
    }
}

/// The text of `wl config list`.
pub fn render_config_list(db_path: &str, repos: &Vec<String>) -> (r: String)
    ensures
        r@ == config_list_text(db_path@, views(repos@)),
{
    let mut s = String::from_str("Database Path: ");
    push_str(&mut s, db_path);
    push_str(&mut s, "\nRepositories:\n");
    if repos.len() == 0 {
        push_str(&mut s, "  (none)\n");
        return s;
    }
    let ghost start = s@;
    let mut i: usize = 0;
    while i < repos.len()
        invariant
            i <= repos@.len(),
            s@ == start + repo_lines(views(repos@).take(i as int)),
        decreases repos@.len() - i,
    {
        push_str(&mut s, "  - ");
        push_str(&mut s, repos[i].as_str());
        push_str(&mut s, "\n");
        assert(views(repos@).take(i + 1).drop_last() =~= views(repos@).take(i as int));
        i = i + 1;
        assert(s@ =~= start + repo_lines(views(repos@).take(i as int)));
    }
    assert(views(repos@).take(i as int) =~= views(repos@));
    s
}

} // verus!
