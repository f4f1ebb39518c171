//! What indexing decides about each file found under a repository.
use vstd::prelude::*;
use vstd::string::StringExecFns;
use crate::db::{
    delete_missing, get_entry_by_path, has_id, has_path, id_pos, link_views, max_id, path_pos, retag, set_tags_for_wordlist,
    index_wf, same_elsewhere, upsert, Index, IndexedWordlist, WordlistEntry,
};
use crate::error::WlError;
use sha2::{Digest, Sha256};
use crate::tagger::{get_tags_for_path, tags_for_path, to_lowercase, unicode_lowercase, with_tags};
use vstd::utf8::is_ascii_chars;
use crate::text::{ascii_lowercase, lemma_filter_all, str_views, chars_of, push_char, push_dec, push_str, str_eq, string_from_chars, views};

verus! {

/// Files larger than this are not indexed (500 MiB).
pub const MAX_FILE_SIZE: u64 = 524288000;

/// Whether a directory entry is hidden: its name starts with '.'. A name that is not valid
/// UTF-8 (`None`) is not hidden.
pub fn is_hidden(file_name: Option<&str>) -> (r: bool)
    ensures
        r == (match file_name {
            Some(n) => n@.len() > 0 && n@[0] == '.',
            None => false,
        }),
{
    match file_name {
        Some(n) => {
            let cs = chars_of(n);
            cs.len() > 0 && cs[0] == '.'
        },
        None => false,
    }
}

/// The position of the last '.' in a file name, or -1.
pub open spec fn last_dot(name: Seq<char>) -> int
    decreases name.len(),
{
    if name.len() == 0 {
        -1
    } else if name.last() == '.' {
        name.len() - 1
    } else {
        last_dot(name.drop_last())
    }
}

/// The extension of a file name as `Path::extension` documents it: none without a '.', none
/// for ".." or when the only '.' starts the name, else what follows the last '.'.
pub open spec fn extension_of(name: Seq<char>) -> Option<Seq<char>> {
    let d = last_dot(name);
    if name == ".."@ || d <= 0 {
        None
    } else {
        Some(name.skip(d + 1))
    }
}

/// The stem of a file name as `Path::file_stem` documents it: the whole name without an
/// extension, else what precedes the last '.'.
pub open spec fn stem_of(name: Seq<char>) -> Seq<char> {
    let d = last_dot(name);
    if name == ".."@ || d <= 0 {
        name
    } else {
        name.take(d)
    }
}

proof fn lemma_last_dot(name: Seq<char>)
    ensures
        -1 <= last_dot(name) < name.len(),
        last_dot(name) >= 0 ==> name[last_dot(name)] == '.',
        forall|i: int| last_dot(name) < i < name.len() ==> name[i] != '.',
    decreases name.len(),
{
    if name.len() > 0 {
        lemma_last_dot(name.drop_last());
        if name.last() != '.' {
            assert forall|i: int| last_dot(name) < i < name.len() implies name[i] != '.' by {
                if i < name.len() - 1 {
                    assert(name.drop_last()[i] == name[i]);
                }
            }
        }
    }
}

proof fn lemma_last_dot_is(name: Seq<char>, j: int)
    requires
        -1 <= j < name.len(),
        j >= 0 ==> name[j] == '.',
        forall|k: int| j < k < name.len() ==> name[k] != '.',
    ensures
        last_dot(name) == j,
    decreases name.len(),
{
    if name.len() > 0 && j < name.len() - 1 {
        assert forall|k: int| j < k < name.drop_last().len() implies name.drop_last()[k] != '.' by {
            assert(name.drop_last()[k] == name[k]);
        }
        lemma_last_dot_is(name.drop_last(), j);
    }
}

/// Splits a file name into its stem and its extension.
pub fn split_file_name(name: &str) -> (r: (String, Option<String>))
    ensures
        r.0@ == stem_of(name@),
        match r.1 {
            Some(e) => extension_of(name@) == Some(e@),
            None => extension_of(name@) is None,
        },
{
    let cs = chars_of(name);
    let mut i: usize = cs.len();
    while i > 0
        invariant
            i <= cs@.len(),
            cs@ == name@,
            forall|k: int| i <= k < cs@.len() ==> cs@[k] != '.',
        ensures
            i <= cs@.len(),
            i > 0 ==> cs@[i - 1] == '.',
            forall|k: int| i <= k < cs@.len() ==> cs@[k] != '.',
        decreases i,
    {
        if cs[i - 1] == '.' {
            break;
        }
        i = i - 1;
    }
    proof {
        lemma_last_dot_is(name@, i as int - 1);
    }
    let is_dotdot = str_eq(name, "..");
    if is_dotdot || i <= 1 {
        return (name.to_owned(), None);
    }
    let stem = crate::text::substring(&cs, 0, i - 1);
    let ext = crate::text::substring(&cs, i, cs.len());
    assert(name@.take(i - 1) =~= cs@.subrange(0, i - 1));
    assert(name@.skip(i as int) =~= cs@.subrange(i as int, cs@.len() as int));
    (stem, Some(ext))
}

/// The extensions of wordlist files.
pub open spec fn wordlist_extensions() -> Seq<Seq<char>> {
    seq!["txt"@, "lst"@, "list"@, "dict"@, "wordlist"@, "gz"@, "zip"@, "bz2"@, "xz"@]
}

/// The extension of a file name, lower-cased, when it is one of a wordlist.
pub open spec fn valid_extension(name: Seq<char>) -> Option<Seq<char>> {
    match extension_of(name) {
        Some(e) => if wordlist_extensions().contains(unicode_lowercase(e)) {
            Some(unicode_lowercase(e))
        } else {
            None
        },
        None => None,
    }
}

/// The extension of an ASCII file name, lower-cased, when it is one of a wordlist.
pub open spec fn ascii_valid_extension(name: Seq<char>) -> Option<Seq<char>> {
    match extension_of(name) {
        Some(e) => if wordlist_extensions().contains(ascii_lowercase(e)) {
            Some(ascii_lowercase(e))
        } else {
            None
        },
        None => None,
    }
}

/// Wordlist files are picked by extension, ignoring ASCII case: a name made of a stem, a dot
/// and an extension is taken exactly when the extension is txt, lst, list, dict, wordlist,
/// gz, zip, bz2 or xz, and it is taken with that extension in lower case.
pub proof fn law_wordlist_extensions(stem: Seq<char>, ext: Seq<char>)
    requires
        stem.len() > 0,
        !ext.contains('.'),
    ensures
        ascii_valid_extension(stem + seq!['.'] + ext) == (if ascii_lowercase(ext) == "txt"@ || ascii_lowercase(ext)
            == "lst"@ || ascii_lowercase(ext) == "list"@ || ascii_lowercase(ext) == "dict"@ || ascii_lowercase(ext)
            == "wordlist"@ || ascii_lowercase(ext) == "gz"@ || ascii_lowercase(ext) == "zip"@ || ascii_lowercase(ext)
            == "bz2"@ || ascii_lowercase(ext) == "xz"@ {
            Some(ascii_lowercase(ext))
        } else {
            None
        }),
{
    let name = stem + seq!['.'] + ext;
    let d = stem.len() as int;
    assert(name[d] == '.');
    assert forall|k: int| d < k < name.len() implies name[k] != '.' by {
        assert(name[k] == ext[k - d - 1]);
        if name[k] == '.' {
            assert(ext.contains('.'));
        }
    }
    lemma_last_dot_is(name, d);
    reveal_strlit("..");
    if ext.len() == 0 {
        reveal_strlit("txt");
        reveal_strlit("lst");
        reveal_strlit("list");
        reveal_strlit("dict");
        reveal_strlit("wordlist");
        reveal_strlit("gz");
        reveal_strlit("zip");
        reveal_strlit("bz2");
        reveal_strlit("xz");
    }
    if name != ".."@ {
        assert(name.skip(d + 1) =~= ext);
    }
    let x = ascii_lowercase(ext);
    let w = wordlist_extensions();
    if w.contains(x) {
        let i = choose|i: int| 0 <= i < w.len() && w[i] == x;
        assert(i == 0 || i == 1 || i == 2 || i == 3 || i == 4 || i == 5 || i == 6 || i == 7 || i == 8);
    }
    if x == "txt"@ { assert(w[0] == x); }
    if x == "lst"@ { assert(w[1] == x); }
    if x == "list"@ { assert(w[2] == x); }
    if x == "dict"@ { assert(w[3] == x); }
    if x == "wordlist"@ { assert(w[4] == x); }
    if x == "gz"@ { assert(w[5] == x); }
    if x == "zip"@ { assert(w[6] == x); }
    if x == "bz2"@ { assert(w[7] == x); }
    if x == "xz"@ { assert(w[8] == x); }
    assert(last_dot(name) == d);
    if name != ".."@ {
        assert(extension_of(name) == Some(ext));
    } else {
        assert(ext.len() == 0);
        assert(x.len() == 0);
    }
    assert(w.contains(x) == (x == "txt"@ || x == "lst"@ || x == "list"@ || x == "dict"@ || x == "wordlist"@ || x == "gz"@ || x == "zip"@ || x == "bz2"@ || x == "xz"@));
}

/// Whether a string is one of the given literals.
fn one_of(s: &String, options: &[&str]) -> (r: bool)
    ensures
        r == str_views(options@).contains(s@),
{
    let mut i: usize = 0;
    while i < options.len()
        invariant
            i <= options@.len(),
            forall|k: int| 0 <= k < i ==> options@[k]@ != s@,
        decreases options@.len() - i,
    {
        if str_eq(s.as_str(), options[i]) {
            assert(str_views(options@)[i as int] == s@);
            return true;
        }
        i = i + 1;
    }
    assert forall|k: int| 0 <= k < options@.len() implies #[trigger] str_views(options@)[k] != s@ by {
        assert(str_views(options@)[k] == options@[k]@);
    }
    false
}

/// The lower-cased extension of a file name if it is a wordlist's (txt, lst, list, dict,
/// wordlist, gz, zip, bz2, xz).
pub fn get_valid_extension(file_name: &str) -> (r: Option<String>)
    ensures
        match r {
            Some(e) => valid_extension(file_name@) == Some(e@),
            None => valid_extension(file_name@) is None,
        },
        is_ascii_chars(file_name@) ==> match r {
            Some(e) => ascii_valid_extension(file_name@) == Some(e@),
            None => ascii_valid_extension(file_name@) is None,
        },
{
    let (_, ext) = split_file_name(file_name);
    match ext {
        Some(e) => {
            proof {
                if is_ascii_chars(file_name@) {
                    lemma_last_dot(file_name@);
                    let d = last_dot(file_name@);
                    assert(e@ == file_name@.skip(d + 1));
                    assert forall|i: int| 0 <= i < e@.len() implies '\0' <= #[trigger] e@[i] <= '\u{7f}' by {
                        assert(e@[i] == file_name@[d + 1 + i]);
                    }
                }
            }
            let lower = to_lowercase(e.as_str());
            let ok = one_of(&lower, &["txt", "lst", "list", "dict", "wordlist", "gz", "zip", "bz2", "xz"]);
            assert(str_views(seq!["txt", "lst", "list", "dict", "wordlist", "gz", "zip", "bz2", "xz"]) =~= wordlist_extensions());
            if ok {
                Some(lower)
            } else {
                None
            }
        },
        None => None,
    }
}

/// The extensions of compressed files.
pub open spec fn compressed_extensions() -> Seq<Seq<char>> {
    seq!["gz"@, "zip"@, "tar"@, "bz2"@, "xz"@]
}

/// Whether an extension is that of a compressed file (gz, zip, tar, bz2, xz).
pub fn is_compressed(ext: &str) -> (r: bool)
    ensures
        r == compressed_extensions().contains(ext@),
{
    let e = ext.to_owned();
    let r = one_of(&e, &["gz", "zip", "tar", "bz2", "xz"]);
    assert(str_views(seq!["gz", "zip", "tar", "bz2", "xz"]) =~= compressed_extensions());
    r
}

/// How many newline bytes a sequence holds.
pub open spec fn newlines(bytes: Seq<u8>) -> nat
    decreases bytes.len(),
{
    if bytes.len() == 0 {
        0
    } else {
        newlines(bytes.drop_last()) + if bytes.last() == 10u8 {
            1nat
        } else {
            0nat
        }
    }
}

/// Adds the newlines of one chunk of a file to a running line count.
pub fn count_lines(count: u64, chunk: &[u8]) -> (r: u64)
    requires
        count + chunk@.len() <= u64::MAX,
    ensures
        r == count + newlines(chunk@),
{
    let mut c = count;
    let mut i: usize = 0;
    while i < chunk.len()
        invariant
            i <= chunk@.len(),
            count + chunk@.len() <= u64::MAX,
            c == count + newlines(chunk@.take(i as int)),
            newlines(chunk@.take(i as int)) <= i,
        decreases chunk@.len() - i,
    {
        assert(chunk@.take(i + 1).drop_last() =~= chunk@.take(i as int));
        if chunk[i] == 10u8 {
            c = c + 1;
        }
        i = i + 1;
    }
    assert(chunk@.take(i as int) =~= chunk@);
    c
}

/// The category of a file: the directories between its repository and it ("." for a file at
/// the top of the repository), given its path relative to the repository.
pub open spec fn category_of(relative: Seq<char>) -> Seq<char> {
    let d = last_slash(relative);
    if d <= 0 {
        "."@
    } else {
        relative.take(d)
    }
}

/// The position of the last '/' or -1.
pub open spec fn last_slash(s: Seq<char>) -> int
    decreases s.len(),
{
    if s.len() == 0 {
        -1
    } else if s.last() == '/' {
        s.len() - 1
    } else {
        last_slash(s.drop_last())
    }
}

proof fn lemma_last_slash_is(s: Seq<char>, j: int)
    requires
        -1 <= j < s.len(),
        j >= 0 ==> s[j] == '/',
        forall|k: int| j < k < s.len() ==> s[k] != '/',
    ensures
        last_slash(s) == j,
    decreases s.len(),
{
    if s.len() > 0 && j < s.len() - 1 {
        assert forall|k: int| j < k < s.drop_last().len() implies s.drop_last()[k] != '/' by {
            assert(s.drop_last()[k] == s[k]);
        }
        lemma_last_slash_is(s.drop_last(), j);
    }
}

/// The category of a file from its path relative to the repository.
pub fn category_from_relative(relative: &str) -> (r: String)
    ensures
        r@ == category_of(relative@),
{
    let cs = chars_of(relative);
    let mut i: usize = cs.len();
    while i > 0
        invariant
            i <= cs@.len(),
            forall|k: int| i <= k < cs@.len() ==> cs@[k] != '/',
        ensures
            i <= cs@.len(),
            i > 0 ==> cs@[i - 1] == '/',
            forall|k: int| i <= k < cs@.len() ==> cs@[k] != '/',
        decreases i,
    {
        if cs[i - 1] == '/' {
            break;
        }
        i = i - 1;
    }
    proof {
        lemma_last_slash_is(relative@, i as int - 1);
    }
    if i <= 1 {
        return String::from_str(".");
    }
    let r = crate::text::substring(&cs, 0, i - 1);
    assert(relative@.take(i - 1) =~= cs@.subrange(0, i - 1));
    r
}

/// The name a repository's wordlists are recorded under: its directory name, or "unknown".
pub fn source_repo_name(dir_name: Option<&str>) -> (r: String)
    ensures
        r@ == (match dir_name {
            Some(n) => n@,
            None => "unknown"@,
        }),
{
    match dir_name {
        Some(n) => n.to_owned(),
        None => String::from_str("unknown"),
    }
}


/// How a scan treats files that are already indexed.
#[derive(Clone, Copy, PartialEq, Eq, Debug)]
pub enum ScanMode {
    /// A full index: every file is read again.
    Full,
    /// An update: a file whose modification time and size are unchanged, and whose hash is
    /// recorded, is skipped.
    Incremental,
}

/// What a scan does with one file.
#[derive(Clone, Copy, PartialEq, Eq, Debug)]
pub enum FileDecision {
    TooLarge,
    Unchanged,
    Index,
}

/// Whether a recorded entry still describes a file of this size and modification time, with
/// a hash on record.
pub open spec fn unchanged(e: WordlistEntry, size: u64, mtime: i64) -> bool {
    e.mtime == mtime && e.size_bytes == size && e.sha256 is Some
}

/// What a scan does with a file: too large files are skipped; an update skips an unchanged
/// file; everything else is (re)indexed.
pub open spec fn decision_for(
    rows: Seq<IndexedWordlist>,
    path: Seq<char>,
    size: u64,
    mtime: i64,
    mode: ScanMode,
) -> FileDecision {
    if size > MAX_FILE_SIZE {
        FileDecision::TooLarge
    } else if mode == ScanMode::Incremental && has_path(rows, path) && unchanged(
        rows[path_pos(rows, path)].entry,
        size,
        mtime,
    ) {
        FileDecision::Unchanged
    } else {
        FileDecision::Index
    }
}

/// What a scan does with a file.
pub fn decide_file(index: &Index, path: &str, size: u64, mtime: i64, mode: ScanMode) -> (r: FileDecision)
    ensures
        r == decision_for(index.rows(), path@, size, mtime, mode),
{
    if size > MAX_FILE_SIZE {
        return FileDecision::TooLarge;
    }
    match mode {
        ScanMode::Full => FileDecision::Index,
        ScanMode::Incremental => {
            match get_entry_by_path(index, path) {
                Some(e) => {
                    if e.mtime == mtime && e.size_bytes as i128 == size as i128 && e.sha256.is_some() {
                        FileDecision::Unchanged
                    } else {
                        FileDecision::Index
                    }
                },
                None => FileDecision::Index,
            }
        },
    }
}

/// The facts gathered about a file.
#[derive(Clone, PartialEq, Eq, Debug)]
pub struct ScannedFile {
    /// The file name.
    pub file_name: String,
    /// The full path.
    pub path: String,
    /// The path relative to its repository.
    pub relative: String,
    /// The repository's name.
    pub source_repo: String,
    /// The (lower-case) wordlist extension.
    pub extension: String,
    pub size: u64,
    pub mtime: i64,
    /// The number of lines, when they were counted.
    pub line_count: Option<i64>,
    pub sha256: Option<String>,
}

/// Whether `e` is the entry recorded for `file` at time `now`, whatever its id: the file's
/// name, stem, path, extension, size, repository, category (from the relative path), whether
/// it is compressed, its line count unless compressed, modification time, the time of
/// indexing, and its hash.
pub open spec fn made_from(e: WordlistEntry, file: ScannedFile, now: i64) -> bool {
    &&& e.filename@ == file.file_name@
    &&& e.stem@ == stem_of(file.file_name@)
    &&& e.path@ == file.path@
    &&& e.extension matches Some(x) && x@ == file.extension@
    &&& e.size_bytes == file.size
    &&& e.source_repo matches Some(x) && x@ == file.source_repo@
    &&& e.category matches Some(x) && x@ == category_of(file.relative@)
    &&& e.compressed == compressed_extensions().contains(file.extension@)
    &&& e.line_count == (if e.compressed {
        None
    } else {
        file.line_count
    })
    &&& e.mtime == file.mtime
    &&& e.last_indexed == now
    &&& e.sha256 == file.sha256
}

/// The entry recorded for a scanned file: name, stem, path, extension, size, repository,
/// category, whether it is compressed, its line count unless compressed, times and hash.
pub fn make_entry(file: &ScannedFile, now: i64) -> (r: WordlistEntry)
    requires
        file.size <= MAX_FILE_SIZE,
    ensures
        r.id is None,
        made_from(r, *file, now),
{
    let (stem, _) = split_file_name(file.file_name.as_str());
    let compressed = is_compressed(file.extension.as_str());
    WordlistEntry {
        id: None,
        filename: file.file_name.clone(),
        stem,
        path: file.path.clone(),
        extension: Some(file.extension.clone()),
        size_bytes: file.size as i64,
        source_repo: Some(file.source_repo.clone()),
        category: Some(category_from_relative(file.relative.as_str())),
        compressed,
        line_count: if compressed {
            None
        } else {
            file.line_count
        },
        mtime: file.mtime,
        last_indexed: now,
        sha256: crate::db::copy_opt(&file.sha256),
    }
}

/// Records an entry and tags it from its path relative to its repository (`relative`), so
/// that directories above the repository add no tags: the entry is stored by path (keeping
/// the id and the tags of an entry already there), then its automatic tags are replaced by
/// those of the taxonomy while tags attached by hand stay.
pub fn record_file(index: &mut Index, entry: &WordlistEntry, relative: &str) -> (r: Result<i64, WlError>)
    ensures
        r is Err <==> (!has_path(old(index).rows(), entry.path@) && max_id(old(index).rows()) == i64::MAX),
        r matches Err(e) ==> (e matches WlError::Db(m) && m@ == "database or disk is full"@),
        r is Err ==> final(index).rows() == old(index).rows() && final(index).known() == old(index).known(),
        r is Ok ==> final(index).known() == with_tags(old(index).known(), tags_for_path(relative@)),
        r matches Ok(id) ==> {
            &&& has_id(final(index).rows(), id)
            &&& final(index).rows()[id_pos(final(index).rows(), id)].entry == (WordlistEntry {
                id: Some(id),
                ..*entry
            })
            &&& link_views(final(index).rows()[id_pos(final(index).rows(), id)].links@) == retag(
                if has_path(old(index).rows(), entry.path@) {
                    link_views(old(index).rows()[path_pos(old(index).rows(), entry.path@)].links@)
                } else {
                    Seq::empty()
                },
                tags_for_path(relative@),
                false,
            )
            &&& has_path(final(index).rows(), entry.path@)
            &&& path_pos(final(index).rows(), entry.path@) == id_pos(final(index).rows(), id)
        },
        r is Ok ==> same_elsewhere(old(index).rows(), final(index).rows(), entry.path@),
{
    let ghost before = index.rows();
    let ghost known0 = index.known();
    proof {
        use_type_invariant(&*index);
        crate::db::lemma_max_id(before);
    }
    let id = match upsert(index, entry) {
        Ok(id) => id,
        Err(e) => {
            return Err(e);
        },
    };
    let ghost mid = index.rows();
    let ghost known1 = index.known();
    proof {
        use_type_invariant(&*index);
        crate::db::lemma_upserted_position(before, mid, index.known(), *entry, id);
        crate::db::lemma_upserted_elsewhere(before, mid, known0, known1, *entry, id);
    }
    let tags = get_tags_for_path(relative);
    let _ = set_tags_for_wordlist(index, id, &tags, false);
    proof {
        use_type_invariant(&*index);
        let links = retag(link_views(mid[id_pos(mid, id)].links@), views(tags@), false);
        crate::db::lemma_relinked_id_pos(mid, index.rows(), index.known(), id, links);
        crate::db::lemma_relinked_elsewhere(mid, index.rows(), known1, index.known(), id_pos(mid, id), links);
        crate::db::lemma_path_pos(index.rows(), index.known(), id_pos(index.rows(), id));
        let after = index.rows();
        assert forall|q: Seq<char>| q != entry.path@ implies (#[trigger] has_path(after, q) == has_path(before, q)) && (
        has_path(before, q) ==> after[path_pos(after, q)] == before[path_pos(before, q)]) by {
            assert(has_path(mid, q) == has_path(before, q));
            assert(has_path(after, q) == has_path(mid, q));
        }
        assert(same_elsewhere(before, after, entry.path@));
    }
    Ok(id)
}

/// The paths of scanned files.
pub open spec fn file_paths(files: Seq<ScannedFile>) -> Seq<Seq<char>> {
    files.map_values(|f: ScannedFile| f.path@)
}

/// No file after position `j` and before `n` has the path of file `j`.
pub open spec fn last_of_path(files: Seq<ScannedFile>, j: int, n: int) -> bool {
    forall|k: int| j < k < n ==> (#[trigger] files[k]).path@ != files[j].path@
}

/// No other file has the path of file `j`.
pub open spec fn only_of_path(files: Seq<ScannedFile>, j: int) -> bool {
    forall|k: int| 0 <= k < files.len() && k != j ==> (#[trigger] files[k]).path@ != files[j].path@
}

/// The index holds, at the file's path, the entry recorded for the file at time `now`.
pub open spec fn recorded_at(rows: Seq<IndexedWordlist>, file: ScannedFile, now: i64) -> bool {
    has_path(rows, file.path@) && made_from(rows[path_pos(rows, file.path@)].entry, file, now)
}

/// The tags at a path (none when it is not indexed).
pub open spec fn links_at(rows: Seq<IndexedWordlist>, p: Seq<char>) -> Seq<(Seq<char>, bool)> {
    if has_path(rows, p) {
        link_views(rows[path_pos(rows, p)].links@)
    } else {
        Seq::empty()
    }
}

/// The known tag names after recording the files one after another.
pub open spec fn known_after_files(known: Seq<Seq<char>>, files: Seq<ScannedFile>) -> Seq<Seq<char>>
    decreases files.len(),
{
    if files.len() == 0 {
        known
    } else {
        with_tags(known_after_files(known, files.drop_last()), tags_for_path(files.last().relative@))
    }
}

/// `after` is `before` with the files recorded at time `now`: each file's path holds the entry
/// made from the last file with that path, and every other path is as it was.
pub open spec fn recorded_all(
    before: Seq<IndexedWordlist>,
    after: Seq<IndexedWordlist>,
    files: Seq<ScannedFile>,
    now: i64,
) -> bool {
    &&& forall|j: int|
        0 <= j < files.len() && last_of_path(files, j, files.len() as int) ==> recorded_at(
            after,
            #[trigger] files[j],
            now,
        )
    &&& forall|q: Seq<char>|
        !file_paths(files).contains(q) ==> (#[trigger] has_path(after, q) == has_path(before, q)) && (has_path(
            before,
            q,
        ) ==> after[path_pos(after, q)] == before[path_pos(before, q)])
}

/// One step of `record_all`, spelled out.
proof fn lemma_record_step_facts(
    before: Seq<IndexedWordlist>,
    cur: Seq<IndexedWordlist>,
    new: Seq<IndexedWordlist>,
    files: Seq<ScannedFile>,
    i: int,
    now: i64,
)
    requires
        0 <= i < files.len(),
        has_path(new, files[i].path@),
        made_from(new[path_pos(new, files[i].path@)].entry, files[i], now),
        links_at(new, files[i].path@) == retag(links_at(cur, files[i].path@), tags_for_path(files[i].relative@), false),
        same_elsewhere(cur, new, files[i].path@),
        forall|j: int| 0 <= j < i && last_of_path(files, j, i) ==> recorded_at(cur, #[trigger] files[j], now),
        forall|q: Seq<char>|
            !file_paths(files.take(i)).contains(q) ==> (#[trigger] has_path(cur, q) == has_path(before, q)) && (has_path(
                before,
                q,
            ) ==> cur[path_pos(cur, q)] == before[path_pos(before, q)]),
        forall|q: Seq<char>| has_path(before, q) ==> #[trigger] has_path(cur, q),
        forall|j: int|
            0 <= j < i && only_of_path(files, j) ==> links_at(cur, (#[trigger] files[j]).path@) == retag(
                links_at(before, files[j].path@),
                tags_for_path(files[j].relative@),
                false,
            ),
    ensures
        forall|j: int| 0 <= j < i + 1 && last_of_path(files, j, i + 1) ==> recorded_at(new, #[trigger] files[j], now),
        forall|q: Seq<char>|
            !file_paths(files.take(i + 1)).contains(q) ==> (#[trigger] has_path(new, q) == has_path(before, q)) && (
            has_path(before, q) ==> new[path_pos(new, q)] == before[path_pos(before, q)]),
        forall|q: Seq<char>| has_path(before, q) ==> #[trigger] has_path(new, q),
        forall|j: int|
            0 <= j < i + 1 && only_of_path(files, j) ==> links_at(new, (#[trigger] files[j]).path@) == retag(
                links_at(before, files[j].path@),
                tags_for_path(files[j].relative@),
                false,
            ),
{
    let p = files[i].path@;
    assert(file_paths(files.take(i + 1)) =~= file_paths(files.take(i)).push(p));
    assert forall|j: int| 0 <= j < i + 1 && last_of_path(files, j, i + 1) implies recorded_at(
        new,
        #[trigger] files[j],
        now,
    ) by {
        if j < i {
            assert(files[i].path@ != files[j].path@);
            assert(last_of_path(files, j, i));
            assert(recorded_at(cur, files[j], now));
            assert(has_path(new, files[j].path@) == has_path(cur, files[j].path@));
        }
    }
    assert forall|q: Seq<char>| !file_paths(files.take(i + 1)).contains(q) implies (#[trigger] has_path(new, q)
        == has_path(before, q)) && (has_path(before, q) ==> new[path_pos(new, q)] == before[path_pos(before, q)]) by {
        assert(file_paths(files.take(i + 1))[i] == p);
        assert(q != p);
        if file_paths(files.take(i)).contains(q) {
            let k = choose|k: int| 0 <= k < i && file_paths(files.take(i))[k] == q;
            assert(file_paths(files.take(i + 1))[k] == q);
        }
        assert(has_path(new, q) == has_path(cur, q));
    }
    assert forall|q: Seq<char>| has_path(before, q) implies #[trigger] has_path(new, q) by {
        if q != p {
            assert(has_path(cur, q));
            assert(has_path(new, q) == has_path(cur, q));
        }
    }
    assert forall|j: int| 0 <= j < i + 1 && only_of_path(files, j) implies links_at(
        new,
        (#[trigger] files[j]).path@,
    ) == retag(links_at(before, files[j].path@), tags_for_path(files[j].relative@), false) by {
        if j < i {
            assert(files[i].path@ != files[j].path@);
            assert(has_path(new, files[j].path@) == has_path(cur, files[j].path@));
        } else {
            if file_paths(files.take(i)).contains(p) {
                let k = choose|k: int| 0 <= k < i && file_paths(files.take(i))[k] == p;
                assert(files[k].path@ == p);
            }
            assert(has_path(cur, p) == has_path(before, p));
        }
    }
}

/// What `record_all` has done after the first `i` files: each of them that no later one among
/// them replaces is recorded; other paths are as they were; no path was lost; and a file whose
/// path no other file has carries its new tags over those it had.
#[verifier::opaque]
spec fn record_progress(
    before: Seq<IndexedWordlist>,
    cur: Seq<IndexedWordlist>,
    files: Seq<ScannedFile>,
    i: int,
    now: i64,
) -> bool {
    &&& forall|j: int| 0 <= j < i && last_of_path(files, j, i) ==> recorded_at(cur, #[trigger] files[j], now)
    &&& forall|q: Seq<char>|
        !file_paths(files.take(i)).contains(q) ==> (#[trigger] has_path(cur, q) == has_path(before, q)) && (has_path(
            before,
            q,
        ) ==> cur[path_pos(cur, q)] == before[path_pos(before, q)])
    &&& forall|q: Seq<char>| has_path(before, q) ==> #[trigger] has_path(cur, q)
    &&& forall|j: int|
        0 <= j < i && only_of_path(files, j) ==> links_at(cur, (#[trigger] files[j]).path@) == retag(
            links_at(before, files[j].path@),
            tags_for_path(files[j].relative@),
            false,
        )
}

proof fn lemma_record_start(before: Seq<IndexedWordlist>, files: Seq<ScannedFile>, now: i64)
    ensures
        record_progress(before, before, files, 0, now),
{
    reveal(record_progress);
    assert(file_paths(files.take(0)) =~= Seq::<Seq<char>>::empty());
}

/// One step of `record_all`: the progress over `i` files becomes progress over `i + 1` once
/// file `i` is recorded.
proof fn lemma_record_step(
    before: Seq<IndexedWordlist>,
    cur: Seq<IndexedWordlist>,
    new: Seq<IndexedWordlist>,
    files: Seq<ScannedFile>,
    i: int,
    now: i64,
)
    requires
        0 <= i < files.len(),
        has_path(new, files[i].path@),
        made_from(new[path_pos(new, files[i].path@)].entry, files[i], now),
        links_at(new, files[i].path@) == retag(links_at(cur, files[i].path@), tags_for_path(files[i].relative@), false),
        same_elsewhere(cur, new, files[i].path@),
        record_progress(before, cur, files, i, now),
    ensures
        record_progress(before, new, files, i + 1, now),
{
    reveal(record_progress);
    lemma_record_step_facts(before, cur, new, files, i, now);
}

proof fn lemma_record_kept(before: Seq<IndexedWordlist>, cur: Seq<IndexedWordlist>, files: Seq<ScannedFile>, i: int, now: i64, q: Seq<char>)
    requires
        record_progress(before, cur, files, i, now),
        has_path(before, q),
    ensures
        has_path(cur, q),
{
    reveal(record_progress);
}

proof fn lemma_record_done(before: Seq<IndexedWordlist>, cur: Seq<IndexedWordlist>, files: Seq<ScannedFile>, now: i64)
    requires
        record_progress(before, cur, files, files.len() as int, now),
    ensures
        recorded_all(before, cur, files, now),
        forall|j: int|
            0 <= j < files.len() && only_of_path(files, j) ==> links_at(cur, (#[trigger] files[j]).path@) == retag(
                links_at(before, files[j].path@),
                tags_for_path(files[j].relative@),
                false,
            ),
{
    reveal(record_progress);
    assert(files.take(files.len() as int) =~= files);
}

/// Records the scanned files at time `now`, one after another, as `record_file` does: each is
/// stored by its path and tagged from its path relative to its repository. A file whose path
/// no other file has keeps the tags attached by hand at that path. Recording stops at the
/// first failure, which only comes when a new path needs an id and none is left.
pub fn record_all(index: &mut Index, files: &Vec<ScannedFile>, now: i64) -> (r: Result<(), WlError>)
    requires
        forall|j: int| 0 <= j < files@.len() ==> (#[trigger] files@[j]).size <= MAX_FILE_SIZE,
    ensures
        r is Ok ==> recorded_all(old(index).rows(), final(index).rows(), files@, now),
        r is Ok ==> final(index).known() == known_after_files(old(index).known(), files@),
        r is Ok ==> forall|j: int|
            0 <= j < files@.len() && only_of_path(files@, j) ==> links_at(final(index).rows(), (#[trigger] files@[j]).path@)
                == retag(links_at(old(index).rows(), files@[j].path@), tags_for_path(files@[j].relative@), false),
        r matches Err(e) ==> (e matches WlError::Db(m) && m@ == "database or disk is full"@),
        r is Err ==> max_id(final(index).rows()) == i64::MAX && exists|j: int|
            0 <= j < files@.len() && !has_path(old(index).rows(), (#[trigger] files@[j]).path@),
{
    let ghost before = index.rows();
    let ghost k0 = index.known();
    proof {
        lemma_record_start(before, files@, now);
    }
    let mut i: usize = 0;
    while i < files.len()
        invariant
            i <= files@.len(),
            before == old(index).rows(),
            k0 == old(index).known(),
            forall|j: int| 0 <= j < files@.len() ==> (#[trigger] files@[j]).size <= MAX_FILE_SIZE,
            index.known() == known_after_files(k0, files@.take(i as int)),
            record_progress(before, index.rows(), files@, i as int, now),
        decreases files@.len() - i,
    {
        let ghost cur = index.rows();
        let ghost fi = files@[i as int];
        let entry = make_entry(&files[i], now);
        let res = record_file(index, &entry, files[i].relative.as_str());
        match res {
            Ok(id) => {
                proof {
                    let new = index.rows();
                    let p = fi.path@;
                    assert(files@.take(i + 1).drop_last() =~= files@.take(i as int));
                    assert(files@.take(i + 1).last() == fi);
                    assert(made_from(new[path_pos(new, p)].entry, fi, now));
                    assert(links_at(new, p) == retag(links_at(cur, p), tags_for_path(fi.relative@), false));
                    lemma_record_step(before, cur, new, files@, i as int, now);
                }
            },
            Err(e) => {
                proof {
                    assert(!has_path(cur, fi.path@) && max_id(cur) == i64::MAX);
                    assert(index.rows() == cur);
                    if has_path(before, fi.path@) {
                        lemma_record_kept(before, cur, files@, i as int, now, fi.path@);
                    }
                    assert(!has_path(before, files@[i as int].path@));
                }
                return Err(e);
            },
        }
        i = i + 1;
    }
    proof {
        assert(files@.take(i as int) =~= files@);
        lemma_record_done(before, index.rows(), files@, now);
    }
    Ok(())
}

/// `Sha256::digest`: the SHA-256 digest of some bytes, named by `sha256_digest`; it is 32
/// bytes long. How the digest is computed is not stated.
pub uninterp spec fn sha256_digest(data: Seq<u8>) -> Seq<u8>;

#[verifier::external_body]
fn sha256_bytes(data: &[u8]) -> (r: Vec<u8>)
    ensures
        r@ == sha256_digest(data@),
        r@.len() == 32,
{
    Sha256::digest(data).to_vec()
}

/// The lower-case hexadecimal digits.
pub open spec fn hex_digit(d: nat) -> char {
    seq!['0', '1', '2', '3', '4', '5', '6', '7', '8', '9', 'a', 'b', 'c', 'd', 'e', 'f'][d as int]
}

/// Bytes in lower-case hexadecimal, two digits each.
pub open spec fn hex_text(bytes: Seq<u8>) -> Seq<char>
    decreases bytes.len(),
{
    if bytes.len() == 0 {
        Seq::empty()
    } else {
        hex_text(bytes.drop_last()) + seq![hex_digit((bytes.last() / 16) as nat), hex_digit((bytes.last() % 16) as nat)]
    }
}

/// Bytes in lower-case hexadecimal.
pub fn to_hex(bytes: &[u8]) -> (r: String)
    ensures
        r@ == hex_text(bytes@),
{
    let digits = ['0', '1', '2', '3', '4', '5', '6', '7', '8', '9', 'a', 'b', 'c', 'd', 'e', 'f'];
    assert(digits@ =~= seq!['0', '1', '2', '3', '4', '5', '6', '7', '8', '9', 'a', 'b', 'c', 'd', 'e', 'f']);
    let mut s = String::new();
    let mut i: usize = 0;
    while i < bytes.len()
        invariant
            i <= bytes@.len(),
            digits@ == seq!['0', '1', '2', '3', '4', '5', '6', '7', '8', '9', 'a', 'b', 'c', 'd', 'e', 'f'],
            s@ == hex_text(bytes@.take(i as int)),
        decreases bytes@.len() - i,
    {
        let b = bytes[i];
        push_char(&mut s, digits[(b / 16) as usize]);
        push_char(&mut s, digits[(b % 16) as usize]);
        assert(bytes@.take(i + 1).drop_last() =~= bytes@.take(i as int));
        i = i + 1;
        assert(s@ =~= hex_text(bytes@.take(i as int)));
    }
    assert(bytes@.take(i as int) =~= bytes@);
    s
}

/// The SHA-256 of a file's contents, in lower-case hexadecimal.
pub fn compute_sha256(data: &[u8]) -> (r: String)
    ensures
        r@ == hex_text(sha256_digest(data@)),
        r@.len() == 64,
{
    let digest = sha256_bytes(data);
    let r = to_hex(digest.as_slice());
    proof {
        lemma_hex_len(digest@);
    }
    r
}

proof fn lemma_hex_len(bytes: Seq<u8>)
    ensures
        hex_text(bytes).len() == 2 * bytes.len(),
    decreases bytes.len(),
{
    if bytes.len() > 0 {
        lemma_hex_len(bytes.drop_last());
    }
}

/// The line printed after scanning a repository.
pub open spec fn summary_text(added: u64, unchanged: u64, too_large: u64) -> Seq<char> {
    "[+] "@ + crate::text::dec(added as nat) + " added  |  "@ + crate::text::dec(unchanged as nat)
        + " skipped (unchanged)  |  "@ + crate::text::dec(too_large as nat) + " skipped (too large)"@
}

/// The line printed after scanning a repository.
pub fn scan_summary(added: u64, unchanged: u64, too_large: u64) -> (r: String)
    ensures
        r@ == summary_text(added, unchanged, too_large),
{
    let mut s = String::from_str("[+] ");
    push_dec(&mut s, added);
    push_str(&mut s, " added  |  ");
    push_dec(&mut s, unchanged);
    push_str(&mut s, " skipped (unchanged)  |  ");
    push_dec(&mut s, too_large);
    push_str(&mut s, " skipped (too large)");
    s
}

/// A count raised by one, staying at its largest value.
pub open spec fn bumped(n: u64) -> u64 {
    if n < u64::MAX {
        (n + 1) as u64
    } else {
        n
    }
}

fn bump(n: u64) -> (r: u64)
    ensures
        r == bumped(n),
{
    if n < u64::MAX {
        n + 1
    } else {
        n
    }
}

/// A file that the walk found: its path, size and modification time.
#[derive(Clone, PartialEq, Eq, Debug)]
pub struct FoundFile {
    pub path: String,
    pub size: u64,
    pub mtime: i64,
}

/// The (path, size, modification time) of found files.
pub open spec fn found_views(files: Seq<FoundFile>) -> Seq<(Seq<char>, u64, i64)> {
    files.map_values(|f: FoundFile| (f.path@, f.size, f.mtime))
}

/// The positions, in order, of the found files that a scan (re)indexes.
pub open spec fn to_index(rows: Seq<IndexedWordlist>, files: Seq<(Seq<char>, u64, i64)>, mode: ScanMode) -> Seq<int>
    decreases files.len(),
{
    if files.len() == 0 {
        Seq::empty()
    } else {
        let before = to_index(rows, files.drop_last(), mode);
        let f = files.last();
        if decision_for(rows, f.0, f.1, f.2, mode) == FileDecision::Index {
            before.push(files.len() - 1)
        } else {
            before
        }
    }
}

/// The paths that a scan keeps: those of the found files that are not too large.
pub open spec fn kept_paths(files: Seq<(Seq<char>, u64, i64)>) -> Seq<Seq<char>>
    decreases files.len(),
{
    if files.len() == 0 {
        Seq::empty()
    } else {
        let before = kept_paths(files.drop_last());
        if files.last().1 <= MAX_FILE_SIZE {
            before.push(files.last().0)
        } else {
            before
        }
    }
}

/// How many of the found files get the decision `d`.
pub open spec fn decision_count(
    rows: Seq<IndexedWordlist>,
    files: Seq<(Seq<char>, u64, i64)>,
    mode: ScanMode,
    d: FileDecision,
) -> nat
    decreases files.len(),
{
    if files.len() == 0 {
        0
    } else {
        let f = files.last();
        decision_count(rows, files.drop_last(), mode, d) + if decision_for(rows, f.0, f.1, f.2, mode) == d {
            1nat
        } else {
            0nat
        }
    }
}

/// A count raised by `m`, staying at its largest value.
pub open spec fn bumped_by(n: u64, m: nat) -> u64 {
    if n + m <= u64::MAX {
        (n + m) as u64
    } else {
        u64::MAX
    }
}

/// The state of a scan: the counts for the repository being scanned, and every path that
/// is still to be kept in the index.
#[derive(Clone, PartialEq, Eq, Debug)]
pub struct ScanState {
    /// Files (re)indexed in this repository.
    pub added: u64,
    /// Files skipped as unchanged in this repository.
    pub unchanged: u64,
    /// Files skipped as too large in this repository.
    pub too_large: u64,
    /// The paths seen in every repository so far, except too large files.
    pub seen: Vec<String>,
}

impl ScanState {
    /// A scan that has seen nothing.
    pub fn new() -> (r: ScanState)
        ensures
            r.added == 0 && r.unchanged == 0 && r.too_large == 0,
            r.seen@.len() == 0,
    {
        ScanState { added: 0, unchanged: 0, too_large: 0, seen: Vec::new() }
    }

    /// Starts the next repository: its counts start at zero; the seen paths stay.
    pub fn begin_repo(&mut self)
        ensures
            final(self).added == 0 && final(self).unchanged == 0 && final(self).too_large == 0,
            final(self).seen@ == old(self).seen@,
    {
        self.added = 0;
        self.unchanged = 0;
        self.too_large = 0;
    }

    /// Decides what to do with a file found with this size and modification time, and counts
    /// it: a too large file is only counted (and so leaves the index at the end); an unchanged
    /// file is counted and kept; any other file is counted as added and kept, and is then to be
    /// read and recorded by the caller.
    pub fn observe(&mut self, index: &Index, path: String, size: u64, mtime: i64, mode: ScanMode) -> (r: FileDecision)
        ensures
            r == decision_for(index.rows(), path@, size, mtime, mode),
            r == FileDecision::TooLarge ==> final(self).too_large == bumped(old(self).too_large)
                && final(self).unchanged == old(self).unchanged && final(self).added == old(self).added
                && final(self).seen@ == old(self).seen@,
            r == FileDecision::Unchanged ==> final(self).unchanged == bumped(old(self).unchanged)
                && final(self).too_large == old(self).too_large && final(self).added == old(self).added
                && final(self).seen@ == old(self).seen@.push(path),
            r == FileDecision::Index ==> final(self).added == bumped(old(self).added)
                && final(self).too_large == old(self).too_large && final(self).unchanged == old(self).unchanged
                && final(self).seen@ == old(self).seen@.push(path),
    {
        let d = decide_file(index, path.as_str(), size, mtime, mode);
        match d {
            FileDecision::TooLarge => {
                self.too_large = bump(self.too_large);
            },
            FileDecision::Unchanged => {
                self.unchanged = bump(self.unchanged);
                self.seen.push(path);
            },
            FileDecision::Index => {
                self.added = bump(self.added);
                self.seen.push(path);
            },
        }
        d
    }

    /// Decides about the files that the walk found in one repository, in order, and counts
    /// them as `observe` does; gives the positions of those that are to be read and recorded.
    pub fn plan(&mut self, index: &Index, found: &Vec<FoundFile>, mode: ScanMode) -> (r: Vec<usize>)
        ensures
            r@.map_values(|k: usize| k as int) == to_index(index.rows(), found_views(found@), mode),
            views(final(self).seen@) == views(old(self).seen@) + kept_paths(found_views(found@)),
            final(self).added == bumped_by(
                old(self).added,
                decision_count(index.rows(), found_views(found@), mode, FileDecision::Index),
            ),
            final(self).unchanged == bumped_by(
                old(self).unchanged,
                decision_count(index.rows(), found_views(found@), mode, FileDecision::Unchanged),
            ),
            final(self).too_large == bumped_by(
                old(self).too_large,
                decision_count(index.rows(), found_views(found@), mode, FileDecision::TooLarge),
            ),
    {
        let ghost fv = found_views(found@);
        let ghost rows = index.rows();
        let mut out: Vec<usize> = Vec::new();
        let mut i: usize = 0;
        while i < found.len()
            invariant
                i <= found@.len(),
                fv == found_views(found@),
                rows == index.rows(),
                out@.map_values(|k: usize| k as int) == to_index(rows, fv.take(i as int), mode),
                views(self.seen@) == views(old(self).seen@) + kept_paths(fv.take(i as int)),
                self.added == bumped_by(old(self).added, decision_count(rows, fv.take(i as int), mode, FileDecision::Index)),
                self.unchanged == bumped_by(
                    old(self).unchanged,
                    decision_count(rows, fv.take(i as int), mode, FileDecision::Unchanged),
                ),
                self.too_large == bumped_by(
                    old(self).too_large,
                    decision_count(rows, fv.take(i as int), mode, FileDecision::TooLarge),
                ),
            decreases found@.len() - i,
        {
            let ghost seen_before = self.seen@;
            let ghost out_before = out@;
            let f = &found[i];
            let d = self.observe(index, f.path.clone(), f.size, f.mtime, mode);
            proof {
                let t = fv.take(i + 1);
                assert(t.drop_last() =~= fv.take(i as int));
                assert(t.last() == fv[i as int]);
                assert(views(seen_before.push(f.path)) =~= views(seen_before).push(f.path@));
            }
            match d {
                FileDecision::Index => {
                    out.push(i);
                    proof {
                        assert(out@.map_values(|k: usize| k as int) =~= out_before.map_values(|k: usize| k as int).push(i as int));
                    }
                },
                _ => {},
            }
            i = i + 1;
        }
        proof {
            assert(fv.take(i as int) =~= fv);
        }
        out
    }

    /// The line printed after the repository.
    pub fn summary(&self) -> (r: String)
        ensures
            r@ == summary_text(self.added, self.unchanged, self.too_large),
    {
        scan_summary(self.added, self.unchanged, self.too_large)
    }

    /// Ends the scan: every wordlist whose path was not kept leaves the index.
    pub fn finish(&self, index: &mut Index) -> (r: Result<(), WlError>)
        ensures
            r is Ok,
            final(index).known() == old(index).known(),
            final(index).rows() == old(index).rows().filter(
                |w: IndexedWordlist| views(self.seen@).contains(w.entry.path@),
            ),
    {
        delete_missing(index, self.seen.as_slice())
    }
}

/// An index as a scan of the found files (path, size, modification time) leaves it when every
/// file it read had a hash: each found file that is not too large is indexed, unchanged, and
/// every indexed path is one of those files.
pub open spec fn scan_done(rows: Seq<IndexedWordlist>, found: Seq<(Seq<char>, u64, i64)>) -> bool {
    &&& forall|k: int|
        0 <= k < found.len() && (#[trigger] found[k]).1 <= MAX_FILE_SIZE ==> has_path(rows, found[k].0) && unchanged(
            rows[path_pos(rows, found[k].0)].entry,
            found[k].1,
            found[k].2,
        )
    &&& forall|i: int| 0 <= i < rows.len() ==> kept_paths(found).contains((#[trigger] rows[i]).entry.path@)
}

/// The positions that a scan (re)indexes are increasing, and they are exactly the files
/// decided `Index`.
proof fn lemma_to_index(rows: Seq<IndexedWordlist>, files: Seq<(Seq<char>, u64, i64)>, mode: ScanMode)
    ensures
        forall|j: int|
            0 <= j < to_index(rows, files, mode).len() ==> 0 <= #[trigger] to_index(rows, files, mode)[j] < files.len()
                && decision_for(
                rows,
                files[to_index(rows, files, mode)[j]].0,
                files[to_index(rows, files, mode)[j]].1,
                files[to_index(rows, files, mode)[j]].2,
                mode,
            ) == FileDecision::Index,
        forall|a: int, b: int|
            0 <= a < b < to_index(rows, files, mode).len() ==> #[trigger] to_index(rows, files, mode)[a] < #[trigger] to_index(
                rows,
                files,
                mode,
            )[b],
        forall|k: int|
            0 <= k < files.len() && decision_for(rows, (#[trigger] files[k]).0, files[k].1, files[k].2, mode)
                == FileDecision::Index ==> to_index(rows, files, mode).contains(k),
    decreases files.len(),
{
    if files.len() > 0 {
        let front = files.drop_last();
        lemma_to_index(rows, front, mode);
        let t = to_index(rows, front, mode);
        assert forall|k: int|
            0 <= k < files.len() && decision_for(rows, (#[trigger] files[k]).0, files[k].1, files[k].2, mode)
                == FileDecision::Index implies to_index(rows, files, mode).contains(k) by {
            if k < files.len() - 1 {
                assert(front[k] == files[k]);
                let j = choose|j: int| 0 <= j < t.len() && t[j] == k;
                assert(to_index(rows, files, mode)[j] == k);
            } else {
                assert(to_index(rows, files, mode)[t.len() as int] == k);
            }
        }
        assert forall|j: int| 0 <= j < to_index(rows, files, mode).len() implies 0 <= #[trigger] to_index(
            rows,
            files,
            mode,
        )[j] < files.len() && decision_for(
            rows,
            files[to_index(rows, files, mode)[j]].0,
            files[to_index(rows, files, mode)[j]].1,
            files[to_index(rows, files, mode)[j]].2,
            mode,
        ) == FileDecision::Index by {
            if j < t.len() {
                assert(front[t[j]] == files[t[j]]);
            }
        }
    }
}

/// A scan with nothing to (re)index has no positions to read.
proof fn lemma_to_index_none(rows: Seq<IndexedWordlist>, files: Seq<(Seq<char>, u64, i64)>, mode: ScanMode)
    requires
        forall|k: int|
            0 <= k < files.len() ==> decision_for(rows, (#[trigger] files[k]).0, files[k].1, files[k].2, mode)
                != FileDecision::Index,
    ensures
        to_index(rows, files, mode) == Seq::<int>::empty(),
        decision_count(rows, files, mode, FileDecision::Index) == 0,
    decreases files.len(),
{
    if files.len() > 0 {
        let front = files.drop_last();
        assert forall|k: int| 0 <= k < front.len() implies decision_for(
            rows,
            (#[trigger] front[k]).0,
            front[k].1,
            front[k].2,
            mode,
        ) != FileDecision::Index by {
            assert(front[k] == files[k]);
        }
        lemma_to_index_none(rows, front, mode);
        assert(files.last() == files[files.len() - 1]);
    }
}

/// Every found file that is not too large is among the kept paths.
proof fn lemma_kept_paths(files: Seq<(Seq<char>, u64, i64)>, k: int)
    requires
        0 <= k < files.len(),
        files[k].1 <= MAX_FILE_SIZE,
    ensures
        kept_paths(files).contains(files[k].0),
    decreases files.len(),
{
    if k < files.len() - 1 {
        lemma_kept_paths(files.drop_last(), k);
        let j = choose|j: int|
            0 <= j < kept_paths(files.drop_last()).len() && kept_paths(files.drop_last())[j] == files.drop_last()[k].0;
        assert(kept_paths(files)[j] == files[k].0);
    } else {
        let front = kept_paths(files.drop_last());
        assert(kept_paths(files)[front.len() as int] == files[k].0);
    }
}

/// A scan indexes what it finds. Take a valid index, the files that the walk found (path, size,
/// modification time; no path twice), and the files that the scan's plan asked for, each read
/// with a hash and recorded (`record_all`); the end of the scan (`finish`) keeps the kept
/// paths. Then every found file that is not too large is indexed with the size and time found
/// and a hash, and nothing else is indexed.
pub proof fn law_scan_indexes_what_it_finds(
    rows0: Seq<IndexedWordlist>,
    known0: Seq<Seq<char>>,
    rows1: Seq<IndexedWordlist>,
    known1: Seq<Seq<char>>,
    rows2: Seq<IndexedWordlist>,
    known2: Seq<Seq<char>>,
    found: Seq<(Seq<char>, u64, i64)>,
    files: Seq<ScannedFile>,
    mode: ScanMode,
    now: i64,
)
    requires
        index_wf(rows0, known0),
        index_wf(rows1, known1),
        index_wf(rows2, known2),
        forall|a: int, b: int| 0 <= a < b < found.len() ==> (#[trigger] found[a]).0 != (#[trigger] found[b]).0,
        files.len() == to_index(rows0, found, mode).len(),
        forall|j: int|
            0 <= j < files.len() ==> {
                let f = found[to_index(rows0, found, mode)[j]];
                &&& (#[trigger] files[j]).path@ == f.0
                &&& files[j].size == f.1
                &&& files[j].mtime == f.2
                &&& files[j].sha256 is Some
            },
        recorded_all(rows0, rows1, files, now),
        rows2 == rows1.filter(|w: IndexedWordlist| kept_paths(found).contains(w.entry.path@)),
    ensures
        scan_done(rows2, found),
{
    let idx = to_index(rows0, found, mode);
    let pred = |w: IndexedWordlist| kept_paths(found).contains(w.entry.path@);
    lemma_to_index(rows0, found, mode);
    assert forall|j: int| 0 <= j < files.len() implies last_of_path(files, j, files.len() as int) by {
        assert forall|k: int| j < k < files.len() implies (#[trigger] files[k]).path@ != files[j].path@ by {
            assert(idx[j] < idx[k]);
            assert(files[j].path@ == found[idx[j]].0);
        }
    }
    assert forall|k: int| 0 <= k < found.len() && (#[trigger] found[k]).1 <= MAX_FILE_SIZE implies has_path(
        rows2,
        found[k].0,
    ) && unchanged(rows2[path_pos(rows2, found[k].0)].entry, found[k].1, found[k].2) by {
        let p = found[k].0;
        if decision_for(rows0, p, found[k].1, found[k].2, mode) == FileDecision::Index {
            let j = choose|j: int| 0 <= j < idx.len() && idx[j] == k;
            assert(files[j].path@ == p);
            assert(last_of_path(files, j, files.len() as int));
            assert(recorded_at(rows1, files[j], now));
        } else {
            assert forall|j: int| 0 <= j < files.len() implies (#[trigger] file_paths(files)[j]) != p by {
                assert(idx[j] != k);
                assert(files[j].path@ == found[idx[j]].0);
            }
            assert(!file_paths(files).contains(p));
            assert(has_path(rows1, p) == has_path(rows0, p));
        }
        let i1 = path_pos(rows1, p);
        lemma_kept_paths(found, k);
        assert(pred(rows1[i1]));
        rows1.lemma_filter_contains(pred, i1);
        let i2 = choose|i2: int| 0 <= i2 < rows2.len() && rows2[i2] == rows1[i1];
        crate::db::lemma_path_pos(rows2, known2, i2);
    }
    assert forall|i: int| 0 <= i < rows2.len() implies kept_paths(found).contains((#[trigger] rows2[i]).entry.path@) by {
        rows1.lemma_filter_pred(pred, i);
    }
}

/// A second update changes nothing: on an index that a scan of the same found files left,
/// every file is skipped (too large, or unchanged), so nothing is read or recorded, and the
/// end of the scan keeps every wordlist with its tags.
pub proof fn law_second_update_changes_nothing(rows: Seq<IndexedWordlist>, found: Seq<(Seq<char>, u64, i64)>)
    requires
        scan_done(rows, found),
    ensures
        to_index(rows, found, ScanMode::Incremental) == Seq::<int>::empty(),
        decision_count(rows, found, ScanMode::Incremental, FileDecision::Index) == 0,
        rows.filter(|w: IndexedWordlist| kept_paths(found).contains(w.entry.path@)) == rows,
{
    assert forall|k: int| 0 <= k < found.len() implies decision_for(
        rows,
        (#[trigger] found[k]).0,
        found[k].1,
        found[k].2,
        ScanMode::Incremental,
    ) != FileDecision::Index by {
        if found[k].1 <= MAX_FILE_SIZE {
            assert(has_path(rows, found[k].0));
        }
    }
    lemma_to_index_none(rows, found, ScanMode::Incremental);
    let pred = |w: IndexedWordlist| kept_paths(found).contains(w.entry.path@);
    assert forall|i: int| 0 <= i < rows.len() implies pred(#[trigger] rows[i]) by {
        assert(kept_paths(found).contains(rows[i].entry.path@));
    }
    lemma_filter_all(rows, pred);
}

/// Updating twice is updating once: after an update as in `law_scan_indexes_what_it_finds`,
/// an update over the same found files reads nothing and keeps the index as it is.
pub proof fn law_update_twice_is_update_once(
    rows0: Seq<IndexedWordlist>,
    known0: Seq<Seq<char>>,
    rows1: Seq<IndexedWordlist>,
    known1: Seq<Seq<char>>,
    rows2: Seq<IndexedWordlist>,
    known2: Seq<Seq<char>>,
    found: Seq<(Seq<char>, u64, i64)>,
    files: Seq<ScannedFile>,
    now: i64,
)
    requires
        index_wf(rows0, known0),
        index_wf(rows1, known1),
        index_wf(rows2, known2),
        forall|a: int, b: int| 0 <= a < b < found.len() ==> (#[trigger] found[a]).0 != (#[trigger] found[b]).0,
        files.len() == to_index(rows0, found, ScanMode::Incremental).len(),
        forall|j: int|
            0 <= j < files.len() ==> {
                let f = found[to_index(rows0, found, ScanMode::Incremental)[j]];
                &&& (#[trigger] files[j]).path@ == f.0
                &&& files[j].size == f.1
                &&& files[j].mtime == f.2
                &&& files[j].sha256 is Some
            },
        recorded_all(rows0, rows1, files, now),
        rows2 == rows1.filter(|w: IndexedWordlist| kept_paths(found).contains(w.entry.path@)),
    ensures
        to_index(rows2, found, ScanMode::Incremental) == Seq::<int>::empty(),
        rows2.filter(|w: IndexedWordlist| kept_paths(found).contains(w.entry.path@)) == rows2,
{
    law_scan_indexes_what_it_finds(
        rows0,
        known0,
        rows1,
        known1,
        rows2,
        known2,
        found,
        files,
        ScanMode::Incremental,
        now,
    );
    law_second_update_changes_nothing(rows2, found);
}

/// What an update records is unchanged for the next one: once an entry made from a file with
/// a hash is stored under `id`, the same file (same size and modification time) is skipped.
pub proof fn law_recorded_file_is_unchanged(
    after: Seq<IndexedWordlist>,
    known: Seq<Seq<char>>,
    entry: WordlistEntry,
    id: i64,
    size: u64,
    mtime: i64,
)
    requires
        index_wf(after, known),
        has_id(after, id),
        after[id_pos(after, id)].entry == (WordlistEntry { id: Some(id), ..entry }),
        entry.size_bytes == size,
        entry.mtime == mtime,
        entry.sha256 is Some,
        size <= MAX_FILE_SIZE,
    ensures
        decision_for(after, entry.path@, size, mtime, ScanMode::Incremental) == FileDecision::Unchanged,
{
    let i = id_pos(after, id);
    crate::db::lemma_path_pos(after, known, i);
}

} // verus!
