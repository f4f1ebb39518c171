//! What the subcommands decide and print, apart from the file system and the store.
use vstd::prelude::*;
use vstd::string::StringExecFns;
use crate::db::{delete_missing, entries_of, get_all, get_tags_for_wordlist, Index, IndexedWordlist, WordlistEntry};
use crate::error::WlError;
use crate::listing::entry_tags;
use crate::output::OutputMode;
use crate::search::{exact_lookup, exact_matches, lookup, note_text, resolution_note, resolved_name, Resolution};
use crate::output::{kib, mib, one_decimal, opt_or, push_one_decimal};
use crate::stats::opt_view;
use crate::text::{dec, i64_to_dec, int_dec, lemma_filter_all, push_dec, push_str, views};

verus! {

/// The repositories a scan covers: the path given, else every configured repository.
pub fn repos_to_scan(path: Option<String>, repos: &Vec<String>) -> (r: Result<Vec<String>, WlError>)
    ensures
        path matches Some(p) ==> (r matches Ok(v) && views(v@) == seq![p@]),
        path is None && repos@.len() == 0 ==> r matches Err(WlError::NoReposConfigured),
        path is None && repos@.len() > 0 ==> (r matches Ok(v) && views(v@) == views(repos@)),
{
    match path {
        Some(p) => {
            let mut v: Vec<String> = Vec::new();
            v.push(p);
            assert(views(v@) =~= seq![v@[0]@]);
            Ok(v)
        },
        None => {
            if repos.len() == 0 {
                return Err(WlError::NoReposConfigured);
            }
            let mut v: Vec<String> = Vec::new();
            let mut i: usize = 0;
            while i < repos.len()
                invariant
                    i <= repos@.len(),
                    views(v@) == views(repos@.take(i as int)),
                decreases repos@.len() - i,
            {
                v.push(repos[i].clone());
                i = i + 1;
                assert(views(repos@.take(i as int)) =~= views(repos@.take(i - 1)).push(repos@[i - 1]@));
                assert(views(v@) =~= views(v@.drop_last()).push(v@.last()@));
            }
            assert(repos@.take(i as int) =~= repos@);
            Ok(v)
        },
    }
}

/// A size as `wl info` shows it: one decimal in MB or KB with the exact byte count, else
/// the byte count alone.
pub open spec fn info_size_text(bytes: int) -> Seq<char> {
    if bytes >= mib() {
        one_decimal(bytes as nat, mib()) + " MB ("@ + int_dec(bytes) + " bytes)"@
    } else if bytes >= kib() {
        one_decimal(bytes as nat, kib()) + " KB ("@ + int_dec(bytes) + " bytes)"@
    } else {
        int_dec(bytes) + " bytes"@
    }
}

/// Names separated by ", ".
pub open spec fn comma_joined(items: Seq<Seq<char>>) -> Seq<char>
    decreases items.len(),
{
    if items.len() == 0 {
        Seq::empty()
    } else if items.len() == 1 {
        items[0]
    } else {
        comma_joined(items.drop_last()) + ", "@ + items.last()
    }
}

/// The block `wl info` prints for one wordlist with its tags and its modification time as
/// text (when there is one).
pub open spec fn info_text(e: WordlistEntry, tags: Seq<Seq<char>>, modified: Option<Seq<char>>) -> Seq<char> {
    "Filename:      "@ + e.filename@ + "\n"@
    + "Stem:          "@ + e.stem@ + "\n"@
    + "Path:          "@ + e.path@ + "\n"@
    + "Extension:     "@ + opt_or(e.extension, "-"@) + "\n"@
    + "Size:          "@ + info_size_text(e.size_bytes as int) + "\n"@
    + "Repository:    "@ + opt_or(e.source_repo, "-"@) + "\n"@
    + "Category:      "@ + opt_or(e.category, "-"@) + "\n"@
    + "Compressed:    "@ + (if e.compressed { "Yes"@ } else { "No"@ }) + "\n"@
    + "Line Count:    "@ + (match e.line_count {
        Some(c) => int_dec(c as int),
        None => "-"@,
    }) + "\n"@
    + "Last Modified: "@ + (match modified {
        Some(t) => t,
        None => "unknown"@,
    }) + "\n"@
    + "SHA-256:       "@ + opt_or(e.sha256, "-"@) + "\n"@
    + "Tags:          "@ + (if tags.len() == 0 { "-"@ } else { comma_joined(tags) }) + "\n"@
}

/// Appends the size text of `wl info`.
fn push_info_size(s: &mut String, bytes: i64)
    ensures
        final(s)@ == old(s)@ + info_size_text(bytes as int),
{
    if bytes >= 1048576 {
        push_one_decimal(s, bytes as u64, 1048576);
        push_str(s, " MB (");
        push_dec(s, bytes as u64);
        push_str(s, " bytes)");
    } else if bytes >= 1024 {
        push_one_decimal(s, bytes as u64, 1024);
        push_str(s, " KB (");
        push_dec(s, bytes as u64);
        push_str(s, " bytes)");
    } else {
        let t = i64_to_dec(bytes);
        push_str(s, t.as_str());
        push_str(s, " bytes");
    }
    assert(final(s)@ =~= old(s)@ + info_size_text(bytes as int));
}

/// Appends the tag names separated by ", ", or "-" when there are none.
fn push_tags(s: &mut String, tags: &Vec<String>)
    ensures
        final(s)@ == old(s)@ + (if tags@.len() == 0 {
            "-"@
        } else {
            comma_joined(views(tags@))
        }),
{
    if tags.len() == 0 {
        push_str(s, "-");
        return;
    }
    let ghost start = s@;
    push_str(s, tags[0].as_str());
    assert(views(tags@).take(1) =~= seq![tags@[0]@]);
    let mut i: usize = 1;
    while i < tags.len()
        invariant
            1 <= i <= tags@.len(),
            s@ == start + comma_joined(views(tags@).take(i as int)),
        decreases tags@.len() - i,
    {
        push_str(s, ", ");
        push_str(s, tags[i].as_str());
        assert(views(tags@).take(i + 1).drop_last() =~= views(tags@).take(i as int));
        i = i + 1;
        assert(s@ =~= start + comma_joined(views(tags@).take(i as int)));
    }
    assert(views(tags@).take(i as int) =~= views(tags@));
}

/// The `wl info` block of one wordlist, given its tags and its modification time as text.
pub fn info_block(e: &WordlistEntry, tags: &Vec<String>, modified: &Option<String>) -> (r: String)
    ensures
        r@ == info_text(*e, views(tags@), opt_view(*modified)),
{
    let mut s = String::from_str("Filename:      ");
    push_str(&mut s, e.filename.as_str());
    push_str(&mut s, "\n");
    push_str(&mut s, "Stem:          ");
    push_str(&mut s, e.stem.as_str());
    push_str(&mut s, "\n");
    push_str(&mut s, "Path:          ");
    push_str(&mut s, e.path.as_str());
    push_str(&mut s, "\n");
    push_str(&mut s, "Extension:     ");
    match &e.extension {
        Some(x) => push_str(&mut s, x.as_str()),
        None => push_str(&mut s, "-"),
    }
    push_str(&mut s, "\n");
    push_str(&mut s, "Size:          ");
    push_info_size(&mut s, e.size_bytes);
    push_str(&mut s, "\n");
    push_str(&mut s, "Repository:    ");
    match &e.source_repo {
        Some(x) => push_str(&mut s, x.as_str()),
        None => push_str(&mut s, "-"),
    }
    push_str(&mut s, "\n");
    push_str(&mut s, "Category:      ");
    match &e.category {
        Some(x) => push_str(&mut s, x.as_str()),
        None => push_str(&mut s, "-"),
    }
    push_str(&mut s, "\n");
    push_str(&mut s, "Compressed:    ");
    if e.compressed {
        push_str(&mut s, "Yes");
    } else {
        push_str(&mut s, "No");
    }
    push_str(&mut s, "\n");
    push_str(&mut s, "Line Count:    ");
    match e.line_count {
        Some(c) => {
            let t = i64_to_dec(c);
            push_str(&mut s, t.as_str());
        },
        None => push_str(&mut s, "-"),
    }
    push_str(&mut s, "\n");
    push_str(&mut s, "Last Modified: ");
    match modified {
        Some(t) => push_str(&mut s, t.as_str()),
        None => push_str(&mut s, "unknown"),
    }
    push_str(&mut s, "\n");
    push_str(&mut s, "SHA-256:       ");
    match &e.sha256 {
        Some(x) => push_str(&mut s, x.as_str()),
        None => push_str(&mut s, "-"),
    }
    push_str(&mut s, "\n");
    push_str(&mut s, "Tags:          ");
    push_tags(&mut s, tags);
    push_str(&mut s, "\n");
    assert(s@ =~= info_text(*e, views(tags@), opt_view(*modified)));
    s
}

/// The time `secs` seconds after the Unix epoch, in UTC, as RFC 3339 text: what
/// `DateTime::from_timestamp(secs, 0)` and `to_rfc3339` give, `None` where chrono's range ends.
pub uninterp spec fn rfc3339_of(secs: i64) -> Option<Seq<char>>;

/// `chrono::DateTime::from_timestamp(secs, 0)`, then `to_rfc3339()` on the time it gives. Its
/// result is named by `rfc3339_of`; the calendar arithmetic and the range where the first call
/// gives `None` are not stated.
#[verifier::external_body]
fn timestamp_rfc3339(secs: i64) -> (r: Option<String>)
    ensures
        opt_view(r) == rfc3339_of(secs),
{
    match chrono::DateTime::from_timestamp(secs, 0) {
        Some(t) => Some(t.to_rfc3339()),
        None => None,
    }
}

/// What `wl info` prints for a list of wordlists: their blocks, separated by empty lines.
pub open spec fn infos_text(rows: Seq<IndexedWordlist>, es: Seq<WordlistEntry>) -> Seq<char>
    decreases es.len(),
{
    if es.len() == 0 {
        Seq::empty()
    } else {
        let last = info_text(es.last(), entry_tags(rows, es.last()), rfc3339_of(es.last().mtime));
        if es.len() == 1 {
            last
        } else {
            infos_text(rows, es.drop_last()) + "\n"@ + last
        }
    }
}

/// What `wl info` prints for wordlists of the index: for each, its metadata, its modification
/// time in RFC 3339 and its tags.
pub fn render_info(index: &Index, entries: &Vec<WordlistEntry>) -> (r: String)
    ensures
        r@ == infos_text(index.rows(), entries@),
{
    let mut s = String::new();
    let mut i: usize = 0;
    while i < entries.len()
        invariant
            i <= entries@.len(),
            s@ == infos_text(index.rows(), entries@.take(i as int)),
        decreases entries@.len() - i,
    {
        let e = &entries[i];
        let tags = match e.id {
            Some(id) => get_tags_for_wordlist(index, id),
            None => {
                let v: Vec<String> = Vec::new();
                assert(views(v@) =~= Seq::<Seq<char>>::empty());
                v
            },
        };
        let modified = timestamp_rfc3339(e.mtime);
        let block = info_block(e, &tags, &modified);
        if i > 0 {
            push_str(&mut s, "\n");
        }
        push_str(&mut s, block.as_str());
        assert(entries@.take(i + 1).drop_last() =~= entries@.take(i as int));
        i = i + 1;
        assert(s@ =~= infos_text(index.rows(), entries@.take(i as int)));
    }
    assert(entries@.take(i as int) =~= entries@);
    s
}

/// Removes the wordlists whose file is gone: every wordlist whose path is not listed as
/// existing leaves the index; tells how many left.
pub fn remove_missing(index: &mut Index, existing: &[String]) -> (removed: u64)
    ensures
        final(index).known() == old(index).known(),
        final(index).rows() == old(index).rows().filter(
            |w: IndexedWordlist| views(existing@).contains(w.entry.path@),
        ),
        removed == old(index).rows().len() - final(index).rows().len(),
{
    let before = get_all(index).len();
    let ghost old_rows = index.rows();
    let _ = delete_missing(index, existing);
    let after = get_all(index).len();
    proof {
        old_rows.lemma_filter_len(|w: IndexedWordlist| views(existing@).contains(w.entry.path@));
    }
    (before - after) as u64
}

/// Removing the missing wordlists twice removes nothing the second time.
pub proof fn law_remove_missing_idempotent(rows: Seq<IndexedWordlist>, existing: Seq<Seq<char>>)
    ensures
        rows.filter(|w: IndexedWordlist| existing.contains(w.entry.path@)).filter(
            |w: IndexedWordlist| existing.contains(w.entry.path@),
        ) == rows.filter(|w: IndexedWordlist| existing.contains(w.entry.path@)),
{
    let pred = |w: IndexedWordlist| existing.contains(w.entry.path@);
    let once = rows.filter(pred);
    rows.filter_lemma(pred);
    lemma_filter_all(once, pred);
}

/// The line `wl remove-missing` prints.
pub open spec fn removed_text(n: u64) -> Seq<char> {
    "Removed "@ + dec(n as nat) + " stale entries."@
}

/// The line `wl remove-missing` prints.
pub fn removed_message(n: u64) -> (r: String)
    ensures
        r@ == removed_text(n),
{
    let mut s = String::from_str("Removed ");
    push_dec(&mut s, n);
    push_str(&mut s, " stale entries.");
    s
}

/// What a name lookup prints.
#[derive(Clone, PartialEq, Eq, Debug)]
pub enum LookupOutput {
    /// One path for standard output, and a note for the error stream when there is one.
    Path { path: String, note: Option<String> },
    /// The exact matches, for a table or JSON.
    Entries(Vec<WordlistEntry>),
}

/// A name lookup (`wl <name>`): plain output resolves the name to one path (see `lookup`),
/// with its note; a table or JSON lists the exact matches. Nothing found is an error that
/// names the wordlist.
pub fn run_lookup(index: &Index, name: &str, mode: OutputMode) -> (r: Result<LookupOutput, WlError>)
    ensures
        mode != OutputMode::Plain ==> (if exact_matches(index.rows(), name@).len() == 0 {
            r matches Err(WlError::NotFound(n)) && n@ == name@
        } else {
            r matches Ok(LookupOutput::Entries(v)) && v@ == exact_matches(index.rows(), name@)
        }),
        mode == OutputMode::Plain ==> exists|res: Resolution|
            #![trigger resolved_name(index.rows(), name@, res)]
            resolved_name(index.rows(), name@, res) && match res {
                Resolution::Exact { path, others } => r matches Ok(LookupOutput::Path { path: p, note })
                    && p@ == path@ && opt_view(note) == note_text(res),
                Resolution::Fuzzy { path, filename } => r matches Ok(LookupOutput::Path { path: p, note })
                    && p@ == path@ && opt_view(note) == note_text(res),
                Resolution::NotFound => r matches Err(WlError::NotFound(n)) && n@ == name@,
            },
{
    match mode {
        OutputMode::Plain => {
            let res = lookup(index, name);
            let note = resolution_note(&res);
            match res {
                Resolution::Exact { path, .. } => Ok(LookupOutput::Path { path, note }),
                Resolution::Fuzzy { path, .. } => Ok(LookupOutput::Path { path, note }),
                Resolution::NotFound => Err(WlError::NotFound(name.to_owned())),
            }
        },
        _ => {
            let exact = exact_lookup(index, name);
            if exact.len() == 0 {
                Err(WlError::NotFound(name.to_owned()))
            } else {
                Ok(LookupOutput::Entries(exact))
            }
        },
    }
}

/// The wordlists `wl info` describes: the exact matches of the name, or an error naming it.
pub fn info_matches(index: &Index, name: &str) -> (r: Result<Vec<WordlistEntry>, WlError>)
    ensures
        exact_matches(index.rows(), name@).len() == 0 ==> (r matches Err(WlError::NotFound(n)) && n@ == name@),
        exact_matches(index.rows(), name@).len() > 0 ==> (r matches Ok(v) && v@ == exact_matches(index.rows(), name@)),
{
    let exact = exact_lookup(index, name);
    if exact.len() == 0 {
        Err(WlError::NotFound(name.to_owned()))
    } else {
        Ok(exact)
    }
}

} // verus!
